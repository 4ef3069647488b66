//! Secondary index: an ordered map from a column's value to the positions of the
//! rows that hold it, kept as a vector of entries sorted by key.
use vstd::prelude::*;
use crate::value::{
    row_model, rows_model,
    compare_text, datum_is_nan, float_is_nan, float_magnitude, float_nan, lemma_text_cmp_basics, lemma_text_cmp_transitive,
    text_cmp, Datum, Value, POS_INFINITY_BITS, SIGN_BIT,
};

verus! {

/// A float key; its order puts every NaN below all other floats.
#[derive(Clone, Copy, Debug, PartialEq)]
pub struct OrderedFloat(pub u64);

/// The key an index files a value under.
#[derive(Clone, Debug, PartialEq)]
pub enum IndexKey {
    Int(i64),
    Text(String),
    Float(OrderedFloat),
    Null,
}

impl View for IndexKey {
    type V = Datum;

    open spec fn view(&self) -> Datum {
        match self {
            IndexKey::Int(n) => Datum::Int(*n),
            IndexKey::Text(s) => Datum::Text(s@),
            IndexKey::Float(f) => Datum::Float(f.0),
            IndexKey::Null => Datum::Null,
        }
    }
}

/// Order of the kinds of key: integers, texts, floats, null.
pub open spec fn kind_rank(d: Datum) -> int {
    match d {
        Datum::Int(_) => 0,
        Datum::Text(_) => 1,
        Datum::Float(_) => 2,
        Datum::Null => 3,
    }
}

pub const NAN_SHIFT: i128 = 0x2_0000_0000_0000_0000;

/// An integer that orders float keys: NaNs lowest (by bit pattern), then the
/// numeric order. No key holds -0: `key_of` files both zeros as +0.
pub open spec fn float_key(b: u64) -> int {
    if float_is_nan(b) {
        b - NAN_SHIFT
    } else if b >= SIGN_BIT {
        -2 * float_magnitude(b) - 1
    } else {
        2 * float_magnitude(b)
    }
}

pub open spec fn int_cmp(a: int, b: int) -> int {
    if a < b { -1 } else if a > b { 1 } else { 0 }
}

/// Three-way comparison of index keys: a total order on values.
pub open spec fn key_cmp(a: Datum, b: Datum) -> int {
    if kind_rank(a) != kind_rank(b) {
        int_cmp(kind_rank(a), kind_rank(b))
    } else {
        match (a, b) {
            (Datum::Int(x), Datum::Int(y)) => int_cmp(x as int, y as int),
            (Datum::Text(x), Datum::Text(y)) => text_cmp(x, y),
            (Datum::Float(x), Datum::Float(y)) => int_cmp(float_key(x), float_key(y)),
            _ => 0,
        }
    }
}

pub open spec fn key_lt(a: Datum, b: Datum) -> bool {
    key_cmp(a, b) < 0
}

/// The key a value is filed under: the value itself, but both float zeros
/// share the key of +0.
pub open spec fn key_of(d: Datum) -> Datum {
    match d {
        Datum::Float(b) => if float_magnitude(b) == 0 { Datum::Float(0) } else { d },
        _ => d,
    }
}

/// What looking `v` up answers: nothing for a NaN, which equals no value;
/// else the positions filed under its key.
pub open spec fn lookup_answer(m: IndexModel, v: Datum) -> Seq<usize> {
    if datum_is_nan(v) {
        Seq::empty()
    } else {
        positions_of(m, key_of(v))
    }
}

/// What a closed range query answers: nothing when a bound is a NaN; else
/// the positions of every key from that of `lo` to that of `hi`, in key order.
pub open spec fn range_answer(m: IndexModel, lo: Datum, hi: Datum) -> Seq<usize> {
    if datum_is_nan(lo) || datum_is_nan(hi) {
        Seq::empty()
    } else {
        gather(m, within(key_of(lo), key_of(hi)))
    }
}

/// Abstract contents of an index: (key, positions) entries in key order.
pub type IndexModel = Seq<(Datum, Seq<usize>)>;

/// Keys strictly increasing and no entry without positions.
pub open spec fn model_wf(m: IndexModel) -> bool {
    &&& forall|i: int, j: int| 0 <= i < j < m.len() ==> key_lt(#[trigger] m[i].0, #[trigger] m[j].0)
    &&& forall|i: int| 0 <= i < m.len() ==> (#[trigger] m[i].1).len() > 0
}

/// The first entry at or after `i` whose key is not below `k`.
pub open spec fn ins_point(m: IndexModel, k: Datum, i: int) -> int
    decreases m.len() - i,
{
    if i < 0 || i >= m.len() || !key_lt(m[i].0, k) {
        i
    } else {
        ins_point(m, k, i + 1)
    }
}

/// `m` with position `p` filed under key `k`.
pub open spec fn model_insert(m: IndexModel, k: Datum, p: usize) -> IndexModel {
    let i = ins_point(m, k, 0);
    if i < m.len() && m[i].0 == k {
        m.update(i, (k, m[i].1.push(p)))
    } else {
        m.insert(i, (k, seq![p]))
    }
}

/// The index of column `col` built from `rows`: positions filed in ascending order.
pub open spec fn index_model(rows: Seq<Seq<Datum>>, col: int) -> IndexModel
    decreases rows.len(),
{
    if rows.len() == 0 {
        Seq::empty()
    } else {
        let prev = index_model(rows.drop_last(), col);
        let row = rows.last();
        if 0 <= col < row.len() {
            model_insert(prev, key_of(row[col]), (rows.len() - 1) as usize)
        } else {
            prev
        }
    }
}

/// The positions filed under `k`, if any.
pub open spec fn lookup_model(m: IndexModel, k: Datum) -> Option<Seq<usize>> {
    let i = ins_point(m, k, 0);
    if i < m.len() && m[i].0 == k {
        Some(m[i].1)
    } else {
        None
    }
}

/// The positions of every entry whose key satisfies `keep`, concatenated in key order.
pub open spec fn gather(m: IndexModel, keep: spec_fn(Datum) -> bool) -> Seq<usize>
    decreases m.len(),
{
    if m.len() == 0 {
        Seq::empty()
    } else {
        let prev = gather(m.drop_last(), keep);
        if keep(m.last().0) {
            prev + m.last().1
        } else {
            prev
        }
    }
}

/// Keys in the closed range `[lo, hi]`.
pub open spec fn within(lo: Datum, hi: Datum) -> spec_fn(Datum) -> bool {
    |k: Datum| !key_lt(k, lo) && !key_lt(hi, k)
}

/// Keys strictly above `v`.
pub open spec fn above(v: Datum) -> spec_fn(Datum) -> bool {
    |k: Datum| key_lt(v, k)
}

/// Keys strictly below `v`.
pub open spec fn below(v: Datum) -> spec_fn(Datum) -> bool {
    |k: Datum| key_lt(k, v)
}

/// An index on one column of a table.
pub struct Index {
    pub column_name: String,
    pub column_index: usize,
    pub tree: Vec<(IndexKey, Vec<usize>)>,
}

impl IndexKey {
    /// The key a value is filed under.
    pub fn from_value(value: &Value) -> (r: IndexKey)
        ensures
            r@ == key_of(value@),
    {
        match value {
            Value::Int(n) => IndexKey::Int(*n),
            Value::Text(s) => IndexKey::Text(s.clone()),
            Value::Float(f) => if *f == SIGN_BIT {
                IndexKey::Float(OrderedFloat(0))
            } else {
                IndexKey::Float(OrderedFloat(*f))
            },
            Value::Null => IndexKey::Null,
        }
    }
}

fn is_nan_value(v: &Value) -> (r: bool)
    ensures
        r == datum_is_nan(v@),
{
    match v {
        Value::Float(b) => float_nan(*b),
        _ => false,
    }
}

fn kind_rank_of(k: &IndexKey) -> (r: u8)
    ensures
        r as int == kind_rank(k@),
{
    match k {
        IndexKey::Int(_) => 0,
        IndexKey::Text(_) => 1,
        IndexKey::Float(_) => 2,
        IndexKey::Null => 3,
    }
}

fn float_key_of(b: u64) -> (r: i128)
    ensures
        r as int == float_key(b),
{
    let m: u64 = if b >= SIGN_BIT { b - SIGN_BIT } else { b };
    if m > POS_INFINITY_BITS {
        b as i128 - NAN_SHIFT
    } else if b >= SIGN_BIT {
        0 - (m as i128) - (m as i128) - 1
    } else {
        (m as i128) + (m as i128)
    }
}

/// Three-way comparison of two keys, as `key_cmp` defines it.
pub fn compare_keys(a: &IndexKey, b: &IndexKey) -> (r: i8)
    ensures
        r as int == key_cmp(a@, b@),
{
    let ra = kind_rank_of(a);
    let rb = kind_rank_of(b);
    if ra < rb {
        return -1;
    }
    if ra > rb {
        return 1;
    }
    match (a, b) {
        (IndexKey::Int(x), IndexKey::Int(y)) => if *x < *y {
            -1
        } else if *x > *y {
            1
        } else {
            0
        },
        (IndexKey::Text(x), IndexKey::Text(y)) => compare_text(x, y),
        (IndexKey::Float(x), IndexKey::Float(y)) => {
            let fx = float_key_of(x.0);
            let fy = float_key_of(y.0);
            if fx < fy {
                -1
            } else if fx > fy {
                1
            } else {
                0
            }
        },
        _ => 0,
    }
}

fn append_positions(out: &mut Vec<usize>, ps: &Vec<usize>)
    ensures
        final(out)@ == old(out)@ + ps@,
{
    let mut j: usize = 0;
    while j < ps.len()
        invariant
            j <= ps@.len(),
            out@ == old(out)@ + ps@.take(j as int),
        decreases ps.len() - j,
    {
        out.push(ps[j]);
        j = j + 1;
        assert(out@ =~= old(out)@ + ps@.take(j as int));
    }
    assert(ps@.take(ps@.len() as int) =~= ps@);
}

impl Index {
    /// The abstract contents.
    pub open spec fn model(&self) -> IndexModel {
        self.tree@.map_values(|e: (IndexKey, Vec<usize>)| (e.0@, e.1@))
    }

    pub open spec fn wf(&self) -> bool {
        model_wf(self.model())
    }

    /// An empty index on the column at `column_index`, named `column_name`.
    pub fn new(column_name: String, column_index: usize) -> (r: Index)
        ensures
            r.column_name == column_name,
            r.column_index == column_index,
            r.model() == Seq::<(Datum, Seq<usize>)>::empty(),
            r.wf(),
    {
        let r = Index { column_name, column_index, tree: Vec::new() };
        assert(r.model() =~= Seq::<(Datum, Seq<usize>)>::empty());
        r
    }

    /// The first entry whose key is not below `key`.
    fn insertion_point(&self, key: &IndexKey) -> (r: usize)
        ensures
            r as int == ins_point(self.model(), key@, 0),
            r <= self.tree@.len(),
    {
        let mut i: usize = 0;
        while i < self.tree.len() && compare_keys(&self.tree[i].0, key) < 0
            invariant
                i <= self.tree@.len(),
                ins_point(self.model(), key@, i as int) == ins_point(self.model(), key@, 0),
            decreases self.tree.len() - i,
        {
            i = i + 1;
        }
        i
    }

    /// Files `row_idx` under the key of `value`, after the positions already there.
    pub fn insert(&mut self, row_idx: usize, value: &Value)
        ensures
            final(self).model() == model_insert(old(self).model(), key_of(value@), row_idx),
            final(self).column_name == old(self).column_name,
            final(self).column_index == old(self).column_index,
            old(self).wf() ==> final(self).wf(),
    {
        proof {
            if self.wf() {
                lemma_model_insert(self.model(), key_of(value@), row_idx);
            }
        }
        let key = IndexKey::from_value(value);
        let i = self.insertion_point(&key);
        let ghost m = self.model();
        if i < self.tree.len() && compare_keys(&self.tree[i].0, &key) == 0 {
            proof {
                lemma_key_cmp_basics(self.tree@[i as int].0@, key@);
            }
            self.tree[i].1.push(row_idx);
            assert(self.model() =~= model_insert(m, key_of(value@), row_idx));
        } else {
            proof {
                if i < self.tree@.len() {
                    lemma_key_cmp_basics(self.tree@[i as int].0@, key@);
                }
            }
            let mut ps: Vec<usize> = Vec::new();
            ps.push(row_idx);
            self.tree.insert(i, (key, ps));
            assert(self.model() =~= model_insert(m, key_of(value@), row_idx));
        }
    }

    /// Clears the index and files every row's value at the bound column, in
    /// ascending position order; rows too short to have that column are skipped.
    pub fn build(&mut self, rows: &Vec<Vec<Value>>)
        ensures
            final(self).model() == index_model(rows_model(rows@), old(self).column_index as int),
            final(self).column_name == old(self).column_name,
            final(self).column_index == old(self).column_index,
            final(self).wf(),
    {
        proof {
            lemma_index_model(rows_model(rows@), self.column_index as int);
        }
        self.tree = Vec::new();
        let mut p: usize = 0;
        assert(rows_model(rows@.take(0)) =~= Seq::<Seq<Datum>>::empty());
        assert(self.model() =~= Seq::<(Datum, Seq<usize>)>::empty());
        while p < rows.len()
            invariant
                p <= rows@.len(),
                self.model() == index_model(rows_model(rows@.take(p as int)), self.column_index as int),
                self.column_name == old(self).column_name,
                self.column_index == old(self).column_index,
            decreases rows.len() - p,
        {
            let row = &rows[p];
            proof {
                assert(rows_model(rows@.take(p + 1)).drop_last() =~= rows_model(rows@.take(p as int)));
                assert(rows_model(rows@.take(p + 1)).last() == row_model(rows@[p as int]));
            }
            if self.column_index < row.len() {
                self.insert(p, &row[self.column_index]);
            }
            p = p + 1;
        }
        assert(rows@.take(rows@.len() as int) =~= rows@);
    }

    /// The positions filed under the key of `value`, if any; none for a NaN.
    pub fn lookup(&self, value: &Value) -> (r: Option<&Vec<usize>>)
        ensures
            match r {
                Some(v) => !datum_is_nan(value@) && lookup_model(self.model(), key_of(value@)) == Some(v@),
                None => datum_is_nan(value@) || lookup_model(self.model(), key_of(value@)) is None,
            },
    {
        if is_nan_value(value) {
            return None;
        }
        let key = IndexKey::from_value(value);
        let i = self.insertion_point(&key);
        if i < self.tree.len() && compare_keys(&self.tree[i].0, &key) == 0 {
            proof {
                lemma_key_cmp_basics(self.tree@[i as int].0@, key@);
            }
            Some(&self.tree[i].1)
        } else {
            proof {
                if i < self.tree@.len() {
                    lemma_key_cmp_basics(self.tree@[i as int].0@, key@);
                }
            }
            None
        }
    }

    /// The positions of every key in `[start, end]`, concatenated in key order;
    /// none when a bound is a NaN.
    pub fn range_lookup(&self, start: &Value, end: &Value) -> (r: Vec<usize>)
        ensures
            r@ == range_answer(self.model(), start@, end@),
    {
        if is_nan_value(start) || is_nan_value(end) {
            return Vec::new();
        }
        let lo = IndexKey::from_value(start);
        let hi = IndexKey::from_value(end);
        let mut result: Vec<usize> = Vec::new();
        let mut i: usize = 0;
        while i < self.tree.len()
            invariant
                i <= self.tree@.len(),
                result@ == gather(self.model().take(i as int), within(key_of(start@), key_of(end@))),
                lo@ == key_of(start@),
                hi@ == key_of(end@),
            decreases self.tree.len() - i,
        {
            proof {
                assert(self.model().take(i + 1).drop_last() =~= self.model().take(i as int));
                assert(self.model().take(i + 1).last() == self.model()[i as int]);
            }
            if !(compare_keys(&self.tree[i].0, &lo) < 0) && !(compare_keys(&hi, &self.tree[i].0) < 0) {
                append_positions(&mut result, &self.tree[i].1);
            }
            proof {
                let m = self.model();
                let keep = within(key_of(start@), key_of(end@));
                assert(gather(m.take(i + 1), keep) == if keep(m[i as int].0) {
                    gather(m.take(i as int), keep) + m[i as int].1
                } else {
                    gather(m.take(i as int), keep)
                });
            }
            i = i + 1;
        }
        assert(self.model().take(self.tree@.len() as int) =~= self.model());
        result
    }

    /// The positions of every key strictly above that of `value`, in key order.
    pub fn greater_than(&self, value: &Value) -> (r: Vec<usize>)
        ensures
            r@ == gather(self.model(), above(key_of(value@))),
    {
        let key = IndexKey::from_value(value);
        let mut result: Vec<usize> = Vec::new();
        let mut i: usize = 0;
        while i < self.tree.len()
            invariant
                i <= self.tree@.len(),
                result@ == gather(self.model().take(i as int), above(key_of(value@))),
                key@ == key_of(value@),
            decreases self.tree.len() - i,
        {
            proof {
                assert(self.model().take(i + 1).drop_last() =~= self.model().take(i as int));
                assert(self.model().take(i + 1).last() == self.model()[i as int]);
            }
            if compare_keys(&key, &self.tree[i].0) < 0 {
                append_positions(&mut result, &self.tree[i].1);
            }
            proof {
                let m = self.model();
                let keep = above(key_of(value@));
                assert(gather(m.take(i + 1), keep) == if keep(m[i as int].0) {
                    gather(m.take(i as int), keep) + m[i as int].1
                } else {
                    gather(m.take(i as int), keep)
                });
            }
            i = i + 1;
        }
        assert(self.model().take(self.tree@.len() as int) =~= self.model());
        result
    }

    /// The positions of every key strictly below that of `value`, in key order.
    pub fn less_than(&self, value: &Value) -> (r: Vec<usize>)
        ensures
            r@ == gather(self.model(), below(key_of(value@))),
    {
        let key = IndexKey::from_value(value);
        let mut result: Vec<usize> = Vec::new();
        let mut i: usize = 0;
        while i < self.tree.len()
            invariant
                i <= self.tree@.len(),
                result@ == gather(self.model().take(i as int), below(key_of(value@))),
                key@ == key_of(value@),
            decreases self.tree.len() - i,
        {
            proof {
                assert(self.model().take(i + 1).drop_last() =~= self.model().take(i as int));
                assert(self.model().take(i + 1).last() == self.model()[i as int]);
            }
            if compare_keys(&self.tree[i].0, &key) < 0 {
                append_positions(&mut result, &self.tree[i].1);
            }
            proof {
                let m = self.model();
                let keep = below(key_of(value@));
                assert(gather(m.take(i + 1), keep) == if keep(m[i as int].0) {
                    gather(m.take(i as int), keep) + m[i as int].1
                } else {
                    gather(m.take(i as int), keep)
                });
            }
            i = i + 1;
        }
        assert(self.model().take(self.tree@.len() as int) =~= self.model());
        result
    }
}

/// `key_cmp` is a three-way comparison: antisymmetric, and zero exactly on equal keys.
pub proof fn lemma_key_cmp_basics(a: Datum, b: Datum)
    ensures
        -1 <= key_cmp(a, b) <= 1,
        key_cmp(b, a) == -key_cmp(a, b),
        key_cmp(a, b) == 0 <==> a == b,
{
    match (a, b) {
        (Datum::Text(x), Datum::Text(y)) => {
            lemma_text_cmp_basics(x, y);
        },
        _ => {},
    }
}

/// `key_lt` is transitive.
pub proof fn lemma_key_lt_transitive(a: Datum, b: Datum, c: Datum)
    requires
        key_lt(a, b),
        key_lt(b, c),
    ensures
        key_lt(a, c),
{
    match (a, b, c) {
        (Datum::Text(x), Datum::Text(y), Datum::Text(z)) => {
            lemma_text_cmp_transitive(x, y, z);
        },
        _ => {},
    }
}

} // verus!

verus! {

/// The positions filed under `k`; empty when the key is absent.
pub open spec fn positions_of(m: IndexModel, k: Datum) -> Seq<usize> {
    match lookup_model(m, k) {
        Some(s) => s,
        None => Seq::empty(),
    }
}

/// Positions `p < rows.len()`, ascending, whose row holds `k` at column `col`.
pub open spec fn matching(rows: Seq<Seq<Datum>>, col: int, k: Datum) -> Seq<usize>
    decreases rows.len(),
{
    if rows.len() == 0 {
        Seq::empty()
    } else {
        let prev = matching(rows.drop_last(), col, k);
        let row = rows.last();
        if 0 <= col < row.len() && key_of(row[col]) == k {
            prev.push((rows.len() - 1) as usize)
        } else {
            prev
        }
    }
}

proof fn lemma_ins_point(m: IndexModel, k: Datum, i: int)
    requires
        0 <= i <= m.len(),
    ensures
        i <= ins_point(m, k, i) <= m.len(),
        forall|j: int| i <= j < ins_point(m, k, i) ==> key_lt(#[trigger] m[j].0, k),
        ins_point(m, k, i) < m.len() ==> !key_lt(m[ins_point(m, k, i)].0, k),
    decreases m.len() - i,
{
    if i < m.len() && key_lt(m[i].0, k) {
        lemma_ins_point(m, k, i + 1);
    }
}

/// In a well-formed index, a key is found exactly when some entry holds it,
/// and then with that entry's positions.
proof fn lemma_lookup_found(m: IndexModel, k: Datum)
    requires
        model_wf(m),
    ensures
        (lookup_model(m, k) is Some) == (exists|j: int| 0 <= j < m.len() && m[j].0 == k),
        forall|j: int| 0 <= j < m.len() && m[j].0 == k ==> lookup_model(m, k) == Some(#[trigger] m[j].1),
{
    let ip = ins_point(m, k, 0);
    lemma_ins_point(m, k, 0);
    assert forall|j: int| 0 <= j < m.len() && m[j].0 == k implies j == ip by {
        lemma_key_cmp_basics(m[j].0, k);
        if j > ip {
            lemma_key_cmp_basics(m[ip].0, k);
            if m[ip].0 != k {
                lemma_key_lt_transitive(k, m[ip].0, m[j].0);
            }
            lemma_key_cmp_basics(m[ip].0, m[j].0);
        }
    }
}

/// Filing a position keeps an index well formed, and adds that position, last,
/// to its key alone.
pub proof fn lemma_model_insert(m: IndexModel, k: Datum, p: usize)
    requires
        model_wf(m),
    ensures
        model_wf(model_insert(m, k, p)),
        forall|k2: Datum| #[trigger] positions_of(model_insert(m, k, p), k2) == if k2 == k {
            positions_of(m, k).push(p)
        } else {
            positions_of(m, k2)
        },
{
    let ip = ins_point(m, k, 0);
    lemma_ins_point(m, k, 0);
    lemma_lookup_found(m, k);
    let m2 = model_insert(m, k, p);
    if ip < m.len() && m[ip].0 == k {
        assert(model_wf(m2));
        lemma_lookup_found(m2, k);
        assert(m2[ip].0 == k);
        assert forall|k2: Datum| #[trigger] positions_of(m2, k2) == if k2 == k {
            positions_of(m, k).push(p)
        } else {
            positions_of(m, k2)
        } by {
            lemma_lookup_found(m2, k2);
            lemma_lookup_found(m, k2);
            if k2 == k {
                assert(lookup_model(m, k) == Some(m[ip].1));
                assert(lookup_model(m2, k) == Some(m2[ip].1));
            } else {
                if exists|j: int| 0 <= j < m.len() && m[j].0 == k2 {
                    let j = choose|j: int| 0 <= j < m.len() && m[j].0 == k2;
                    assert(m2[j] == m[j]);
                    assert(lookup_model(m, k2) == Some(m[j].1));
                    assert(lookup_model(m2, k2) == Some(m2[j].1));
                } else {
                    assert forall|j: int| 0 <= j < m2.len() implies m2[j].0 != k2 by {
                        if j != ip {
                            assert(m2[j] == m[j]);
                        }
                    }
                }
            }
        }
    } else {
        assert forall|j: int| ip <= j < m.len() implies key_lt(k, #[trigger] m[j].0) by {
            lemma_key_cmp_basics(m[ip].0, k);
            if j > ip {
                assert(key_lt(m[ip].0, m[j].0));
                if m[ip].0 != k {
                    lemma_key_lt_transitive(k, m[ip].0, m[j].0);
                }
            }
        }
        assert forall|a: int, b: int| 0 <= a < b < m2.len() implies key_lt(#[trigger] m2[a].0, #[trigger] m2[b].0) by {
            if a < ip && b == ip {
            } else if a < ip && b > ip {
                assert(m2[b] == m[b - 1]);
                lemma_key_lt_transitive(m[a].0, k, m[b - 1].0);
            } else if a == ip {
                assert(m2[b] == m[b - 1]);
            } else if a > ip {
                assert(m2[a] == m[a - 1]);
                assert(m2[b] == m[b - 1]);
            } else {
                assert(m2[a] == m[a]);
                assert(m2[b] == m[b]);
            }
        }
        assert(model_wf(m2));
        lemma_lookup_found(m2, k);
        assert(m2[ip].0 == k);
        assert forall|k2: Datum| #[trigger] positions_of(m2, k2) == if k2 == k {
            positions_of(m, k).push(p)
        } else {
            positions_of(m, k2)
        } by {
            lemma_lookup_found(m2, k2);
            lemma_lookup_found(m, k2);
            if k2 == k {
                assert(!(exists|j: int| 0 <= j < m.len() && m[j].0 == k)) by {
                    assert forall|j: int| 0 <= j < m.len() implies m[j].0 != k by {
                        if j >= ip {
                            lemma_key_cmp_basics(k, m[j].0);
                        } else {
                            lemma_key_cmp_basics(k, m[j].0);
                        }
                    }
                }
                assert(positions_of(m, k) =~= Seq::<usize>::empty());
                assert(lookup_model(m2, k) == Some(m2[ip].1));
                assert(seq![p] =~= Seq::<usize>::empty().push(p));
            } else {
                if exists|j: int| 0 <= j < m.len() && m[j].0 == k2 {
                    let j = choose|j: int| 0 <= j < m.len() && m[j].0 == k2;
                    assert(lookup_model(m, k2) == Some(m[j].1));
                    if j < ip {
                        assert(m2[j] == m[j]);
                        assert(lookup_model(m2, k2) == Some(m2[j].1));
                    } else {
                        assert(m2[j + 1] == m[j]);
                        assert(lookup_model(m2, k2) == Some(m2[j + 1].1));
                    }
                } else {
                    assert forall|j: int| 0 <= j < m2.len() implies m2[j].0 != k2 by {
                        if j < ip {
                            assert(m2[j] == m[j]);
                        } else if j > ip {
                            assert(m2[j] == m[j - 1]);
                        }
                    }
                }
            }
        }
    }
}

/// The index built from `rows` is well formed and files, under each key, exactly
/// the matching positions in ascending order.
pub proof fn lemma_index_model(rows: Seq<Seq<Datum>>, col: int)
    ensures
        model_wf(index_model(rows, col)),
        forall|k: Datum| #[trigger] positions_of(index_model(rows, col), k) == matching(rows, col, k),
    decreases rows.len(),
{
    if rows.len() == 0 {
        assert forall|k: Datum| #[trigger] positions_of(index_model(rows, col), k) == matching(rows, col, k) by {
        }
    } else {
        lemma_index_model(rows.drop_last(), col);
        let prev = index_model(rows.drop_last(), col);
        let row = rows.last();
        if 0 <= col < row.len() {
            lemma_model_insert(prev, key_of(row[col]), (rows.len() - 1) as usize);
        }
        assert forall|k: Datum| #[trigger] positions_of(index_model(rows, col), k) == matching(rows, col, k) by {
            assert(positions_of(prev, k) == matching(rows.drop_last(), col, k));
        }
    }
}

/// A position is in `matching(rows, col, k)` exactly when its row holds `k` at
/// `col`, and the positions ascend strictly.
pub proof fn lemma_matching(rows: Seq<Seq<Datum>>, col: int, k: Datum)
    requires
        rows.len() <= usize::MAX,
    ensures
        forall|p: usize| #[trigger] matching(rows, col, k).contains(p) <==> (p < rows.len() && 0 <= col
            < rows[p as int].len() && key_of(rows[p as int][col]) == k),
        forall|i: int, j: int| 0 <= i < j < matching(rows, col, k).len() ==>
            #[trigger] matching(rows, col, k)[i] < #[trigger] matching(rows, col, k)[j],
        forall|i: int| 0 <= i < matching(rows, col, k).len() ==> #[trigger] matching(rows, col, k)[i] < rows.len(),
    decreases rows.len(),
{
    if rows.len() > 0 {
        let prev = rows.drop_last();
        let n = rows.len() - 1;
        lemma_matching(prev, col, k);
        let mp = matching(prev, col, k);
        let mr = matching(rows, col, k);
        let hit = 0 <= col < rows[n].len() && key_of(rows[n][col]) == k;
        if hit {
            assert(mr == mp.push(n as usize));
            lemma_push_last(mp, n as usize, mp.len() as int);
            assert(mr[mp.len() as int] == n);
            assert(mr.len() == mp.len() + 1);
        } else {
            assert(mr == mp);
        }
        assert(forall|i: int| 0 <= i < mp.len() ==> mr[i] == mp[i]);
        assert(hit ==> mr.len() == mp.len() + 1 && mr[mp.len() as int] == n);
        assert(!hit ==> mr.len() == mp.len());
        assert forall|i: int| 0 <= i < mr.len() implies #[trigger] mr[i] < rows.len() by {
            if i < mp.len() {
                assert(mr[i] == mp[i]);
            }
        }
        assert forall|i: int, j: int| 0 <= i < j < mr.len() implies #[trigger] mr[i] < #[trigger] mr[j] by {
            assert(mr[i] == mp[i]);
            assert(mp[i] < prev.len());
            if j < mp.len() {
                assert(mr[j] == mp[j]);
            } else {
            }
        }
        assert forall|p: usize| #[trigger] mr.contains(p) implies (p < rows.len() && 0 <= col
            < rows[p as int].len() && key_of(rows[p as int][col]) == k) by {
            let i = choose|i: int| 0 <= i < mr.len() && mr[i] == p;
            if i < mp.len() {
                assert(mp[i] == p);
                assert(mp.contains(p));
                assert(rows[p as int] == prev[p as int]);
            } else {
                assert(p == n);
                assert(hit);
            }
        }
        assert forall|p: usize| (p < rows.len() && 0 <= col < rows[p as int].len() && key_of(rows[p as int][col])
            == k) implies #[trigger] mr.contains(p) by {
            if p < n {
                assert(rows[p as int] == prev[p as int]);
                assert(mp.contains(p));
                let i = choose|i: int| 0 <= i < mp.len() && mp[i] == p;
                assert(mr[i] == p);
            } else {
                assert(mr[mr.len() - 1] == p);
            }
        }
    }
}

proof fn lemma_push_last(s: Seq<usize>, x: usize, j: int)
    requires
        j == s.len(),
    ensures
        s.push(x)[j] == x,
{
}

/// Looking a value up in an index answers exactly the positions `p` whose row
/// holds a value with that key at the index's column, in ascending order.
pub proof fn lemma_lookup_exact(rows: Seq<Seq<Datum>>, col: int, k: Datum)
    requires
        rows.len() <= usize::MAX,
    ensures
        forall|p: usize| #[trigger] positions_of(index_model(rows, col), k).contains(p) <==> (p
            < rows.len() && 0 <= col < rows[p as int].len() && key_of(rows[p as int][col]) == k),
        forall|i: int, j: int| 0 <= i < j < positions_of(index_model(rows, col), k).len() ==>
            #[trigger] positions_of(index_model(rows, col), k)[i] < #[trigger] positions_of(index_model(rows, col), k)[j],
        (lookup_model(index_model(rows, col), k) is None) == (positions_of(index_model(rows, col), k).len() == 0),
{
    lemma_index_model(rows, col);
    lemma_matching(rows, col, k);
    let m = index_model(rows, col);
    lemma_lookup_found(m, k);
    lemma_ins_point(m, k, 0);
    let ip = ins_point(m, k, 0);
    if lookup_model(m, k) is Some {
        assert(lookup_model(m, k) == Some(m[ip].1));
        assert(m[ip].1.len() > 0);
    }
}

/// A closed range from a value to itself answers what looking the value up does.
pub proof fn lemma_range_of_one_key(m: IndexModel, a: Datum)
    requires
        model_wf(m),
    ensures
        gather(m, within(a, a)) == positions_of(m, a),
    decreases m.len(),
{
    if m.len() == 0 {
        assert(positions_of(m, a) =~= Seq::<usize>::empty());
    } else {
        let prev = m.drop_last();
        assert(model_wf(prev)) by {
            assert forall|i: int, j: int| 0 <= i < j < prev.len() implies key_lt(#[trigger] prev[i].0, #[trigger] prev[j].0) by {
                assert(prev[i] == m[i] && prev[j] == m[j]);
            }
            assert forall|i: int| 0 <= i < prev.len() implies (#[trigger] prev[i].1).len() > 0 by {
                assert(prev[i] == m[i]);
            }
        }
        lemma_range_of_one_key(prev, a);
        lemma_key_cmp_basics(m.last().0, a);
        lemma_lookup_found(m, a);
        lemma_lookup_found(prev, a);
        let n = m.len() - 1;
        assert(within(a, a)(m.last().0) == (m.last().0 == a));
        if m.last().0 == a {
            assert(lookup_model(m, a) == Some(m[n].1));
            assert forall|j: int| 0 <= j < prev.len() implies prev[j].0 != a by {
                assert(prev[j] == m[j]);
                assert(key_lt(m[j].0, m[n].0));
                lemma_key_cmp_basics(m[j].0, a);
            }
            assert(positions_of(prev, a) =~= Seq::<usize>::empty());
            assert(gather(m, within(a, a)) =~= m.last().1);
        } else {
            if exists|j: int| 0 <= j < m.len() && m[j].0 == a {
                let j = choose|j: int| 0 <= j < m.len() && m[j].0 == a;
                assert(prev[j] == m[j]);
                assert(lookup_model(m, a) == Some(m[j].1));
                assert(lookup_model(prev, a) == Some(prev[j].1));
            } else {
                assert forall|j: int| 0 <= j < prev.len() implies prev[j].0 != a by {
                    assert(prev[j] == m[j]);
                }
            }
        }
    }
}

/// On a well-formed index, `range_lookup(a, a)` answers what `lookup(a)` does
/// (no positions when `a` is absent or a NaN), whether or not `a` is present.
pub proof fn lemma_range_lookup_equals_lookup(idx: Index, a: Datum)
    requires
        idx.wf(),
    ensures
        range_answer(idx.model(), a, a) == lookup_answer(idx.model(), a),
{
    lemma_range_of_one_key(idx.model(), key_of(a));
}

} // verus!
