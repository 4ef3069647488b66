//! Tables and the database that owns them together with their indexes.
use vstd::prelude::*;
use crate::index::{
    above, below, gather, index_model, key_of, lemma_index_model, lemma_lookup_exact, lookup_answer,
    lookup_model, model_insert, positions_of, Index,
};
use crate::value::{
    compare_values, compatible, datum_eq, datum_is_nan, row_model, rows_model, satisfies, text_equal, Column, Datum, Operator, Value,
    WhereClause,
};

verus! {

/// A named table: fixed columns and an ordered sequence of rows.
pub struct Table {
    pub name: String,
    pub columns: Vec<Column>,
    pub rows: Vec<Vec<Value>>,
}

/// Why an operation was refused.
#[derive(Clone, Debug, PartialEq)]
pub enum DbError {
    TableExists(String),
    NoSuchTable(String),
    NoSuchColumn(String),
    ArityMismatch { expected: usize, got: usize },
    TypeMismatch(String),
}

/// A row fits the columns: one value per column, each null or of the column's type.
pub open spec fn row_conforms(cols: Seq<Column>, row: Seq<Value>) -> bool {
    &&& row.len() == cols.len()
    &&& forall|i: int| 0 <= i < row.len() ==> compatible(#[trigger] row[i]@, cols[i].data_type)
}

/// The first column at or after `i` named `name`.
pub open spec fn column_from(cols: Seq<Column>, name: Seq<char>, i: int) -> Option<int>
    decreases cols.len() - i,
{
    if i < 0 || i >= cols.len() {
        None
    } else if cols[i].name@ == name {
        Some(i)
    } else {
        column_from(cols, name, i + 1)
    }
}

/// The position of the first column named `name`.
pub open spec fn column_position(cols: Seq<Column>, name: Seq<char>) -> Option<int> {
    column_from(cols, name, 0)
}

/// The first value at or after `i` that does not fit its column.
pub open spec fn mismatch_from(cols: Seq<Column>, vals: Seq<Value>, i: int) -> Option<int>
    decreases vals.len() - i,
{
    if i < 0 || i >= vals.len() || i >= cols.len() {
        None
    } else if !compatible(vals[i]@, cols[i].data_type) {
        Some(i)
    } else {
        mismatch_from(cols, vals, i + 1)
    }
}

/// The first table at or after `i` named `name`.
pub open spec fn table_from(ts: Seq<Table>, name: Seq<char>, i: int) -> Option<int>
    decreases ts.len() - i,
{
    if i < 0 || i >= ts.len() {
        None
    } else if ts[i].name@ == name {
        Some(i)
    } else {
        table_from(ts, name, i + 1)
    }
}

/// The first index at or after `i` on the column named `name`.
pub open spec fn index_from(idxs: Seq<Index>, name: Seq<char>, i: int) -> Option<int>
    decreases idxs.len() - i,
{
    if i < 0 || i >= idxs.len() {
        None
    } else if idxs[i].column_name@ == name {
        Some(i)
    } else {
        index_from(idxs, name, i + 1)
    }
}

/// An index bound to a column of `t` whose contents are those built from `t`'s rows.
pub open spec fn index_fits(idx: Index, t: Table) -> bool {
    &&& column_position(t.columns@, idx.column_name@) == Some(idx.column_index as int)
    &&& idx.model() == index_model(rows_model(t.rows@), idx.column_index as int)
    &&& idx.wf()
}

pub proof fn lemma_table_from(ts: Seq<Table>, name: Seq<char>, i: int)
    requires
        0 <= i,
    ensures
        match table_from(ts, name, i) {
            Some(j) => i <= j < ts.len() && ts[j].name@ == name && forall|l: int| i <= l < j ==> (#[trigger] ts[l]).name@ != name,
            None => forall|l: int| i <= l < ts.len() ==> (#[trigger] ts[l]).name@ != name,
        },
    decreases ts.len() - i,
{
    if i < ts.len() && ts[i].name@ != name {
        lemma_table_from(ts, name, i + 1);
    }
}

pub proof fn lemma_column_from(cols: Seq<Column>, name: Seq<char>, i: int)
    requires
        0 <= i,
    ensures
        match column_from(cols, name, i) {
            Some(j) => i <= j < cols.len() && cols[j].name@ == name && forall|l: int| i <= l < j ==> (#[trigger] cols[l]).name@ != name,
            None => forall|l: int| i <= l < cols.len() ==> (#[trigger] cols[l]).name@ != name,
        },
    decreases cols.len() - i,
{
    if i < cols.len() && cols[i].name@ != name {
        lemma_column_from(cols, name, i + 1);
    }
}

pub proof fn lemma_index_from(idxs: Seq<Index>, name: Seq<char>, i: int)
    requires
        0 <= i,
    ensures
        match index_from(idxs, name, i) {
            Some(j) => i <= j < idxs.len() && idxs[j].column_name@ == name,
            None => forall|l: int| i <= l < idxs.len() ==> (#[trigger] idxs[l]).column_name@ != name,
        },
    decreases idxs.len() - i,
{
    if i < idxs.len() && idxs[i].column_name@ != name {
        lemma_index_from(idxs, name, i + 1);
    }
}

pub proof fn lemma_mismatch_from(cols: Seq<Column>, vals: Seq<Value>, i: int)
    requires
        0 <= i,
        vals.len() == cols.len(),
    ensures
        match mismatch_from(cols, vals, i) {
            Some(j) => i <= j < vals.len() && !compatible(vals[j]@, cols[j].data_type),
            None => forall|l: int| i <= l < vals.len() ==> compatible(#[trigger] vals[l]@, cols[l].data_type),
        },
    decreases vals.len() - i,
{
    if i < vals.len() && compatible(vals[i]@, cols[i].data_type) {
        lemma_mismatch_from(cols, vals, i + 1);
    }
}

/// Appending a row files its position in the index built before.
proof fn lemma_index_after_push(rows: Seq<Vec<Value>>, row: Vec<Value>, c: int)
    requires
        0 <= c < row@.len(),
    ensures
        index_model(rows_model(rows.push(row)), c) == model_insert(
            index_model(rows_model(rows), c),
            key_of(row@[c]@),
            rows.len() as usize,
        ),
{
    assert(rows_model(rows.push(row)).drop_last() =~= rows_model(rows));
    assert(rows_model(rows.push(row)).last() == row_model(row));
}

/// A filter with its column resolved to a position: (column, operator, operand).
pub type Filter = Option<(int, Operator, Datum)>;

/// Whether a row is targeted: every row when there is no filter, else the rows
/// whose value at the filter's column satisfies the filter.
pub open spec fn row_hit(row: Seq<Value>, f: Filter) -> bool {
    match f {
        None => true,
        Some((fc, op, v)) => 0 <= fc < row.len() && satisfies(row[fc]@, op, v),
    }
}

/// The filter of `filter` resolved against `cols`.
pub open spec fn resolve(cols: Seq<Column>, filter: Option<&WhereClause>) -> Filter {
    match filter {
        None => None,
        Some(w) => match column_position(cols, w.column@) {
            Some(c) => Some((c, w.operator, w.value@)),
            None => None,
        },
    }
}

/// Whether `filter` names a column that `cols` lacks.
pub open spec fn filter_unknown(cols: Seq<Column>, filter: Option<&WhereClause>) -> bool {
    match filter {
        None => false,
        Some(w) => column_position(cols, w.column@) is None,
    }
}

/// The rows that a filter does not target, in order.
pub open spec fn kept_rows(rows: Seq<Vec<Value>>, f: Filter) -> Seq<Vec<Value>>
    decreases rows.len(),
{
    if rows.len() == 0 {
        rows
    } else if row_hit(rows[0]@, f) {
        kept_rows(rows.drop_first(), f)
    } else {
        seq![rows[0]] + kept_rows(rows.drop_first(), f)
    }
}

/// How many rows a filter targets.
pub open spec fn hit_count(rows: Seq<Vec<Value>>, f: Filter) -> nat
    decreases rows.len(),
{
    if rows.len() == 0 {
        0
    } else if row_hit(rows[0]@, f) {
        1 + hit_count(rows.drop_first(), f)
    } else {
        hit_count(rows.drop_first(), f)
    }
}

/// A row after an update: the value at `uc` replaced when the row is targeted.
pub open spec fn updated_row(row: Seq<Value>, f: Filter, uc: int, v: Value) -> Seq<Value> {
    if row_hit(row, f) {
        row.update(uc, v)
    } else {
        row
    }
}

/// The index of column `c` depends only on the rows' values at `c`.
proof fn lemma_index_model_same_column(r1: Seq<Vec<Value>>, r2: Seq<Vec<Value>>, c: int)
    requires
        r1.len() == r2.len(),
        forall|p: int| 0 <= p < r1.len() ==> (#[trigger] r1[p])@.len() == r2[p]@.len(),
        forall|p: int| 0 <= p < r1.len() && 0 <= c < r1[p]@.len() ==> (#[trigger] r1[p])@[c] == r2[p]@[c],
    ensures
        index_model(rows_model(r1), c) == index_model(rows_model(r2), c),
    decreases r1.len(),
{
    if r1.len() > 0 {
        lemma_index_model_same_column(r1.drop_last(), r2.drop_last(), c);
        assert(rows_model(r1).drop_last() =~= rows_model(r1.drop_last()));
        assert(rows_model(r2).drop_last() =~= rows_model(r2.drop_last()));
        let n = r1.len() - 1;
        assert(rows_model(r1).last() == row_model(r1[n]));
        assert(rows_model(r2).last() == row_model(r2[n]));
    }
}

/// Kept rows fit the columns as the rows they came from did.
proof fn lemma_kept_rows_conform(rows: Seq<Vec<Value>>, f: Filter, cols: Seq<Column>)
    requires
        forall|p: int| 0 <= p < rows.len() ==> row_conforms(cols, #[trigger] rows[p]@),
    ensures
        forall|p: int| 0 <= p < kept_rows(rows, f).len() ==> row_conforms(cols, #[trigger] kept_rows(rows, f)[p]@),
        hit_count(rows, f) + kept_rows(rows, f).len() == rows.len(),
    decreases rows.len(),
{
    if rows.len() > 0 {
        let rest = rows.drop_first();
        assert forall|p: int| 0 <= p < rest.len() implies row_conforms(cols, #[trigger] rest[p]@) by {
            assert(rest[p] == rows[p + 1]);
        }
        lemma_kept_rows_conform(rest, f, cols);
        if !row_hit(rows[0]@, f) {
            let k = kept_rows(rows, f);
            assert forall|p: int| 0 <= p < k.len() implies row_conforms(cols, #[trigger] k[p]@) by {
                if p > 0 {
                    assert(k[p] == kept_rows(rest, f)[p - 1]);
                }
            }
        }
    }
}

proof fn lemma_hit_count_push(rows: Seq<Vec<Value>>, row: Vec<Value>, f: Filter)
    ensures
        hit_count(rows.push(row), f) == hit_count(rows, f) + if row_hit(row@, f) { 1nat } else { 0nat },
    decreases rows.len(),
{
    if rows.len() > 0 {
        assert(rows.push(row).drop_first() =~= rows.drop_first().push(row));
        lemma_hit_count_push(rows.drop_first(), row, f);
    } else {
        assert(rows.push(row).drop_first() =~= rows);
    }
}

/// The views of a row sequence.
pub open spec fn row_views(rows: Seq<Vec<Value>>) -> Seq<Seq<Value>> {
    rows.map_values(|r: Vec<Value>| r@)
}

/// Ascending positions of the rows a filter targets.
pub open spec fn scan_positions(rows: Seq<Vec<Value>>, f: Filter) -> Seq<usize>
    decreases rows.len(),
{
    if rows.len() == 0 {
        Seq::empty()
    } else {
        let prev = scan_positions(rows.drop_last(), f);
        if row_hit(rows.last()@, f) {
            prev.push((rows.len() - 1) as usize)
        } else {
            prev
        }
    }
}

/// The rows at positions `ps`, in the order of `ps`; positions out of range are skipped.
pub open spec fn pick_rows(rows: Seq<Seq<Value>>, ps: Seq<usize>) -> Seq<Seq<Value>>
    decreases ps.len(),
{
    if ps.len() == 0 {
        Seq::empty()
    } else {
        let prev = pick_rows(rows, ps.drop_last());
        if ps.last() < rows.len() {
            prev.push(rows[ps.last() as int])
        } else {
            prev
        }
    }
}

/// A row restricted to the column positions `cs`; null where the row is too short.
pub open spec fn project(row: Seq<Value>, cs: Seq<usize>) -> Seq<Value> {
    Seq::new(cs.len(), |j: int| if cs[j] < row.len() { row[cs[j] as int] } else { Value::Null })
}

/// The first requested name at or after `i` that names no column.
pub open spec fn unknown_from(cols: Seq<Column>, names: Seq<String>, i: int) -> Option<int>
    decreases names.len() - i,
{
    if i < 0 || i >= names.len() {
        None
    } else if column_position(cols, names[i]@) is None {
        Some(i)
    } else {
        unknown_from(cols, names, i + 1)
    }
}

/// The column positions a projection reads: every column when none is named.
pub open spec fn requested_positions(cols: Seq<Column>, names: Seq<String>) -> Seq<usize> {
    if names.len() == 0 {
        Seq::new(cols.len(), |j: int| j as usize)
    } else {
        Seq::new(names.len(), |j: int| column_position(cols, names[j]@).unwrap() as usize)
    }
}

pub proof fn lemma_unknown_from(cols: Seq<Column>, names: Seq<String>, i: int)
    requires
        0 <= i,
    ensures
        match unknown_from(cols, names, i) {
            Some(j) => i <= j < names.len() && column_position(cols, names[j]@) is None,
            None => forall|l: int| i <= l < names.len() ==> column_position(cols, (#[trigger] names[l])@) is Some,
        },
    decreases names.len() - i,
{
    if i < names.len() && column_position(cols, names[i]@) is Some {
        lemma_unknown_from(cols, names, i + 1);
    }
}

impl Table {
    /// Every row fits the columns.
    pub open spec fn wf(&self) -> bool {
        forall|p: int| 0 <= p < self.rows@.len() ==> row_conforms(self.columns@, #[trigger] self.rows@[p]@)
    }

    /// An empty table.
    pub fn new(name: String, columns: Vec<Column>) -> (r: Table)
        ensures
            r.name == name,
            r.columns == columns,
            r.rows@ == Seq::<Vec<Value>>::empty(),
            r.wf(),
    {
        Table { name, columns, rows: Vec::new() }
    }

    /// The position of the first column named `column_name`.
    pub fn get_column_index(&self, column_name: &str) -> (r: Option<usize>)
        ensures
            match r {
                Some(i) => column_position(self.columns@, column_name@) == Some(i as int),
                None => column_position(self.columns@, column_name@) is None,
            },
    {
        let mut i: usize = 0;
        while i < self.columns.len()
            invariant
                i <= self.columns@.len(),
                column_from(self.columns@, column_name@, i as int) == column_position(self.columns@, column_name@),
            decreases self.columns.len() - i,
        {
            if text_equal(self.columns[i].name.as_str(), column_name) {
                return Some(i);
            }
            i = i + 1;
        }
        None
    }
}

/// A copy of a row.
pub fn copy_row(row: &Vec<Value>) -> (r: Vec<Value>)
    ensures
        r@ == row@,
{
    let mut r: Vec<Value> = Vec::new();
    let mut i: usize = 0;
    while i < row.len()
        invariant
            i <= row@.len(),
            r@ == row@.take(i as int),
        decreases row.len() - i,
    {
        r.push(row[i].copy());
        i = i + 1;
        assert(r@ =~= row@.take(i as int));
    }
    assert(row@.take(row@.len() as int) =~= row@);
    r
}

/// The in-memory database: tables, and for each table its indexes.
pub struct Database {
    pub tables: Vec<Table>,
    pub indexes: Vec<Vec<Index>>,
}

impl Database {
    /// Position of the table named `name`.
    pub open spec fn table_position(&self, name: Seq<char>) -> Option<int> {
        table_from(self.tables@, name, 0)
    }

    /// Table names are unique, every row fits its table, and every index is
    /// bound to a column of its table, holds what a fresh build would, and is
    /// the only index on that column.
    pub open spec fn wf(&self) -> bool {
        &&& self.tables@.len() == self.indexes@.len()
        &&& forall|i: int, j: int| 0 <= i < j < self.tables@.len() ==> #[trigger] self.tables@[i].name@ != #[trigger] self.tables@[j].name@
        &&& forall|t: int| 0 <= t < self.tables@.len() ==> (#[trigger] self.tables@[t]).wf()
        &&& forall|t: int, k: int| 0 <= t < self.tables@.len() && 0 <= k < self.indexes@[t]@.len() ==> index_fits(#[trigger] self.indexes@[t]@[k], self.tables@[t])
        &&& forall|t: int, k1: int, k2: int| 0 <= t < self.tables@.len() && 0 <= k1 < k2 < self.indexes@[t]@.len() ==>
            #[trigger] self.indexes@[t]@[k1].column_name@ != #[trigger] self.indexes@[t]@[k2].column_name@
    }

    /// `new` differs from `old` only in the rows of table `t`; indexes stay on the same columns.
    pub open spec fn only_rows_changed(old: Database, new: Database, t: int) -> bool {
        &&& new.tables@.len() == old.tables@.len()
        &&& new.indexes@.len() == old.indexes@.len()
        &&& forall|j: int| 0 <= j < old.tables@.len() && j != t ==> new.tables@[j] == old.tables@[j] && new.indexes@[j] == old.indexes@[j]
        &&& new.tables@[t].name == old.tables@[t].name
        &&& new.tables@[t].columns == old.tables@[t].columns
        &&& new.indexes@[t]@.len() == old.indexes@[t]@.len()
        &&& forall|k: int| 0 <= k < old.indexes@[t]@.len() ==> (#[trigger] new.indexes@[t]@[k]).column_name == old.indexes@[t]@[k].column_name && new.indexes@[t]@[k].column_index == old.indexes@[t]@[k].column_index
    }

    /// What `create_table` does: refuses a taken name, else appends an empty table with no index.
    pub open spec fn create_table_outcome(old: Database, new: Database, name: String, columns: Vec<Column>, r: Result<(), DbError>) -> bool {
        match old.table_position(name@) {
            Some(_) => new == old && match r {
                Err(DbError::TableExists(s)) => s@ == name@,
                _ => false,
            },
            None => {
                &&& r is Ok
                &&& new.tables@.len() == old.tables@.len() + 1
                &&& new.tables@.drop_last() == old.tables@
                &&& new.tables@.last().name == name
                &&& new.tables@.last().columns == columns
                &&& new.tables@.last().rows@.len() == 0
                &&& new.indexes@.drop_last() == old.indexes@
                &&& new.indexes@.last()@.len() == 0
            },
        }
    }

    /// What `insert_row` does: refuses an unknown table, a wrong value count or a value of the wrong type, in that order; else appends the row.
    pub open spec fn insert_row_outcome(old: Database, new: Database, table_name: Seq<char>, values: Vec<Value>, r: Result<(), DbError>) -> bool {
        match old.table_position(table_name) {
            None => new == old && match r {
                Err(DbError::NoSuchTable(s)) => s@ == table_name,
                _ => false,
            },
            Some(t) => {
                let cols = old.tables@[t].columns@;
                if values@.len() != cols.len() {
                    new == old && r == Err::<(), DbError>(
                        DbError::ArityMismatch { expected: cols.len() as usize, got: values@.len() as usize },
                    )
                } else {
                    match mismatch_from(cols, values@, 0) {
                        Some(i) => new == old && match r {
                            Err(DbError::TypeMismatch(s)) => s@ == cols[i].name@,
                            _ => false,
                        },
                        None => {
                            &&& r is Ok
                            &&& Database::only_rows_changed(old, new, t)
                            &&& new.tables@[t].rows@ == old.tables@[t].rows@.push(values)
                        },
                    }
                }
            },
        }
    }

    /// What `delete_rows` does: refuses an unknown table or filter column; else keeps the rows the filter does not target and answers how many it removed.
    pub open spec fn delete_rows_outcome(old: Database, new: Database, table_name: Seq<char>, filter: Option<&WhereClause>, r: Result<usize, DbError>) -> bool {
        match old.table_position(table_name) {
            None => new == old && match r {
                Err(DbError::NoSuchTable(s)) => s@ == table_name,
                _ => false,
            },
            Some(t) => {
                let tb = old.tables@[t];
                if filter_unknown(tb.columns@, filter) {
                    new == old && match r {
                        Err(DbError::NoSuchColumn(s)) => s@ == filter.unwrap().column@,
                        _ => false,
                    }
                } else {
                    let f = resolve(tb.columns@, filter);
                    &&& r == Ok::<usize, DbError>(hit_count(tb.rows@, f) as usize)
                    &&& Database::only_rows_changed(old, new, t)
                    &&& new.tables@[t].rows@ == kept_rows(tb.rows@, f)
                }
            },
        }
    }

    /// What `update_rows` does: refuses an unknown table or column, a value of the wrong type, or an unknown filter column, in that order; else sets the column in every targeted row and answers how many.
    pub open spec fn update_rows_outcome(old: Database, new: Database, table_name: Seq<char>, column_name: Seq<char>, new_value: Value, filter: Option<&WhereClause>, r: Result<usize, DbError>) -> bool {
        match old.table_position(table_name) {
            None => new == old && match r {
                Err(DbError::NoSuchTable(s)) => s@ == table_name,
                _ => false,
            },
            Some(t) => {
                let tb = old.tables@[t];
                match column_position(tb.columns@, column_name) {
                    None => new == old && match r {
                        Err(DbError::NoSuchColumn(s)) => s@ == column_name,
                        _ => false,
                    },
                    Some(uc) => if !compatible(new_value@, tb.columns@[uc].data_type) {
                        new == old && match r {
                            Err(DbError::TypeMismatch(s)) => s@ == column_name,
                            _ => false,
                        }
                    } else if filter_unknown(tb.columns@, filter) {
                        new == old && match r {
                            Err(DbError::NoSuchColumn(s)) => s@ == filter.unwrap().column@,
                            _ => false,
                        }
                    } else {
                        let f = resolve(tb.columns@, filter);
                        &&& r == Ok::<usize, DbError>(hit_count(tb.rows@, f) as usize)
                        &&& Database::only_rows_changed(old, new, t)
                        &&& new.tables@[t].rows@.len() == tb.rows@.len()
                        &&& forall|p: int| 0 <= p < tb.rows@.len() ==> (#[trigger] new.tables@[t].rows@[p])@ == updated_row(tb.rows@[p]@, f, uc, new_value)
                    },
                }
            },
        }
    }

    /// What `create_index` does: refuses an unknown table or column; else puts an index on that column in place of any earlier one.
    pub open spec fn create_index_outcome(old: Database, new: Database, table_name: Seq<char>, column_name: Seq<char>, r: Result<(), DbError>) -> bool {
        match old.table_position(table_name) {
            None => new == old && match r {
                Err(DbError::NoSuchTable(s)) => s@ == table_name,
                _ => false,
            },
            Some(t) => match column_position(old.tables@[t].columns@, column_name) {
                None => new == old && match r {
                    Err(DbError::NoSuchColumn(s)) => s@ == column_name,
                    _ => false,
                },
                Some(c) => {
                    let olds = old.indexes@[t]@;
                    let news = new.indexes@[t]@;
                    &&& r is Ok
                    &&& new.tables == old.tables
                    &&& new.indexes@.len() == old.indexes@.len()
                    &&& forall|j: int| 0 <= j < old.indexes@.len() && j != t ==> new.indexes@[j] == old.indexes@[j]
                    &&& match index_from(olds, column_name, 0) {
                        Some(k) => news.len() == olds.len() && forall|kk: int| 0 <= kk < olds.len() && kk != k ==> news[kk] == olds[kk],
                        None => news.len() == olds.len() + 1 && news.drop_last() == olds,
                    }
                    &&& exists|k: int| 0 <= k < news.len() && news[k].column_name@ == column_name && news[k].column_index == c
                },
            },
        }
    }

    /// What `select_all` answers: the column names and every row of the table.
    pub open spec fn select_all_outcome(db: Database, table_name: Seq<char>, r: Result<(Vec<String>, Vec<Vec<Value>>), DbError>) -> bool {
        match db.table_position(table_name) {
            None => match r {
                Err(DbError::NoSuchTable(s)) => s@ == table_name,
                _ => false,
            },
            Some(t) => match r {
                Ok((names, rows)) => {
                    &&& names@.len() == db.tables@[t].columns@.len()
                    &&& forall|i: int| 0 <= i < names@.len() ==> (#[trigger] names@[i])@ == db.tables@[t].columns@[i].name@
                    &&& row_views(rows@) == row_views(db.tables@[t].rows@)
                },
                Err(_) => false,
            },
        }
    }

    /// What `select_with_filter` answers: the requested columns (all when none is named) of the rows the filter selects, in the order the filter answers them.
    pub open spec fn select_with_filter_outcome(db: Database, table_name: Seq<char>, columns: Vec<String>, filter: Option<&WhereClause>, r: Result<(Vec<String>, Vec<Vec<Value>>), DbError>) -> bool {
        match db.table_position(table_name) {
            None => match r {
                Err(DbError::NoSuchTable(s)) => s@ == table_name,
                _ => false,
            },
            Some(t) => {
                let tb = db.tables@[t];
                match unknown_from(tb.columns@, columns@, 0) {
                    Some(i) => match r {
                        Err(DbError::NoSuchColumn(s)) => s@ == columns@[i]@,
                        _ => false,
                    },
                    None => if filter_unknown(tb.columns@, filter) {
                        match r {
                            Err(DbError::NoSuchColumn(s)) => s@ == filter.unwrap().column@,
                            _ => false,
                        }
                    } else {
                        let cs = requested_positions(tb.columns@, columns@);
                        let picked = match filter {
                            None => row_views(tb.rows@),
                            Some(w) => pick_rows(row_views(tb.rows@), db.answer_positions(t, w)),
                        };
                        match r {
                            Ok((names, rows)) => {
                                &&& names@.len() == cs.len()
                                &&& forall|i: int| 0 <= i < names@.len() ==> (#[trigger] names@[i])@ == tb.columns@[cs[i] as int].name@
                                &&& rows@.len() == picked.len()
                                &&& forall|i: int| 0 <= i < rows@.len() ==> (#[trigger] rows@[i])@ == project(picked[i], cs)
                            },
                            Err(_) => false,
                        }
                    },
                }
            },
        }
    }

    /// An empty database.
    pub fn new() -> (r: Database)
        ensures
            r.tables@.len() == 0,
            r.indexes@.len() == 0,
            r.wf(),
    {
        Database { tables: Vec::new(), indexes: Vec::new() }
    }

    /// The position of the table named `name`.
    pub fn find_table(&self, name: &str) -> (r: Option<usize>)
        ensures
            match r {
                Some(i) => self.table_position(name@) == Some(i as int),
                None => self.table_position(name@) is None,
            },
    {
        let mut i: usize = 0;
        while i < self.tables.len()
            invariant
                i <= self.tables@.len(),
                table_from(self.tables@, name@, i as int) == self.table_position(name@),
            decreases self.tables.len() - i,
        {
            if text_equal(self.tables[i].name.as_str(), name) {
                return Some(i);
            }
            i = i + 1;
        }
        None
    }

    /// The table named `name`, if there is one.
    pub fn get_table(&self, name: &str) -> (r: Option<&Table>)
        ensures
            match r {
                Some(tb) => exists|t: int| self.table_position(name@) == Some(t) && *tb == self.tables@[t],
                None => self.table_position(name@) is None,
            },
    {
        proof {
            lemma_table_from(self.tables@, name@, 0);
        }
        match self.find_table(name) {
            Some(t) => Some(&self.tables[t]),
            None => None,
        }
    }

    /// Registers an empty table, unless one of that name exists.
    pub fn create_table(&mut self, name: String, columns: Vec<Column>) -> (r: Result<(), DbError>)
        requires
            old(self).wf(),
        ensures
            final(self).wf(),
            Database::create_table_outcome(*old(self), *final(self), name, columns, r),

    {
        proof {
            lemma_table_from(self.tables@, name@, 0);
        }
        if self.find_table(name.as_str()).is_some() {
            return Err(DbError::TableExists(name));
        }
        let table = Table::new(name, columns);
        self.tables.push(table);
        self.indexes.push(Vec::new());
        proof {
            assert(self.tables@.drop_last() =~= old(self).tables@);
            assert(self.indexes@.drop_last() =~= old(self).indexes@);
            let n = old(self).tables@.len() as int;
            assert forall|t: int| 0 <= t < self.tables@.len() implies (#[trigger] self.tables@[t]).wf() by {
                if t < n {
                    assert(self.tables@[t] == old(self).tables@[t]);
                }
            }
            assert forall|t: int, k: int| 0 <= t < self.tables@.len() && 0 <= k < self.indexes@[t]@.len() implies index_fits(#[trigger] self.indexes@[t]@[k], self.tables@[t]) by {
                assert(t < n);
                assert(self.tables@[t] == old(self).tables@[t]);
                assert(self.indexes@[t] == old(self).indexes@[t]);
            }
            assert forall|t: int, k1: int, k2: int| 0 <= t < self.tables@.len() && 0 <= k1 < k2 < self.indexes@[t]@.len() implies
                #[trigger] self.indexes@[t]@[k1].column_name@ != #[trigger] self.indexes@[t]@[k2].column_name@ by {
                assert(t < n);
                assert(self.indexes@[t] == old(self).indexes@[t]);
            }
            assert forall|i: int, j: int| 0 <= i < j < self.tables@.len() implies #[trigger] self.tables@[i].name@ != #[trigger] self.tables@[j].name@ by {
                assert(self.tables@[i] == old(self).tables@[i]);
                if j < n {
                    assert(self.tables@[j] == old(self).tables@[j]);
                }
            }
        }
        Ok(())
    }

    /// Appends a row to a table and files it in the table's indexes. The row must
    /// have one value per column, each null or of its column's type.
    pub fn insert_row(&mut self, table_name: &str, values: Vec<Value>) -> (r: Result<(), DbError>)
        requires
            old(self).wf(),
            match old(self).table_position(table_name@) {
                Some(t) => old(self).tables@[t].rows@.len() < usize::MAX,
                None => true,
            },
        ensures
            final(self).wf(),
            Database::insert_row_outcome(*old(self), *final(self), table_name@, values, r),

    {
        proof {
            lemma_table_from(self.tables@, table_name@, 0);
        }
        let t = match self.find_table(table_name) {
            Some(t) => t,
            None => {
                return Err(DbError::NoSuchTable(String::from_str(table_name)));
            },
        };
        let ncols = self.tables[t].columns.len();
        if values.len() != ncols {
            return Err(DbError::ArityMismatch { expected: ncols, got: values.len() });
        }
        let mut i: usize = 0;
        while i < values.len()
            invariant
                i <= values@.len(),
                values@.len() == self.tables@[t as int].columns@.len(),
                t < self.tables@.len(),
                mismatch_from(self.tables@[t as int].columns@, values@, i as int) == mismatch_from(self.tables@[t as int].columns@, values@, 0),
                *self == *old(self),
                self.wf(),
                old(self).table_position(table_name@) == Some(t as int),
            decreases values.len() - i,
        {
            if !values[i].is_compatible(self.tables[t].columns[i].data_type) {
                return Err(DbError::TypeMismatch(self.tables[t].columns[i].name.clone()));
            }
            i = i + 1;
        }
        proof {
            lemma_mismatch_from(self.tables@[t as int].columns@, values@, 0);
        }
        let row_idx = self.tables[t].rows.len();
        let ghost old_rows = self.tables@[t as int].rows@;
        let row = copy_row(&values);
        self.tables[t].rows.push(values);
        let ghost tables1 = self.tables@;
        let nk = self.indexes[t].len();
        let mut k: usize = 0;
        while k < nk
            invariant
                t < self.tables@.len(),
                self.tables@ == tables1,
                tables1.len() == old(self).tables@.len(),
                tables1[t as int].rows@ == old_rows.push(values),
                tables1[t as int].columns == old(self).tables@[t as int].columns,
                old_rows == old(self).tables@[t as int].rows@,
                row_idx == old_rows.len(),
                row@ == values@,
                row@.len() == tables1[t as int].columns@.len(),
                old(self).wf(),
                k <= nk,
                nk == old(self).indexes@[t as int]@.len(),
                self.indexes@.len() == old(self).indexes@.len(),
                forall|j: int| 0 <= j < self.indexes@.len() && j != t ==> self.indexes@[j] == old(self).indexes@[j],
                self.indexes@[t as int]@.len() == nk,
                forall|kk: int| 0 <= kk < nk ==> (#[trigger] self.indexes@[t as int]@[kk]).column_name == old(self).indexes@[t as int]@[kk].column_name
                    && self.indexes@[t as int]@[kk].column_index == old(self).indexes@[t as int]@[kk].column_index,
                forall|kk: int| 0 <= kk < k ==> index_fits(#[trigger] self.indexes@[t as int]@[kk], tables1[t as int]),
                forall|kk: int| k <= kk < nk ==> #[trigger] self.indexes@[t as int]@[kk] == old(self).indexes@[t as int]@[kk],
            decreases nk - k,
        {
            let c = self.indexes[t][k].column_index;
            proof {
                let oi = old(self).indexes@[t as int]@[k as int];
                assert(index_fits(oi, old(self).tables@[t as int]));
                lemma_column_from(old(self).tables@[t as int].columns@, oi.column_name@, 0);
                lemma_index_after_push(old_rows, values, c as int);
                lemma_index_model(rows_model(old_rows.push(values)), c as int);
            }
            self.indexes[t][k].insert(row_idx, &row[c]);
            k = k + 1;
        }
        proof {
            let n = old(self).tables@.len() as int;
            assert forall|tt: int| 0 <= tt < self.tables@.len() implies (#[trigger] self.tables@[tt]).wf() by {
                if tt == t {
                    assert forall|p: int| 0 <= p < self.tables@[tt].rows@.len() implies row_conforms(self.tables@[tt].columns@, #[trigger] self.tables@[tt].rows@[p]@) by {
                        if p < old_rows.len() {
                            assert(self.tables@[tt].rows@[p] == old_rows[p]);
                        }
                    }
                } else {
                    assert(self.tables@[tt] == old(self).tables@[tt]);
                }
            }
            assert forall|tt: int, kk: int| 0 <= tt < self.tables@.len() && 0 <= kk < self.indexes@[tt]@.len() implies index_fits(#[trigger] self.indexes@[tt]@[kk], self.tables@[tt]) by {
                if tt != t {
                    assert(self.tables@[tt] == old(self).tables@[tt]);
                    assert(self.indexes@[tt] == old(self).indexes@[tt]);
                }
            }
            assert forall|tt: int, k1: int, k2: int| 0 <= tt < self.tables@.len() && 0 <= k1 < k2 < self.indexes@[tt]@.len() implies
                #[trigger] self.indexes@[tt]@[k1].column_name@ != #[trigger] self.indexes@[tt]@[k2].column_name@ by {
                if tt != t {
                    assert(self.indexes@[tt] == old(self).indexes@[tt]);
                } else {
                    assert(self.indexes@[tt]@[k1].column_name == old(self).indexes@[tt]@[k1].column_name);
                    assert(self.indexes@[tt]@[k2].column_name == old(self).indexes@[tt]@[k2].column_name);
                }
            }
            assert forall|a: int, b: int| 0 <= a < b < self.tables@.len() implies #[trigger] self.tables@[a].name@ != #[trigger] self.tables@[b].name@ by {
                assert(self.tables@[a].name == old(self).tables@[a].name);
                assert(self.tables@[b].name == old(self).tables@[b].name);
            }
        }
        Ok(())
    }

    /// Rebuilds every index of table `t` from its rows.
    fn rebuild_indexes(&mut self, t: usize)
        requires
            t < old(self).tables@.len(),
            old(self).tables@.len() == old(self).indexes@.len(),
            forall|k: int| 0 <= k < old(self).indexes@[t as int]@.len() ==> column_position(
                old(self).tables@[t as int].columns@,
                (#[trigger] old(self).indexes@[t as int]@[k]).column_name@,
            ) == Some(old(self).indexes@[t as int]@[k].column_index as int),
        ensures
            final(self).tables == old(self).tables,
            final(self).indexes@.len() == old(self).indexes@.len(),
            forall|j: int| 0 <= j < old(self).indexes@.len() && j != t ==> final(self).indexes@[j] == old(self).indexes@[j],
            final(self).indexes@[t as int]@.len() == old(self).indexes@[t as int]@.len(),
            forall|k: int| 0 <= k < old(self).indexes@[t as int]@.len() ==> (#[trigger] final(self).indexes@[t as int]@[k]).column_name == old(self).indexes@[t as int]@[k].column_name
                && final(self).indexes@[t as int]@[k].column_index == old(self).indexes@[t as int]@[k].column_index,
            forall|k: int| 0 <= k < old(self).indexes@[t as int]@.len() ==> index_fits(#[trigger] final(self).indexes@[t as int]@[k], final(self).tables@[t as int]),
    {
        let nk = self.indexes[t].len();
        let mut k: usize = 0;
        while k < nk
            invariant
                t < self.tables@.len(),
                t < self.indexes@.len(),
                self.tables == old(self).tables,
                k <= nk,
                nk == old(self).indexes@[t as int]@.len(),
                self.indexes@.len() == old(self).indexes@.len(),
                forall|j: int| 0 <= j < self.indexes@.len() && j != t ==> self.indexes@[j] == old(self).indexes@[j],
                self.indexes@[t as int]@.len() == nk,
                forall|kk: int| 0 <= kk < nk ==> (#[trigger] self.indexes@[t as int]@[kk]).column_name == old(self).indexes@[t as int]@[kk].column_name
                    && self.indexes@[t as int]@[kk].column_index == old(self).indexes@[t as int]@[kk].column_index,
                forall|kk: int| 0 <= kk < nk ==> column_position(
                    old(self).tables@[t as int].columns@,
                    (#[trigger] old(self).indexes@[t as int]@[kk]).column_name@,
                ) == Some(old(self).indexes@[t as int]@[kk].column_index as int),
                forall|kk: int| 0 <= kk < k ==> index_fits(#[trigger] self.indexes@[t as int]@[kk], self.tables@[t as int]),
            decreases nk - k,
        {
            proof {
                lemma_index_model(rows_model(self.tables@[t as int].rows@), self.indexes@[t as int]@[k as int].column_index as int);
            }
            self.indexes[t][k].build(&self.tables[t].rows);
            k = k + 1;
        }
    }

    /// Removes the rows a filter targets (every row without a filter), in
    /// descending position order, then rebuilds every index of the table.
    /// Answers how many rows were removed.
    pub fn delete_rows(&mut self, table_name: &str, filter: Option<&WhereClause>) -> (r: Result<usize, DbError>)
        requires
            old(self).wf(),
        ensures
            final(self).wf(),
            Database::delete_rows_outcome(*old(self), *final(self), table_name@, filter, r),

    {
        proof {
            lemma_table_from(self.tables@, table_name@, 0);
        }
        let t = match self.find_table(table_name) {
            Some(t) => t,
            None => {
                return Err(DbError::NoSuchTable(String::from_str(table_name)));
            },
        };
        let ghost cols = self.tables@[t as int].columns@;
        let fc: usize = match filter {
            Some(w) => match self.tables[t].get_column_index(w.column.as_str()) {
                Some(c) => c,
                None => {
                    return Err(DbError::NoSuchColumn(w.column.clone()));
                },
            },
            None => 0,
        };
        let ghost f = resolve(cols, filter);
        let ghost old_rows = self.tables@[t as int].rows@;
        let mut i: usize = self.tables[t].rows.len();
        let mut count: usize = 0;
        assert(old_rows.take(i as int) =~= old_rows);
        assert(old_rows.skip(i as int) =~= Seq::<Vec<Value>>::empty());
        while i > 0
            invariant
                t < self.tables@.len(),
                i <= old_rows.len(),
                self.tables@.len() == old(self).tables@.len(),
                forall|j: int| 0 <= j < self.tables@.len() && j != t ==> self.tables@[j] == old(self).tables@[j],
                self.tables@[t as int].name == old(self).tables@[t as int].name,
                self.tables@[t as int].columns == old(self).tables@[t as int].columns,
                self.indexes == old(self).indexes,
                cols == old(self).tables@[t as int].columns@,
                old_rows == old(self).tables@[t as int].rows@,
                old(self).wf(),
                f == resolve(cols, filter),
                !filter_unknown(cols, filter),
                filter matches Some(w) ==> column_position(cols, w.column@) == Some(fc as int),
                self.tables@[t as int].rows@ == old_rows.take(i as int) + kept_rows(old_rows.skip(i as int), f),
                count == hit_count(old_rows.skip(i as int), f),
                count + i <= old_rows.len(),
                old_rows.len() <= usize::MAX,
            decreases i,
        {
            let hit = match filter {
                Some(w) => fc < self.tables[t].rows[i - 1].len() && compare_values(&self.tables[t].rows[i - 1][fc], &w.operator, &w.value),
                None => true,
            };
            proof {
                assert(self.tables@[t as int].rows@[i - 1] == old_rows[i - 1]);
                assert(old_rows.skip(i - 1).drop_first() =~= old_rows.skip(i as int));
                assert(old_rows.skip(i - 1)[0] == old_rows[i - 1]);
                assert(hit == row_hit(old_rows[i - 1]@, f));
            }
            if hit {
                self.tables[t].rows.remove(i - 1);
                count = count + 1;
                assert(self.tables@[t as int].rows@ =~= old_rows.take(i - 1) + kept_rows(old_rows.skip(i - 1), f));
            } else {
                assert(old_rows.take(i as int) =~= old_rows.take(i - 1) + seq![old_rows[i - 1]]);
                assert(self.tables@[t as int].rows@ =~= old_rows.take(i - 1) + kept_rows(old_rows.skip(i - 1), f));
            }
            i = i - 1;
        }
        proof {
            assert(old_rows.take(0) =~= Seq::<Vec<Value>>::empty());
            assert(old_rows.skip(0) =~= old_rows);
            assert(self.tables@[t as int].rows@ =~= kept_rows(old_rows, f));
            lemma_kept_rows_conform(old_rows, f, cols);
            assert forall|k: int| 0 <= k < self.indexes@[t as int]@.len() implies column_position(
                self.tables@[t as int].columns@,
                (#[trigger] self.indexes@[t as int]@[k]).column_name@,
            ) == Some(self.indexes@[t as int]@[k].column_index as int) by {
                assert(index_fits(old(self).indexes@[t as int]@[k], old(self).tables@[t as int]));
            }
        }
        self.rebuild_indexes(t);
        proof {
            self.lemma_wf_after_rows_changed(*old(self), t as int);
        }
        Ok(count)
    }

    /// Sets the value at a column in every row a filter targets (every row
    /// without a filter). When that column has an index, rebuilds every index of
    /// the table. Answers how many rows were updated.
    pub fn update_rows(
        &mut self,
        table_name: &str,
        column_name: &str,
        new_value: Value,
        filter: Option<&WhereClause>,
    ) -> (r: Result<usize, DbError>)
        requires
            old(self).wf(),
        ensures
            final(self).wf(),
            Database::update_rows_outcome(*old(self), *final(self), table_name@, column_name@, new_value, filter, r),

    {
        proof {
            lemma_table_from(self.tables@, table_name@, 0);
        }
        let t = match self.find_table(table_name) {
            Some(t) => t,
            None => {
                return Err(DbError::NoSuchTable(String::from_str(table_name)));
            },
        };
        let ghost cols = self.tables@[t as int].columns@;
        proof {
            lemma_column_from(cols, column_name@, 0);
        }
        let uc = match self.tables[t].get_column_index(column_name) {
            Some(c) => c,
            None => {
                return Err(DbError::NoSuchColumn(String::from_str(column_name)));
            },
        };
        if !new_value.is_compatible(self.tables[t].columns[uc].data_type) {
            return Err(DbError::TypeMismatch(String::from_str(column_name)));
        }
        let fc: usize = match filter {
            Some(w) => match self.tables[t].get_column_index(w.column.as_str()) {
                Some(c) => c,
                None => {
                    return Err(DbError::NoSuchColumn(w.column.clone()));
                },
            },
            None => 0,
        };
        let ghost f = resolve(cols, filter);
        let ghost old_rows = self.tables@[t as int].rows@;
        let n = self.tables[t].rows.len();
        let mut p: usize = 0;
        let mut count: usize = 0;
        while p < n
            invariant
                t < self.tables@.len(),
                p <= n,
                n == old_rows.len(),
                uc < cols.len(),
                compatible(new_value@, cols[uc as int].data_type),
                self.tables@.len() == old(self).tables@.len(),
                forall|j: int| 0 <= j < self.tables@.len() && j != t ==> self.tables@[j] == old(self).tables@[j],
                self.tables@[t as int].name == old(self).tables@[t as int].name,
                self.tables@[t as int].columns == old(self).tables@[t as int].columns,
                self.indexes == old(self).indexes,
                cols == old(self).tables@[t as int].columns@,
                old_rows == old(self).tables@[t as int].rows@,
                old(self).wf(),
                f == resolve(cols, filter),
                !filter_unknown(cols, filter),
                filter matches Some(w) ==> column_position(cols, w.column@) == Some(fc as int),
                self.tables@[t as int].rows@.len() == n,
                forall|q: int| 0 <= q < p ==> (#[trigger] self.tables@[t as int].rows@[q])@ == updated_row(old_rows[q]@, f, uc as int, new_value),
                forall|q: int| p <= q < n ==> #[trigger] self.tables@[t as int].rows@[q] == old_rows[q],
                count == hit_count(old_rows.take(p as int), f),
                count <= p,
            decreases n - p,
        {
            assert(self.tables@[t as int].rows@[p as int] == old_rows[p as int]);
            assert(row_conforms(cols, old_rows[p as int]@));
            let hit = match filter {
                Some(w) => fc < self.tables[t].rows[p].len() && compare_values(&self.tables[t].rows[p][fc], &w.operator, &w.value),
                None => true,
            };
            proof {
                assert(hit == row_hit(old_rows[p as int]@, f));
                assert(old_rows.take(p + 1) =~= old_rows.take(p as int).push(old_rows[p as int]));
                lemma_hit_count_push(old_rows.take(p as int), old_rows[p as int], f);
            }
            if hit {
                self.tables[t].rows[p][uc] = new_value.copy();
                count = count + 1;
            }
            assert(self.tables@[t as int].rows@[p as int]@ =~= updated_row(old_rows[p as int]@, f, uc as int, new_value));
            p = p + 1;
        }
        assert(old_rows.take(n as int) =~= old_rows);
        proof {
            assert forall|q: int| 0 <= q < n implies row_conforms(cols, #[trigger] self.tables@[t as int].rows@[q]@) by {
                assert(row_conforms(cols, old_rows[q]@));
            }
        }
        let mut has_index = false;
        let mut k: usize = 0;
        while k < self.indexes[t].len()
            invariant
                t < self.indexes@.len(),
                k <= self.indexes@[t as int]@.len(),
                has_index == (exists|kk: int| 0 <= kk < k && (#[trigger] self.indexes@[t as int]@[kk]).column_name@ == column_name@),
            decreases self.indexes@[t as int]@.len() - k,
        {
            if text_equal(self.indexes[t][k].column_name.as_str(), column_name) {
                has_index = true;
            }
            k = k + 1;
        }
        proof {
            assert forall|k: int| 0 <= k < self.indexes@[t as int]@.len() implies column_position(
                self.tables@[t as int].columns@,
                (#[trigger] self.indexes@[t as int]@[k]).column_name@,
            ) == Some(self.indexes@[t as int]@[k].column_index as int) by {
                assert(index_fits(old(self).indexes@[t as int]@[k], old(self).tables@[t as int]));
            }
        }
        if has_index {
            self.rebuild_indexes(t);
        } else {
            proof {
                assert forall|k: int| 0 <= k < self.indexes@[t as int]@.len() implies index_fits(#[trigger] self.indexes@[t as int]@[k], self.tables@[t as int]) by {
                    let idx = self.indexes@[t as int]@[k];
                    assert(index_fits(idx, old(self).tables@[t as int]));
                    lemma_column_from(cols, idx.column_name@, 0);
                    assert(idx.column_name@ != column_name@);
                    assert(idx.column_index != uc);
                    lemma_index_model_same_column(old_rows, self.tables@[t as int].rows@, idx.column_index as int);
                }
            }
        }
        proof {
            self.lemma_wf_after_rows_changed(*old(self), t as int);
        }
        Ok(count)
    }

    /// Builds an index on a column of a table from its current rows, replacing
    /// any index already on that column.
    pub fn create_index(&mut self, table_name: &str, column_name: &str) -> (r: Result<(), DbError>)
        requires
            old(self).wf(),
        ensures
            final(self).wf(),
            Database::create_index_outcome(*old(self), *final(self), table_name@, column_name@, r),

    {
        proof {
            lemma_table_from(self.tables@, table_name@, 0);
        }
        let t = match self.find_table(table_name) {
            Some(t) => t,
            None => {
                return Err(DbError::NoSuchTable(String::from_str(table_name)));
            },
        };
        let c = match self.tables[t].get_column_index(column_name) {
            Some(c) => c,
            None => {
                return Err(DbError::NoSuchColumn(String::from_str(column_name)));
            },
        };
        proof {
            lemma_column_from(self.tables@[t as int].columns@, column_name@, 0);
        }
        let mut index = Index::new(String::from_str(column_name), c);
        index.build(&self.tables[t].rows);
        proof {
            lemma_index_model(rows_model(self.tables@[t as int].rows@), c as int);
            assert(index_fits(index, self.tables@[t as int]));
        }
        let mut k: usize = 0;
        while k < self.indexes[t].len()
            invariant
                t < self.indexes@.len(),
                k <= self.indexes@[t as int]@.len(),
                index_from(self.indexes@[t as int]@, column_name@, k as int) == index_from(self.indexes@[t as int]@, column_name@, 0),
            ensures
                k <= self.indexes@[t as int]@.len(),
                index_from(self.indexes@[t as int]@, column_name@, k as int) == index_from(self.indexes@[t as int]@, column_name@, 0),
                k < self.indexes@[t as int]@.len() ==> self.indexes@[t as int]@[k as int].column_name@ == column_name@,
            decreases self.indexes@[t as int]@.len() - k,
        {
            if text_equal(self.indexes[t][k].column_name.as_str(), column_name) {
                break;
            }
            k = k + 1;
        }
        proof {
            lemma_index_from(self.indexes@[t as int]@, column_name@, 0);
            lemma_index_from(self.indexes@[t as int]@, column_name@, k as int);
        }
        let ghost olds = self.indexes@[t as int]@;
        if k < self.indexes[t].len() {
            self.indexes[t][k] = index;
            proof {
                let news = self.indexes@[t as int]@;
                assert(index_from(olds, column_name@, k as int) == Some(k as int));
                assert(olds[k as int].column_name@ == column_name@);
                assert(news[k as int].column_name@ == column_name@);
                assert forall|kk: int| 0 <= kk < olds.len() && kk != k implies news[kk] == olds[kk] by {}
                assert forall|k1: int, k2: int| 0 <= k1 < k2 < olds.len() implies
                    #[trigger] news[k1].column_name@ != #[trigger] news[k2].column_name@ by {
                    assert(olds[k1].column_name@ != olds[k2].column_name@);
                    if k1 != k {
                        assert(news[k1] == olds[k1]);
                    }
                    if k2 != k {
                        assert(news[k2] == olds[k2]);
                    }
                }
            }
        } else {
            self.indexes[t].push(index);
            proof {
                assert(self.indexes@[t as int]@.drop_last() =~= olds);
                assert forall|k1: int, k2: int| 0 <= k1 < k2 < olds.len() + 1 implies
                    #[trigger] self.indexes@[t as int]@[k1].column_name@ != #[trigger] self.indexes@[t as int]@[k2].column_name@ by {
                    assert(self.indexes@[t as int]@[k1] == olds[k1]);
                    if k2 < olds.len() {
                        assert(old(self).indexes@[t as int]@[k1].column_name@ != old(self).indexes@[t as int]@[k2].column_name@);
                    }
                }
            }
        }
        proof {
            let news = self.indexes@[t as int]@;
            assert(news[k as int].column_name@ == column_name@);
            assert(news[k as int].column_index == c);
            assert forall|tt: int, kk: int| 0 <= tt < self.tables@.len() && 0 <= kk < self.indexes@[tt]@.len() implies index_fits(#[trigger] self.indexes@[tt]@[kk], self.tables@[tt]) by {
                if tt != t {
                    assert(self.indexes@[tt] == old(self).indexes@[tt]);
                } else if kk != k {
                    assert(news[kk] == olds[kk]);
                }
            }
            assert forall|tt: int, k1: int, k2: int| 0 <= tt < self.tables@.len() && 0 <= k1 < k2 < self.indexes@[tt]@.len() implies
                #[trigger] self.indexes@[tt]@[k1].column_name@ != #[trigger] self.indexes@[tt]@[k2].column_name@ by {
                if tt != t {
                    assert(self.indexes@[tt] == old(self).indexes@[tt]);
                }
            }
        }
        Ok(())
    }

    /// Positions of the rows that `w` selects from table `t`. With an index on the
    /// filter's column, equality, greater-than and less-than are answered by the
    /// index (in key order); otherwise the rows are scanned in position order.
    pub open spec fn answer_positions(&self, t: int, w: &WhereClause) -> Seq<usize> {
        let tb = self.tables@[t];
        let fc = column_position(tb.columns@, w.column@).unwrap();
        let scan = scan_positions(tb.rows@, Some((fc, w.operator, w.value@)));
        match index_from(self.indexes@[t]@, w.column@, 0) {
            Some(k) => {
                let m = self.indexes@[t]@[k].model();
                match w.operator {
                    Operator::Equals => lookup_answer(m, w.value@),
                    Operator::GreaterThan => gather(m, above(key_of(w.value@))),
                    Operator::LessThan => gather(m, below(key_of(w.value@))),
                    _ => scan,
                }
            },
            None => scan,
        }
    }

    /// Copies of the rows of table `t` at positions `ps`, in that order.
    fn pick(&self, t: usize, ps: &Vec<usize>) -> (r: Vec<Vec<Value>>)
        requires
            t < self.tables@.len(),
        ensures
            row_views(r@) == pick_rows(row_views(self.tables@[t as int].rows@), ps@),
    {
        let ghost rows = row_views(self.tables@[t as int].rows@);
        let mut r: Vec<Vec<Value>> = Vec::new();
        let mut i: usize = 0;
        while i < ps.len()
            invariant
                t < self.tables@.len(),
                rows == row_views(self.tables@[t as int].rows@),
                i <= ps@.len(),
                row_views(r@) == pick_rows(rows, ps@.take(i as int)),
            decreases ps.len() - i,
        {
            proof {
                assert(ps@.take(i + 1).drop_last() =~= ps@.take(i as int));
                assert(ps@.take(i + 1).last() == ps@[i as int]);
            }
            let p = ps[i];
            if p < self.tables[t].rows.len() {
                r.push(copy_row(&self.tables[t].rows[p]));
                assert(row_views(r@) =~= pick_rows(rows, ps@.take(i as int)).push(rows[p as int]));
            }
            i = i + 1;
        }
        assert(ps@.take(ps@.len() as int) =~= ps@);
        r
    }

    /// Copies of the rows of table `t` that the resolved filter targets, in position order.
    fn scan_rows(&self, t: usize, fc: usize, w: &WhereClause) -> (r: Vec<Vec<Value>>)
        requires
            t < self.tables@.len(),
        ensures
            row_views(r@) == pick_rows(
                row_views(self.tables@[t as int].rows@),
                scan_positions(self.tables@[t as int].rows@, Some((fc as int, w.operator, w.value@))),
            ),
    {
        let ghost rows = self.tables@[t as int].rows@;
        let ghost f: Filter = Some((fc as int, w.operator, w.value@));
        let mut r: Vec<Vec<Value>> = Vec::new();
        let mut p: usize = 0;
        assert(rows.take(0) =~= Seq::<Vec<Value>>::empty());
        while p < self.tables[t].rows.len()
            invariant
                t < self.tables@.len(),
                rows == self.tables@[t as int].rows@,
                f == Some((fc as int, w.operator, w.value@)),
                p <= rows.len(),
                row_views(r@) == pick_rows(row_views(rows), scan_positions(rows.take(p as int), f)),
            decreases rows.len() - p,
        {
            proof {
                assert(rows.take(p + 1).drop_last() =~= rows.take(p as int));
                assert(rows.take(p + 1).last() == rows[p as int]);
            }
            let row = &self.tables[t].rows[p];
            let hit = fc < row.len() && compare_values(&row[fc], &w.operator, &w.value);
            assert(hit == row_hit(rows[p as int]@, f));
            if hit {
                r.push(copy_row(row));
                proof {
                    let ps = scan_positions(rows.take(p as int), f);
                    assert(ps.push(p).drop_last() =~= ps);
                    assert(row_views(r@) =~= pick_rows(row_views(rows), ps).push(row_views(rows)[p as int]));
                }
            }
            p = p + 1;
        }
        assert(rows.take(rows.len() as int) =~= rows);
        r
    }

    /// Copies of the rows of table `t` that `w` selects, using an index where one applies.
    fn filter_rows(&self, t: usize, w: &WhereClause) -> (r: Result<Vec<Vec<Value>>, DbError>)
        requires
            self.wf(),
            t < self.tables@.len(),
        ensures
            match column_position(self.tables@[t as int].columns@, w.column@) {
                None => match r {
                    Err(DbError::NoSuchColumn(s)) => s@ == w.column@,
                    _ => false,
                },
                Some(_) => match r {
                    Ok(rows) => row_views(rows@) == pick_rows(row_views(self.tables@[t as int].rows@), self.answer_positions(t as int, w)),
                    Err(_) => false,
                },
            },
    {
        let fc = match self.tables[t].get_column_index(w.column.as_str()) {
            Some(c) => c,
            None => {
                return Err(DbError::NoSuchColumn(w.column.clone()));
            },
        };
        let mut k: usize = 0;
        while k < self.indexes[t].len()
            invariant
                t < self.indexes@.len(),
                k <= self.indexes@[t as int]@.len(),
                index_from(self.indexes@[t as int]@, w.column@, k as int) == index_from(self.indexes@[t as int]@, w.column@, 0),
            ensures
                k <= self.indexes@[t as int]@.len(),
                index_from(self.indexes@[t as int]@, w.column@, k as int) == index_from(self.indexes@[t as int]@, w.column@, 0),
                k < self.indexes@[t as int]@.len() ==> self.indexes@[t as int]@[k as int].column_name@ == w.column@,
            decreases self.indexes@[t as int]@.len() - k,
        {
            if text_equal(self.indexes[t][k].column_name.as_str(), w.column.as_str()) {
                break;
            }
            k = k + 1;
        }
        proof {
            lemma_index_from(self.indexes@[t as int]@, w.column@, k as int);
        }
        if k < self.indexes[t].len() {
            self.filter_with_index(t, k, fc, w)
        } else {
            Ok(self.scan_rows(t, fc, w))
        }
    }

    /// Answers `w` from index `k` of table `t` when its operator is equality,
    /// greater-than or less-than; scans the table otherwise.
    fn filter_with_index(&self, t: usize, k: usize, fc: usize, w: &WhereClause) -> (r: Result<Vec<Vec<Value>>, DbError>)
        requires
            t < self.tables@.len(),
            t < self.indexes@.len(),
            k < self.indexes@[t as int]@.len(),
            index_from(self.indexes@[t as int]@, w.column@, 0) == Some(k as int),
            column_position(self.tables@[t as int].columns@, w.column@) == Some(fc as int),
        ensures
            match r {
                Ok(rows) => row_views(rows@) == pick_rows(row_views(self.tables@[t as int].rows@), self.answer_positions(t as int, w)),
                Err(_) => false,
            },
    {
        let index = &self.indexes[t][k];
        match w.operator {
            Operator::Equals => match index.lookup(&w.value) {
                Some(ps) => Ok(self.pick(t, ps)),
                None => {
                    let empty: Vec<usize> = Vec::new();
                    Ok(self.pick(t, &empty))
                },
            },
            Operator::GreaterThan => {
                let ps = index.greater_than(&w.value);
                Ok(self.pick(t, &ps))
            },
            Operator::LessThan => {
                let ps = index.less_than(&w.value);
                Ok(self.pick(t, &ps))
            },
            _ => Ok(self.scan_rows(t, fc, w)),
        }
    }

    /// The names of the columns, in schema order.
    fn column_names(cols: &Vec<Column>) -> (r: Vec<String>)
        ensures
            r@.len() == cols@.len(),
            forall|i: int| 0 <= i < r@.len() ==> (#[trigger] r@[i])@ == cols@[i].name@,
    {
        let mut r: Vec<String> = Vec::new();
        let mut i: usize = 0;
        while i < cols.len()
            invariant
                i <= cols@.len(),
                r@.len() == i,
                forall|j: int| 0 <= j < i ==> (#[trigger] r@[j])@ == cols@[j].name@,
            decreases cols.len() - i,
        {
            r.push(cols[i].name.clone());
            i = i + 1;
        }
        r
    }

    /// All column names of a table and a copy of all its rows.
    pub fn select_all(&self, table_name: &str) -> (r: Result<(Vec<String>, Vec<Vec<Value>>), DbError>)
        ensures
            Database::select_all_outcome(*self, table_name@, r),

    {
        proof {
            lemma_table_from(self.tables@, table_name@, 0);
        }
        let t = match self.find_table(table_name) {
            Some(t) => t,
            None => {
                return Err(DbError::NoSuchTable(String::from_str(table_name)));
            },
        };
        let names = Database::column_names(&self.tables[t].columns);
        let mut rows: Vec<Vec<Value>> = Vec::new();
        let mut p: usize = 0;
        while p < self.tables[t].rows.len()
            invariant
                t < self.tables@.len(),
                p <= self.tables@[t as int].rows@.len(),
                rows@.len() == p,
                forall|q: int| 0 <= q < p ==> (#[trigger] rows@[q])@ == self.tables@[t as int].rows@[q]@,
            decreases self.tables@[t as int].rows@.len() - p,
        {
            rows.push(copy_row(&self.tables[t].rows[p]));
            p = p + 1;
        }
        assert(row_views(rows@) =~= row_views(self.tables@[t as int].rows@));
        Ok((names, rows))
    }

    /// The requested columns (every column when none is named) of the rows a
    /// filter selects (every row without one), in the order the filter answers them.
    pub fn select_with_filter(&self, table_name: &str, columns: Vec<String>, filter: Option<&WhereClause>) -> (r: Result<(Vec<String>, Vec<Vec<Value>>), DbError>)
        requires
            self.wf(),
        ensures
            Database::select_with_filter_outcome(*self, table_name@, columns, filter, r),

    {
        proof {
            lemma_table_from(self.tables@, table_name@, 0);
        }
        let t = match self.find_table(table_name) {
            Some(t) => t,
            None => {
                return Err(DbError::NoSuchTable(String::from_str(table_name)));
            },
        };
        let ghost cols = self.tables@[t as int].columns@;
        let ghost cs = requested_positions(cols, columns@);
        let mut col_indices: Vec<usize> = Vec::new();
        let names: Vec<String>;
        if columns.len() == 0 {
            let mut j: usize = 0;
            while j < self.tables[t].columns.len()
                invariant
                    t < self.tables@.len(),
                    cols == self.tables@[t as int].columns@,
                    columns@.len() == 0,
                    cs == requested_positions(cols, columns@),
                    j <= cols.len(),
                    col_indices@ == cs.take(j as int),
                decreases cols.len() - j,
            {
                col_indices.push(j);
                j = j + 1;
                assert(col_indices@ =~= cs.take(j as int));
            }
            names = Database::column_names(&self.tables[t].columns);
            proof {
                assert(cs.take(cols.len() as int) =~= cs);
            }
        } else {
            let mut j: usize = 0;
            while j < columns.len()
                invariant
                    t < self.tables@.len(),
                    cols == self.tables@[t as int].columns@,
                    columns@.len() > 0,
                    cs == requested_positions(cols, columns@),
                    j <= columns@.len(),
                    col_indices@ == cs.take(j as int),
                    unknown_from(cols, columns@, j as int) == unknown_from(cols, columns@, 0),
                    self.table_position(table_name@) == Some(t as int),
                decreases columns.len() - j,
            {
                match self.tables[t].get_column_index(columns[j].as_str()) {
                    Some(c) => {
                        col_indices.push(c);
                    },
                    None => {
                        return Err(DbError::NoSuchColumn(columns[j].clone()));
                    },
                }
                j = j + 1;
                assert(col_indices@ =~= cs.take(j as int));
            }
            proof {
                assert(self.tables@[t as int].columns.len() == cols.len());
                assert(cs.take(columns@.len() as int) =~= cs);
                assert forall|i: int| 0 <= i < columns@.len() implies cs[i] as int == column_position(cols, columns@[i]@).unwrap() by {
                    lemma_unknown_from(cols, columns@, 0);
                    lemma_column_from(cols, columns@[i]@, 0);
                    assert(column_position(cols, columns@[i]@).unwrap() < cols.len());
                }
                assert forall|i: int| 0 <= i < columns@.len() implies cols[cs[i] as int].name@ == columns@[i]@ by {
                    lemma_unknown_from(cols, columns@, 0);
                    lemma_column_from(cols, columns@[i]@, 0);
                }
            }
            names = columns;
        }
        let source = match filter {
            Some(w) => match self.filter_rows(t, w) {
                Ok(rows) => rows,
                Err(e) => {
                    return Err(e);
                },
            },
            None => {
                let mut all: Vec<Vec<Value>> = Vec::new();
                let mut p: usize = 0;
                while p < self.tables[t].rows.len()
                    invariant
                        t < self.tables@.len(),
                        p <= self.tables@[t as int].rows@.len(),
                        all@.len() == p,
                        forall|q: int| 0 <= q < p ==> (#[trigger] all@[q])@ == self.tables@[t as int].rows@[q]@,
                    decreases self.tables@[t as int].rows@.len() - p,
                {
                    all.push(copy_row(&self.tables[t].rows[p]));
                    p = p + 1;
                }
                assert(row_views(all@) =~= row_views(self.tables@[t as int].rows@));
                all
            },
        };
        let ghost picked = row_views(source@);
        let mut result: Vec<Vec<Value>> = Vec::new();
        let mut i: usize = 0;
        while i < source.len()
            invariant
                i <= source@.len(),
                picked == row_views(source@),
                picked.len() == source@.len(),
                col_indices@ == cs,
                result@.len() == i,
                forall|q: int| 0 <= q < i ==> (#[trigger] result@[q])@ == project(picked[q], cs),
            decreases source.len() - i,
        {
            let row = &source[i];
            let mut out: Vec<Value> = Vec::new();
            let mut j: usize = 0;
            while j < col_indices.len()
                invariant
                    j <= cs.len(),
                    col_indices@ == cs,
                    row@ == picked[i as int],
                    out@ == project(row@, cs).take(j as int),
                decreases col_indices.len() - j,
            {
                let c = col_indices[j];
                if c < row.len() {
                    out.push(row[c].copy());
                } else {
                    out.push(Value::Null);
                }
                j = j + 1;
                assert(out@ =~= project(row@, cs).take(j as int));
            }
            assert(out@ =~= project(row@, cs));
            result.push(out);
            i = i + 1;
        }
        Ok((names, result))
    }

    /// After a change to the rows of table `t` alone that keeps them fitting and
    /// leaves every index of the table holding what a fresh build would, the
    /// database is well formed.
    proof fn lemma_wf_after_rows_changed(&self, old_db: Database, t: int)
        requires
            old_db.wf(),
            0 <= t < old_db.tables@.len(),
            Database::only_rows_changed(old_db, *self, t),
            self.tables@[t].wf(),
            forall|k: int| 0 <= k < self.indexes@[t]@.len() ==> index_fits(#[trigger] self.indexes@[t]@[k], self.tables@[t]),
        ensures
            self.wf(),
    {
        assert forall|tt: int| 0 <= tt < self.tables@.len() implies (#[trigger] self.tables@[tt]).wf() by {
            if tt != t {
                assert(self.tables@[tt] == old_db.tables@[tt]);
            }
        }
        assert forall|tt: int, kk: int| 0 <= tt < self.tables@.len() && 0 <= kk < self.indexes@[tt]@.len() implies index_fits(#[trigger] self.indexes@[tt]@[kk], self.tables@[tt]) by {
            if tt != t {
                assert(self.tables@[tt] == old_db.tables@[tt]);
                assert(self.indexes@[tt] == old_db.indexes@[tt]);
            }
        }
        assert forall|tt: int, k1: int, k2: int| 0 <= tt < self.tables@.len() && 0 <= k1 < k2 < self.indexes@[tt]@.len() implies
            #[trigger] self.indexes@[tt]@[k1].column_name@ != #[trigger] self.indexes@[tt]@[k2].column_name@ by {
            if tt != t {
                assert(self.indexes@[tt] == old_db.indexes@[tt]);
            } else {
                assert(self.indexes@[tt]@[k1].column_name == old_db.indexes@[tt]@[k1].column_name);
                assert(self.indexes@[tt]@[k2].column_name == old_db.indexes@[tt]@[k2].column_name);
            }
        }
        assert forall|a: int, b: int| 0 <= a < b < self.tables@.len() implies #[trigger] self.tables@[a].name@ != #[trigger] self.tables@[b].name@ by {
            if a != t {
                assert(self.tables@[a] == old_db.tables@[a]);
            }
            if b != t {
                assert(self.tables@[b] == old_db.tables@[b]);
            }
        }
    }

    /// The names of all tables, in creation order.
    pub fn list_tables(&self) -> (r: Vec<String>)
        ensures
            r@.len() == self.tables@.len(),
            forall|i: int| 0 <= i < r@.len() ==> (#[trigger] r@[i])@ == self.tables@[i].name@,
    {
        let mut r: Vec<String> = Vec::new();
        let mut i: usize = 0;
        while i < self.tables.len()
            invariant
                i <= self.tables@.len(),
                r@.len() == i,
                forall|j: int| 0 <= j < i ==> (#[trigger] r@[j])@ == self.tables@[j].name@,
            decreases self.tables.len() - i,
        {
            r.push(self.tables[i].name.clone());
            i = i + 1;
        }
        r
    }
}

/// In a well-formed database every row of every table has one value per
/// column, each null or of that column's declared type.
pub proof fn lemma_rows_fit_columns(db: Database, t: int, p: int)
    requires
        db.wf(),
        0 <= t < db.tables@.len(),
        0 <= p < db.tables@[t].rows@.len(),
    ensures
        db.tables@[t].rows@[p]@.len() == db.tables@[t].columns@.len(),
        forall|i: int| 0 <= i < db.tables@[t].columns@.len() ==> compatible(
            (#[trigger] db.tables@[t].rows@[p]@[i])@,
            db.tables@[t].columns@[i].data_type,
        ),
{
    assert(db.tables@[t].wf());
    assert(row_conforms(db.tables@[t].columns@, db.tables@[t].rows@[p]@));
}

/// In a well-formed database, looking a value up in an index of a table
/// answers exactly the positions whose row holds an equal value (`datum_eq`:
/// same kind, floats compared numerically) at the index's column, in
/// ascending order, and nothing when no row holds one. Every operation of
/// `Database` keeps the database well formed, so this holds after every
/// insert, delete and update.
pub proof fn lemma_index_lookup_exact(db: Database, t: int, k: int, v: Datum)
    requires
        db.wf(),
        0 <= t < db.tables@.len(),
        0 <= k < db.indexes@[t]@.len(),
    ensures
        forall|p: usize| #[trigger] lookup_answer(db.indexes@[t]@[k].model(), v).contains(p) <==> (p
            < db.tables@[t].rows@.len() && datum_eq(db.tables@[t].rows@[p as int]@[db.indexes@[t]@[k].column_index as int]@, v)),
        forall|i: int, j: int| 0 <= i < j < lookup_answer(db.indexes@[t]@[k].model(), v).len() ==>
            #[trigger] lookup_answer(db.indexes@[t]@[k].model(), v)[i] < #[trigger] lookup_answer(db.indexes@[t]@[k].model(), v)[j],
        (datum_is_nan(v) || lookup_model(db.indexes@[t]@[k].model(), key_of(v)) is None) == (lookup_answer(db.indexes@[t]@[k].model(), v).len() == 0),
{
    let tb = db.tables@[t];
    let idx = db.indexes@[t]@[k];
    let c = idx.column_index as int;
    let rm = rows_model(tb.rows@);
    assert(index_fits(idx, tb));
    lemma_column_from(tb.columns@, idx.column_name@, 0);
    assert(tb.rows.len() == tb.rows@.len());
    lemma_lookup_exact(rm, c, key_of(v));
    assert forall|p: usize| #[trigger] lookup_answer(idx.model(), v).contains(p) <==> (p < tb.rows@.len()
        && datum_eq(tb.rows@[p as int]@[c]@, v)) by {
        if p < tb.rows@.len() {
            assert(tb.wf());
            assert(row_conforms(tb.columns@, tb.rows@[p as int]@));
            assert(rm[p as int] == row_model(tb.rows@[p as int]));
            if !datum_is_nan(v) {
                lemma_key_of_eq(tb.rows@[p as int]@[c]@, v);
            }
        }
        if datum_is_nan(v) {
            assert(lookup_answer(idx.model(), v) =~= Seq::<usize>::empty());
        }
    }
}

/// For a value that is not a NaN, sharing its key is being equal to it.
pub proof fn lemma_key_of_eq(a: Datum, v: Datum)
    requires
        !datum_is_nan(v),
    ensures
        (key_of(a) == key_of(v)) == datum_eq(a, v),
{
}

/// In a well-formed database every index holds exactly what building it
/// afresh from its table's current rows gives (`Index::build`); so after
/// `delete_rows`, which keeps the database well formed, rebuilding any index
/// changes nothing.
pub proof fn lemma_index_equals_rebuild(db: Database, t: int, k: int)
    requires
        db.wf(),
        0 <= t < db.tables@.len(),
        0 <= k < db.indexes@[t]@.len(),
    ensures
        db.indexes@[t]@[k].model() == index_model(
            rows_model(db.tables@[t].rows@),
            db.indexes@[t]@[k].column_index as int,
        ),
{
    assert(index_fits(db.indexes@[t]@[k], db.tables@[t]));
}

} // verus!
