//! Values, column types and the comparison rules that filters and indexes use.
use vstd::prelude::*;

verus! {

/// Declared type of a column.
#[derive(Clone, Copy, Debug, PartialEq, Eq, Structural)]
pub enum DataType {
    Int,
    Text,
    Float,
}

/// A column: its name and declared type.
#[derive(Clone, Debug, PartialEq)]
pub struct Column {
    pub name: String,
    pub data_type: DataType,
}

/// A stored value. A float is held as its IEEE-754 binary64 bit pattern.
#[derive(Clone, Debug, PartialEq)]
pub enum Value {
    Int(i64),
    Text(String),
    Float(u64),
    Null,
}

/// Mathematical model of a `Value`: text becomes its character sequence.
pub enum Datum {
    Int(i64),
    Text(Seq<char>),
    Float(u64),
    Null,
}

impl View for Value {
    type V = Datum;

    open spec fn view(&self) -> Datum {
        match self {
            Value::Int(n) => Datum::Int(*n),
            Value::Text(s) => Datum::Text(s@),
            Value::Float(b) => Datum::Float(*b),
            Value::Null => Datum::Null,
        }
    }
}

/// Comparison operator of a filter.
#[derive(Clone, Copy, Debug, PartialEq, Eq, Structural)]
pub enum Operator {
    Equals,
    NotEquals,
    GreaterThan,
    LessThan,
    GreaterOrEqual,
    LessOrEqual,
}

/// A single-column filter: `column operator value`.
#[derive(Clone, Debug, PartialEq)]
pub struct WhereClause {
    pub column: String,
    pub operator: Operator,
    pub value: Value,
}

pub const SIGN_BIT: u64 = 0x8000_0000_0000_0000;

pub const POS_INFINITY_BITS: u64 = 0x7FF0_0000_0000_0000;

/// The bit pattern without its sign bit.
pub open spec fn float_magnitude(b: u64) -> int {
    if b >= SIGN_BIT { b - SIGN_BIT } else { b as int }
}

/// A NaN has all exponent bits set and a non-zero mantissa.
pub open spec fn float_is_nan(b: u64) -> bool {
    float_magnitude(b) > POS_INFINITY_BITS
}

/// For a non-NaN float, an integer that orders as the float's numeric value
/// does (both zeros map to 0).
pub open spec fn float_rank(b: u64) -> int {
    if b >= SIGN_BIT { -float_magnitude(b) } else { float_magnitude(b) }
}

/// Numeric `<` on floats; false when either side is NaN.
pub open spec fn float_lt(a: u64, b: u64) -> bool {
    !float_is_nan(a) && !float_is_nan(b) && float_rank(a) < float_rank(b)
}

/// Numeric `<=` on floats; false when either side is NaN.
pub open spec fn float_le(a: u64, b: u64) -> bool {
    !float_is_nan(a) && !float_is_nan(b) && float_rank(a) <= float_rank(b)
}

/// The code point of a character.
pub open spec fn char_code(c: char) -> u32 {
    c as u32
}

/// Distinct characters have distinct codes.
pub proof fn lemma_char_code_injective(c: char, d: char)
    requires
        char_code(c) == char_code(d),
    ensures
        c == d,
{
}

/// Three-way comparison of two texts by code point, lexicographically.
pub open spec fn text_cmp(a: Seq<char>, b: Seq<char>) -> int
    decreases a.len(),
{
    if a.len() == 0 {
        if b.len() == 0 { 0 } else { -1 }
    } else if b.len() == 0 {
        1
    } else if char_code(a[0]) < char_code(b[0]) {
        -1
    } else if char_code(b[0]) < char_code(a[0]) {
        1
    } else {
        text_cmp(a.drop_first(), b.drop_first())
    }
}

/// Numeric `==` on floats: both zeros are equal, and a NaN equals nothing.
pub open spec fn float_eq(a: u64, b: u64) -> bool {
    !float_is_nan(a) && !float_is_nan(b) && float_rank(a) == float_rank(b)
}

/// Whether a value is a NaN float.
pub open spec fn datum_is_nan(d: Datum) -> bool {
    match d {
        Datum::Float(b) => float_is_nan(b),
        _ => false,
    }
}

/// Equality of values: of the same kind, and equal in it; floats compare numerically.
pub open spec fn datum_eq(a: Datum, b: Datum) -> bool {
    match (a, b) {
        (Datum::Float(x), Datum::Float(y)) => float_eq(x, y),
        _ => a == b,
    }
}

/// Whether `left operator right` holds. Equality is `datum_eq`; an ordering
/// holds only between two values of the same non-null kind.
pub open spec fn satisfies(left: Datum, op: Operator, right: Datum) -> bool {
    match op {
        Operator::Equals => datum_eq(left, right),
        Operator::NotEquals => !datum_eq(left, right),
        Operator::GreaterThan => match (left, right) {
            (Datum::Int(a), Datum::Int(b)) => a > b,
            (Datum::Float(a), Datum::Float(b)) => float_lt(b, a),
            (Datum::Text(a), Datum::Text(b)) => text_cmp(a, b) > 0,
            _ => false,
        },
        Operator::LessThan => match (left, right) {
            (Datum::Int(a), Datum::Int(b)) => a < b,
            (Datum::Float(a), Datum::Float(b)) => float_lt(a, b),
            (Datum::Text(a), Datum::Text(b)) => text_cmp(a, b) < 0,
            _ => false,
        },
        Operator::GreaterOrEqual => match (left, right) {
            (Datum::Int(a), Datum::Int(b)) => a >= b,
            (Datum::Float(a), Datum::Float(b)) => float_le(b, a),
            (Datum::Text(a), Datum::Text(b)) => text_cmp(a, b) >= 0,
            _ => false,
        },
        Operator::LessOrEqual => match (left, right) {
            (Datum::Int(a), Datum::Int(b)) => a <= b,
            (Datum::Float(a), Datum::Float(b)) => float_le(a, b),
            (Datum::Text(a), Datum::Text(b)) => text_cmp(a, b) <= 0,
            _ => false,
        },
    }
}

/// A value may stand in a column when it is null or of the column's declared kind.
pub open spec fn compatible(v: Datum, dt: DataType) -> bool {
    match v {
        Datum::Null => true,
        Datum::Int(_) => dt == DataType::Int,
        Datum::Text(_) => dt == DataType::Text,
        Datum::Float(_) => dt == DataType::Float,
    }
}

impl Value {
    /// A copy of this value.
    pub fn copy(&self) -> (r: Value)
        ensures
            r == *self,
    {
        match self {
            Value::Int(n) => Value::Int(*n),
            Value::Text(s) => Value::Text(s.clone()),
            Value::Float(b) => Value::Float(*b),
            Value::Null => Value::Null,
        }
    }

    /// Whether this value may be stored in a column of type `dt`.
    pub fn is_compatible(&self, dt: DataType) -> (r: bool)
        ensures
            r == compatible(self@, dt),
    {
        match self {
            Value::Null => true,
            Value::Int(_) => dt == DataType::Int,
            Value::Text(_) => dt == DataType::Text,
            Value::Float(_) => dt == DataType::Float,
        }
    }
}

impl Column {
    /// A copy of this column.
    pub fn copy(&self) -> (r: Column)
        ensures
            r == *self,
    {
        Column { name: self.name.clone(), data_type: self.data_type }
    }
}

/// Equality of two values, as `datum_eq` defines it.
pub fn values_equal(a: &Value, b: &Value) -> (r: bool)
    ensures
        r == datum_eq(a@, b@),
{
    match (a, b) {
        (Value::Int(x), Value::Int(y)) => *x == *y,
        (Value::Text(x), Value::Text(y)) => x.eq(y),
        (Value::Float(x), Value::Float(y)) => !float_nan(*x) && !float_nan(*y) && float_rank_of(*x) == float_rank_of(*y),
        (Value::Null, Value::Null) => true,
        _ => false,
    }
}

/// The rank of a float bit pattern, as `float_rank` defines it.
fn float_rank_of(b: u64) -> (r: i128)
    ensures
        r as int == float_rank(b),
{
    if b >= SIGN_BIT {
        -((b - SIGN_BIT) as i128)
    } else {
        b as i128
    }
}

/// Whether the bit pattern is a NaN.
pub fn float_nan(b: u64) -> (r: bool)
    ensures
        r == float_is_nan(b),
{
    let m: u64 = if b >= SIGN_BIT { b - SIGN_BIT } else { b };
    m > POS_INFINITY_BITS
}

/// Three-way comparison of two character sequences, as `text_cmp` defines it.
pub fn compare_chars(a: &Vec<char>, b: &Vec<char>) -> (r: i8)
    ensures
        r as int == text_cmp(a@, b@),
{
    let mut i: usize = 0;
    assert(a@.skip(0) =~= a@);
    assert(b@.skip(0) =~= b@);
    while i < a.len() && i < b.len()
        invariant
            i <= a@.len(),
            i <= b@.len(),
            text_cmp(a@, b@) == text_cmp(a@.skip(i as int), b@.skip(i as int)),
        decreases a.len() - i,
    {
        let ca = a[i] as u32;
        let cb = b[i] as u32;
        if ca < cb {
            return -1;
        }
        if cb < ca {
            return 1;
        }
        proof {
            assert(a@.skip(i as int).drop_first() =~= a@.skip(i + 1));
            assert(b@.skip(i as int).drop_first() =~= b@.skip(i + 1));
        }
        i = i + 1;
    }
    if i == a.len() && i == b.len() {
        0
    } else if i == a.len() {
        -1
    } else {
        1
    }
}

/// Three-way comparison of two texts, as `text_cmp` defines it.
pub fn compare_text(a: &String, b: &String) -> (r: i8)
    ensures
        r as int == text_cmp(a@, b@),
{
    let ca = crate::text::chars_of(a.as_str());
    let cb = crate::text::chars_of(b.as_str());
    compare_chars(&ca, &cb)
}

/// Whether two texts are the same.
pub fn text_equal(a: &str, b: &str) -> (r: bool)
    ensures
        r == (a@ == b@),
{
    let ca = crate::text::chars_of(a);
    let cb = crate::text::chars_of(b);
    proof {
        lemma_text_cmp_basics(a@, b@);
    }
    compare_chars(&ca, &cb) == 0
}

/// Evaluates `left operator right` under the filter semantics.
pub fn compare_values(left: &Value, operator: &Operator, right: &Value) -> (r: bool)
    ensures
        r == satisfies(left@, *operator, right@),
{
    match operator {
        Operator::Equals => values_equal(left, right),
        Operator::NotEquals => !values_equal(left, right),
        Operator::GreaterThan => match (left, right) {
            (Value::Int(a), Value::Int(b)) => *a > *b,
            (Value::Float(a), Value::Float(b)) => !float_nan(*a) && !float_nan(*b) && float_rank_of(*b) < float_rank_of(*a),
            (Value::Text(a), Value::Text(b)) => compare_text(a, b) > 0,
            _ => false,
        },
        Operator::LessThan => match (left, right) {
            (Value::Int(a), Value::Int(b)) => *a < *b,
            (Value::Float(a), Value::Float(b)) => !float_nan(*a) && !float_nan(*b) && float_rank_of(*a) < float_rank_of(*b),
            (Value::Text(a), Value::Text(b)) => compare_text(a, b) < 0,
            _ => false,
        },
        Operator::GreaterOrEqual => match (left, right) {
            (Value::Int(a), Value::Int(b)) => *a >= *b,
            (Value::Float(a), Value::Float(b)) => !float_nan(*a) && !float_nan(*b) && float_rank_of(*b) <= float_rank_of(*a),
            (Value::Text(a), Value::Text(b)) => compare_text(a, b) >= 0,
            _ => false,
        },
        Operator::LessOrEqual => match (left, right) {
            (Value::Int(a), Value::Int(b)) => *a <= *b,
            (Value::Float(a), Value::Float(b)) => !float_nan(*a) && !float_nan(*b) && float_rank_of(*a) <= float_rank_of(*b),
            (Value::Text(a), Value::Text(b)) => compare_text(a, b) <= 0,
            _ => false,
        },
    }
}

} // verus!

verus! {

/// The model of a row.
pub open spec fn row_model(r: Vec<Value>) -> Seq<Datum> {
    r@.map_values(|v: Value| v@)
}

/// The model of a row sequence.
pub open spec fn rows_model(rows: Seq<Vec<Value>>) -> Seq<Seq<Datum>> {
    rows.map_values(|r: Vec<Value>| row_model(r))
}

/// `text_cmp` is a three-way comparison: antisymmetric, and zero exactly on equal texts.
pub proof fn lemma_text_cmp_basics(a: Seq<char>, b: Seq<char>)
    ensures
        -1 <= text_cmp(a, b) <= 1,
        text_cmp(b, a) == -text_cmp(a, b),
        text_cmp(a, b) == 0 <==> a == b,
    decreases a.len(),
{
    if a.len() > 0 && b.len() > 0 && char_code(a[0]) == char_code(b[0]) {
        lemma_text_cmp_basics(a.drop_first(), b.drop_first());
        lemma_char_code_injective(a[0], b[0]);
        if a.drop_first() == b.drop_first() {
            assert(a =~= seq![a[0]] + a.drop_first());
            assert(b =~= seq![b[0]] + b.drop_first());
        }
    }
    if a.len() == 0 && b.len() == 0 {
        assert(a =~= b);
    }
    if a == b && a.len() > 0 {
        assert(a.drop_first() == b.drop_first());
        lemma_text_cmp_basics(a.drop_first(), b.drop_first());
    }
}

/// `text_cmp` orders texts transitively.
pub proof fn lemma_text_cmp_transitive(a: Seq<char>, b: Seq<char>, c: Seq<char>)
    requires
        text_cmp(a, b) < 0,
        text_cmp(b, c) < 0,
    ensures
        text_cmp(a, c) < 0,
    decreases a.len(),
{
    if a.len() > 0 && b.len() > 0 && c.len() > 0 && char_code(a[0]) == char_code(b[0]) && char_code(b[0])
        == char_code(c[0]) {
        lemma_text_cmp_transitive(a.drop_first(), b.drop_first(), c.drop_first());
    }
}

} // verus!
