//! The on-disk form of a table: a schema line of `name:TYPE` pairs joined by
//! commas, then one line per row of `|`-separated fields. Text escapes
//! backslash, pipe, newline and carriage return; null is the bare token `NULL`.
use vstd::prelude::*;
use crate::text::{chars_of, string_of};
use crate::value::{Column, DataType, Datum, Value};

verus! {

/// A value in its on-disk form. A float keeps its text, which the float
/// formatter and parser outside the library write and read.
#[derive(Clone, Debug, PartialEq)]
pub enum Cell {
    Null,
    Int(i64),
    Text(String),
    Float(String),
}

/// Model of a cell.
pub enum CellModel {
    Null,
    Int(i64),
    Text(Seq<char>),
    Float(Seq<char>),
}

impl View for Cell {
    type V = CellModel;

    open spec fn view(&self) -> CellModel {
        match self {
            Cell::Null => CellModel::Null,
            Cell::Int(n) => CellModel::Int(*n),
            Cell::Text(s) => CellModel::Text(s@),
            Cell::Float(s) => CellModel::Float(s@),
        }
    }
}

/// Why a table file could not be read.
#[derive(Clone, Debug, PartialEq)]
pub enum CodecError {
    InvalidColumn(String),
    UnknownType(String),
    FieldCount { expected: usize, got: usize },
    InvalidInteger(String),
}

pub open spec fn null_token() -> Seq<char> {
    seq!['N', 'U', 'L', 'L']
}

/// The token of a column type.
pub open spec fn type_token(dt: DataType) -> Seq<char> {
    match dt {
        DataType::Int => seq!['I', 'N', 'T'],
        DataType::Text => seq!['T', 'E', 'X', 'T'],
        DataType::Float => seq!['F', 'L', 'O', 'A', 'T'],
    }
}

/// The column type a token names.
pub open spec fn type_of_token(s: Seq<char>) -> Option<DataType> {
    if s == type_token(DataType::Int) {
        Some(DataType::Int)
    } else if s == type_token(DataType::Text) {
        Some(DataType::Text)
    } else if s == type_token(DataType::Float) {
        Some(DataType::Float)
    } else {
        None
    }
}

/// The escaped form of one character.
pub open spec fn escape_char(c: char) -> Seq<char> {
    if c == '\\' {
        seq!['\\', '\\']
    } else if c == '|' {
        seq!['\\', '|']
    } else if c == '\n' {
        seq!['\\', 'n']
    } else if c == '\r' {
        seq!['\\', 'r']
    } else {
        seq![c]
    }
}

/// Text with backslash, pipe, newline and carriage return escaped.
pub open spec fn escape_seq(s: Seq<char>) -> Seq<char>
    decreases s.len(),
{
    if s.len() == 0 {
        s
    } else {
        escape_char(s[0]) + escape_seq(s.drop_first())
    }
}

/// The character an escape `\c` stands for; unknown escapes stand for themselves.
pub open spec fn unescape_pair(c: char) -> Seq<char> {
    if c == '\\' {
        seq!['\\']
    } else if c == '|' {
        seq!['|']
    } else if c == 'n' {
        seq!['\n']
    } else if c == 'r' {
        seq!['\r']
    } else {
        seq!['\\', c]
    }
}

/// Reverses `escape_seq`; a trailing lone backslash stays.
pub open spec fn unescape_seq(s: Seq<char>) -> Seq<char>
    decreases s.len(),
{
    if s.len() == 0 {
        s
    } else if s[0] == '\\' {
        if s.len() == 1 {
            s
        } else {
            unescape_pair(s[1]) + unescape_seq(s.skip(2))
        }
    } else {
        seq![s[0]] + unescape_seq(s.drop_first())
    }
}

/// The decimal digit of `d < 10`.
pub open spec fn digit_char(d: nat) -> char {
    if d == 0 { '0' } else if d == 1 { '1' } else if d == 2 { '2' } else if d == 3 { '3' }
    else if d == 4 { '4' } else if d == 5 { '5' } else if d == 6 { '6' } else if d == 7 { '7' }
    else if d == 8 { '8' } else { '9' }
}

/// Decimal digits of a natural number, without leading zeros.
pub open spec fn nat_text(n: nat) -> Seq<char>
    decreases n,
{
    if n < 10 {
        seq![digit_char(n)]
    } else {
        nat_text(n / 10).push(digit_char(n % 10))
    }
}

/// Canonical decimal text of an integer.
pub open spec fn int_text(n: int) -> Seq<char> {
    if n < 0 {
        seq!['-'] + nat_text((-n) as nat)
    } else {
        nat_text(n as nat)
    }
}

/// The value of a decimal digit character.
pub open spec fn digit_of_char(c: char) -> Option<nat> {
    if c == '0' { Some(0) } else if c == '1' { Some(1) } else if c == '2' { Some(2) }
    else if c == '3' { Some(3) } else if c == '4' { Some(4) } else if c == '5' { Some(5) }
    else if c == '6' { Some(6) } else if c == '7' { Some(7) } else if c == '8' { Some(8) }
    else if c == '9' { Some(9) } else { None }
}

pub open spec fn is_digit(c: char) -> bool {
    digit_of_char(c) is Some
}

pub open spec fn digit_value(c: char) -> nat {
    match digit_of_char(c) {
        Some(d) => d,
        None => 0,
    }
}

/// The value of a sequence of decimal digits.
pub open spec fn digits_value(s: Seq<char>) -> nat
    decreases s.len(),
{
    if s.len() == 0 {
        0
    } else {
        digits_value(s.drop_last()) * 10 + digit_value(s.last())
    }
}

pub open spec fn all_digits(s: Seq<char>) -> bool {
    forall|i: int| 0 <= i < s.len() ==> is_digit(#[trigger] s[i])
}

/// The integer a text denotes: an optional sign then one or more digits, in range.
pub open spec fn parse_int_seq(s: Seq<char>) -> Option<i64> {
    let neg = s.len() > 0 && s[0] == '-';
    let body = if s.len() > 0 && (s[0] == '-' || s[0] == '+') { s.drop_first() } else { s };
    let v: int = if neg { -(digits_value(body) as int) } else { digits_value(body) as int };
    if body.len() > 0 && all_digits(body) && i64::MIN <= v <= i64::MAX {
        Some(v as i64)
    } else {
        None
    }
}

} // verus!

verus! {

/// The token of a column type.
pub fn datatype_to_string(dt: &DataType) -> (r: String)
    ensures
        r@ == type_token(*dt),
{
    let v: Vec<char> = match dt {
        DataType::Int => vec!['I', 'N', 'T'],
        DataType::Text => vec!['T', 'E', 'X', 'T'],
        DataType::Float => vec!['F', 'L', 'O', 'A', 'T'],
    };
    assert(v@ =~= type_token(*dt));
    string_of(&v)
}

fn chars_equal(a: &Vec<char>, b: &Vec<char>) -> (r: bool)
    ensures
        r == (a@ == b@),
{
    if a.len() != b.len() {
        return false;
    }
    let mut i: usize = 0;
    while i < a.len()
        invariant
            a@.len() == b@.len(),
            i <= a@.len(),
            forall|j: int| 0 <= j < i ==> a@[j] == b@[j],
        decreases a.len() - i,
    {
        if a[i] != b[i] {
            return false;
        }
        i = i + 1;
    }
    assert(a@ =~= b@);
    true
}

/// The column type a token names.
pub fn string_to_datatype(s: &str) -> (r: Result<DataType, CodecError>)
    ensures
        match type_of_token(s@) {
            Some(dt) => r == Ok::<DataType, CodecError>(dt),
            None => match r {
                Err(CodecError::UnknownType(t)) => t@ == s@,
                _ => false,
            },
        },
{
    let c = chars_of(s);
    let int_t: Vec<char> = vec!['I', 'N', 'T'];
    let text_t: Vec<char> = vec!['T', 'E', 'X', 'T'];
    let float_t: Vec<char> = vec!['F', 'L', 'O', 'A', 'T'];
    assert(int_t@ =~= type_token(DataType::Int));
    assert(text_t@ =~= type_token(DataType::Text));
    assert(float_t@ =~= type_token(DataType::Float));
    if chars_equal(&c, &int_t) {
        Ok(DataType::Int)
    } else if chars_equal(&c, &text_t) {
        Ok(DataType::Text)
    } else if chars_equal(&c, &float_t) {
        Ok(DataType::Float)
    } else {
        Err(CodecError::UnknownType(String::from_str(s)))
    }
}

/// The characters of `s`, escaped.
pub fn escape_chars(s: &Vec<char>) -> (r: Vec<char>)
    ensures
        r@ == escape_seq(s@),
{
    let mut out: Vec<char> = Vec::new();
    let mut i: usize = 0;
    assert(s@.skip(0) =~= s@);
    while i < s.len()
        invariant
            i <= s@.len(),
            out@ + escape_seq(s@.skip(i as int)) == escape_seq(s@),
        decreases s.len() - i,
    {
        let c = s[i];
        proof {
            assert(s@.skip(i as int).drop_first() =~= s@.skip(i + 1));
            assert(s@.skip(i as int)[0] == c);
        }
        let ghost before = out@;
        if c == '\\' {
            out.push('\\');
            out.push('\\');
        } else if c == '|' {
            out.push('\\');
            out.push('|');
        } else if c == '\n' {
            out.push('\\');
            out.push('n');
        } else if c == '\r' {
            out.push('\\');
            out.push('r');
        } else {
            out.push(c);
        }
        assert(out@ =~= before + escape_char(c));
        assert(out@ + escape_seq(s@.skip(i + 1)) =~= before + escape_seq(s@.skip(i as int)));
        i = i + 1;
    }
    assert(escape_seq(s@.skip(i as int)) =~= Seq::<char>::empty());
    assert(out@ =~= escape_seq(s@));
    out
}

/// Escapes backslash, pipe, newline and carriage return.
pub fn escape_string(s: &str) -> (r: String)
    ensures
        r@ == escape_seq(s@),
{
    let c = chars_of(s);
    let e = escape_chars(&c);
    string_of(&e)
}

/// Reverses the escaping of `escape_chars`.
pub fn unescape_chars(s: &Vec<char>) -> (r: Vec<char>)
    ensures
        r@ == unescape_seq(s@),
{
    let mut out: Vec<char> = Vec::new();
    let mut i: usize = 0;
    assert(s@.skip(0) =~= s@);
    while i < s.len()
        invariant
            i <= s@.len(),
            out@ + unescape_seq(s@.skip(i as int)) == unescape_seq(s@),
        decreases s.len() - i,
    {
        let c = s[i];
        let ghost rest = s@.skip(i as int);
        let ghost before = out@;
        if c == '\\' {
            if i + 1 < s.len() {
                let d = s[i + 1];
                if d == '\\' {
                    out.push('\\');
                } else if d == '|' {
                    out.push('|');
                } else if d == 'n' {
                    out.push('\n');
                } else if d == 'r' {
                    out.push('\r');
                } else {
                    out.push('\\');
                    out.push(d);
                }
                proof {
                    assert(rest.skip(2) =~= s@.skip(i + 2));
                    assert(rest[1] == d);
                    assert(out@ =~= before + unescape_pair(d));
                }
                i = i + 2;
            } else {
                out.push('\\');
                proof {
                    assert(rest =~= seq!['\\']);
                    assert(s@.skip(i + 1) =~= Seq::<char>::empty());
                    assert(out@ + unescape_seq(s@.skip(i + 1)) =~= before + unescape_seq(rest));
                }
                i = i + 1;
            }
        } else {
            out.push(c);
            proof {
                assert(rest.drop_first() =~= s@.skip(i + 1));
                assert(out@ + unescape_seq(s@.skip(i + 1)) =~= before + unescape_seq(rest));
            }
            i = i + 1;
        }
    }
    assert(unescape_seq(s@.skip(i as int)) =~= Seq::<char>::empty());
    assert(out@ =~= unescape_seq(s@));
    out
}

/// Reverses `escape_string`.
pub fn unescape_string(s: &str) -> (r: String)
    ensures
        r@ == unescape_seq(s@),
{
    let c = chars_of(s);
    let u = unescape_chars(&c);
    string_of(&u)
}

fn digit_of(d: u64) -> (r: char)
    requires
        d < 10,
    ensures
        r == digit_char(d as nat),
{
    if d == 0 { '0' } else if d == 1 { '1' } else if d == 2 { '2' } else if d == 3 { '3' }
    else if d == 4 { '4' } else if d == 5 { '5' } else if d == 6 { '6' } else if d == 7 { '7' }
    else if d == 8 { '8' } else { '9' }
}

pub fn nat_digits(m: u64) -> (r: Vec<char>)
    ensures
        r@ == nat_text(m as nat),
    decreases m,
{
    if m < 10 {
        let mut v: Vec<char> = Vec::new();
        v.push(digit_of(m));
        assert(v@ =~= nat_text(m as nat));
        v
    } else {
        let mut v = nat_digits(m / 10);
        v.push(digit_of(m % 10));
        v
    }
}

/// Canonical decimal text of an integer.
pub fn int_to_chars(n: i64) -> (r: Vec<char>)
    ensures
        r@ == int_text(n as int),
{
    if n < 0 {
        let m: u64 = (0 - (n as i128)) as u64;
        let d = nat_digits(m);
        let mut v: Vec<char> = Vec::new();
        v.push('-');
        let mut i: usize = 0;
        while i < d.len()
            invariant
                i <= d@.len(),
                v@ == seq!['-'] + d@.take(i as int),
            decreases d.len() - i,
        {
            v.push(d[i]);
            i = i + 1;
            assert(v@ =~= seq!['-'] + d@.take(i as int));
        }
        assert(d@.take(d@.len() as int) =~= d@);
        v
    } else {
        nat_digits(n as u64)
    }
}

proof fn lemma_digits_value_prefix(s: Seq<char>, i: int)
    requires
        0 <= i <= s.len(),
    ensures
        digits_value(s.take(i)) <= digits_value(s),
    decreases s.len() - i,
{
    if i < s.len() {
        lemma_digits_value_prefix(s, i + 1);
        assert(s.take(i + 1).drop_last() =~= s.take(i));
    } else {
        assert(s.take(i) =~= s);
    }
}

fn digit_in(c: char) -> (r: Option<u32>)
    ensures
        match digit_of_char(c) {
            Some(d) => r == Some(d as u32),
            None => r is None,
        },
{
    if c == '0' { Some(0) } else if c == '1' { Some(1) } else if c == '2' { Some(2) }
    else if c == '3' { Some(3) } else if c == '4' { Some(4) } else if c == '5' { Some(5) }
    else if c == '6' { Some(6) } else if c == '7' { Some(7) } else if c == '8' { Some(8) }
    else if c == '9' { Some(9) } else { None }
}

/// The integer a text denotes, as `str::parse::<i64>` reads it.
pub fn parse_int(s: &Vec<char>) -> (r: Option<i64>)
    ensures
        r == parse_int_seq(s@),
{
    let neg = s.len() > 0 && s[0] == '-';
    let start: usize = if s.len() > 0 && (s[0] == '-' || s[0] == '+') { 1 } else { 0 };
    let ghost body = if s@.len() > 0 && (s@[0] == '-' || s@[0] == '+') { s@.drop_first() } else { s@ };
    assert(body =~= s@.skip(start as int));
    if start >= s.len() {
        return None;
    }
    let mut acc: i128 = 0;
    let mut i: usize = start;
    assert(body.take(0) =~= Seq::<char>::empty());
    while i < s.len()
        invariant
            start <= i <= s@.len(),
            body == s@.skip(start as int),
            body == (if s@.len() > 0 && (s@[0] == '-' || s@[0] == '+') { s@.drop_first() } else { s@ }),
            neg == (s@.len() > 0 && s@[0] == '-'),
            acc as int == digits_value(body.take(i - start)),
            acc <= 0x8000_0000_0000_0000,
            all_digits(body.take(i - start)),
        decreases s.len() - i,
    {
        let c = s[i];
        let d: i128 = match digit_in(c) {
            Some(d) => d as i128,
            None => {
                proof {
                    assert(body[i - start] == c);
                }
                return None;
            },
        };
        proof {
            assert(body.take(i - start + 1).drop_last() =~= body.take(i - start));
            assert(body.take(i - start + 1).last() == c);
            assert(all_digits(body.take(i - start + 1))) by {
                assert forall|j: int| 0 <= j < i - start + 1 implies is_digit(#[trigger] body.take(i - start + 1)[j]) by {
                    if j < i - start {
                        assert(body.take(i - start + 1)[j] == body.take(i - start)[j]);
                    }
                }
            }
        }
        let next = acc * 10 + d;
        if next > 0x8000_0000_0000_0000 {
            proof {
                lemma_digits_value_prefix(body, i - start + 1);
            }
            return None;
        }
        acc = next;
        i = i + 1;
    }
    assert(body.take(i - start) =~= body);
    if neg {
        Some((0 - acc) as i64)
    } else if acc > 0x7FFF_FFFF_FFFF_FFFF {
        None
    } else {
        Some(acc as i64)
    }
}

} // verus!

verus! {

/// The text of a cell in a row line.
pub open spec fn encode_cell(c: CellModel) -> Seq<char> {
    match c {
        CellModel::Null => null_token(),
        CellModel::Int(n) => int_text(n as int),
        CellModel::Text(s) => escape_seq(s),
        CellModel::Float(s) => s,
    }
}

/// The cell a field denotes in a column of type `dt`; `None` for a bad integer.
pub open spec fn decode_cell(s: Seq<char>, dt: DataType) -> Option<CellModel> {
    if s == null_token() {
        Some(CellModel::Null)
    } else {
        match dt {
            DataType::Int => match parse_int_seq(s) {
                Some(n) => Some(CellModel::Int(n)),
                None => None,
            },
            DataType::Text => Some(CellModel::Text(unescape_seq(s))),
            DataType::Float => Some(CellModel::Float(s)),
        }
    }
}

/// Splits the rest `s` of a row line at each `|` that is not escaped, `cur`
/// being the field read so far and `acc` the fields before it.
pub open spec fn split_rest(s: Seq<char>, cur: Seq<char>, acc: Seq<Seq<char>>) -> Seq<Seq<char>>
    decreases s.len(),
{
    if s.len() == 0 {
        acc.push(cur)
    } else if s[0] == '|' {
        split_rest(s.drop_first(), Seq::empty(), acc.push(cur))
    } else if s[0] == '\\' && s.len() >= 2 {
        split_rest(s.skip(2), cur + s.take(2), acc)
    } else {
        split_rest(s.drop_first(), cur.push(s[0]), acc)
    }
}

/// The fields of a row line.
pub open spec fn split_fields(s: Seq<char>) -> Seq<Seq<char>> {
    split_rest(s, Seq::empty(), Seq::empty())
}

/// Splits the rest `s` at every `sep`.
pub open spec fn split_plain_rest(s: Seq<char>, sep: char, cur: Seq<char>, acc: Seq<Seq<char>>) -> Seq<Seq<char>>
    decreases s.len(),
{
    if s.len() == 0 {
        acc.push(cur)
    } else if s[0] == sep {
        split_plain_rest(s.drop_first(), sep, Seq::empty(), acc.push(cur))
    } else {
        split_plain_rest(s.drop_first(), sep, cur.push(s[0]), acc)
    }
}

/// The pieces of `s` between occurrences of `sep`.
pub open spec fn split_plain(s: Seq<char>, sep: char) -> Seq<Seq<char>> {
    split_plain_rest(s, sep, Seq::empty(), Seq::empty())
}

/// The pieces joined with `sep` between them.
pub open spec fn join(fs: Seq<Seq<char>>, sep: char) -> Seq<char>
    decreases fs.len(),
{
    if fs.len() == 0 {
        Seq::empty()
    } else if fs.len() == 1 {
        fs[0]
    } else {
        join(fs.drop_last(), sep) + seq![sep] + fs.last()
    }
}

pub open spec fn fields_view(v: Seq<Vec<char>>) -> Seq<Seq<char>> {
    v.map_values(|f: Vec<char>| f@)
}

pub open spec fn cells_view(v: Seq<Cell>) -> Seq<CellModel> {
    v.map_values(|c: Cell| c@)
}

/// The line of a row.
pub open spec fn encode_row(cells: Seq<CellModel>) -> Seq<char> {
    join(cells.map_values(|c: CellModel| encode_cell(c)), '|')
}

/// The cells of fields `fs` read against the column types `types`.
pub open spec fn decode_fields(fs: Seq<Seq<char>>, types: Seq<DataType>) -> Option<Seq<CellModel>>
    decreases fs.len(),
{
    if fs.len() == 0 || types.len() == 0 {
        Some(Seq::empty())
    } else {
        match (decode_fields(fs.drop_last(), types.drop_last()), decode_cell(fs.last(), types.last())) {
            (Some(prev), Some(c)) => Some(prev.push(c)),
            _ => None,
        }
    }
}

/// The schema line of a column list.
pub open spec fn encode_schema(cols: Seq<(Seq<char>, DataType)>) -> Seq<char> {
    join(cols.map_values(|c: (Seq<char>, DataType)| c.0 + seq![':'] + type_token(c.1)), ',')
}

pub open spec fn columns_view(cols: Seq<Column>) -> Seq<(Seq<char>, DataType)> {
    cols.map_values(|c: Column| (c.name@, c.data_type))
}

/// The column of a `name:TYPE` definition.
pub open spec fn decode_column(def: Seq<char>) -> Option<(Seq<char>, DataType)> {
    let parts = split_plain(def, ':');
    if parts.len() != 2 {
        None
    } else {
        match type_of_token(parts[1]) {
            Some(dt) => Some((parts[0], dt)),
            None => None,
        }
    }
}

/// The columns of definitions `defs`.
pub open spec fn decode_columns(defs: Seq<Seq<char>>) -> Option<Seq<(Seq<char>, DataType)>>
    decreases defs.len(),
{
    if defs.len() == 0 {
        Some(Seq::empty())
    } else {
        match (decode_columns(defs.drop_last()), decode_column(defs.last())) {
            (Some(prev), Some(c)) => Some(prev.push(c)),
            _ => None,
        }
    }
}

/// Splits a row line into its fields, at every `|` that is not escaped.
pub fn split_row(line: &Vec<char>) -> (r: Vec<Vec<char>>)
    ensures
        fields_view(r@) == split_fields(line@),
{
    let mut acc: Vec<Vec<char>> = Vec::new();
    let mut cur: Vec<char> = Vec::new();
    let mut i: usize = 0;
    assert(line@.skip(0) =~= line@);
    assert(fields_view(acc@) =~= Seq::<Seq<char>>::empty());
    assert(cur@ =~= Seq::<char>::empty());
    while i < line.len()
        invariant
            i <= line@.len(),
            split_rest(line@.skip(i as int), cur@, fields_view(acc@)) == split_fields(line@),
        decreases line.len() - i,
    {
        let c = line[i];
        let ghost rest = line@.skip(i as int);
        let ghost acc_before = fields_view(acc@);
        let ghost cur_before = cur@;
        assert(rest[0] == c);
        if c == '|' {
            let done = cur;
            acc.push(done);
            cur = Vec::new();
            proof {
                assert(rest.drop_first() =~= line@.skip(i + 1));
                assert(fields_view(acc@) =~= acc_before.push(cur_before));
                assert(cur@ =~= Seq::<char>::empty());
            }
            i = i + 1;
        } else if c == '\\' && i + 1 < line.len() {
            let ghost before = cur@;
            cur.push(c);
            cur.push(line[i + 1]);
            proof {
                assert(rest.skip(2) =~= line@.skip(i + 2));
                assert(cur@ =~= before + rest.take(2));
            }
            i = i + 2;
        } else {
            cur.push(c);
            proof {
                assert(rest.drop_first() =~= line@.skip(i + 1));
                assert(cur@ =~= cur_before.push(rest[0]));
            }
            i = i + 1;
        }
    }
    acc.push(cur);
    proof {
        assert(line@.skip(i as int) =~= Seq::<char>::empty());
        assert(fields_view(acc@) =~= fields_view(acc@.drop_last()).push(acc@.last()@));
    }
    acc
}

} // verus!

verus! {

pub open spec fn is_ws(c: char) -> bool {
    c == ' ' || c == '\t' || c == '\n' || c == '\r'
}

pub open spec fn trim_start(s: Seq<char>) -> Seq<char>
    decreases s.len(),
{
    if s.len() > 0 && is_ws(s[0]) {
        trim_start(s.drop_first())
    } else {
        s
    }
}

pub open spec fn trim_end(s: Seq<char>) -> Seq<char>
    decreases s.len(),
{
    if s.len() > 0 && is_ws(s.last()) {
        trim_end(s.drop_last())
    } else {
        s
    }
}

/// `s` without leading and trailing whitespace.
pub open spec fn trim(s: Seq<char>) -> Seq<char> {
    trim_end(trim_start(s))
}

/// A line without the carriage return of a `\r\n` ending.
pub open spec fn line_body(l: Seq<char>) -> Seq<char> {
    if l.len() > 0 && l.last() == '\r' {
        l.drop_last()
    } else {
        l
    }
}

/// The cells of a row line read against the column types.
pub open spec fn decode_row(line: Seq<char>, types: Seq<DataType>) -> Option<Seq<CellModel>> {
    let fs = split_fields(line);
    if fs.len() != types.len() {
        None
    } else {
        decode_fields(fs, types)
    }
}

/// The rows of the row lines `ls`, one row per line.
pub open spec fn decode_lines(ls: Seq<Seq<char>>, types: Seq<DataType>) -> Option<Seq<Seq<CellModel>>>
    decreases ls.len(),
{
    if ls.len() == 0 {
        Some(Seq::empty())
    } else {
        match decode_lines(ls.drop_last(), types) {
            None => None,
            Some(prev) => match decode_row(line_body(ls.last()), types) {
                Some(r) => Some(prev.push(r)),
                None => None,
            },
        }
    }
}

pub open spec fn types_of(cols: Seq<(Seq<char>, DataType)>) -> Seq<DataType> {
    cols.map_values(|c: (Seq<char>, DataType)| c.1)
}

/// The row lines of a file split at newlines: every piece after the schema
/// line, but the empty piece that follows the file's final newline.
pub open spec fn row_lines(ls: Seq<Seq<char>>) -> Seq<Seq<char>> {
    let rest = ls.drop_first();
    if rest.len() > 0 && rest.last().len() == 0 {
        rest.drop_last()
    } else {
        rest
    }
}

/// The columns and rows a table file holds.
pub open spec fn decode_table(text: Seq<char>) -> Option<(Seq<(Seq<char>, DataType)>, Seq<Seq<CellModel>>)> {
    let ls = split_plain(text, '\n');
    match decode_columns(split_plain(trim(ls[0]), ',')) {
        None => None,
        Some(cols) => match decode_lines(row_lines(ls), types_of(cols)) {
            None => None,
            Some(rows) => Some((cols, rows)),
        },
    }
}

/// The row lines of a table file, each ended by a newline.
pub open spec fn encode_rows(rows: Seq<Seq<CellModel>>) -> Seq<char>
    decreases rows.len(),
{
    if rows.len() == 0 {
        Seq::empty()
    } else {
        encode_rows(rows.drop_last()) + encode_row(rows.last()) + seq!['\n']
    }
}

/// A table file: the schema line, then one line per row.
pub open spec fn encode_table(cols: Seq<(Seq<char>, DataType)>, rows: Seq<Seq<CellModel>>) -> Seq<char> {
    encode_schema(cols) + seq!['\n'] + encode_rows(rows)
}

/// Splits `s` at every `sep`.
pub fn split_on(s: &Vec<char>, sep: char) -> (r: Vec<Vec<char>>)
    ensures
        fields_view(r@) == split_plain(s@, sep),
        r@.len() > 0,
{
    let mut acc: Vec<Vec<char>> = Vec::new();
    let mut cur: Vec<char> = Vec::new();
    let mut i: usize = 0;
    assert(s@.skip(0) =~= s@);
    assert(fields_view(acc@) =~= Seq::<Seq<char>>::empty());
    assert(cur@ =~= Seq::<char>::empty());
    while i < s.len()
        invariant
            i <= s@.len(),
            split_plain_rest(s@.skip(i as int), sep, cur@, fields_view(acc@)) == split_plain(s@, sep),
        decreases s.len() - i,
    {
        let c = s[i];
        let ghost rest = s@.skip(i as int);
        let ghost acc_before = fields_view(acc@);
        let ghost cur_before = cur@;
        assert(rest[0] == c);
        assert(rest.drop_first() =~= s@.skip(i + 1));
        if c == sep {
            let done = cur;
            acc.push(done);
            cur = Vec::new();
            assert(fields_view(acc@) =~= acc_before.push(cur_before));
            assert(cur@ =~= Seq::<char>::empty());
        } else {
            cur.push(c);
            assert(cur@ =~= cur_before.push(rest[0]));
        }
        i = i + 1;
    }
    acc.push(cur);
    proof {
        assert(s@.skip(i as int) =~= Seq::<char>::empty());
        assert(fields_view(acc@) =~= fields_view(acc@.drop_last()).push(acc@.last()@));
    }
    acc
}

/// The pieces joined with `sep` between them.
pub fn join_with(fs: &Vec<Vec<char>>, sep: char) -> (r: Vec<char>)
    ensures
        r@ == join(fields_view(fs@), sep),
{
    let mut out: Vec<char> = Vec::new();
    let mut i: usize = 0;
    while i < fs.len()
        invariant
            i <= fs@.len(),
            out@ == join(fields_view(fs@).take(i as int), sep),
        decreases fs.len() - i,
    {
        let ghost before = out@;
        if i > 0 {
            out.push(sep);
        }
        let mut j: usize = 0;
        while j < fs[i].len()
            invariant
                i < fs@.len(),
                j <= fs@[i as int]@.len(),
                out@ == before + (if i > 0 { seq![sep] } else { Seq::<char>::empty() }) + fs@[i as int]@.take(j as int),
            decreases fs@[i as int]@.len() - j,
        {
            out.push(fs[i][j]);
            j = j + 1;
            assert(out@ =~= before + (if i > 0 { seq![sep] } else { Seq::<char>::empty() }) + fs@[i as int]@.take(j as int));
        }
        proof {
            let v = fields_view(fs@);
            assert(fs@[i as int]@.take(j as int) =~= fs@[i as int]@);
            assert(v.take(i + 1).drop_last() =~= v.take(i as int));
            assert(v.take(i + 1).last() == fs@[i as int]@);
            if i == 0 {
                assert(v.take(1) =~= seq![fs@[0]@]);
                assert(out@ =~= join(v.take(i + 1), sep));
            } else {
                assert(out@ =~= join(v.take(i + 1), sep));
            }
        }
        i = i + 1;
    }
    assert(fields_view(fs@).take(i as int) =~= fields_view(fs@));
    out
}

fn is_ws_char(c: char) -> (r: bool)
    ensures
        r == is_ws(c),
{
    c == ' ' || c == '\t' || c == '\n' || c == '\r'
}

/// `s` without leading and trailing whitespace.
pub fn trim_chars(s: &Vec<char>) -> (r: Vec<char>)
    ensures
        r@ == trim(s@),
{
    let mut lo: usize = 0;
    assert(s@.skip(0) =~= s@);
    while lo < s.len() && is_ws_char(s[lo])
        invariant
            lo <= s@.len(),
            trim_start(s@) == trim_start(s@.skip(lo as int)),
        decreases s.len() - lo,
    {
        assert(s@.skip(lo as int).drop_first() =~= s@.skip(lo + 1));
        lo = lo + 1;
    }
    let ghost ts = s@.skip(lo as int);
    assert(trim_start(s@) == ts);
    let mut hi: usize = s.len();
    assert(ts.take(ts.len() as int) =~= ts);
    while hi > lo && is_ws_char(s[hi - 1])
        invariant
            lo <= hi <= s@.len(),
            ts == s@.skip(lo as int),
            trim_end(ts) == trim_end(ts.take(hi - lo)),
        decreases hi,
    {
        assert(ts.take(hi - lo).drop_last() =~= ts.take(hi - lo - 1));
        hi = hi - 1;
    }
    let mut out: Vec<char> = Vec::new();
    let mut i: usize = lo;
    while i < hi
        invariant
            lo <= i <= hi,
            hi <= s@.len(),
            out@ == s@.subrange(lo as int, i as int),
        decreases hi - i,
    {
        out.push(s[i]);
        i = i + 1;
        assert(out@ =~= s@.subrange(lo as int, i as int));
    }
    assert(ts.take(hi - lo) =~= s@.subrange(lo as int, hi as int));
    out
}


} // verus!

verus! {

/// The text of a cell in a row line.
pub fn cell_to_chars(c: &Cell) -> (r: Vec<char>)
    ensures
        r@ == encode_cell(c@),
{
    match c {
        Cell::Null => {
            let v: Vec<char> = vec!['N', 'U', 'L', 'L'];
            assert(v@ =~= null_token());
            v
        },
        Cell::Int(n) => int_to_chars(*n),
        Cell::Text(s) => escape_chars(&chars_of(s.as_str())),
        Cell::Float(s) => chars_of(s.as_str()),
    }
}

/// The cell a field denotes in a column of type `dt`.
pub fn string_to_value(s: &Vec<char>, dt: DataType) -> (r: Result<Cell, CodecError>)
    ensures
        match decode_cell(s@, dt) {
            Some(c) => r matches Ok(v) && v@ == c,
            None => r matches Err(CodecError::InvalidInteger(t)) && t@ == s@,
        },
{
    let null: Vec<char> = vec!['N', 'U', 'L', 'L'];
    assert(null@ =~= null_token());
    if chars_equal(s, &null) {
        return Ok(Cell::Null);
    }
    match dt {
        DataType::Int => match parse_int(s) {
            Some(n) => Ok(Cell::Int(n)),
            None => Err(CodecError::InvalidInteger(string_of(s))),
        },
        DataType::Text => Ok(Cell::Text(string_of(&unescape_chars(s)))),
        DataType::Float => Ok(Cell::Float(string_of(s))),
    }
}

/// The line of a row.
pub fn row_to_chars(cells: &Vec<Cell>) -> (r: Vec<char>)
    ensures
        r@ == encode_row(cells_view(cells@)),
{
    let mut fs: Vec<Vec<char>> = Vec::new();
    let mut i: usize = 0;
    while i < cells.len()
        invariant
            i <= cells@.len(),
            fs@.len() == i,
            forall|j: int| 0 <= j < i ==> (#[trigger] fs@[j])@ == encode_cell(cells@[j]@),
        decreases cells.len() - i,
    {
        fs.push(cell_to_chars(&cells[i]));
        i = i + 1;
    }
    assert(fields_view(fs@) =~= cells_view(cells@).map_values(|c: CellModel| encode_cell(c)));
    join_with(&fs, '|')
}

/// The cells of a row line read against the column types.
pub fn parse_row(line: &Vec<char>, types: &Vec<DataType>) -> (r: Result<Vec<Cell>, CodecError>)
    ensures
        split_fields(line@).len() != types@.len() ==> r == Err::<Vec<Cell>, CodecError>(
            CodecError::FieldCount { expected: types@.len() as usize, got: split_fields(line@).len() as usize },
        ),
        match decode_row(line@, types@) {
            Some(m) => r matches Ok(v) && cells_view(v@) == m,
            None => r matches Err(e) && (e is FieldCount || e is InvalidInteger),
        },
{
    let fs = split_row(line);
    if fs.len() != types.len() {
        return Err(CodecError::FieldCount { expected: types.len(), got: fs.len() });
    }
    let ghost fv = fields_view(fs@);
    let mut out: Vec<Cell> = Vec::new();
    let mut i: usize = 0;
    assert(fv.take(0) =~= Seq::<Seq<char>>::empty());
    assert(cells_view(out@) =~= Seq::<CellModel>::empty());
    while i < fs.len()
        invariant
            fv == fields_view(fs@),
            fs@.len() == types@.len(),
            fv == split_fields(line@),
            i <= fs@.len(),
            decode_fields(fv.take(i as int), types@.take(i as int)) == Some(cells_view(out@)),
        decreases fs.len() - i,
    {
        proof {
            assert(fv.take(i + 1).drop_last() =~= fv.take(i as int));
            assert(types@.take(i + 1).drop_last() =~= types@.take(i as int));
            assert(fv.take(i + 1).last() == fs@[i as int]@);
            assert(types@.take(i + 1).last() == types@[i as int]);
        }
        match string_to_value(&fs[i], types[i]) {
            Ok(c) => {
                let ghost before = cells_view(out@);
                out.push(c);
                assert(cells_view(out@) =~= before.push(c@));
            },
            Err(e) => {
                proof {
                    lemma_decode_fields_none(fv, types@, i as int);
                }
                return Err(e);
            },
        }
        i = i + 1;
    }
    assert(fv.take(i as int) =~= fv);
    assert(types@.take(i as int) =~= types@);
    Ok(out)
}

/// Once a field fails to decode, the whole row does.
proof fn lemma_decode_fields_none(fs: Seq<Seq<char>>, types: Seq<DataType>, i: int)
    requires
        fs.len() == types.len(),
        0 <= i < fs.len(),
        decode_cell(fs[i], types[i]) is None,
    ensures
        decode_fields(fs, types) is None,
    decreases fs.len(),
{
    if i < fs.len() - 1 {
        lemma_decode_fields_none(fs.drop_last(), types.drop_last(), i);
    }
}

/// The schema line of a column list.
pub fn schema_to_chars(cols: &Vec<Column>) -> (r: Vec<char>)
    ensures
        r@ == encode_schema(columns_view(cols@)),
{
    let mut fs: Vec<Vec<char>> = Vec::new();
    let mut i: usize = 0;
    while i < cols.len()
        invariant
            i <= cols@.len(),
            fs@.len() == i,
            forall|j: int| 0 <= j < i ==> (#[trigger] fs@[j])@ == cols@[j].name@ + seq![':'] + type_token(cols@[j].data_type),
        decreases cols.len() - i,
    {
        let mut def = chars_of(cols[i].name.as_str());
        def.push(':');
        let t = chars_of(datatype_to_string(&cols[i].data_type).as_str());
        let mut j: usize = 0;
        let ghost start = def@;
        while j < t.len()
            invariant
                j <= t@.len(),
                def@ == start + t@.take(j as int),
            decreases t.len() - j,
        {
            def.push(t[j]);
            j = j + 1;
            assert(def@ =~= start + t@.take(j as int));
        }
        assert(t@.take(j as int) =~= t@);
        fs.push(def);
        i = i + 1;
    }
    assert(fields_view(fs@) =~= columns_view(cols@).map_values(|c: (Seq<char>, DataType)| c.0 + seq![':'] + type_token(c.1)));
    join_with(&fs, ',')
}

/// The columns of a schema line.
pub fn parse_schema(line: &Vec<char>) -> (r: Result<Vec<Column>, CodecError>)
    ensures
        match decode_columns(split_plain(line@, ',')) {
            Some(m) => r matches Ok(v) && columns_view(v@) == m,
            None => r matches Err(e) && (e is InvalidColumn || e is UnknownType),
        },
{
    let defs = split_on(line, ',');
    let ghost dv = fields_view(defs@);
    let mut cols: Vec<Column> = Vec::new();
    let mut i: usize = 0;
    assert(dv.take(0) =~= Seq::<Seq<char>>::empty());
    assert(columns_view(cols@) =~= Seq::<(Seq<char>, DataType)>::empty());
    while i < defs.len()
        invariant
            dv == fields_view(defs@),
            dv == split_plain(line@, ','),
            i <= defs@.len(),
            decode_columns(dv.take(i as int)) == Some(columns_view(cols@)),
        decreases defs.len() - i,
    {
        proof {
            assert(dv.take(i + 1).drop_last() =~= dv.take(i as int));
            assert(dv.take(i + 1).last() == defs@[i as int]@);
        }
        let parts = split_on(&defs[i], ':');
        if parts.len() != 2 {
            proof {
                lemma_decode_columns_none(dv, i as int);
            }
            return Err(CodecError::InvalidColumn(string_of(&defs[i])));
        }
        let dt = match string_to_datatype(string_of(&parts[1]).as_str()) {
            Ok(dt) => dt,
            Err(e) => {
                proof {
                    lemma_decode_columns_none(dv, i as int);
                }
                return Err(e);
            },
        };
        let ghost before = columns_view(cols@);
        cols.push(Column { name: string_of(&parts[0]), data_type: dt });
        assert(columns_view(cols@) =~= before.push((parts@[0]@, dt)));
        i = i + 1;
    }
    assert(dv.take(i as int) =~= dv);
    Ok(cols)
}

/// Once a column definition fails to decode, the whole schema does.
proof fn lemma_decode_columns_none(defs: Seq<Seq<char>>, i: int)
    requires
        0 <= i < defs.len(),
        decode_column(defs[i]) is None,
    ensures
        decode_columns(defs) is None,
    decreases defs.len(),
{
    if i < defs.len() - 1 {
        lemma_decode_columns_none(defs.drop_last(), i);
    }
}

/// The text of a table file for columns `cols` and rows of cells `rows`.
pub fn encode_table_text(cols: &Vec<Column>, rows: &Vec<Vec<Cell>>) -> (r: String)
    ensures
        r@ == encode_table(columns_view(cols@), rows@.map_values(|row: Vec<Cell>| cells_view(row@))),
{
    let ghost rv = rows@.map_values(|row: Vec<Cell>| cells_view(row@));
    let mut out = schema_to_chars(cols);
    out.push('\n');
    let ghost head = out@;
    let mut i: usize = 0;
    assert(rv.take(0) =~= Seq::<Seq<CellModel>>::empty());
    while i < rows.len()
        invariant
            rv == rows@.map_values(|row: Vec<Cell>| cells_view(row@)),
            i <= rows@.len(),
            out@ == head + encode_rows(rv.take(i as int)),
        decreases rows.len() - i,
    {
        let line = row_to_chars(&rows[i]);
        let ghost before = out@;
        let mut j: usize = 0;
        while j < line.len()
            invariant
                j <= line@.len(),
                out@ == before + line@.take(j as int),
            decreases line.len() - j,
        {
            out.push(line[j]);
            j = j + 1;
            assert(out@ =~= before + line@.take(j as int));
        }
        out.push('\n');
        proof {
            assert(line@.take(j as int) =~= line@);
            assert(rv.take(i + 1).drop_last() =~= rv.take(i as int));
            assert(rv.take(i + 1).last() == cells_view(rows@[i as int]@));
            assert(out@ =~= head + encode_rows(rv.take(i + 1)));
        }
        i = i + 1;
    }
    assert(rv.take(i as int) =~= rv);
    string_of(&out)
}

/// The columns and rows of the text of a table file: every line after the
/// schema line is a row, blank or not.
pub fn decode_table_text(text: &str) -> (r: Result<(Vec<Column>, Vec<Vec<Cell>>), CodecError>)
    ensures
        match decode_table(text@) {
            Some((cs, rs)) => r matches Ok((c, v)) && columns_view(c@) == cs && v@.map_values(|row: Vec<Cell>| cells_view(row@)) == rs,
            None => r is Err,
        },
{
    let chars = chars_of(text);
    let lines = split_on(&chars, '\n');
    let ghost lv = fields_view(lines@);
    let schema = trim_chars(&lines[0]);
    let cols = match parse_schema(&schema) {
        Ok(c) => c,
        Err(e) => {
            return Err(e);
        },
    };
    let mut types: Vec<DataType> = Vec::new();
    let mut k: usize = 0;
    while k < cols.len()
        invariant
            k <= cols@.len(),
            types@ == types_of(columns_view(cols@)).take(k as int),
        decreases cols.len() - k,
    {
        types.push(cols[k].data_type);
        k = k + 1;
        assert(types@ =~= types_of(columns_view(cols@)).take(k as int));
    }
    assert(types@ =~= types_of(columns_view(cols@)));
    let mut end: usize = lines.len();
    if end > 1 && lines[end - 1].len() == 0 {
        end = end - 1;
    }
    let ghost rl = row_lines(lv);
    assert(rl =~= lv.subrange(1, end as int));
    let mut rows: Vec<Vec<Cell>> = Vec::new();
    let mut i: usize = 1;
    assert(rl.take(0) =~= Seq::<Seq<char>>::empty());
    assert(rows@.map_values(|row: Vec<Cell>| cells_view(row@)) =~= Seq::<Seq<CellModel>>::empty());
    while i < end
        invariant
            end <= lv.len(),
            rl == row_lines(lv),
            rl == lv.subrange(1, end as int),
            lv == fields_view(lines@),
            lv == split_plain(text@, '\n'),
            lv.len() > 0,
            types@ == types_of(columns_view(cols@)),
            decode_columns(split_plain(trim(lv[0]), ',')) == Some(columns_view(cols@)),
            1 <= i <= lv.len(),
            i <= end,
            decode_lines(rl.take(i - 1), types@) == Some(rows@.map_values(|row: Vec<Cell>| cells_view(row@))),
        decreases end - i,
    {
        let ghost ls = rl;
        proof {
            assert(ls.take(i as int).drop_last() =~= ls.take(i - 1));
            assert(ls.take(i as int).last() == lines@[i as int]@);
        }
        let mut body = copy_chars(&lines[i]);
        if body.len() > 0 && body[body.len() - 1] == '\r' {
            body.pop();
        }
        assert(body@ == line_body(lines@[i as int]@)) by {
            let l = lines@[i as int]@;
            if l.len() > 0 && l.last() == '\r' {
                assert(body@ =~= l.drop_last());
            }
        }
        match parse_row(&body, &types) {
            Ok(row) => {
                let ghost before = rows@.map_values(|row: Vec<Cell>| cells_view(row@));
                rows.push(row);
                assert(rows@.map_values(|row: Vec<Cell>| cells_view(row@)) =~= before.push(cells_view(row@)));
            },
            Err(e) => {
                proof {
                    lemma_decode_lines_none(ls, types@, i as int);
                }
                return Err(e);
            },
        }
        i = i + 1;
    }
    assert(rl.take(i - 1) =~= rl);
    Ok((cols, rows))
}

/// Once a line fails to decode, the whole file does.
proof fn lemma_decode_lines_none(ls: Seq<Seq<char>>, types: Seq<DataType>, n: int)
    requires
        1 <= n <= ls.len(),
        decode_lines(ls.take(n), types) is None,
    ensures
        decode_lines(ls, types) is None,
    decreases ls.len(),
{
    if n < ls.len() {
        assert(ls.drop_last().take(n) =~= ls.take(n));
        lemma_decode_lines_none(ls.drop_last(), types, n);
    } else {
        assert(ls.take(n) =~= ls);
    }
}

fn copy_chars(s: &Vec<char>) -> (r: Vec<char>)
    ensures
        r@ == s@,
{
    let mut r: Vec<char> = Vec::new();
    let mut i: usize = 0;
    while i < s.len()
        invariant
            i <= s@.len(),
            r@ == s@.take(i as int),
        decreases s.len() - i,
    {
        r.push(s[i]);
        i = i + 1;
        assert(r@ =~= s@.take(i as int));
    }
    assert(s@.take(i as int) =~= s@);
    r
}

} // verus!

verus! {

/// The cell of a value that is not a float.
pub open spec fn cell_of(v: Datum) -> CellModel {
    match v {
        Datum::Int(n) => CellModel::Int(n),
        Datum::Text(s) => CellModel::Text(s),
        _ => CellModel::Null,
    }
}

/// The value of a cell that is not a float.
pub open spec fn datum_of(c: CellModel) -> Datum {
    match c {
        CellModel::Int(n) => Datum::Int(n),
        CellModel::Text(s) => Datum::Text(s),
        _ => Datum::Null,
    }
}

/// The cell of a value; `None` for a float, whose text only a float formatter writes.
pub fn to_cell(v: &Value) -> (r: Option<Cell>)
    ensures
        match r {
            Some(c) => !(v is Float) && c@ == cell_of(v@),
            None => v is Float,
        },
{
    match v {
        Value::Int(n) => Some(Cell::Int(*n)),
        Value::Text(s) => Some(Cell::Text(s.clone())),
        Value::Float(_) => None,
        Value::Null => Some(Cell::Null),
    }
}

/// The value of a cell; `None` for a float, whose text only a float parser reads.
pub fn to_value(c: &Cell) -> (r: Option<Value>)
    ensures
        match r {
            Some(v) => !(c is Float) && v@ == datum_of(c@),
            None => c is Float,
        },
{
    match c {
        Cell::Int(n) => Some(Value::Int(*n)),
        Cell::Text(s) => Some(Value::Text(s.clone())),
        Cell::Float(_) => None,
        Cell::Null => Some(Value::Null),
    }
}

} // verus!

verus! {

/// `s` holds no `c`.
pub open spec fn free_of(s: Seq<char>, c: char) -> bool {
    forall|i: int| 0 <= i < s.len() ==> s[i] != c
}

/// `s` reads as one field: no unescaped `|`, and no backslash left without a partner.
pub open spec fn field_ok(s: Seq<char>) -> bool
    decreases s.len(),
{
    if s.len() == 0 {
        true
    } else if s[0] == '\\' {
        s.len() >= 2 && field_ok(s.skip(2))
    } else {
        s[0] != '|' && field_ok(s.drop_first())
    }
}

proof fn lemma_split_plain_chunk(a: Seq<char>, t: Seq<char>, sep: char, cur: Seq<char>, acc: Seq<Seq<char>>)
    requires
        free_of(a, sep),
    ensures
        split_plain_rest(a + t, sep, cur, acc) == split_plain_rest(t, sep, cur + a, acc),
    decreases a.len(),
{
    if a.len() == 0 {
        assert(a + t =~= t);
        assert(cur + a =~= cur);
    } else {
        assert((a + t)[0] == a[0]);
        assert((a + t).drop_first() =~= a.drop_first() + t);
        lemma_split_plain_chunk(a.drop_first(), t, sep, cur.push(a[0]), acc);
        assert(cur.push(a[0]) + a.drop_first() =~= cur + a);
    }
}

proof fn lemma_split_plain_join(fs: Seq<Seq<char>>, t: Seq<char>, sep: char, acc: Seq<Seq<char>>)
    requires
        fs.len() >= 1,
        forall|i: int| 0 <= i < fs.len() ==> free_of(#[trigger] fs[i], sep),
    ensures
        split_plain_rest(join(fs, sep) + t, sep, Seq::empty(), acc) == split_plain_rest(t, sep, fs.last(), acc + fs.drop_last()),
    decreases fs.len(),
{
    if fs.len() == 1 {
        lemma_split_plain_chunk(fs[0], t, sep, Seq::empty(), acc);
        assert(Seq::<char>::empty() + fs[0] =~= fs[0]);
        assert(acc + fs.drop_last() =~= acc);
    } else {
        let f2 = fs.drop_last();
        let rest = seq![sep] + fs.last() + t;
        assert(join(fs, sep) + t =~= join(f2, sep) + rest);
        assert forall|i: int| 0 <= i < f2.len() implies free_of(#[trigger] f2[i], sep) by {
            assert(f2[i] == fs[i]);
        }
        lemma_split_plain_join(f2, rest, sep, acc);
        assert(rest[0] == sep);
        assert(rest.drop_first() =~= fs.last() + t);
        assert(free_of(fs[fs.len() - 1], sep));
        lemma_split_plain_chunk(fs.last(), t, sep, Seq::empty(), (acc + f2.drop_last()).push(f2.last()));
        assert(Seq::<char>::empty() + fs.last() =~= fs.last());
        assert((acc + f2.drop_last()).push(f2.last()) =~= acc + fs.drop_last());
    }
}

/// Splitting pieces joined with `sep` gives them back when none holds `sep`.
pub proof fn lemma_split_plain_of_join(fs: Seq<Seq<char>>, sep: char)
    requires
        fs.len() >= 1,
        forall|i: int| 0 <= i < fs.len() ==> free_of(#[trigger] fs[i], sep),
    ensures
        split_plain(join(fs, sep), sep) == fs,
{
    lemma_split_plain_join(fs, Seq::empty(), sep, Seq::empty());
    assert(join(fs, sep) + Seq::<char>::empty() =~= join(fs, sep));
    assert((Seq::<Seq<char>>::empty() + fs.drop_last()).push(fs.last()) =~= fs);
}

proof fn lemma_split_chunk(a: Seq<char>, t: Seq<char>, cur: Seq<char>, acc: Seq<Seq<char>>)
    requires
        field_ok(a),
    ensures
        split_rest(a + t, cur, acc) == split_rest(t, cur + a, acc),
    decreases a.len(),
{
    if a.len() == 0 {
        assert(a + t =~= t);
        assert(cur + a =~= cur);
    } else if a[0] == '\\' {
        assert((a + t)[0] == a[0]);
        assert((a + t).skip(2) =~= a.skip(2) + t);
        assert((a + t).take(2) =~= a.take(2));
        lemma_split_chunk(a.skip(2), t, cur + a.take(2), acc);
        assert(cur + a.take(2) + a.skip(2) =~= cur + a);
    } else {
        assert((a + t)[0] == a[0]);
        assert((a + t).drop_first() =~= a.drop_first() + t);
        lemma_split_chunk(a.drop_first(), t, cur.push(a[0]), acc);
        assert(cur.push(a[0]) + a.drop_first() =~= cur + a);
    }
}

proof fn lemma_split_join(fs: Seq<Seq<char>>, t: Seq<char>, acc: Seq<Seq<char>>)
    requires
        fs.len() >= 1,
        forall|i: int| 0 <= i < fs.len() ==> field_ok(#[trigger] fs[i]),
    ensures
        split_rest(join(fs, '|') + t, Seq::empty(), acc) == split_rest(t, fs.last(), acc + fs.drop_last()),
    decreases fs.len(),
{
    if fs.len() == 1 {
        lemma_split_chunk(fs[0], t, Seq::empty(), acc);
        assert(Seq::<char>::empty() + fs[0] =~= fs[0]);
        assert(acc + fs.drop_last() =~= acc);
    } else {
        let f2 = fs.drop_last();
        let rest = seq!['|'] + fs.last() + t;
        assert(join(fs, '|') + t =~= join(f2, '|') + rest);
        assert forall|i: int| 0 <= i < f2.len() implies field_ok(#[trigger] f2[i]) by {
            assert(f2[i] == fs[i]);
        }
        lemma_split_join(f2, rest, acc);
        assert(rest[0] == '|');
        assert(rest.drop_first() =~= fs.last() + t);
        assert(field_ok(fs[fs.len() - 1]));
        lemma_split_chunk(fs.last(), t, Seq::empty(), (acc + f2.drop_last()).push(f2.last()));
        assert(Seq::<char>::empty() + fs.last() =~= fs.last());
        assert((acc + f2.drop_last()).push(f2.last()) =~= acc + fs.drop_last());
    }
}

/// Splitting a row line gives back the fields it was joined from.
pub proof fn lemma_split_fields_of_join(fs: Seq<Seq<char>>)
    requires
        fs.len() >= 1,
        forall|i: int| 0 <= i < fs.len() ==> field_ok(#[trigger] fs[i]),
    ensures
        split_fields(join(fs, '|')) == fs,
{
    lemma_split_join(fs, Seq::empty(), Seq::empty());
    assert(join(fs, '|') + Seq::<char>::empty() =~= join(fs, '|'));
    assert((Seq::<Seq<char>>::empty() + fs.drop_last()).push(fs.last()) =~= fs);
}

proof fn lemma_plain_field(s: Seq<char>)
    requires
        free_of(s, '|'),
        free_of(s, '\\'),
    ensures
        field_ok(s),
    decreases s.len(),
{
    if s.len() > 0 {
        lemma_plain_field(s.drop_first());
    }
}

proof fn lemma_escape_shape(s: Seq<char>)
    ensures
        field_ok(escape_seq(s)),
        free_of(escape_seq(s), '\n'),
        free_of(escape_seq(s), '\r'),
        unescape_seq(escape_seq(s)) == s,
    decreases s.len(),
{
    if s.len() > 0 {
        lemma_escape_shape(s.drop_first());
        let e = escape_seq(s);
        let r = escape_seq(s.drop_first());
        let c = s[0];
        assert(e == escape_char(c) + r);
        if c == '\\' || c == '|' || c == '\n' || c == '\r' {
            assert(e.skip(2) =~= r);
            assert(e[0] == '\\');
            assert(unescape_pair(e[1]) =~= seq![c]);
        } else {
            assert(e.drop_first() =~= r);
            assert(e[0] == c);
        }
        assert(unescape_seq(e) =~= seq![c] + s.drop_first());
        assert(s =~= seq![c] + s.drop_first());
    } else {
        assert(escape_seq(s) =~= Seq::<char>::empty());
    }
}

proof fn lemma_unescape_plain(s: Seq<char>)
    requires
        free_of(s, '\\'),
    ensures
        unescape_seq(s) == s,
    decreases s.len(),
{
    if s.len() > 0 {
        lemma_unescape_plain(s.drop_first());
        assert(s =~= seq![s[0]] + s.drop_first());
    }
}

proof fn lemma_digit(d: nat)
    requires
        d < 10,
    ensures
        digit_of_char(digit_char(d)) == Some(d),
{
}

proof fn lemma_nat_text(m: nat)
    ensures
        nat_text(m).len() >= 1,
        all_digits(nat_text(m)),
        digits_value(nat_text(m)) == m,
    decreases m,
{
    if m >= 10 {
        lemma_nat_text(m / 10);
        let p = nat_text(m / 10);
        let t = nat_text(m);
        assert(t.drop_last() =~= p);
        lemma_digit(m % 10);
        assert(t.last() == digit_char(m % 10));
        assert(digits_value(t) == digits_value(p) * 10 + digit_value(digit_char(m % 10)));
        assert((m / 10) * 10 + m % 10 == m) by (nonlinear_arith);
        assert(digit_value(digit_char(m % 10)) == m % 10);
        assert(digits_value(p) == m / 10);
        assert(digits_value(t) == m);
        assert forall|i: int| 0 <= i < t.len() implies is_digit(#[trigger] t[i]) by {
            if i < p.len() {
                assert(t[i] == p[i]);
            }
        }
    } else {
        let t = nat_text(m);
        lemma_digit(m);
        assert(t.drop_last() =~= Seq::<char>::empty());
        assert(t.last() == digit_char(m));
        assert(digits_value(t.drop_last()) == 0);
        assert(digits_value(t) == digits_value(t.drop_last()) * 10 + digit_value(t.last()));
        assert(digit_value(t.last()) == m);
    }
}

proof fn lemma_int_text(n: i64)
    ensures
        parse_int_seq(int_text(n as int)) == Some(n),
        free_of(int_text(n as int), '|'),
        free_of(int_text(n as int), '\\'),
        free_of(int_text(n as int), '\n'),
        free_of(int_text(n as int), '\r'),
        int_text(n as int) != null_token(),
{
    let t = int_text(n as int);
    if n < 0 {
        let m = (-n) as nat;
        lemma_nat_text(m);
        assert(t.drop_first() =~= nat_text(m));
        assert(t[0] == '-');
        assert forall|i: int| 0 <= i < t.len() implies t[i] == '-' || is_digit(#[trigger] t[i]) by {
            if i > 0 {
                assert(t[i] == nat_text(m)[i - 1]);
            }
        }
    } else {
        lemma_nat_text(n as nat);
        assert(is_digit(t[0]));
    }
    assert(t[0] != 'N');
}

/// A cell a table file reproduces: of its column's type; a text other than
/// `NULL`; a float text that holds no `|`, backslash, newline or carriage return
/// and is not `NULL`.
pub open spec fn cell_storable(c: CellModel, dt: DataType) -> bool {
    match c {
        CellModel::Null => true,
        CellModel::Int(_) => dt == DataType::Int,
        CellModel::Text(s) => dt == DataType::Text && s != null_token(),
        CellModel::Float(s) => dt == DataType::Float && s != null_token() && free_of(s, '|') && free_of(s, '\\')
            && free_of(s, '\n') && free_of(s, '\r'),
    }
}

/// A row a table file reproduces: one storable cell per column.
pub open spec fn row_storable(r: Seq<CellModel>, types: Seq<DataType>) -> bool {
    &&& r.len() == types.len()
    &&& forall|i: int| 0 <= i < r.len() ==> cell_storable(#[trigger] r[i], types[i])
}

/// A column a schema line reproduces: its name holds no `,`, `:` or newline.
pub open spec fn column_storable(c: (Seq<char>, DataType)) -> bool {
    free_of(c.0, ',') && free_of(c.0, ':') && free_of(c.0, '\n')
}

/// A storable cell read back from its text in its column's type is the same
/// cell (`string_to_value` of `cell_to_chars`), and its text is one clean field.
pub proof fn lemma_cell_round_trip(c: CellModel, dt: DataType)
    requires
        cell_storable(c, dt),
    ensures
        decode_cell(encode_cell(c), dt) == Some(c),
        field_ok(encode_cell(c)),
        free_of(encode_cell(c), '\n'),
        free_of(encode_cell(c), '\r'),
{
    match c {
        CellModel::Null => {
            lemma_plain_field(null_token());
        },
        CellModel::Int(n) => {
            lemma_int_text(n);
            lemma_plain_field(int_text(n as int));
        },
        CellModel::Text(s) => {
            lemma_escape_shape(s);
            lemma_unescape_plain(null_token());
        },
        CellModel::Float(s) => {
            lemma_plain_field(s);
        },
    }
}

proof fn lemma_join_free(fs: Seq<Seq<char>>, sep: char, c: char)
    requires
        sep != c,
        forall|i: int| 0 <= i < fs.len() ==> free_of(#[trigger] fs[i], c),
    ensures
        free_of(join(fs, sep), c),
    decreases fs.len(),
{
    if fs.len() > 1 {
        let f2 = fs.drop_last();
        assert forall|i: int| 0 <= i < f2.len() implies free_of(#[trigger] f2[i], c) by {
            assert(f2[i] == fs[i]);
        }
        lemma_join_free(f2, sep, c);
        assert(free_of(fs[fs.len() - 1], c));
    } else if fs.len() == 1 {
        assert(free_of(fs[0], c));
    }
}

/// A storable row read back from its line is the same row (`parse_row` of
/// `row_to_chars`); the line holds no newline or carriage return.
pub proof fn lemma_row_round_trip(r: Seq<CellModel>, types: Seq<DataType>)
    requires
        row_storable(r, types),
        r.len() >= 1,
    ensures
        decode_row(encode_row(r), types) == Some(r),
        free_of(encode_row(r), '\n'),
        free_of(encode_row(r), '\r'),
{
    let fs = r.map_values(|c: CellModel| encode_cell(c));
    assert forall|i: int| 0 <= i < fs.len() implies field_ok(#[trigger] fs[i]) && free_of(fs[i], '\n') && free_of(fs[i], '\r')
        && decode_cell(fs[i], types[i]) == Some(r[i]) by {
        lemma_cell_round_trip(r[i], types[i]);
    }
    lemma_split_fields_of_join(fs);
    lemma_join_free(fs, '|', '\n');
    lemma_join_free(fs, '|', '\r');
    lemma_decode_fields_all(fs, types, r);
}

proof fn lemma_decode_fields_all(fs: Seq<Seq<char>>, types: Seq<DataType>, r: Seq<CellModel>)
    requires
        fs.len() == types.len(),
        r.len() == fs.len(),
        forall|i: int| 0 <= i < fs.len() ==> decode_cell(#[trigger] fs[i], types[i]) == Some(r[i]),
    ensures
        decode_fields(fs, types) == Some(r),
    decreases fs.len(),
{
    if fs.len() == 0 {
        assert(r =~= Seq::<CellModel>::empty());
    } else {
        let n = fs.len() - 1;
        assert forall|i: int| 0 <= i < n implies decode_cell(#[trigger] fs.drop_last()[i], types.drop_last()[i]) == Some(r.drop_last()[i]) by {
            assert(decode_cell(fs[i], types[i]) == Some(r[i]));
        }
        lemma_decode_fields_all(fs.drop_last(), types.drop_last(), r.drop_last());
        assert(decode_cell(fs[n], types[n]) == Some(r[n]));
        assert(r.drop_last().push(r.last()) =~= r);
    }
}

} // verus!

verus! {

proof fn lemma_split_rows(rows: Seq<Seq<CellModel>>, t: Seq<char>, acc: Seq<Seq<char>>)
    requires
        forall|i: int| 0 <= i < rows.len() ==> free_of(encode_row(#[trigger] rows[i]), '\n'),
    ensures
        split_plain_rest(encode_rows(rows) + t, '\n', Seq::empty(), acc) == split_plain_rest(
            t,
            '\n',
            Seq::empty(),
            acc + rows.map_values(|r: Seq<CellModel>| encode_row(r)),
        ),
    decreases rows.len(),
{
    let lines = rows.map_values(|r: Seq<CellModel>| encode_row(r));
    if rows.len() == 0 {
        assert(encode_rows(rows) + t =~= t);
        assert(acc + lines =~= acc);
    } else {
        let r2 = rows.drop_last();
        let line = encode_row(rows.last());
        let rest = line + seq!['\n'] + t;
        assert(encode_rows(rows) + t =~= encode_rows(r2) + rest);
        assert forall|i: int| 0 <= i < r2.len() implies free_of(encode_row(#[trigger] r2[i]), '\n') by {
            assert(r2[i] == rows[i]);
        }
        lemma_split_rows(r2, rest, acc);
        assert(free_of(encode_row(rows[rows.len() - 1]), '\n'));
        lemma_split_plain_chunk(line, seq!['\n'] + t, '\n', Seq::empty(), acc + r2.map_values(|r: Seq<CellModel>| encode_row(r)));
        assert(line + (seq!['\n'] + t) =~= rest);
        assert(Seq::<char>::empty() + line =~= line);
        assert((seq!['\n'] + t)[0] == '\n');
        assert((seq!['\n'] + t).drop_first() =~= t);
        assert((acc + r2.map_values(|r: Seq<CellModel>| encode_row(r))).push(line) =~= acc + lines);
    }
}

proof fn lemma_decode_lines_all(rows: Seq<Seq<CellModel>>, types: Seq<DataType>)
    requires
        types.len() >= 1,
        forall|i: int| 0 <= i < rows.len() ==> row_storable(#[trigger] rows[i], types),
    ensures
        decode_lines(rows.map_values(|r: Seq<CellModel>| encode_row(r)), types) == Some(rows),
    decreases rows.len(),
{
    let lines = rows.map_values(|r: Seq<CellModel>| encode_row(r));
    if rows.len() == 0 {
        assert(lines =~= Seq::<Seq<char>>::empty());
    } else {
        let r2 = rows.drop_last();
        assert forall|i: int| 0 <= i < r2.len() implies row_storable(#[trigger] r2[i], types) by {
            assert(r2[i] == rows[i]);
        }
        lemma_decode_lines_all(r2, types);
        assert(lines.drop_last() =~= r2.map_values(|r: Seq<CellModel>| encode_row(r)));
        let last = rows.last();
        assert(row_storable(rows[rows.len() - 1], types));
        lemma_row_round_trip(last, types);
        let line = encode_row(last);
        assert(lines.last() == line);
        if line.len() > 0 {
            assert(line.last() == line[line.len() - 1]);
            assert(line[line.len() - 1] != '\r');
        }
        assert(line_body(line) == line);
        assert(r2.push(last) =~= rows);
    }
}

proof fn lemma_decode_columns_all(cols: Seq<(Seq<char>, DataType)>)
    requires
        forall|i: int| 0 <= i < cols.len() ==> column_storable(#[trigger] cols[i]),
    ensures
        decode_columns(cols.map_values(|c: (Seq<char>, DataType)| c.0 + seq![':'] + type_token(c.1))) == Some(cols),
    decreases cols.len(),
{
    let defs = cols.map_values(|c: (Seq<char>, DataType)| c.0 + seq![':'] + type_token(c.1));
    if cols.len() == 0 {
        assert(defs =~= Seq::<Seq<char>>::empty());
    } else {
        let c2 = cols.drop_last();
        assert forall|i: int| 0 <= i < c2.len() implies column_storable(#[trigger] c2[i]) by {
            assert(c2[i] == cols[i]);
        }
        lemma_decode_columns_all(c2);
        assert(defs.drop_last() =~= c2.map_values(|c: (Seq<char>, DataType)| c.0 + seq![':'] + type_token(c.1)));
        let c = cols.last();
        assert(column_storable(cols[cols.len() - 1]));
        let parts = seq![c.0, type_token(c.1)];
        assert(join(parts, ':') =~= c.0 + seq![':'] + type_token(c.1)) by {
            assert(parts.drop_last() =~= seq![c.0]);
            assert(join(seq![c.0], ':') == c.0);
            assert(parts.last() == type_token(c.1));
            assert(join(parts, ':') == join(parts.drop_last(), ':') + seq![':'] + parts.last());
        }
        assert(free_of(type_token(c.1), ':'));
        assert forall|i: int| 0 <= i < parts.len() implies free_of(#[trigger] parts[i], ':') by {}
        lemma_split_plain_of_join(parts, ':');
        assert(defs.last() == c.0 + seq![':'] + type_token(c.1));
        assert(type_of_token(type_token(c.1)) == Some(c.1));
        assert(c2.push(c) =~= cols);
    }
}

/// A table file read back gives the columns and rows it was written from,
/// provided the schema has at least one column, the column names hold no `,`,
/// `:` or newline and the first does not begin with whitespace, and every
/// row is storable. The one value a file cannot keep is a text that reads
/// exactly `NULL`: it is written as the null token and read back as null.
pub proof fn lemma_table_round_trip(cols: Seq<(Seq<char>, DataType)>, rows: Seq<Seq<CellModel>>)
    requires
        cols.len() >= 1,
        forall|i: int| 0 <= i < cols.len() ==> column_storable(#[trigger] cols[i]),
        cols[0].0.len() == 0 || !is_ws(cols[0].0[0]),
        forall|i: int| 0 <= i < rows.len() ==> row_storable(#[trigger] rows[i], types_of(cols)),
    ensures
        decode_table(encode_table(cols, rows)) == Some((cols, rows)),
{
    let types = types_of(cols);
    let defs = cols.map_values(|c: (Seq<char>, DataType)| c.0 + seq![':'] + type_token(c.1));
    let schema = encode_schema(cols);
    assert(schema == join(defs, ','));
    assert forall|i: int| 0 <= i < defs.len() implies free_of(#[trigger] defs[i], ',') && free_of(defs[i], '\n') by {
        assert(column_storable(cols[i]));
        let d = defs[i];
        assert(d == cols[i].0 + seq![':'] + type_token(cols[i].1));
        assert forall|j: int| 0 <= j < d.len() implies d[j] != ',' && d[j] != '\n' by {
            if j >= cols[i].0.len() + 1 {
                assert(d[j] == type_token(cols[i].1)[j - cols[i].0.len() - 1]);
            } else if j < cols[i].0.len() {
                assert(d[j] == cols[i].0[j]);
            }
        }
    }
    lemma_join_free(defs, ',', '\n');
    lemma_split_plain_of_join(defs, ',');
    lemma_decode_columns_all(cols);
    assert forall|i: int| 0 <= i < rows.len() implies free_of(encode_row(#[trigger] rows[i]), '\n') by {
        assert(row_storable(rows[i], types));
        lemma_row_round_trip(rows[i], types);
    }
    let body = encode_rows(rows);
    let text = encode_table(cols, rows);
    let lines = rows.map_values(|r: Seq<CellModel>| encode_row(r));
    lemma_split_plain_chunk(schema, seq!['\n'] + body, '\n', Seq::empty(), Seq::empty());
    assert(text =~= schema + (seq!['\n'] + body));
    assert((seq!['\n'] + body)[0] == '\n');
    assert((seq!['\n'] + body).drop_first() =~= body);
    assert(Seq::<char>::empty() + schema =~= schema);
    lemma_split_rows(rows, Seq::empty(), seq![schema]);
    assert(body + Seq::<char>::empty() =~= body);
    let ls = split_plain(text, '\n');
    assert(ls == (seq![schema] + lines).push(Seq::<char>::empty()));
    assert(ls[0] == schema);
    assert(ls.drop_first() =~= lines.push(Seq::<char>::empty()));
    // The schema line has no surrounding whitespace.
    assert(defs[0] == cols[0].0 + seq![':'] + type_token(cols[0].1));
    assert(schema.len() > 0 && !is_ws(schema[0]) && !is_ws(schema.last())) by {
        lemma_join_ends(defs, ',');
        let d0 = defs[0];
        if cols[0].0.len() == 0 {
            assert(d0[0] == ':');
        } else {
            assert(d0[0] == cols[0].0[0]);
        }
        let dl = defs.last();
        let cl = cols[cols.len() - 1];
        assert(dl == cl.0 + seq![':'] + type_token(cl.1));
        assert(dl.last() == type_token(cl.1).last());
    }
    assert(trim_start(schema) == schema);
    assert(trim(schema) == schema);
    lemma_decode_lines_all(rows, types);
    let bl = Seq::<char>::empty();
    assert(lines.push(bl).drop_last() =~= lines);
    assert(row_lines(ls) == lines);
}

proof fn lemma_join_ends(fs: Seq<Seq<char>>, sep: char)
    requires
        fs.len() >= 1,
        fs[0].len() >= 1,
        fs.last().len() >= 1,
    ensures
        join(fs, sep).len() >= 1,
        join(fs, sep)[0] == fs[0][0],
        join(fs, sep).last() == fs.last().last(),
    decreases fs.len(),
{
    if fs.len() > 1 {
        let f2 = fs.drop_last();
        if f2.len() > 1 {
            assert(f2.last() == fs[fs.len() - 2]);
        }
        assert(f2[0] == fs[0]);
        lemma_join_ends_first(f2, sep);
    }
}

proof fn lemma_join_ends_first(fs: Seq<Seq<char>>, sep: char)
    requires
        fs.len() >= 1,
        fs[0].len() >= 1,
    ensures
        join(fs, sep).len() >= 1,
        join(fs, sep)[0] == fs[0][0],
    decreases fs.len(),
{
    if fs.len() > 1 {
        assert(fs.drop_last()[0] == fs[0]);
        lemma_join_ends_first(fs.drop_last(), sep);
    }
}

} // verus!

verus! {

/// A value that is not a float survives the trip to a cell and back.
pub proof fn lemma_value_cell_round_trip(v: Datum)
    requires
        !(v is Float),
    ensures
        datum_of(cell_of(v)) == v,
{
}

/// A schema line read back gives the columns it was written from
/// (`parse_schema` of `schema_to_chars`), when there is at least one column and
/// no name holds `,`, `:` or a newline.
pub proof fn lemma_schema_round_trip(cols: Seq<(Seq<char>, DataType)>)
    requires
        cols.len() >= 1,
        forall|i: int| 0 <= i < cols.len() ==> column_storable(#[trigger] cols[i]),
    ensures
        decode_columns(split_plain(encode_schema(cols), ',')) == Some(cols),
{
    let defs = cols.map_values(|c: (Seq<char>, DataType)| c.0 + seq![':'] + type_token(c.1));
    assert forall|i: int| 0 <= i < defs.len() implies free_of(#[trigger] defs[i], ',') by {
        assert(column_storable(cols[i]));
        let d = defs[i];
        assert(d == cols[i].0 + seq![':'] + type_token(cols[i].1));
        assert forall|j: int| 0 <= j < d.len() implies d[j] != ',' by {
            if j >= cols[i].0.len() + 1 {
                assert(d[j] == type_token(cols[i].1)[j - cols[i].0.len() - 1]);
            } else if j < cols[i].0.len() {
                assert(d[j] == cols[i].0[j]);
            }
        }
    }
    lemma_split_plain_of_join(defs, ',');
    lemma_decode_columns_all(cols);
}

/// A cell fits a column type: null, or of that type.
pub open spec fn cell_fits(c: CellModel, dt: DataType) -> bool {
    match c {
        CellModel::Null => true,
        CellModel::Int(_) => dt == DataType::Int,
        CellModel::Text(_) => dt == DataType::Text,
        CellModel::Float(_) => dt == DataType::Float,
    }
}

proof fn lemma_decoded_fields_fit(fs: Seq<Seq<char>>, types: Seq<DataType>, r: Seq<CellModel>)
    requires
        fs.len() == types.len(),
        decode_fields(fs, types) == Some(r),
    ensures
        r.len() == types.len(),
        forall|i: int| 0 <= i < r.len() ==> cell_fits(#[trigger] r[i], types[i]),
    decreases fs.len(),
{
    if fs.len() > 0 {
        let prev = decode_fields(fs.drop_last(), types.drop_last()).unwrap();
        lemma_decoded_fields_fit(fs.drop_last(), types.drop_last(), prev);
        let c = decode_cell(fs.last(), types.last()).unwrap();
        assert(r == prev.push(c));
        assert forall|i: int| 0 <= i < r.len() implies cell_fits(#[trigger] r[i], types[i]) by {
            if i < prev.len() {
                assert(r[i] == prev[i]);
                assert(types.drop_last()[i] == types[i]);
            }
        }
    } else {
        assert(r =~= Seq::<CellModel>::empty());
    }
}

proof fn lemma_decoded_lines_fit(ls: Seq<Seq<char>>, types: Seq<DataType>, rows: Seq<Seq<CellModel>>)
    requires
        decode_lines(ls, types) == Some(rows),
    ensures
        forall|p: int| 0 <= p < rows.len() ==> (#[trigger] rows[p]).len() == types.len()
            && forall|i: int| 0 <= i < rows[p].len() ==> cell_fits(#[trigger] rows[p][i], types[i]),
    decreases ls.len(),
{
    if ls.len() > 0 {
        let prev = decode_lines(ls.drop_last(), types).unwrap();
        lemma_decoded_lines_fit(ls.drop_last(), types, prev);
        let body = line_body(ls.last());
        let r = decode_row(body, types).unwrap();
        lemma_decoded_fields_fit(split_fields(body), types, r);
        assert(rows == prev.push(r));
        assert forall|p: int| 0 <= p < rows.len() implies (#[trigger] rows[p]).len() == types.len()
            && forall|i: int| 0 <= i < rows[p].len() ==> cell_fits(#[trigger] rows[p][i], types[i]) by {
            if p < prev.len() {
                assert(rows[p] == prev[p]);
            }
        }
    }
}

/// Every row read from a table file has one cell per column, each null or of
/// its column's type.
pub proof fn lemma_decoded_rows_fit(
    text: Seq<char>,
    cols: Seq<(Seq<char>, DataType)>,
    rows: Seq<Seq<CellModel>>,
)
    requires
        decode_table(text) == Some((cols, rows)),
    ensures
        forall|p: int| 0 <= p < rows.len() ==> (#[trigger] rows[p]).len() == cols.len()
            && forall|i: int| 0 <= i < rows[p].len() ==> cell_fits(#[trigger] rows[p][i], cols[i].1),
{
    let ls = split_plain(text, '\n');
    let types = types_of(cols);
    lemma_decoded_lines_fit(row_lines(ls), types, rows);
}

} // verus!
