//! Typed plans and their execution against a database.
use vstd::prelude::*;
use crate::codec::{int_text, nat_digits};
use crate::database::{Database, DbError};
use crate::text::{chars_of, string_of};
use crate::value::{Column, Value, WhereClause};

verus! {

/// One operation on the database.
pub enum Plan {
    CreateTable { table_name: String, columns: Vec<Column> },
    CreateIndex { table_name: String, column_name: String },
    Insert { table_name: String, values: Vec<Value> },
    Scan { table_name: String, columns: Vec<String>, filter: Option<WhereClause> },
    Delete { table_name: String, filter: Option<WhereClause> },
    Update { table_name: String, column: String, value: Value, filter: Option<WhereClause> },
}

/// What executing a plan answers: a message, or column names with rows.
#[derive(Clone, Debug, PartialEq)]
pub enum ExecutionResult {
    Success(String),
    Rows { columns: Vec<String>, rows: Vec<Vec<Value>> },
}

/// The filter of a plan, borrowed.
pub open spec fn filter_ref(f: &Option<WhereClause>) -> Option<&WhereClause> {
    match f {
        Some(w) => Some(w),
        None => None,
    }
}

fn append(out: &mut Vec<char>, s: &Vec<char>)
    ensures
        final(out)@ == old(out)@ + s@,
{
    let mut i: usize = 0;
    let ghost start = out@;
    while i < s.len()
        invariant
            i <= s@.len(),
            out@ == start + s@.take(i as int),
            start == old(out)@,
        decreases s.len() - i,
    {
        out.push(s[i]);
        i = i + 1;
        assert(out@ =~= start + s@.take(i as int));
    }
    assert(s@.take(i as int) =~= s@);
}

/// `a`, then `b`, then `c`.
fn concat3(a: &str, b: &str, c: &str) -> (r: String)
    ensures
        r@ == a@ + b@ + c@,
{
    let mut out = chars_of(a);
    append(&mut out, &chars_of(b));
    append(&mut out, &chars_of(c));
    string_of(&out)
}

/// A count followed by `suffix`.
fn count_message(n: usize, suffix: &str) -> (r: String)
    ensures
        r@ == int_text(n as int) + suffix@,
{
    let mut out = nat_digits(n as u64);
    append(&mut out, &chars_of(suffix));
    string_of(&out)
}

/// Executes a plan. A message reports what changed; a scan answers the
/// requested columns of the selected rows (every column when none is named).
pub fn execute(plan: Plan, db: &mut Database) -> (r: Result<ExecutionResult, DbError>)
    requires
        old(db).wf(),
        plan matches Plan::Insert { table_name, .. } ==> match old(db).table_position(table_name@) {
            Some(t) => old(db).tables@[t].rows@.len() < usize::MAX,
            None => true,
        },
    ensures
        final(db).wf(),
        match plan {
            Plan::CreateTable { table_name, columns } => match r {
                Ok(res) => Database::create_table_outcome(*old(db), *final(db), table_name, columns, Ok(()))
                    && (res matches ExecutionResult::Success(m) && m@ == "Table '"@ + table_name@ + "' created successfully"@),
                Err(e) => Database::create_table_outcome(*old(db), *final(db), table_name, columns, Err(e)),
            },
            Plan::CreateIndex { table_name, column_name } => match r {
                Ok(res) => Database::create_index_outcome(*old(db), *final(db), table_name@, column_name@, Ok(()))
                    && (res matches ExecutionResult::Success(m) && m@ == "Index created on column '"@ + column_name@ + "' of table '"@ + table_name@ + "'"@),
                Err(e) => Database::create_index_outcome(*old(db), *final(db), table_name@, column_name@, Err(e)),
            },
            Plan::Insert { table_name, values } => match r {
                Ok(res) => Database::insert_row_outcome(*old(db), *final(db), table_name@, values, Ok(()))
                    && (res matches ExecutionResult::Success(m) && m@ == "1 row inserted"@),
                Err(e) => Database::insert_row_outcome(*old(db), *final(db), table_name@, values, Err(e)),
            },
            Plan::Scan { table_name, columns, filter } => *final(db) == *old(db) && match r {
                Ok(ExecutionResult::Rows { columns: names, rows }) => Database::select_with_filter_outcome(*old(db), table_name@, columns, filter_ref(&filter), Ok((names, rows))),
                Ok(_) => false,
                Err(e) => Database::select_with_filter_outcome(*old(db), table_name@, columns, filter_ref(&filter), Err(e)),
            },
            Plan::Delete { table_name, filter } => match r {
                Ok(res) => exists|n: usize| Database::delete_rows_outcome(*old(db), *final(db), table_name@, filter_ref(&filter), Ok(n))
                    && (res matches ExecutionResult::Success(m) && m@ == int_text(n as int) + " row(s) deleted"@),
                Err(e) => Database::delete_rows_outcome(*old(db), *final(db), table_name@, filter_ref(&filter), Err(e)),
            },
            Plan::Update { table_name, column, value, filter } => match r {
                Ok(res) => exists|n: usize| Database::update_rows_outcome(*old(db), *final(db), table_name@, column@, value, filter_ref(&filter), Ok(n))
                    && (res matches ExecutionResult::Success(m) && m@ == int_text(n as int) + " row(s) updated"@),
                Err(e) => Database::update_rows_outcome(*old(db), *final(db), table_name@, column@, value, filter_ref(&filter), Err(e)),
            },
        },
{
    match plan {
        Plan::CreateTable { table_name, columns } => {
            let msg = concat3("Table '", table_name.as_str(), "' created successfully");
            match db.create_table(table_name, columns) {
                Ok(()) => Ok(ExecutionResult::Success(msg)),
                Err(e) => Err(e),
            }
        },
        Plan::CreateIndex { table_name, column_name } => {
            match db.create_index(table_name.as_str(), column_name.as_str()) {
                Ok(()) => {
                    let mut out = chars_of("Index created on column '");
                    append(&mut out, &chars_of(column_name.as_str()));
                    append(&mut out, &chars_of("' of table '"));
                    append(&mut out, &chars_of(table_name.as_str()));
                    append(&mut out, &chars_of("'"));
                    Ok(ExecutionResult::Success(string_of(&out)))
                },
                Err(e) => Err(e),
            }
        },
        Plan::Insert { table_name, values } => {
            match db.insert_row(table_name.as_str(), values) {
                Ok(()) => Ok(ExecutionResult::Success(String::from_str("1 row inserted"))),
                Err(e) => Err(e),
            }
        },
        Plan::Scan { table_name, columns, filter } => {
            match db.select_with_filter(table_name.as_str(), columns, filter.as_ref()) {
                Ok((names, rows)) => Ok(ExecutionResult::Rows { columns: names, rows }),
                Err(e) => Err(e),
            }
        },
        Plan::Delete { table_name, filter } => {
            match db.delete_rows(table_name.as_str(), filter.as_ref()) {
                Ok(n) => Ok(ExecutionResult::Success(count_message(n, " row(s) deleted"))),
                Err(e) => Err(e),
            }
        },
        Plan::Update { table_name, column, value, filter } => {
            match db.update_rows(table_name.as_str(), column.as_str(), value, filter.as_ref()) {
                Ok(n) => Ok(ExecutionResult::Success(count_message(n, " row(s) updated"))),
                Err(e) => Err(e),
            }
        },
    }
}

} // verus!
