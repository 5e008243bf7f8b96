//! The database rewriter.
//!
//! Applies the variable substitution to every row value of every column of
//! every user table in an embedded SQLite database file, inside a single
//! transaction: enumerate the tables from the schema, each table's columns
//! from its metadata, and each column's current values; for each value,
//! escape single quotes, substitute, and update by value match. Any error
//! rolls the transaction back, leaving the database untouched at the SQL
//! level; the file copy that preceded the rewrite is the tree's business
//! and is undone by its restore actions.
//!
//! A row value is matched by value, not by row identity: two rows holding
//! the same value in a column are updated alike, which is harmless exactly
//! because the substitution is a pure function of the value.

use vstd::prelude::*;

use crate::error::DotfilerError;
use crate::text::{escape_sql_quotes, replaced};
use crate::vars::{render_once, render_text, template_from, template_text, VarTable};

verus! {

#[verifier::external_type_specification]
#[verifier::external_body]
pub struct ExConnection(rusqlite::Connection);

/// Relies on rusqlite::Connection::open: opens (or creates) the SQLite
/// database file at `path`.
#[verifier::external_body]
fn db_open(path: &str) -> (res: Result<rusqlite::Connection, String>) {
    rusqlite::Connection::open(path).map_err(|e| e.to_string())
}

/// Relies on rusqlite::Connection::execute: runs one SQL statement and
/// reports how many rows changed.
#[verifier::external_body]
fn db_execute(conn: &rusqlite::Connection, sql: &str) -> (res: Result<usize, String>) {
    conn.execute(sql, []).map_err(|e| e.to_string())
}

/// Relies on rusqlite::Connection::prepare, Statement::query, Rows::next
/// and Row::get: runs one query and collects column `col` of each row as
/// a string. A row whose value is not a string is skipped; an error of
/// the row iteration itself is reported, so a mid-scan failure aborts the
/// caller's transaction instead of being committed.
#[verifier::external_body]
fn db_query_strings(conn: &rusqlite::Connection, sql: &str, col: usize) -> (res: Result<
    Vec<String>,
    String,
>) {
    let mut stmt = conn.prepare(sql).map_err(|e| e.to_string())?;
    let mut rows = stmt.query([]).map_err(|e| e.to_string())?;
    let mut out = Vec::new();
    loop {
        match rows.next() {
            Ok(Some(row)) => {
                if let Ok(s) = row.get::<usize, String>(col) {
                    out.push(s);
                }
            },
            Ok(None) => return Ok(out),
            Err(e) => return Err(e.to_string()),
        }
    }
}

/// The query that lists the columns of a table.
pub open spec fn columns_sql(table: Seq<char>) -> Seq<char> {
    "PRAGMA table_info("@ + table + ")"@
}

/// The query that lists a column's current values.
pub open spec fn values_sql(column: Seq<char>, table: Seq<char>) -> Seq<char> {
    "SELECT "@ + column + " FROM "@ + table
}

/// The statement that rewrites one value wherever the column holds it.
pub open spec fn update_sql(
    table: Seq<char>,
    column: Seq<char>,
    newv: Seq<char>,
    oldv: Seq<char>,
) -> Seq<char> {
    "UPDATE "@ + table + " SET "@ + column + "='"@ + newv + "' WHERE "@ + column + "='"@ + oldv
        + "'"@
}

/// What the rewriter makes of one row value: quotes escaped, then the
/// substitution — forward expands placeholders, backward templates
/// literal values.
pub open spec fn rewritten_value(
    v: Seq<char>,
    ps: Seq<(Seq<char>, Seq<char>)>,
    forward: bool,
) -> Seq<char> {
    let escaped = replaced(v, "'"@, "''"@);
    if forward {
        render_once(escaped, ps)
    } else {
        template_from(escaped, ps, 0)
    }
}

/// Builds the column query for a table.
pub fn build_columns_sql(table: &str) -> (res: String)
    ensures
        res@ == columns_sql(table@),
{
    let mut out = String::from_str("PRAGMA table_info(");
    out.append(table);
    out.append(")");
    out
}

/// Builds the value query for a column of a table.
pub fn build_values_sql(column: &str, table: &str) -> (res: String)
    ensures
        res@ == values_sql(column@, table@),
{
    let mut out = String::from_str("SELECT ");
    out.append(column);
    out.append(" FROM ");
    out.append(table);
    out
}

/// Builds the update statement for one value of one column.
pub fn build_update_sql(table: &str, column: &str, newv: &str, oldv: &str) -> (res: String)
    ensures
        res@ == update_sql(table@, column@, newv@, oldv@),
{
    let mut out = String::from_str("UPDATE ");
    out.append(table);
    out.append(" SET ");
    out.append(column);
    out.append("='");
    out.append(newv);
    out.append("' WHERE ");
    out.append(column);
    out.append("='");
    out.append(oldv);
    out.append("'");
    out
}

/// Escapes and substitutes one row value, exactly as `rewritten_value`
/// describes.
pub fn rewrite_value(value: &str, vars: &VarTable, forward: bool) -> (res: String)
    ensures
        res@ == rewritten_value(value@, vars@, forward),
{
    let escaped = escape_sql_quotes(value);
    if forward {
        render_text(escaped.as_str(), vars)
    } else {
        template_text(escaped.as_str(), vars)
    }
}

/// Rewrites every row value the scan reaches: for each table, column and
/// value, updates the column to the substituted value wherever it held
/// the old one.
fn rewrite_scan(conn: &rusqlite::Connection, vars: &VarTable, forward: bool) -> (res: Result<
    (),
    DotfilerError,
>)
    ensures
        res is Err ==> res->Err_0 is DatabaseFailure,
{
    let tables = match db_query_strings(conn, "SELECT tbl_name FROM sqlite_master WHERE type = 'table'", 0) {
        Ok(t) => t,
        Err(m) => return Err(DotfilerError::DatabaseFailure(m)),
    };
    let mut ti: usize = 0;
    while ti < tables.len()
        invariant
            0 <= ti <= tables@.len(),
        decreases tables@.len() - ti,
    {
        let table = &tables[ti];
        let columns = match db_query_strings(conn, build_columns_sql(table.as_str()).as_str(), 1) {
            Ok(c) => c,
            Err(m) => return Err(DotfilerError::DatabaseFailure(m)),
        };
        let mut ci: usize = 0;
        while ci < columns.len()
            invariant
                0 <= ci <= columns@.len(),
            decreases columns@.len() - ci,
        {
            let column = &columns[ci];
            let values = match db_query_strings(
                conn,
                build_values_sql(column.as_str(), table.as_str()).as_str(),
                0,
            ) {
                Ok(v) => v,
                Err(m) => return Err(DotfilerError::DatabaseFailure(m)),
            };
            let mut vi: usize = 0;
            while vi < values.len()
                invariant
                    0 <= vi <= values@.len(),
                decreases values@.len() - vi,
            {
                let old_escaped = escape_sql_quotes(values[vi].as_str());
                let newv = rewrite_value(values[vi].as_str(), vars, forward);
                let update = build_update_sql(
                    table.as_str(),
                    column.as_str(),
                    newv.as_str(),
                    old_escaped.as_str(),
                );
                if let Err(m) = db_execute(conn, update.as_str()) {
                    return Err(DotfilerError::DatabaseFailure(m));
                }
                vi += 1;
            }
            ci += 1;
        }
        ti += 1;
    }
    Ok(())
}

/// Rewrites every table, column and row value of the database file at
/// `path` inside one transaction: the whole scan commits, or a mid-scan
/// error rolls everything back. Forward expands `{{ key }}` placeholders
/// in row values; backward replaces literal variable values with their
/// placeholders, longer values first.
pub fn rewrite_db(path: &str, vars: &VarTable, forward: bool) -> (res: Result<
    (),
    DotfilerError,
>)
    ensures
        res is Err ==> res->Err_0 is DatabaseFailure,
{
    let conn = match db_open(path) {
        Ok(c) => c,
        Err(m) => return Err(DotfilerError::DatabaseFailure(m)),
    };
    if let Err(m) = db_execute(&conn, "BEGIN") {
        return Err(DotfilerError::DatabaseFailure(m));
    }
    match rewrite_scan(&conn, vars, forward) {
        Ok(()) => {
            match db_execute(&conn, "COMMIT") {
                Ok(_) => Ok(()),
                Err(m) => {
                    let _ = db_execute(&conn, "ROLLBACK");
                    Err(DotfilerError::DatabaseFailure(m))
                },
            }
        },
        Err(e) => {
            let _ = db_execute(&conn, "ROLLBACK");
            Err(e)
        },
    }
}

} // verus!
