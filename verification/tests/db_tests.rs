use dotfiler::db::{build_columns_sql, build_update_sql, build_values_sql, rewrite_db, rewrite_value};
use dotfiler::vars::VarTable;

fn table(pairs: &[(&str, &str)]) -> VarTable {
    let mut t = VarTable::new();
    for (k, v) in pairs {
        assert!(t.insert(k.to_string(), v.to_string()));
    }
    t
}

#[test]
fn sql_builders_spell_the_statements_exactly() {
    assert_eq!(build_columns_sql("users"), "PRAGMA table_info(users)");
    assert_eq!(build_values_sql("name", "users"), "SELECT name FROM users");
    assert_eq!(
        build_update_sql("users", "name", "{{ pw }}", "secret123"),
        "UPDATE users SET name='{{ pw }}' WHERE name='secret123'"
    );
}

#[test]
fn rewrite_value_escapes_then_substitutes() {
    let vars = table(&[("pw", "secret123")]);
    assert_eq!(rewrite_value("secret123", &vars, false), "{{ pw }}");
    assert_eq!(rewrite_value("{{ pw }}", &vars, true), "secret123");
    assert_eq!(rewrite_value("it's secret123", &vars, false), "it''s {{ pw }}");
    assert_eq!(rewrite_value("unrelated", &vars, false), "unrelated");
}

// The scenario: a database with one table whose column holds the literal
// value; after templating, every row that held it answers with the
// placeholder, and other rows stay as they were.
#[test]
fn templating_a_database_rewrites_matching_rows_only() {
    let dir = tempfile::tempdir().unwrap();
    let path = dir.path().join("db.sqlite");
    let path_str = path.to_str().unwrap().to_string();

    let conn = rusqlite::Connection::open(&path).unwrap();
    conn.execute("CREATE TABLE secrets (value TEXT)", []).unwrap();
    conn.execute("INSERT INTO secrets (value) VALUES ('secret123')", []).unwrap();
    conn.execute("INSERT INTO secrets (value) VALUES ('secret123')", []).unwrap();
    conn.execute("INSERT INTO secrets (value) VALUES ('other')", []).unwrap();
    drop(conn);

    let vars = table(&[("pw", "secret123")]);
    rewrite_db(&path_str, &vars, false).unwrap();

    let conn = rusqlite::Connection::open(&path).unwrap();
    let mut stmt = conn.prepare("SELECT value FROM secrets ORDER BY value").unwrap();
    let values: Vec<String> = stmt
        .query_map([], |row| row.get::<usize, String>(0))
        .unwrap()
        .map(|r| r.unwrap())
        .collect();
    assert_eq!(values, vec!["other".to_string(), "{{ pw }}".to_string(), "{{ pw }}".to_string()]);
}

// The inverse direction: rendering the templated database brings the
// literal value back.
#[test]
fn rendering_a_database_expands_placeholders() {
    let dir = tempfile::tempdir().unwrap();
    let path = dir.path().join("db.sqlite");
    let path_str = path.to_str().unwrap().to_string();

    let conn = rusqlite::Connection::open(&path).unwrap();
    conn.execute("CREATE TABLE conf (line TEXT)", []).unwrap();
    conn.execute("INSERT INTO conf (line) VALUES ('color: {{ color }}')", []).unwrap();
    drop(conn);

    let vars = table(&[("color", "#123456")]);
    rewrite_db(&path_str, &vars, true).unwrap();

    let conn = rusqlite::Connection::open(&path).unwrap();
    let mut stmt = conn.prepare("SELECT line FROM conf").unwrap();
    let values: Vec<String> = stmt
        .query_map([], |row| row.get::<usize, String>(0))
        .unwrap()
        .map(|r| r.unwrap())
        .collect();
    assert_eq!(values, vec!["color: #123456".to_string()]);
}

#[test]
fn rewriting_a_missing_database_reports_a_database_failure() {
    let vars = VarTable::new();
    let res = rewrite_db("/nonexistent-dir-for-sure/db.sqlite", &vars, true);
    assert!(matches!(
        res,
        Err(dotfiler::error::DotfilerError::DatabaseFailure(_))
    ));
}
