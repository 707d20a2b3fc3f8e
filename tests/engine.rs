use minisql::{
    literal_to_value, process_sql, value_to_string, CaseInsensitiveString, Column, DataType,
    Database, ExecOutcome, Row, Table, Value,
};

fn two_columns() -> Vec<Column> {
    vec![
        Column::new("id".to_string(), DataType::Integer),
        Column::new("name".to_string(), DataType::Text),
    ]
}

fn run(db: &mut Database, sql: &str) -> Result<ExecOutcome, String> {
    let cmd = process_sql(sql)?;
    db.execute(cmd)
}

fn names(list: &[&str]) -> Vec<String> {
    list.iter().map(|s| s.to_string()).collect()
}

#[test]
fn insert_then_select_scenario() {
    let mut db = Database::new();
    assert!(run(&mut db, "CREATE TABLE t (id INTEGER, name TEXT);").is_ok());
    assert_eq!(
        run(&mut db, "INSERT INTO t (id, name) VALUES (1, 'Tom');"),
        Ok(ExecOutcome::RowInserted("t".to_string()))
    );
    assert_eq!(db.get_table("t").unwrap().row_count(), 1);
    assert_eq!(
        run(&mut db, "SELECT id, name FROM t;"),
        Ok(ExecOutcome::Rows(vec![Row {
            values: vec![Value::Integer(1), Value::Text("Tom".to_string())]
        }]))
    );
}

#[test]
fn select_from_missing_table() {
    let mut db = Database::new();
    run(&mut db, "CREATE TABLE t (id INTEGER, name TEXT);").unwrap();
    run(&mut db, "INSERT INTO t (id, name) VALUES (1, 'Tom');").unwrap();
    assert_eq!(
        run(&mut db, "SELECT * FROM missing;"),
        Err("Table 'missing' not found".to_string())
    );
    assert_eq!(db.get_table("t").unwrap().row_count(), 1);
}

#[test]
fn insert_with_wrong_arity() {
    let mut db = Database::new();
    run(&mut db, "CREATE TABLE t (id INTEGER, name TEXT);").unwrap();
    assert_eq!(
        run(&mut db, "INSERT INTO t (id) VALUES (1);"),
        Err("Arity mismatch: number of values doesn't match number of columns".to_string())
    );
    assert_eq!(db.get_table("t").unwrap().row_count(), 0);
    assert_eq!(db.next_row_id(), 0);
}

#[test]
fn select_unknown_column() {
    let mut db = Database::new();
    run(&mut db, "CREATE TABLE t (id INTEGER, name TEXT);").unwrap();
    run(&mut db, "INSERT INTO t (id, name) VALUES (1, 'Tom');").unwrap();
    assert_eq!(
        run(&mut db, "SELECT nope FROM t;"),
        Err("One or more columns not found".to_string())
    );
}

#[test]
fn type_mismatch_names_the_column() {
    let mut table = Table::new(two_columns());
    assert_eq!(
        table.insert_row(0, vec![Value::Integer(1), Value::Integer(2)]),
        Err("Type mismatch for column 'name'".to_string())
    );
    assert_eq!(
        table.insert_row(0, vec![Value::Text("x".to_string()), Value::Integer(2)]),
        Err("Type mismatch for column 'id'".to_string())
    );
    assert_eq!(table.row_count(), 0);
}

#[test]
fn failed_inserts_leave_index_unchanged() {
    let mut table = Table::new(two_columns());
    table.insert_row(3, vec![Value::Integer(7), Value::Text("a".to_string())]).unwrap();
    let before = table.lookup(&"name".to_string(), &Value::Text("a".to_string()));
    assert!(table.insert_row(4, vec![Value::Integer(7)]).is_err());
    assert!(table.insert_row(4, vec![Value::Integer(7), Value::Integer(8)]).is_err());
    assert_eq!(table.row_count(), 1);
    assert_eq!(table.lookup(&"name".to_string(), &Value::Text("a".to_string())), before);
    assert_eq!(table.lookup(&"id".to_string(), &Value::Integer(7)), Some(vec![3]));
}

#[test]
fn index_groups_row_ids_by_value() {
    let mut table = Table::new(two_columns());
    table.insert_row(1, vec![Value::Integer(5), Value::Text("a".to_string())]).unwrap();
    table.insert_row(2, vec![Value::Integer(6), Value::Text("b".to_string())]).unwrap();
    table.insert_row(4, vec![Value::Integer(5), Value::Text("b".to_string())]).unwrap();
    assert_eq!(table.lookup(&"id".to_string(), &Value::Integer(5)), Some(vec![1, 4]));
    assert_eq!(table.lookup(&"name".to_string(), &Value::Text("b".to_string())), Some(vec![2, 4]));
    assert_eq!(table.lookup(&"name".to_string(), &Value::Text("c".to_string())), Some(vec![]));
    assert_eq!(table.lookup(&"age".to_string(), &Value::Integer(5)), None);
}

#[test]
fn insert_then_select_all_columns_grows_by_one() {
    let mut table = Table::new(two_columns());
    let all = names(&["id", "name"]);
    table.insert_row(0, vec![Value::Integer(1), Value::Text("x".to_string())]).unwrap();
    let before = table.select(&all).unwrap().len();
    let row = vec![Value::Integer(2), Value::Text("y".to_string())];
    table.insert_row(1, row.clone()).unwrap();
    let after = table.select(&all).unwrap();
    assert_eq!(after.len(), before + 1);
    assert!(after.contains(&Row { values: row }));
}

#[test]
fn select_projects_in_requested_order() {
    let mut table = Table::new(two_columns());
    table.insert_row(9, vec![Value::Integer(1), Value::Text("x".to_string())]).unwrap();
    table.insert_row(10, vec![Value::Integer(2), Value::Text("y".to_string())]).unwrap();
    assert_eq!(
        table.select(&names(&["name", "id", "name"])).unwrap(),
        vec![
            Row { values: vec![Value::Text("x".to_string()), Value::Integer(1), Value::Text("x".to_string())] },
            Row { values: vec![Value::Text("y".to_string()), Value::Integer(2), Value::Text("y".to_string())] },
        ]
    );
    assert_eq!(table.select(&[]).unwrap(), vec![Row { values: vec![] }, Row { values: vec![] }]);
}

#[test]
fn row_ids_increase_across_tables() {
    let mut db = Database::new();
    db.create_table("a".to_string(), vec![Column::new("x".to_string(), DataType::Integer)]);
    db.create_table("b".to_string(), vec![Column::new("y".to_string(), DataType::Text)]);
    db.insert_row("a", vec![Value::Integer(1)]).unwrap();
    db.insert_row("b", vec![Value::Text("p".to_string())]).unwrap();
    assert!(db.insert_row("b", vec![Value::Integer(3)]).is_err());
    db.insert_row("a", vec![Value::Integer(2)]).unwrap();
    db.insert_row("b", vec![Value::Text("q".to_string())]).unwrap();
    let ids_a: Vec<usize> = db.get_table("a").unwrap().rows().iter().map(|p| p.0).collect();
    let ids_b: Vec<usize> = db.get_table("b").unwrap().rows().iter().map(|p| p.0).collect();
    assert_eq!(ids_a, vec![0, 2]);
    assert_eq!(ids_b, vec![1, 3]);
    assert_eq!(db.next_row_id(), 4);
}

#[test]
fn table_names_ignore_case() {
    let mut db = Database::new();
    db.create_table("Users".to_string(), two_columns());
    db.insert_row("USERS", vec![Value::Integer(1), Value::Text("Ann".to_string())]).unwrap();
    let all = names(&["id", "name"]);
    assert_eq!(db.select("users", &all).unwrap().len(), 1);
    assert_eq!(db.select("USERS", &all).unwrap().len(), 1);
    assert_eq!(db.select("Users", &all).unwrap().len(), 1);
    assert_eq!(db.tables().len(), 1);
    assert_eq!(db.tables()[0].0, CaseInsensitiveString("users".to_string()));
}

#[test]
fn recreating_a_table_replaces_it() {
    let mut db = Database::new();
    db.create_table("t".to_string(), two_columns());
    db.insert_row("t", vec![Value::Integer(1), Value::Text("a".to_string())]).unwrap();
    db.create_table("T".to_string(), vec![Column::new("z".to_string(), DataType::Char)]);
    assert_eq!(db.tables().len(), 1);
    let t = db.get_table("t").unwrap();
    assert_eq!(t.row_count(), 0);
    assert_eq!(t.get_columns(), &vec![Column::new("z".to_string(), DataType::Char)]);
    assert_eq!(db.next_row_id(), 1);
}

#[test]
fn insert_into_missing_table() {
    let mut db = Database::new();
    assert_eq!(
        db.insert_row("nowhere", vec![]),
        Err("Table 'nowhere' not found".to_string())
    );
    assert_eq!(db.next_row_id(), 0);
}

#[test]
fn value_types_against_columns() {
    assert!(Value::Integer(1).matches_type(&DataType::Integer));
    assert!(!Value::Integer(1).matches_type(&DataType::Text));
    assert!(Value::Text("a".to_string()).matches_type(&DataType::Varchar));
    assert!(Value::Text("a".to_string()).matches_type(&DataType::Char));
    assert!(!Value::Text("a".to_string()).matches_type(&DataType::Integer));
    assert!(!Value::Text("a".to_string()).matches_type(&DataType::Real));
}

#[test]
fn values_render_as_text() {
    assert_eq!(value_to_string(&Value::Integer(-120)), "-120");
    assert_eq!(value_to_string(&Value::Integer(0)), "0");
    assert_eq!(value_to_string(&Value::Integer(i64::MIN)), "-9223372036854775808");
    assert_eq!(value_to_string(&Value::Text("hi".to_string())), "hi");
}

#[test]
fn literals_become_values() {
    assert_eq!(literal_to_value(&"42".to_string()), Value::Integer(42));
    assert_eq!(literal_to_value(&"4x".to_string()), Value::Text("4x".to_string()));
    assert_eq!(literal_to_value(&"".to_string()), Value::Text("".to_string()));
    assert_eq!(
        literal_to_value(&"99999999999999999999".to_string()),
        Value::Text("99999999999999999999".to_string())
    );
}

#[test]
fn case_insensitive_string_folds_ascii() {
    assert_eq!(CaseInsensitiveString::new("MiXeD_1").0, "mixed_1");
}

#[test]
fn counter_at_its_limit_refuses_inserts() {
    let mut db = Database::with_next_row_id(usize::MAX);
    db.create_table("t".to_string(), vec![Column::new("x".to_string(), DataType::Integer)]);
    assert_eq!(
        db.insert_row("t", vec![Value::Integer(1)]),
        Err("No row ids are left".to_string())
    );
    assert_eq!(db.get_table("t").unwrap().row_count(), 0);
    assert_eq!(db.next_row_id(), usize::MAX);
}

#[test]
fn restoring_rows_checks_their_ids() {
    let mut db = Database::with_next_row_id(10);
    db.create_table("t".to_string(), vec![Column::new("x".to_string(), DataType::Integer)]);
    assert_eq!(db.restore_row("t", 4, vec![Value::Integer(1)]), Ok(()));
    assert_eq!(
        db.restore_row("t", 4, vec![Value::Integer(2)]),
        Err("Row id out of order".to_string())
    );
    assert_eq!(
        db.restore_row("t", 10, vec![Value::Integer(2)]),
        Err("Row id out of order".to_string())
    );
    assert_eq!(
        db.restore_row("u", 5, vec![Value::Integer(2)]),
        Err("Table 'u' not found".to_string())
    );
    assert_eq!(db.restore_row("T", 9, vec![Value::Integer(3)]), Ok(()));
    assert_eq!(db.insert_row("t", vec![Value::Integer(4)]), Ok(()));
    let ids: Vec<usize> = db.get_table("t").unwrap().rows().iter().map(|p| p.0).collect();
    assert_eq!(ids, vec![4, 9, 10]);
    assert_eq!(db.next_row_id(), 11);
}

#[test]
fn select_on_missing_table_through_database() {
    let db = Database::new();
    assert_eq!(
        db.select("Ghost", &names(&["a"])),
        Err("Table 'Ghost' not found".to_string())
    );
    assert!(db.get_table("ghost").is_err());
}

#[test]
fn execute_reports_each_command() {
    let mut db = Database::new();
    assert_eq!(
        run(&mut db, "CREATE TABLE People (name TEXT)"),
        Ok(ExecOutcome::TableCreated("People".to_string()))
    );
    assert_eq!(
        run(&mut db, "INSERT INTO people (name) VALUES ('Ann')"),
        Ok(ExecOutcome::RowInserted("people".to_string()))
    );
    assert_eq!(
        run(&mut db, "INSERT INTO PEOPLE (name) VALUES (5)"),
        Err("Type mismatch for column 'name'".to_string())
    );
    assert_eq!(
        run(&mut db, "SELECT name FROM people WHERE name = 'Bob'"),
        Ok(ExecOutcome::Rows(vec![Row { values: vec![Value::Text("Ann".to_string())] }]))
    );
}

#[test]
fn value_order() {
    let t = |s: &str| Value::Text(s.to_string());
    assert!(Value::Integer(-3).less_than(&Value::Integer(2)));
    assert!(!Value::Integer(2).less_than(&Value::Integer(2)));
    assert!(Value::Integer(i64::MAX).less_than(&t("")));
    assert!(!t("").less_than(&Value::Integer(0)));
    assert!(t("ab").less_than(&t("abc")));
    assert!(t("abc").less_than(&t("abd")));
    assert!(!t("b").less_than(&t("abc")));
    assert!(t("").less_than(&t("a")));
    assert!(!t("same").less_than(&t("same")));
}
