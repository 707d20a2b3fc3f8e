use minisql::{
    parse, parse_create_table, parse_insert, parse_select, process_sql, Column, Condition, DataType,
    Keyword, SqlCommand, Token,
};

#[test]
fn test_parse_select_basic() {
    let tokens = vec![
        Token::Keyword(Keyword::Select),
        Token::Identifier("name".to_string()),
        Token::Symbol(','),
        Token::Identifier("age".to_string()),
        Token::Keyword(Keyword::From),
        Token::Identifier("users".to_string()),
    ];

    let result = parse_select(&tokens);
    assert!(result.is_ok());
    assert_eq!(
        result.unwrap(),
        SqlCommand::Select {
            table: "users".to_string(),
            columns: vec!["name".to_string(), "age".to_string()],
            where_clause: None,
            join_clause: None,
        }
    );
}

#[test]
fn test_parse_select_with_where() {
    let tokens = vec![
        Token::Keyword(Keyword::Select),
        Token::Identifier("name".to_string()),
        Token::Keyword(Keyword::From),
        Token::Identifier("users".to_string()),
        Token::Keyword(Keyword::Where),
        Token::Identifier("age".to_string()),
        Token::Symbol('>'),
        Token::Number(18),
        Token::Semicolon,
    ];

    let result = parse_select(&tokens);
    assert!(result.is_ok());

    match result.unwrap() {
        SqlCommand::Select {
            table,
            columns,
            where_clause,
            join_clause: _,
        } => {
            assert_eq!(table, "users".to_string());
            assert_eq!(columns, vec!["name".to_string()]);
            assert!(where_clause.is_some());

            let conditions = where_clause.unwrap();
            assert_eq!(conditions.len(), 1);

            match &conditions[0] {
                Condition::Comparison {
                    left,
                    operator,
                    right,
                } => {
                    assert_eq!(left, "age");
                    assert_eq!(operator, ">");
                    assert_eq!(right, "18");
                }
            }
        }
        _ => panic!("Parser: expected Select command"),
    }
}

#[test]
fn test_parse_select_error() {
    let tokens = vec![
        Token::Keyword(Keyword::Insert),
        Token::Identifier("name".to_string()),
        Token::Keyword(Keyword::From),
        Token::Identifier("users".to_string()),
        Token::Semicolon,
    ];

    let result = parse_select(&tokens);
    assert!(result.is_err());
    assert_eq!(result.unwrap_err(), "Expected SELECT keyword");
}

#[test]
fn test_parse_insert_basic() {
    let tokens = vec![
        Token::Keyword(Keyword::Insert),
        Token::Keyword(Keyword::Into),
        Token::Identifier("my table".to_string()),
        Token::Symbol('('),
        Token::Identifier("users".to_string()),
        Token::Symbol(')'),
        Token::Keyword(Keyword::Values),
        Token::Symbol('('),
        Token::Symbol('\''),
        Token::Identifier("charles".to_string()),
        Token::Symbol('\''),
        Token::Symbol(')'),
        Token::Semicolon,
    ];

    let result = parse_insert(&tokens);
    assert!(result.is_ok());
    assert_eq!(
        result.unwrap(),
        SqlCommand::Insert {
            table: "my table".to_string(),
            columns: vec!["users".to_string()],
            values: vec!["charles".to_string()],
        }
    )
}

#[test]
fn test_parse_insert_error() {
    let tokens = vec![
        Token::Keyword(Keyword::Select),
        Token::Identifier("name".to_string()),
        Token::Keyword(Keyword::From),
        Token::Identifier("users".to_string()),
        Token::Semicolon,
    ];

    let result = parse_insert(&tokens);
    assert!(result.is_err());
    assert_eq!(result.unwrap_err(), "Expected INSERT keyword");
}

#[test]
fn test_parse_create_table() {
    let tokens = vec![
        Token::Keyword(Keyword::Create),
        Token::Keyword(Keyword::Table),
        Token::Identifier("my_table".to_string()),
        Token::Symbol('('),
        Token::Identifier("users".to_string()),
        Token::DataType(DataType::Varchar),
        Token::Symbol(','),
        Token::Identifier("id".to_string()),
        Token::DataType(DataType::Integer),
        Token::Symbol(')'),
        Token::Semicolon,
    ];

    let columns: Vec<Column> = vec![
        Column::new(String::from("users"), DataType::Varchar),
        Column::new(String::from("id"), DataType::Integer),
    ];

    let result = parse_create_table(&tokens);

    assert!(result.is_ok());
    assert_eq!(
        result.unwrap(),
        SqlCommand::CreateTable {
            name: String::from("my_table"),
            columns,
        }
    );
}

#[test]
fn test_parse_create_table_create_token_error() {
    let tokens = vec![
        Token::Keyword(Keyword::Select),
        Token::Keyword(Keyword::Table),
        Token::Identifier("my_table".to_string()),
        Token::Symbol('('),
        Token::Identifier("users".to_string()),
        Token::DataType(DataType::Varchar),
        Token::Symbol(','),
        Token::Identifier("id".to_string()),
        Token::DataType(DataType::Integer),
        Token::Symbol(')'),
        Token::Semicolon,
    ];
    let result = parse_create_table(&tokens);

    assert!(result.is_err());
}

#[test]
fn create_table_scenario() {
    let cmd = process_sql("CREATE TABLE t (id INTEGER, name TEXT);").unwrap();
    assert_eq!(
        cmd,
        SqlCommand::CreateTable {
            name: "t".to_string(),
            columns: vec![
                Column::new("id".to_string(), DataType::Integer),
                Column::new("name".to_string(), DataType::Text),
            ],
        }
    );
}

#[test]
fn create_table_keeps_pairs_in_order() {
    let cmd = process_sql("create table x (c BLOB, b DATE, a DECIMAL)").unwrap();
    match cmd {
        SqlCommand::CreateTable { name, columns } => {
            assert_eq!(name, "x");
            let names: Vec<&str> = columns.iter().map(|c| c.name.as_str()).collect();
            assert_eq!(names, vec!["c", "b", "a"]);
            let types: Vec<DataType> = columns.iter().map(|c| c.data_type).collect();
            assert_eq!(types, vec![DataType::Blob, DataType::Date, DataType::Decimal]);
        }
        _ => panic!("expected CREATE TABLE"),
    }
}

#[test]
fn insert_with_numbers_and_strings() {
    let cmd = process_sql("INSERT INTO t (id, name) VALUES (1, 'Tom');").unwrap();
    assert_eq!(
        cmd,
        SqlCommand::Insert {
            table: "t".to_string(),
            columns: vec!["id".to_string(), "name".to_string()],
            values: vec!["1".to_string(), "Tom".to_string()],
        }
    );
}

#[test]
fn where_with_and_or_and_not_equal() {
    let tokens = vec![
        Token::Keyword(Keyword::Select),
        Token::Symbol('*'),
        Token::Keyword(Keyword::From),
        Token::Identifier("t".to_string()),
        Token::Keyword(Keyword::Where),
        Token::Identifier("a".to_string()),
        Token::Symbol('!'),
        Token::Symbol('='),
        Token::String("x".to_string()),
        Token::Keyword(Keyword::Or),
        Token::QuotedIdentifier("b c".to_string()),
        Token::Symbol('<'),
        Token::Number(5),
        Token::Keyword(Keyword::And),
        Token::Number(1),
        Token::Symbol('='),
        Token::Identifier("d".to_string()),
    ];
    let cond = |l: &str, o: &str, r: &str| Condition::Comparison {
        left: l.to_string(),
        operator: o.to_string(),
        right: r.to_string(),
    };
    assert_eq!(
        parse(&tokens),
        Ok(SqlCommand::Select {
            table: "t".to_string(),
            columns: vec!["*".to_string()],
            where_clause: Some(vec![cond("a", "!=", "x"), cond("b c", "<", "5"), cond("1", "=", "d")]),
            join_clause: None,
        })
    );
}

#[test]
fn parse_error_messages() {
    let err = |s: &str| process_sql(s).unwrap_err();
    assert_eq!(err(""), "Invalid SQL command");
    assert_eq!(err("42"), "Invalid SQL command");
    assert_eq!(err("FROM t"), "Unable to parse token: unsupported command.");
    assert_eq!(err("CREATE t"), "Parser: unexpected token. Expected CREATE TABLE keywords");
    assert_eq!(err("CREATE TABLE (a INTEGER)"), "Expected table name");
    assert_eq!(err("CREATE TABLE t a INTEGER"), "Parser: expected '('");
    assert_eq!(err("CREATE TABLE t (INTEGER)"), "Parser: expected a column name");
    assert_eq!(err("CREATE TABLE t (a b)"), "Expected a data type after column name");
    assert_eq!(err("CREATE TABLE t (a TEXT b TEXT)"), "Parser: expected ',' or ')'");
    assert_eq!(
        err("CREATE TABLE t (a TEXT);;"),
        "Parser: unexpected tokens after end of statement"
    );
    assert_eq!(err("INSERT t (a) VALUES (1)"), "Expected INTO keyword");
    assert_eq!(err("INSERT INTO t (a) (1)"), "Expected VALUES keyword");
    assert_eq!(err("INSERT INTO t (a) VALUES (,)"), "Parser: expected a literal value");
    assert_eq!(
        err("INSERT INTO t (a, b) VALUES (1)"),
        "Parser: number of values does not match number of columns"
    );
    assert_eq!(err("SELECT FROM t"), "Parser: expected '*' or a column name");
    assert_eq!(err("SELECT a b FROM t"), "Expected column name or FROM keyword");
    assert_eq!(err("SELECT a FROM t WHERE = 1"), "Parser: expected identifier or value in WHERE clause");
    assert_eq!(err("SELECT a FROM t WHERE a 1"), "Parser: expected comparison operator in WHERE clause");
    assert_eq!(err("SELECT a FROM t JOIN u"), "Parser: JOIN is not supported");
    assert_eq!(err("SELECT a FROM t x"), "Parser: unexpected tokens after end of statement");
}

#[test]
fn bang_without_equals_is_rejected() {
    let tokens = vec![
        Token::Keyword(Keyword::Select),
        Token::Identifier("a".to_string()),
        Token::Keyword(Keyword::From),
        Token::Identifier("t".to_string()),
        Token::Keyword(Keyword::Where),
        Token::Identifier("a".to_string()),
        Token::Symbol('!'),
        Token::Number(1),
    ];
    assert_eq!(
        parse(&tokens),
        Err("Parser: expected '=' after '!' in WHERE clause".to_string())
    );
}
