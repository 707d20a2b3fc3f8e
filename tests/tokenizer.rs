use minisql::{tokenize, DataType, Keyword, Token};

#[test]
fn test_select_statement() {
    let input: &str = "SELECT * FROM users;";

    let result: Result<Vec<Token>, String> = tokenize(input);
    assert!(result.is_ok());
    assert_eq!(
        result.unwrap(),
        vec![
            Token::Keyword(Keyword::Select),
            Token::Symbol('*'),
            Token::Keyword(Keyword::From),
            Token::Identifier(String::from("users")),
            Token::Semicolon,
        ]
    );
}

#[test]
fn test_insert_statement() {
    let input: &str = "INSERT INTO users (id, name) VALUES (1, 'Tom');";

    let result: Result<Vec<Token>, String> = tokenize(input);
    assert!(result.is_ok());
    assert_eq!(
        result.unwrap(),
        vec![
            Token::Keyword(Keyword::Insert),
            Token::Keyword(Keyword::Into),
            Token::Identifier(String::from("users")),
            Token::Symbol('('),
            Token::Identifier(String::from("id")),
            Token::Symbol(','),
            Token::Identifier(String::from("name")),
            Token::Symbol(')'),
            Token::Keyword(Keyword::Values),
            Token::Symbol('('),
            Token::Number(1),
            Token::Symbol(','),
            Token::String(String::from("Tom")),
            Token::Symbol(')'),
            Token::Semicolon,
        ]
    )
}

#[test]
fn test_create_statement() {
    let input: &str = "CREATE TABLE my_table (id INTEGER, name TEXT);";

    let result: Result<Vec<Token>, String> = tokenize(input);
    assert!(result.is_ok());
    assert_eq!(
        result.unwrap(),
        vec![
            Token::Keyword(Keyword::Create),
            Token::Keyword(Keyword::Table),
            Token::Identifier("my_table".to_string()),
            Token::Symbol('('),
            Token::Identifier("id".to_string()),
            Token::DataType(DataType::Integer),
            Token::Symbol(','),
            Token::Identifier("name".to_string()),
            Token::DataType(DataType::Text),
            Token::Symbol(')'),
            Token::Semicolon,
        ]
    )
}

#[test]
fn select_with_where_tokens() {
    let tokens = tokenize("SELECT * FROM users WHERE age > 18;").unwrap();
    assert_eq!(
        tokens,
        vec![
            Token::Keyword(Keyword::Select),
            Token::Symbol('*'),
            Token::Keyword(Keyword::From),
            Token::Identifier("users".to_string()),
            Token::Keyword(Keyword::Where),
            Token::Identifier("age".to_string()),
            Token::Symbol('>'),
            Token::Number(18),
            Token::Semicolon,
        ]
    );
}

#[test]
fn keywords_and_types_ignore_case() {
    let tokens = tokenize("select FrOm Varchar nUlL Users").unwrap();
    assert_eq!(
        tokens,
        vec![
            Token::Keyword(Keyword::Select),
            Token::Keyword(Keyword::From),
            Token::DataType(DataType::Varchar),
            Token::DataType(DataType::Null),
            Token::Identifier("Users".to_string()),
        ]
    );
}

#[test]
fn quoted_identifier_and_whitespace() {
    let tokens = tokenize("\t\"my col\"\n=\t'a b'").unwrap();
    assert_eq!(
        tokens,
        vec![
            Token::QuotedIdentifier("my col".to_string()),
            Token::Symbol('='),
            Token::String("a b".to_string()),
        ]
    );
}

#[test]
fn number_then_word_split() {
    let tokens = tokenize("007abc _x1").unwrap();
    assert_eq!(
        tokens,
        vec![
            Token::Number(7),
            Token::Identifier("abc".to_string()),
            Token::Identifier("_x1".to_string()),
        ]
    );
}

#[test]
fn largest_number_accepted() {
    let tokens = tokenize("9223372036854775807").unwrap();
    assert_eq!(tokens, vec![Token::Number(i64::MAX)]);
}

#[test]
fn number_out_of_range_rejected() {
    assert_eq!(
        tokenize("9223372036854775808"),
        Err("Number literal out of range".to_string())
    );
}

#[test]
fn unterminated_string_rejected() {
    assert_eq!(
        tokenize("SELECT 'abc"),
        Err("Unterminated string literal".to_string())
    );
}

#[test]
fn unterminated_quoted_identifier_rejected() {
    assert_eq!(
        tokenize("SELECT \"abc"),
        Err("Unterminated quoted identifier".to_string())
    );
}

#[test]
fn unexpected_character_rejected() {
    assert_eq!(
        tokenize("SELECT a ! b"),
        Err("Unexpected character: !".to_string())
    );
}

#[test]
fn empty_input_has_no_tokens() {
    assert_eq!(tokenize(""), Ok(vec![]));
    assert_eq!(tokenize("  \n\t "), Ok(vec![]));
}

#[test]
fn tokenizing_twice_gives_the_same_tokens() {
    let text = "INSERT INTO t (a, b) VALUES (42, 'x y');";
    assert_eq!(tokenize(text), tokenize(text));
}

#[test]
fn rendered_tokens_read_back_the_same() {
    let tokens = tokenize("select a, \"b c\" from t where x > 007 and y = 'q r';").unwrap();
    let text = minisql::render_tokens(&tokens);
    assert_eq!(text, "SELECT a , \"b c\" FROM t WHERE x > 7 AND y = 'q r' ; ");
    assert_eq!(tokenize(&text).unwrap(), tokens);
    assert_eq!(minisql::render_tokens(&tokenize(&text).unwrap()), text);
}

#[test]
fn rendered_create_table_keeps_columns() {
    let tokens = tokenize("create table t (b integer, a varchar)").unwrap();
    let text = minisql::render_tokens(&tokens);
    assert_eq!(text, "CREATE TABLE t ( b INTEGER , a VARCHAR ) ");
    let cmd = minisql::process_sql(&text).unwrap();
    match cmd {
        minisql::SqlCommand::CreateTable { columns, .. } => {
            assert_eq!(columns.len(), 2);
            assert_eq!(columns[0].name, "b");
            assert_eq!(columns[1].data_type, DataType::Varchar);
        }
        _ => panic!("expected CREATE TABLE"),
    }
}
