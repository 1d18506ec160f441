use sqlite_starter_rust::sql_parser::parse;
use sqlite_starter_rust::sql_parser::{
    CreateTableArg, CreateTableStatement, SelectArg, SelectStatement,
};

#[test]
fn test_statement() {
    let input = b"SELECT name FROM table;".to_vec();
    let expected = SelectStatement {
        args: vec![SelectArg::LITERAL(b"name".to_vec())],
        table: b"table".to_vec(),
    };

    let result = parse::select_statement(&input).unwrap();

    assert_eq!(result, expected);
}

#[test]
fn test_statement_multi_select() {
    let input = b"SELECT name, id FROM table;".to_vec();
    let expected = SelectStatement {
        args: vec![
            SelectArg::LITERAL(b"name".to_vec()),
            SelectArg::LITERAL(b"id".to_vec()),
        ],
        table: b"table".to_vec(),
    };

    let result = parse::select_statement(&input).unwrap();

    assert_eq!(result, expected);
}

#[test]
fn test_statement_whitespace() {
    let input = b"SELECT          name  ,   id       FROM\n            table\n            ;"
        .to_vec();
    let expected = SelectStatement {
        args: vec![
            SelectArg::LITERAL(b"name".to_vec()),
            SelectArg::LITERAL(b"id".to_vec()),
        ],
        table: b"table".to_vec(),
    };

    let result = parse::select_statement(&input).unwrap();

    assert_eq!(result, expected);
}

#[test]
fn test_statement_wildcard() {
    let input = b"SELECT * FROM table;".to_vec();
    let expected = SelectStatement {
        args: vec![SelectArg::LITERAL(b"*".to_vec())],
        table: b"table".to_vec(),
    };

    let result = parse::select_statement(&input).unwrap();

    assert_eq!(result, expected);
}

#[test]
fn test_statement_count() {
    let input = b"SELECT COUNT(name) FROM table;".to_vec();
    let expected = SelectStatement {
        args: vec![SelectArg::COUNT(b"name".to_vec())],
        table: b"table".to_vec(),
    };

    let result = parse::select_statement(&input).unwrap();

    assert_eq!(result, expected);
}

#[test]
fn test_statement_create() {
    let input = b"CREATE TABLE apples
                    (
                       \tid integer primary key autoincrement,
                       \tname text,
                       \tcolor text
                    )"
        .to_vec();
    let expected = CreateTableStatement {
        args: vec![
            CreateTableArg {
                column: b"id".to_vec(),
            },
            CreateTableArg {
                column: b"name".to_vec(),
            },
            CreateTableArg {
                column: b"color".to_vec(),
            },
        ],
        table: b"apples".to_vec(),
    };

    let result = parse::create_table_statement(&input);
    assert!(result.is_ok());
    assert_eq!(result.unwrap(), expected);
}
