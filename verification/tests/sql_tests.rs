use fastn_resolver::sql::{QueryError, POSTGRES_SUB, SQLITE_SUB};

fn e(i: &str, o: &str, a: Vec<(String, Option<String>)>) {
    let (query, arguments) = fastn_resolver::sql::extract_arguments(i, POSTGRES_SUB).unwrap();
    assert_eq!(query, o);
    assert_eq!(arguments, a);
}

fn f(i: &str, o: &str, a: Vec<(String, Option<String>)>) {
    let (query, arguments) = fastn_resolver::sql::extract_arguments(i, SQLITE_SUB).unwrap();
    assert_eq!(query, o);
    assert_eq!(arguments, a);
}

#[test]
fn extract_arguments() {
    e(
        "SELECT $val::FLOAT8;",
        "SELECT $1;",
        vec![("val".to_string(), Some("FLOAT8".to_string()))],
    );
    e(
        "SELECT * FROM test where name = $name;",
        "SELECT * FROM test where name = $1;",
        vec![("name".to_string(), None)],
    );
    e("hello", "hello", vec![]);
    e(
        "SELECT * FROM test where name = $name",
        "SELECT * FROM test where name = $1",
        vec![("name".to_string(), None)],
    );
    e(
        "SELECT * FROM test where name = $name and full_name = $full_name",
        "SELECT * FROM test where name = $1 and full_name = $2",
        vec![("name".to_string(), None), ("full_name".to_string(), None)],
    );
    e(
        r"SELECT * FROM test where name = \$name and full_name = $full_name",
        r"SELECT * FROM test where name = \$name and full_name = $1",
        vec![("full_name".to_string(), None)],
    );
    e(
        r"SELECT * FROM test where name = \\$name and full_name = $full_name",
        r"SELECT * FROM test where name = \\$1 and full_name = $2",
        vec![("name".to_string(), None), ("full_name".to_string(), None)],
    );
    e(
        "SELECT * FROM test where name = $name and full_name = $name",
        "SELECT * FROM test where name = $1 and full_name = $1",
        vec![("name".to_string(), None)],
    );
    e(
        "SELECT * FROM test where name = \"$name\" and full_name = $name",
        "SELECT * FROM test where name = \"$name\" and full_name = $1",
        vec![("name".to_string(), None)],
    );
    e(
        "SELECT * FROM test where name = \"'$name'\" and full_name = $name",
        "SELECT * FROM test where name = \"'$name'\" and full_name = $1",
        vec![("name".to_string(), None)],
    );
    e(
        r#"SELECT * FROM test where name = \"$name\" and full_name = $name"#,
        r#"SELECT * FROM test where name = \"$1\" and full_name = $1"#,
        vec![("name".to_string(), None)],
    );

    f(
        "SELECT $val::FLOAT8;",
        "SELECT ?1;",
        vec![("val".to_string(), Some("FLOAT8".to_string()))],
    );
    f(
        "SELECT * FROM test where name = $name;",
        "SELECT * FROM test where name = ?1;",
        vec![("name".to_string(), None)],
    );
    f("hello", "hello", vec![]);
    f(
        "SELECT * FROM test where name = $name::foo",
        "SELECT * FROM test where name = ?1",
        vec![("name".to_string(), Some("foo".to_string()))],
    );
    f(
        "SELECT * FROM test where name = $name and full_name = $full_name",
        "SELECT * FROM test where name = ?1 and full_name = ?2",
        vec![("name".to_string(), None), ("full_name".to_string(), None)],
    );
    f(
        r"SELECT * FROM test where name = \$name and full_name = $full_name",
        r"SELECT * FROM test where name = \$name and full_name = ?1",
        vec![("full_name".to_string(), None)],
    );
    f(
        r"SELECT * FROM test where name = \\$name and full_name = $full_name",
        r"SELECT * FROM test where name = \\?1 and full_name = ?2",
        vec![("name".to_string(), None), ("full_name".to_string(), None)],
    );
    f(
        "SELECT * FROM test where name = $name and full_name = $name",
        "SELECT * FROM test where name = ?1 and full_name = ?1",
        vec![("name".to_string(), None)],
    );
    f(
        "SELECT * FROM test where name = \"$name\" and full_name = $name",
        "SELECT * FROM test where name = \"$name\" and full_name = ?1",
        vec![("name".to_string(), None)],
    );
    f(
        "SELECT * FROM test where name = \"'$name'\" and full_name = $name",
        "SELECT * FROM test where name = \"'$name'\" and full_name = ?1",
        vec![("name".to_string(), None)],
    );
    f(
        r#"SELECT * FROM test where name = \"$name\" and full_name = $name"#,
        r#"SELECT * FROM test where name = \"?1\" and full_name = ?1"#,
        vec![("name".to_string(), None)],
    );
}

#[test]
fn quote_left_open() {
    let r = fastn_resolver::sql::extract_arguments("SELECT \"unterminated", POSTGRES_SUB);
    assert!(matches!(r, Err(QueryError::QuoteOpen)));
}
