use dragon_fnd::{resolve_references, ConfigError, Table, Value};

fn table_of(pairs: Vec<(&str, Value)>) -> Table {
    let mut t = Table::new();
    for (k, v) in pairs {
        t.insert(k.to_string(), v);
    }
    t
}

fn s(text: &str) -> Value {
    Value::String(text.to_string())
}

#[test]
fn test_simple_reference() {
    let mut table = table_of(vec![("host", s("localhost")), ("url", s("http://${host}/api"))]);
    resolve_references(&mut table).unwrap();
    assert_eq!(table.get("url").unwrap().as_str().unwrap(), "http://localhost/api");
}

#[test]
fn test_nested_path() {
    let mut table = table_of(vec![
        ("server", Value::Table(table_of(vec![("host", s("example.com")), ("port", Value::Integer(8080))]))),
        ("client", Value::Table(table_of(vec![("endpoint", s("https://${server.host}:${server.port}"))]))),
    ]);
    resolve_references(&mut table).unwrap();
    let client = table.get("client").unwrap().as_table().unwrap();
    assert_eq!(client.get("endpoint").unwrap().as_str().unwrap(), "https://example.com:8080");
}

#[test]
fn test_chained_references() {
    let mut table = table_of(vec![("a", s("hello")), ("b", s("${a} world")), ("c", s("${b}!"))]);
    resolve_references(&mut table).unwrap();
    assert_eq!(table.get("c").unwrap().as_str().unwrap(), "hello world!");
}

#[test]
fn test_escape_sequence() {
    let mut table = table_of(vec![("value", s("use $${VAR} for env vars"))]);
    resolve_references(&mut table).unwrap();
    assert_eq!(table.get("value").unwrap().as_str().unwrap(), "use ${VAR} for env vars");
}

#[test]
fn test_integer_coercion() {
    let mut table = table_of(vec![("port", Value::Integer(3000)), ("url", s("http://localhost:${port}"))]);
    resolve_references(&mut table).unwrap();
    assert_eq!(table.get("url").unwrap().as_str().unwrap(), "http://localhost:3000");
}

#[test]
fn test_circular_reference() {
    let mut table = table_of(vec![("a", s("${b}")), ("b", s("${a}"))]);
    let result = resolve_references(&mut table);
    assert!(matches!(result, Err(ConfigError::CircularReference)));
}

#[test]
fn test_missing_reference() {
    let mut table = table_of(vec![("url", s("${nonexistent.path}"))]);
    let result = resolve_references(&mut table);
    assert!(matches!(result, Err(ConfigError::ReferenceNotFound(_))));
}

#[test]
fn test_array_values() {
    let mut table = table_of(vec![
        ("base", s("/api")),
        ("endpoints", Value::Array(vec![s("${base}/users"), s("${base}/posts")])),
    ]);
    resolve_references(&mut table).unwrap();
    let endpoints = table.get("endpoints").unwrap().as_array().unwrap();
    assert_eq!(endpoints[0].as_str().unwrap(), "/api/users");
    assert_eq!(endpoints[1].as_str().unwrap(), "/api/posts");
}

#[test]
fn self_reference_is_circular() {
    let mut table = table_of(vec![("a", s("${a}"))]);
    assert_eq!(resolve_references(&mut table), Err(ConfigError::CircularReference));
}

#[test]
fn resolving_a_resolved_tree_changes_nothing() {
    let mut table = table_of(vec![("a", s("hello")), ("b", s("${a} world")), ("n", Value::Array(vec![s("$x"), Value::Integer(-5)]))]);
    resolve_references(&mut table).unwrap();
    let snapshot = table.deep_copy();
    assert_eq!(resolve_references(&mut table), Ok(()));
    assert_eq!(table, snapshot);
    assert_eq!(table.get("b"), Some(&s("hello world")));
}

#[test]
fn lone_dollar_is_kept() {
    let mut table = table_of(vec![("price", s("costs $5 and $")), ("p", s("a$b"))]);
    resolve_references(&mut table).unwrap();
    assert_eq!(table.get("price"), Some(&s("costs $5 and $")));
    assert_eq!(table.get("p"), Some(&s("a$b")));
}

#[test]
fn double_escape_gives_two_dollars() {
    let mut table = table_of(vec![("v", s("$$$$"))]);
    resolve_references(&mut table).unwrap();
    assert_eq!(table.get("v"), Some(&s("$$")));
}

#[test]
fn scalar_kinds_interpolate_as_text() {
    let mut table = table_of(vec![
        ("i", Value::Integer(-42)),
        ("f", Value::Float("2.5".into())),
        ("b", Value::Boolean(false)),
        ("t", Value::Boolean(true)),
        ("d", Value::Datetime("1979-05-27T07:32:00Z".into())),
        ("all", s("${i}|${f}|${b}|${t}|${d}")),
    ]);
    resolve_references(&mut table).unwrap();
    assert_eq!(table.get("all"), Some(&s("-42|2.5|false|true|1979-05-27T07:32:00Z")));
    assert_eq!(table.get("i"), Some(&Value::Integer(-42)));
}

#[test]
fn unclosed_reference_fails() {
    let mut table = table_of(vec![("a", s("x${y"))]);
    assert_eq!(resolve_references(&mut table), Err(ConfigError::UnclosedReference));
}

#[test]
fn empty_reference_path_is_invalid() {
    let mut table = table_of(vec![("a", s("${}"))]);
    assert_eq!(resolve_references(&mut table), Err(ConfigError::InvalidReferencePath("".into())));
    let mut table = table_of(vec![("a", s("${x..y}")), ("x", Value::Integer(1))]);
    assert_eq!(resolve_references(&mut table), Err(ConfigError::InvalidReferencePath("x..y".into())));
}

#[test]
fn table_and_array_references_are_rejected() {
    let mut table = table_of(vec![("t", Value::Table(Table::new())), ("a", s("${t}"))]);
    assert_eq!(resolve_references(&mut table), Err(ConfigError::NonScalarReference("t".into())));
    let mut table = table_of(vec![("l", Value::Array(vec![])), ("a", s("${l}"))]);
    assert_eq!(resolve_references(&mut table), Err(ConfigError::NonScalarReference("l".into())));
}

#[test]
fn reference_through_a_scalar_is_not_found() {
    let mut table = table_of(vec![("x", Value::Integer(1)), ("a", s("${x.y}"))]);
    assert_eq!(resolve_references(&mut table), Err(ConfigError::ReferenceNotFound("x.y".into())));
}

#[test]
fn substituted_number_stays_a_string() {
    let mut table = table_of(vec![("n", Value::Integer(7)), ("m", s("${n}"))]);
    resolve_references(&mut table).unwrap();
    assert_eq!(table.get("m"), Some(&s("7")));
}

#[test]
fn references_read_the_snapshot_of_the_pass() {
    let mut table = table_of(vec![("a", s("${b}")), ("b", s("${c}")), ("c", s("end"))]);
    resolve_references(&mut table).unwrap();
    assert_eq!(table.get("a"), Some(&s("end")));
    assert_eq!(table.get("b"), Some(&s("end")));
}
