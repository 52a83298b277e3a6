use dragon_fnd::{coerce_value, insert_at_path, load_env_vars, EnvVar, Table, Value};

fn float_text(s: &str) -> Option<String> {
    s.parse::<f64>().ok().map(|f| f.to_string())
}

fn coerce(s: &str) -> Value {
    coerce_value(s, float_text(s))
}

fn var(name: &str, text: &str) -> EnvVar {
    EnvVar { name: name.to_string(), text: text.to_string(), float_text: float_text(text) }
}

#[test]
fn test_coerce_integer() {
    assert_eq!(coerce("42"), Value::Integer(42));
    assert_eq!(coerce("-123"), Value::Integer(-123));
    assert_eq!(coerce("0"), Value::Integer(0));
}

#[test]
fn test_coerce_float() {
    assert_eq!(coerce("3.14"), Value::Float(3.14f64.to_string()));
    assert_eq!(coerce("-2.5"), Value::Float((-2.5f64).to_string()));
    assert_eq!(coerce("0.0"), Value::Float(0.0f64.to_string()));
}

#[test]
fn test_coerce_boolean() {
    assert_eq!(coerce("true"), Value::Boolean(true));
    assert_eq!(coerce("false"), Value::Boolean(false));
    assert_eq!(coerce("TRUE"), Value::Boolean(true));
    assert_eq!(coerce("False"), Value::Boolean(false));
}

#[test]
fn test_coerce_string() {
    assert_eq!(coerce("hello"), Value::String("hello".to_string()));
    assert_eq!(coerce("hello world"), Value::String("hello world".to_string()));
    assert_eq!(coerce("007"), Value::Integer(7));
}

#[test]
fn test_coerce_edge_cases() {
    assert_eq!(coerce(""), Value::String("".to_string()));
    assert_eq!(coerce("-"), Value::String("-".to_string()));
    assert_eq!(coerce("1.2.3"), Value::String("1.2.3".to_string()));
}

#[test]
fn coerce_integer_limits() {
    assert_eq!(coerce("9223372036854775807"), Value::Integer(i64::MAX));
    assert_eq!(coerce("-9223372036854775808"), Value::Integer(i64::MIN));
    assert_eq!(coerce("9223372036854775808"), Value::String("9223372036854775808".to_string()));
    assert_eq!(coerce("99999999999999999999"), Value::String("99999999999999999999".to_string()));
}

#[test]
fn coerce_float_needs_a_dot() {
    assert_eq!(coerce("1e5"), Value::String("1e5".to_string()));
    assert_eq!(coerce("1.5e3"), Value::Float("1500".to_string()));
    assert_eq!(coerce("tRuE"), Value::Boolean(true));
    assert_eq!(coerce("truee"), Value::String("truee".to_string()));
    assert_eq!(coerce_value("3.14", None), Value::String("3.14".to_string()));
}

#[test]
fn test_insert_at_path_simple() {
    let mut table = Table::new();
    insert_at_path(&mut table, &["HOST".to_string()], Value::String("localhost".to_string()));

    assert_eq!(table.get("host"), Some(&Value::String("localhost".to_string())));
}

#[test]
fn test_insert_at_path_nested() {
    let mut table = Table::new();
    insert_at_path(
        &mut table,
        &["DATABASE".to_string(), "HOST".to_string()],
        Value::String("localhost".to_string()),
    );

    let db = table.get("database").unwrap().as_table().unwrap();
    assert_eq!(db.get("host"), Some(&Value::String("localhost".to_string())));
}

#[test]
fn test_insert_at_path_deeply_nested() {
    let mut table = Table::new();
    insert_at_path(
        &mut table,
        &["A".to_string(), "B".to_string(), "C".to_string(), "D".to_string()],
        Value::Integer(42),
    );

    let a = table.get("a").unwrap().as_table().unwrap();
    let b = a.get("b").unwrap().as_table().unwrap();
    let c = b.get("c").unwrap().as_table().unwrap();
    assert_eq!(c.get("d"), Some(&Value::Integer(42)));
}

#[test]
fn test_load_env_vars_basic() {
    let vars = vec![var("TESTAPP__HOST", "localhost"), var("TESTAPP__PORT", "8080")];
    let mut table = Table::new();
    load_env_vars(&mut table, &vars, "TESTAPP", "__");

    assert_eq!(table.get("host"), Some(&Value::String("localhost".to_string())));
    assert_eq!(table.get("port"), Some(&Value::Integer(8080)));
}

#[test]
fn test_load_env_vars_nested() {
    let vars = vec![
        var("MYAPP__DATABASE__HOST", "db.example.com"),
        var("MYAPP__DATABASE__PORT", "5432"),
        var("MYAPP__SERVER__ENABLED", "true"),
    ];
    let mut table = Table::new();
    load_env_vars(&mut table, &vars, "MYAPP", "__");

    let db = table.get("database").unwrap().as_table().unwrap();
    assert_eq!(db.get("host"), Some(&Value::String("db.example.com".to_string())));
    assert_eq!(db.get("port"), Some(&Value::Integer(5432)));

    let server = table.get("server").unwrap().as_table().unwrap();
    assert_eq!(server.get("enabled"), Some(&Value::Boolean(true)));
}

#[test]
fn test_load_env_vars_case_conversion() {
    let vars = vec![var("APP__UPPER_CASE__NESTED_KEY", "value")];
    let mut table = Table::new();
    load_env_vars(&mut table, &vars, "APP", "__");

    let upper = table.get("upper_case").unwrap().as_table().unwrap();
    assert_eq!(upper.get("nested_key"), Some(&Value::String("value".to_string())));
}

#[test]
fn test_load_env_vars_ignores_unrelated() {
    let vars = vec![var("APP__KEY", "value"), var("OTHER__KEY", "ignored"), var("APPEXTRA__KEY", "also_ignored")];
    let mut table = Table::new();
    load_env_vars(&mut table, &vars, "APP", "__");

    assert_eq!(table.get("key"), Some(&Value::String("value".to_string())));
    assert!(table.get("other").is_none());
    assert_eq!(table.len(), 1);
}

#[test]
fn test_load_env_vars_empty_path_ignored() {
    let vars = vec![var("APP__", "value")];
    let mut table = Table::new();
    load_env_vars(&mut table, &vars, "APP", "__");

    assert!(table.is_empty());
}

#[test]
fn test_load_env_vars_overrides_existing() {
    let vars = vec![var("CFG__PORT", "9000")];
    let mut table = Table::new();
    table.insert("port".to_string(), Value::Integer(8080));

    load_env_vars(&mut table, &vars, "CFG", "__");

    assert_eq!(table.get("port"), Some(&Value::Integer(9000)));
}

#[test]
fn test_load_env_vars_custom_separator() {
    let vars = vec![var("APP_DB_HOST", "localhost")];
    let mut table = Table::new();
    load_env_vars(&mut table, &vars, "APP", "_");

    let db = table.get("db").unwrap().as_table().unwrap();
    assert_eq!(db.get("host"), Some(&Value::String("localhost".to_string())));
}

#[test]
fn env_segments_are_lowercased_beyond_ascii() {
    let vars = vec![var("APP__ÄRGER", "x")];
    let mut table = Table::new();
    load_env_vars(&mut table, &vars, "APP", "__");
    assert_eq!(table.get("ärger"), Some(&Value::String("x".to_string())));
}

#[test]
fn env_later_variable_wins() {
    let vars = vec![var("APP__A", "1"), var("APP__A", "2.5")];
    let mut table = Table::new();
    load_env_vars(&mut table, &vars, "APP", "__");
    assert_eq!(table.get("a"), Some(&Value::Float("2.5".to_string())));
}
