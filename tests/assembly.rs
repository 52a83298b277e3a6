use dragon_fnd::{
    assemble, AppContext, Config, ConfigEntry, ConfigError, EnvVar, Error, FileRead, FileSource,
    Loaded, SourceSpec, Table, Value,
};

fn table_of(pairs: Vec<(&str, Value)>) -> Table {
    let mut t = Table::new();
    for (k, v) in pairs {
        t.insert(k.to_string(), v);
    }
    t
}

fn s(text: &str) -> Value {
    Value::String(text.to_string())
}

#[test]
fn test_file_source_loads_valid_file() {
    let source = FileSource::new("config.toml", true);
    let parsed = table_of(vec![("key", s("value"))]);
    let entries = source.entries_from(FileRead::Parsed(parsed)).unwrap();

    assert_eq!(entries.len(), 1);
    assert!(entries[0].path.is_empty());
    let table = entries[0].value.as_table().unwrap();
    assert_eq!(table.get("key"), Some(&Value::String("value".into())));
}

#[test]
fn test_file_source_required_missing() {
    let source = FileSource::new("/nonexistent/path/config.toml", true);
    let result = source.entries_from(FileRead::NotFound);

    assert!(matches!(result, Err(ConfigError::FileNotFound(_))));
}

#[test]
fn test_file_source_optional_missing() {
    let source = FileSource::new("/nonexistent/path/config.toml", false);
    let entries = source.entries_from(FileRead::NotFound).unwrap();

    assert!(entries.is_empty());
}

#[test]
fn file_read_and_parse_failures_name_the_file() {
    let source = FileSource::new("a.toml", false);
    let r = source.entries_from(FileRead::ReadFailed("denied".into()));
    assert_eq!(r.unwrap_err(), ConfigError::ReadError { path: "a.toml".into(), message: "denied".into() });
    let r = source.entries_from(FileRead::ParseFailed("bad".into()));
    assert_eq!(r.unwrap_err(), ConfigError::ParseError { path: "a.toml".into(), message: "bad".into() });
}

#[test]
fn files_then_environment_override_in_order() {
    let a = table_of(vec![("server", Value::Table(table_of(vec![("host", s("localhost")), ("port", Value::Integer(8080))])))]);
    let b = table_of(vec![("server", Value::Table(table_of(vec![("port", Value::Integer(9090))])))]);
    let vars = vec![EnvVar { name: "APP__SERVER__HOST".into(), text: "prod.example.com".into(), float_text: None }];
    let loaded = vec![
        Loaded::File(FileSource::new("a.toml", true), FileRead::Parsed(a)),
        Loaded::File(FileSource::new("b.toml", false), FileRead::Parsed(b)),
        Loaded::Env { prefix: "APP".into(), separator: "__".into(), vars },
    ];
    let t = assemble(loaded).unwrap();
    let server = t.get("server").unwrap().as_table().unwrap();
    assert_eq!(server.get("host"), Some(&s("prod.example.com")));
    assert_eq!(server.get("port"), Some(&Value::Integer(9090)));
}

#[test]
fn missing_required_file_fails_the_build() {
    let a = table_of(vec![("x", s("${nowhere}"))]);
    let loaded = vec![
        Loaded::File(FileSource::new("a.toml", true), FileRead::Parsed(a)),
        Loaded::File(FileSource::new("/nonexistent/path/config.toml", true), FileRead::NotFound),
    ];
    assert_eq!(
        assemble(loaded).unwrap_err(),
        ConfigError::FileNotFound("/nonexistent/path/config.toml".into())
    );
}

#[test]
fn missing_optional_file_is_skipped_and_references_resolve() {
    let a = table_of(vec![("name", s("app")), ("title", s("${name}-v1"))]);
    let loaded = vec![
        Loaded::File(FileSource::new("a.toml", true), FileRead::Parsed(a)),
        Loaded::File(FileSource::new("b.toml", false), FileRead::NotFound),
    ];
    let t = assemble(loaded).unwrap();
    assert_eq!(t.get("title"), Some(&s("app-v1")));
}

#[test]
fn resolution_failure_fails_the_build() {
    let a = table_of(vec![("a", s("${b}")), ("b", s("${a}"))]);
    let loaded = vec![Loaded::File(FileSource::new("a.toml", true), FileRead::Parsed(a))];
    assert_eq!(assemble(loaded).unwrap_err(), ConfigError::CircularReference);
}

#[test]
fn config_builder_registers_sources_in_order() {
    let c = Config::builder().with_file("default.toml", true).with_env("APP", "__").with_file("local.toml", false);
    assert_eq!(c.sources.len(), 3);
    match &c.sources[0] {
        SourceSpec::File(f) => {
            assert_eq!(f.path, "default.toml");
            assert!(f.required);
        },
        _ => panic!("expected a file source"),
    }
    match &c.sources[1] {
        SourceSpec::Env { prefix, separator } => {
            assert_eq!(prefix, "APP");
            assert_eq!(separator, "__");
        },
        _ => panic!("expected an environment source"),
    }
    match &c.sources[2] {
        SourceSpec::File(f) => assert!(!f.required),
        _ => panic!("expected a file source"),
    }
}

#[test]
fn root_entry_holds_the_table() {
    let e = ConfigEntry::root(table_of(vec![("k", Value::Integer(1))]));
    assert_eq!(e.value.as_table().unwrap().get("k"), Some(&Value::Integer(1)));
}

#[test]
fn app_context_holds_config() {
    let ctx = AppContext::builder().with_config(42u16).build().unwrap();
    assert_eq!(*ctx.config(), 42u16);
}

#[test]
fn app_context_without_config_fails() {
    let r = AppContext::builder().build();
    assert!(matches!(r, Err(Error::MissingConfig)));
}

#[test]
fn config_error_converts_into_error() {
    let e: Error = ConfigError::CircularReference.into();
    assert_eq!(e, Error::Config(ConfigError::CircularReference));
}
