use dragon_fnd::{deep_merge, merge_at_path, merge_entries, ConfigEntry, Table, Value};

fn table_of(pairs: Vec<(&str, Value)>) -> Table {
    let mut t = Table::new();
    for (k, v) in pairs {
        t.insert(k.to_string(), v);
    }
    t
}

fn s(text: &str) -> Value {
    Value::String(text.to_string())
}

#[test]
fn test_merge_at_empty_path_deep_merges() {
    let mut base = Table::new();
    base.insert("existing".into(), Value::String("keep".into()));

    let mut nested = Table::new();
    nested.insert("inner".into(), Value::Integer(42));
    base.insert("nested".into(), Value::Table(nested));

    let mut overlay = Table::new();
    overlay.insert("new".into(), Value::String("added".into()));

    let mut overlay_nested = Table::new();
    overlay_nested.insert("another".into(), Value::Boolean(true));
    overlay.insert("nested".into(), Value::Table(overlay_nested));

    merge_at_path(&mut base, &[], Value::Table(overlay));

    assert_eq!(base.get("existing"), Some(&Value::String("keep".into())));
    assert_eq!(base.get("new"), Some(&Value::String("added".into())));
    let nested = base.get("nested").unwrap().as_table().unwrap();
    assert_eq!(nested.get("inner"), Some(&Value::Integer(42)));
    assert_eq!(nested.get("another"), Some(&Value::Boolean(true)));
}

#[test]
fn test_merge_at_path_creates_intermediates() {
    let mut table = Table::new();

    merge_at_path(
        &mut table,
        &["a".into(), "b".into(), "c".into()],
        Value::Integer(123),
    );

    let a = table.get("a").unwrap().as_table().unwrap();
    let b = a.get("b").unwrap().as_table().unwrap();
    assert_eq!(b.get("c"), Some(&Value::Integer(123)));
}

#[test]
fn test_merge_at_path_replaces_leaf() {
    let mut table = Table::new();
    table.insert("key".into(), Value::String("old".into()));

    merge_at_path(&mut table, &["key".into()], Value::String("new".into()));

    assert_eq!(table.get("key"), Some(&Value::String("new".into())));
}

#[test]
fn test_merge_at_path_merges_tables_at_leaf() {
    let mut table = Table::new();
    let mut existing = Table::new();
    existing.insert("a".into(), Value::Integer(1));
    table.insert("config".into(), Value::Table(existing));

    let mut overlay = Table::new();
    overlay.insert("b".into(), Value::Integer(2));

    merge_at_path(&mut table, &["config".into()], Value::Table(overlay));

    let config = table.get("config").unwrap().as_table().unwrap();
    assert_eq!(config.get("a"), Some(&Value::Integer(1)));
    assert_eq!(config.get("b"), Some(&Value::Integer(2)));
}

#[test]
fn test_config_entry_constructors() {
    let root = ConfigEntry::root(Table::new());
    assert!(root.path.is_empty());

    let at_path = ConfigEntry::at_path(vec!["a".into(), "b".into()], Value::Integer(42));
    assert_eq!(at_path.path, vec!["a", "b"]);
}

#[test]
fn sequential_root_merges_equal_pairwise_merges() {
    let t1 = || table_of(vec![("a", Value::Integer(1)), ("n", Value::Table(table_of(vec![("x", s("one"))])))]);
    let t2 = || table_of(vec![("b", Value::Integer(2)), ("n", Value::Table(table_of(vec![("y", s("two"))])))]);
    let t3 = || table_of(vec![("a", Value::Integer(3)), ("n", Value::Table(table_of(vec![("x", s("three"))])))]);

    let mut folded = Table::new();
    merge_entries(
        &mut folded,
        vec![ConfigEntry::root(t1()), ConfigEntry::root(t2()), ConfigEntry::root(t3())],
    );

    let mut pairwise = Table::new();
    deep_merge(&mut pairwise, t1());
    deep_merge(&mut pairwise, t2());
    deep_merge(&mut pairwise, t3());

    assert_eq!(folded, pairwise);
    assert_eq!(folded.get("a"), Some(&Value::Integer(3)));
    assert_eq!(folded.get("b"), Some(&Value::Integer(2)));
    let n = folded.get("n").unwrap().as_table().unwrap();
    assert_eq!(n.get("x"), Some(&s("three")));
    assert_eq!(n.get("y"), Some(&s("two")));
}

#[test]
fn merging_a_table_into_itself_changes_nothing() {
    let make = || {
        table_of(vec![
            ("a", Value::Integer(1)),
            ("list", Value::Array(vec![Value::Integer(1), Value::Integer(2)])),
            ("n", Value::Table(table_of(vec![("x", s("one")), ("m", Value::Table(table_of(vec![("z", Value::Boolean(false))])))]))),
        ])
    };
    let mut t = make();
    deep_merge(&mut t, make());
    assert_eq!(t, make());
}

#[test]
fn arrays_are_replaced_not_merged() {
    let mut base = table_of(vec![("a", Value::Array(vec![Value::Integer(1), Value::Integer(2)]))]);
    deep_merge(&mut base, table_of(vec![("a", Value::Array(vec![Value::Integer(3)]))]));
    assert_eq!(base, table_of(vec![("a", Value::Array(vec![Value::Integer(3)]))]));
}

#[test]
fn scalars_replace_at_depth_and_tables_replace_scalars() {
    let mut base = table_of(vec![
        ("n", Value::Table(table_of(vec![("deep", Value::Table(table_of(vec![("v", Value::Integer(1)), ("w", Value::Integer(5))])))]))),
        ("s", Value::Integer(7)),
    ]);
    let overlay = table_of(vec![
        ("n", Value::Table(table_of(vec![("deep", Value::Table(table_of(vec![("v", s("x"))])))]))),
        ("s", Value::Table(table_of(vec![("inner", Value::Boolean(true))]))),
    ]);
    deep_merge(&mut base, overlay);
    let deep = base.get("n").unwrap().as_table().unwrap().get("deep").unwrap().as_table().unwrap();
    assert_eq!(deep.get("v"), Some(&s("x")));
    assert_eq!(deep.get("w"), Some(&Value::Integer(5)));
    let st = base.get("s").unwrap().as_table().unwrap();
    assert_eq!(st.get("inner"), Some(&Value::Boolean(true)));
}

#[test]
fn path_merge_into_empty_tree_nests_tables() {
    let mut t = Table::new();
    merge_at_path(&mut t, &["a".into(), "b".into()], s("V"));
    let expected = table_of(vec![("a", Value::Table(table_of(vec![("b", s("V"))])))]);
    assert_eq!(t, expected);
}

#[test]
fn non_table_at_root_is_ignored() {
    let mut t = table_of(vec![("a", Value::Integer(1))]);
    merge_at_path(&mut t, &[], Value::Integer(9));
    assert_eq!(t, table_of(vec![("a", Value::Integer(1))]));
}

#[test]
fn path_merge_overwrites_scalar_on_the_way() {
    let mut t = table_of(vec![("a", Value::Integer(1))]);
    merge_at_path(&mut t, &["a".into(), "b".into()], Value::Integer(2));
    let a = t.get("a").unwrap().as_table().unwrap();
    assert_eq!(a.get("b"), Some(&Value::Integer(2)));
    assert_eq!(a.len(), 1);
}

#[test]
fn table_insert_keeps_keys_unique() {
    let mut t = Table::new();
    assert!(t.is_empty());
    t.insert("k".into(), Value::Integer(1));
    t.insert("j".into(), Value::Integer(2));
    t.insert("k".into(), Value::Integer(3));
    assert_eq!(t.len(), 2);
    assert_eq!(t.get("k"), Some(&Value::Integer(3)));
    assert_eq!(t.entries[0].0, "k");
    assert_eq!(t.get("missing"), None);
}

#[test]
fn deep_copy_is_equal() {
    let t = table_of(vec![
        ("a", Value::Array(vec![s("x"), Value::Float("1.5".into())])),
        ("d", Value::Datetime("1979-05-27T07:32:00Z".into())),
    ]);
    assert_eq!(t.deep_copy(), t);
    let v = Value::Table(t);
    assert_eq!(v.deep_copy(), v);
}
