use orakel::config::{arr_at, bool_at, int_at, str_at, str_list, table_at, tbool, tlist, tstr, value_at, TomlTable, TomlValue};

fn t(entries: Vec<(&str, TomlValue)>) -> TomlTable {
    TomlTable { entries: entries.into_iter().map(|(k, v)| (k.to_string(), v)).collect() }
}

fn s(x: &str) -> TomlValue {
    TomlValue::Str(x.to_string())
}

#[test]
fn lookups_default_to_absent() {
    let doc = t(vec![
        ("name", s("fade")),
        ("live", TomlValue::Bool(true)),
        ("tags", TomlValue::Array(vec![s("a"), TomlValue::Bool(false), s("b")])),
        ("costs", TomlValue::Table(t(vec![("fee", TomlValue::Other), ("rate", TomlValue::Int(7))]))),
        ("name", s("shadowed")),
    ]);
    assert_eq!(tstr(&doc, "name"), "fade");
    assert_eq!(tstr(&doc, "live"), "");
    assert_eq!(tstr(&doc, "nope"), "");
    assert_eq!(tbool(&doc, "live"), Some(true));
    assert_eq!(tbool(&doc, "name"), None);
    assert_eq!(tlist(&doc, "tags"), vec!["a".to_string(), "b".to_string()]);
    assert_eq!(tlist(&doc, "name"), Vec::<String>::new());
    assert_eq!(int_at(&doc, &["costs", "rate"]), Some(7));
    assert_eq!(int_at(&doc, &["costs", "fee"]), None);
    assert_eq!(int_at(&doc, &[]), None);
    assert_eq!(bool_at(&doc, &["live"]), Some(true));
    assert_eq!(str_at(&doc, &["costs", "rate", "deeper"]), "");
    assert!(value_at(&doc, &["costs"]).is_some());
    assert!(table_at(&doc, &["costs"]).is_some());
    assert!(table_at(&doc, &["name"]).is_none());
    assert_eq!(arr_at(&doc, &["tags"]).len(), 3);
    assert_eq!(arr_at(&doc, &["name"]).len(), 0);
    assert_eq!(str_list(&doc, &["tags"]), vec!["a".to_string(), "b".to_string()]);
}
