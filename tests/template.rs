use hyprshade::template::{MergeDeep, TemplateData, TemplateDataMap};

fn float(s: &str) -> TemplateData {
    TemplateData::Float(s.to_string())
}

fn table(pairs: Vec<(&str, TemplateData)>) -> TemplateData {
    TemplateData::from_entries(pairs.into_iter().map(|(k, v)| (k.to_string(), v)).collect())
}

fn map(pairs: Vec<(&str, TemplateData)>) -> TemplateDataMap {
    TemplateDataMap::from_entries(pairs.into_iter().map(|(k, v)| (k.to_string(), v)).collect())
}

fn leaf(m: &TemplateDataMap, path: &[&str]) -> String {
    let mut cur = m;
    for (i, k) in path.iter().enumerate() {
        match cur.get(k) {
            Some(TemplateData::Table(inner)) if i + 1 < path.len() => cur = inner,
            Some(TemplateData::Float(s)) if i + 1 == path.len() => return format!("F:{s}"),
            Some(TemplateData::Enum(s)) if i + 1 == path.len() => return format!("E:{s}"),
            _ => panic!("no leaf at {path:?}"),
        }
    }
    panic!("empty path")
}

fn sub<'a>(m: &'a TemplateDataMap, k: &str) -> &'a TemplateDataMap {
    match m.get(k) {
        Some(TemplateData::Table(inner)) => inner,
        _ => panic!("no table at {k}"),
    }
}

#[test]
fn merge_deep() {
    let mut data = map(vec![("balance", table(vec![("red", float("1.0")), ("blue", float("5.0"))]))]);
    let other_data = map(vec![
        ("balance", table(vec![("green", float("2.0")), ("blue", float("3.0"))])),
        ("strength", float("0.15")),
    ]);

    data.merge_deep(other_data, true);

    assert_eq!(data.len(), 2);
    assert_eq!(sub(&data, "balance").len(), 3);
    assert_eq!(leaf(&data, &["balance", "red"]), "F:1.0");
    assert_eq!(leaf(&data, &["balance", "green"]), "F:2.0");
    assert_eq!(leaf(&data, &["balance", "blue"]), "F:3.0");
    assert_eq!(leaf(&data, &["strength"]), "F:0.15");
}

#[test]
fn merge_force_precedence() {
    let mut acc = map(vec![("a", float("1")), ("b", table(vec![("x", float("1"))]))]);
    let incoming = map(vec![("b", table(vec![("y", float("2"))])), ("c", float("3"))]);
    acc.merge_deep_force(incoming);
    assert_eq!(acc.len(), 3);
    assert_eq!(leaf(&acc, &["a"]), "F:1");
    assert_eq!(sub(&acc, "b").len(), 2);
    assert_eq!(leaf(&acc, &["b", "x"]), "F:1");
    assert_eq!(leaf(&acc, &["b", "y"]), "F:2");
    assert_eq!(leaf(&acc, &["c"]), "F:3");
}

#[test]
fn merge_keep_precedence() {
    let mut acc = map(vec![("a", float("1"))]);
    acc.merge_deep_keep(map(vec![("a", float("2")), ("b", float("3"))]));
    assert_eq!(acc.len(), 2);
    assert_eq!(leaf(&acc, &["a"]), "F:1");
    assert_eq!(leaf(&acc, &["b"]), "F:3");
}

#[test]
fn merge_force_replaces_leaf() {
    let mut acc = map(vec![("a", float("1")), ("t", TemplateData::Enum("red".to_string()))]);
    acc.merge_deep_force(map(vec![("a", float("2")), ("t", table(vec![("k", float("4"))]))]));
    assert_eq!(leaf(&acc, &["a"]), "F:2");
    assert_eq!(leaf(&acc, &["t", "k"]), "F:4");
}

#[test]
fn merge_keep_nested_fills_gaps() {
    let mut acc = map(vec![("balance", table(vec![("red", float("1"))]))]);
    acc.merge_deep_keep(map(vec![(
        "balance",
        table(vec![("red", float("9")), ("green", float("2"))]),
    )]));
    assert_eq!(leaf(&acc, &["balance", "red"]), "F:1");
    assert_eq!(leaf(&acc, &["balance", "green"]), "F:2");
}

#[test]
fn merge_with_empty_tree() {
    for force in [false, true] {
        let mut acc = map(vec![("a", float("1")), ("b", table(vec![("x", float("2"))]))]);
        acc.merge_deep(TemplateDataMap::new(), force);
        assert_eq!(acc.len(), 2);
        assert_eq!(leaf(&acc, &["a"]), "F:1");
        assert_eq!(leaf(&acc, &["b", "x"]), "F:2");

        let mut empty = TemplateDataMap::new();
        empty.merge_deep(map(vec![("a", float("1")), ("b", table(vec![("x", float("2"))]))]), force);
        assert_eq!(empty.len(), 2);
        assert_eq!(leaf(&empty, &["a"]), "F:1");
        assert_eq!(leaf(&empty, &["b", "x"]), "F:2");
    }
}

#[test]
fn later_pair_wins_in_from_entries() {
    let m = map(vec![("a", float("1")), ("a", float("2"))]);
    assert_eq!(m.len(), 1);
    assert_eq!(leaf(&m, &["a"]), "F:2");
    let mut m = m;
    m.insert("b".to_string(), float("7"));
    m.insert("a".to_string(), float("8"));
    assert_eq!(m.len(), 2);
    assert_eq!(leaf(&m, &["a"]), "F:8");
}

#[test]
fn scalar_classification() {
    match TemplateData::from_cli_arg("0.5") {
        Ok(TemplateData::Float(s)) => {
            assert_eq!(s, "0.5");
            assert_eq!(s.parse::<f64>().unwrap(), 0.5);
        }
        _ => panic!("0.5 is numeric"),
    }
    match TemplateData::from_cli_arg("red-green") {
        Ok(TemplateData::Enum(s)) => assert_eq!(TemplateData::serialize_enum(&s), "REDGREEN"),
        _ => panic!("red-green is symbolic"),
    }
}

#[test]
fn float_literal_forms() {
    for s in ["1", "-1", "+2.5", "1.", ".5", "1e10", "1E-3", "2.5e+7", "inf", "-Infinity", "NaN", "0"] {
        assert!(matches!(TemplateData::from_cli_arg(s), Ok(TemplateData::Float(_))), "{s}");
        assert!(s.parse::<f64>().is_ok(), "{s}");
    }
    for s in ["", ".", "e5", "1e", "1.2.3", "--1", "infinit", "0x10", " 1", "1_000", "abc"] {
        assert!(matches!(TemplateData::from_cli_arg(s), Ok(TemplateData::Enum(_))), "{s}");
        assert!(s.parse::<f64>().is_err(), "{s}");
    }
}

#[test]
fn canonical_symbol_form() {
    assert_eq!(TemplateData::serialize_enum("red-green"), "REDGREEN");
    assert_eq!(TemplateData::serialize_enum("blue_yellow"), "BLUEYELLOW");
    assert_eq!(TemplateData::serialize_enum("Mixed-Case_x"), "MIXEDCASEX");
    assert_eq!(TemplateData::serialize_enum(""), "");
    assert_eq!(TemplateData::serialize_enum("é-a"), "éA");
}
