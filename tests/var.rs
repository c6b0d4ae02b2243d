use hyprshade::template::TemplateData;
use hyprshade::var::{check_no_conflicts, merge_into_data, ArgName, VarArg, VarArgError, VarArgParser, VarConflict};

fn parse(s: &str) -> Result<VarArg, VarArgError> {
    VarArgParser.parse(s, ArgName::Long("var".to_string()))
}

fn parse_all(var_strs: &[&str]) -> Vec<VarArg> {
    var_strs.iter().map(|s| parse(s).unwrap()).collect()
}

fn check(var_strs: &[&str], is_valid: bool) {
    let vars = parse_all(var_strs);
    let err = check_no_conflicts(&vars);
    if is_valid {
        assert!(err.is_ok(), "Error: {:?}", err.unwrap_err());
    } else {
        assert!(err.is_err(), "Expected conflict: {:#?}", var_strs);
    }
}

#[test]
fn var_arg_valid() {
    check(&["strength=1", "type=red-green"], true);
    check(&["balance.red=1", "balance.green=2", "balance.blue=3"], true);
    check(&["balance.foo=1", "balance.bar.baz=2", "balance.bar.qux=3"], true);
}

#[test]
fn var_arg_invalid() {
    check(&["balance=1", "balance=2"], false);
    check(&["balance=1", "balance.red=2"], false);
    check(&["balance=1", "balance.foo.bar=2"], false);
    check(&["balance=1", "balance.foo.bar.baz=2"], false);

    check(&["balance.red=1", "balance=2"], false);
    check(&["balance.red=1", "balance.red=2"], false);
    check(&["balance.red=1", "balance.red.foo=2"], false);
    check(&["balance.red=1", "balance.red.foo.baz=2"], false);

    check(&["balance.foo.red=1", "balance=2"], false);
    check(&["balance.foo.red=1", "balance.foo=2"], false);
    check(&["balance.foo.red=1", "balance.foo.red=2"], false);
    check(&["balance.foo.red=1", "balance.foo.red.baz=2"], false);
    check(&["balance.foo.red=1", "balance.foo.red.baz.qux=2"], false);
}

#[test]
fn conflict_detection_is_symmetric() {
    check(&["balance=1", "balance.red=2"], false);
    check(&["balance.red=2", "balance=1"], false);
    check(&["balance.red=1", "balance.green=2"], true);
}

#[test]
fn first_conflict_is_reported() {
    let vars = parse_all(&["a=1", "b.c=2", "b=3", "a=4"]);
    assert_eq!(check_no_conflicts(&vars), Err(VarConflict { arg: 2, prior: 1 }));
    let vars = parse_all(&["x.y=1", "z=2", "x=3", "x.y.w=4"]);
    assert_eq!(check_no_conflicts(&vars), Err(VarConflict { arg: 2, prior: 0 }));
    let empty: Vec<VarArg> = Vec::new();
    assert_eq!(check_no_conflicts(&empty), Ok(()));
}

#[test]
fn parse_errors() {
    assert_eq!(parse("").unwrap_err(), VarArgError::Empty);
    assert_eq!(parse("strength").unwrap_err(), VarArgError::NoEquals);
    assert_eq!(parse("=0.3").unwrap_err(), VarArgError::EmptyKey);
    assert_eq!(parse("=").unwrap_err(), VarArgError::EmptyKey);
    assert_eq!(parse("strength=").unwrap_err(), VarArgError::EmptyValue);
    assert_eq!(parse("=strength=").unwrap_err(), VarArgError::TooManyEquals);
    assert_eq!(parse("strength=0.3=0.4").unwrap_err(), VarArgError::TooManyEquals);
    assert_eq!(parse("balance..red=0.3").unwrap_err(), VarArgError::KeyRepeatedSeparator);
    assert_eq!(parse(".balance.red=0.3").unwrap_err(), VarArgError::KeyLeadingSeparator);
    assert_eq!(parse("balance.red.=0.3").unwrap_err(), VarArgError::KeyTrailingSeparator);
    assert_eq!(parse(".=1").unwrap_err(), VarArgError::KeyLeadingSeparator);
}

#[test]
fn parse_valid() {
    let v = parse("balance.red=0.3").unwrap();
    assert_eq!(v.lhs(), &vec!["balance".to_string(), "red".to_string()]);
    assert_eq!(v.rhs(), "0.3");
    assert_eq!(v.display_name(), "--var");
    assert_eq!(v.display_value(), "balance.red=0.3");
    assert_eq!(v.display(), "--var balance.red=0.3");
    let short = VarArgParser.parse("k=v", ArgName::Short('v')).unwrap();
    assert_eq!(short.display(), "-v k=v");
    let unknown = VarArgParser.parse("k=v", ArgName::Unknown).unwrap();
    assert_eq!(unknown.display_name(), "--<unknown>");
    let copy = v.clone();
    assert_eq!(copy.display_value(), "balance.red=0.3");
}

#[test]
fn batch_builds_tree() {
    let vars = parse_all(&["balance.red=1", "balance.green=2", "type=red-green", "strength=0.5"]);
    let data = merge_into_data(&vars).unwrap();
    assert_eq!(data.len(), 3);
    match data.get("balance") {
        Some(TemplateData::Table(b)) => {
            assert_eq!(b.len(), 2);
            assert!(matches!(b.get("red"), Some(TemplateData::Float(s)) if s == "1"));
            assert!(matches!(b.get("green"), Some(TemplateData::Float(s)) if s == "2"));
        }
        _ => panic!("balance is a table"),
    }
    assert!(matches!(data.get("type"), Some(TemplateData::Enum(s)) if s == "red-green"));
    assert!(matches!(data.get("strength"), Some(TemplateData::Float(s)) if s == "0.5"));
}

#[test]
fn batch_with_conflict_is_refused() {
    let vars = parse_all(&["strength=0.5", "strength=0.6"]);
    assert_eq!(merge_into_data(&vars).unwrap_err(), VarConflict { arg: 1, prior: 0 });
}
