use hyprshade::util::{file_prefix, rsplit_file_at_dot, split_file_at_dot, template_stem};

fn s(x: &str) -> Option<String> {
    Some(x.to_string())
}

#[test]
fn split_at_first_dot() {
    assert_eq!(split_file_at_dot("a.b.c"), ("a".to_string(), s("b.c")));
    assert_eq!(split_file_at_dot("vibrance.glsl.mustache"), ("vibrance".to_string(), s("glsl.mustache")));
    assert_eq!(split_file_at_dot(".bashrc"), (".bashrc".to_string(), None));
    assert_eq!(split_file_at_dot(".a.b"), (".a".to_string(), s("b")));
    assert_eq!(split_file_at_dot("a."), ("a".to_string(), s("")));
    assert_eq!(split_file_at_dot(".."), ("..".to_string(), None));
    assert_eq!(split_file_at_dot("plain"), ("plain".to_string(), None));
    assert_eq!(split_file_at_dot(""), ("".to_string(), None));
    assert_eq!(file_prefix("blue-light-filter.glsl"), "blue-light-filter");
}

#[test]
fn split_at_last_dot() {
    assert_eq!(rsplit_file_at_dot("a.b.c"), (s("a.b"), s("c")));
    assert_eq!(rsplit_file_at_dot("abc"), (None, s("abc")));
    assert_eq!(rsplit_file_at_dot(".abc"), (s(".abc"), None));
    assert_eq!(rsplit_file_at_dot("a."), (s("a"), s("")));
    assert_eq!(rsplit_file_at_dot(".."), (s(".."), None));
}

#[test]
fn template_file_names() {
    assert_eq!(template_stem("vibrance.glsl.mustache"), s("vibrance.glsl"));
    assert_eq!(template_stem("vibrance.glsl"), None);
    assert_eq!(template_stem(".mustache"), None);
    assert_eq!(template_stem("mustache"), None);
}
