use hyprshade::hyprctl::{check_status, StatusError};
use hyprshade::resolver::{ErrorFromPath, IoErrorKind, Resolver};
use hyprshade::cli::{FallbackKind, Formatter, Instrumentation, LogLevel, ShaderSource, Toggle};
use hyprshade::hyprctl::{clear, get, get_args, HyprctlOption};

fn option(value: &str) -> HyprctlOption {
    HyprctlOption {
        option: "decoration:screen_shader".to_string(),
        str: value.to_string(),
        set: true,
    }
}

#[test]
fn reply_values() {
    assert_eq!(get(option("/tmp/a.glsl")), Some("/tmp/a.glsl".to_string()));
    assert_eq!(get(option("[[EMPTY]]")), None);
    assert_eq!(get(option("")), None);
    assert!(option("").is_empty());
    assert!(!option("x").is_empty());
}

#[test]
fn command_arguments() {
    assert_eq!(get_args(), vec!["-j", "getoption", "decoration:screen_shader"]);
    assert_eq!(hyprshade::hyprctl::set("/tmp/a.glsl"), vec!["keyword", "decoration:screen_shader", "/tmp/a.glsl"]);
    assert_eq!(clear(), vec!["keyword", "decoration:screen_shader", "[[EMPTY]]"]);
}

#[test]
fn verbosity() {
    let levels: Vec<(LogLevel, Formatter)> = (0..4)
        .map(|v| {
            let i = Instrumentation { verbose: v };
            (i.log_level(), i.formatter())
        })
        .collect();
    assert_eq!(
        levels,
        vec![
            (LogLevel::Info, Formatter::Compact),
            (LogLevel::Debug, Formatter::Compact),
            (LogLevel::Trace, Formatter::Full),
            (LogLevel::Trace, Formatter::Full),
        ]
    );
}

fn toggle(fallback: Option<&str>, default: bool, auto: bool) -> Toggle {
    Toggle {
        shader: None,
        var: Vec::new(),
        fallback: fallback.map(|s| s.to_string()),
        fallback_default: default,
        fallback_auto: auto,
        var_fallback: Vec::new(),
    }
}

#[test]
fn toggle_decisions() {
    assert_eq!(toggle(None, false, false).fallback_kind(), FallbackKind::Off);
    assert_eq!(toggle(Some("vibrance"), false, false).fallback_kind(), FallbackKind::Named("vibrance".to_string()));
    assert_eq!(toggle(None, true, false).fallback_kind(), FallbackKind::Default);
    assert_eq!(toggle(None, false, true).fallback_kind(), FallbackKind::Auto);

    let a = Some(ShaderSource::Builtin("vibrance".to_string()));
    let b = Some(ShaderSource::Path("/x/blue.glsl".to_string()));
    let c = Some(ShaderSource::Builtin("blue-light-filter".to_string()));
    assert!(Toggle::designates_fallback(&a, &a.clone()));
    assert!(!Toggle::designates_fallback(&a, &b));
    assert!(!Toggle::designates_fallback(&a, &None));
    assert!(Toggle::designates_fallback(&None, &None));
    assert!(matches!(Toggle::auto_fallback(&a, a.clone(), c.clone()), Some(ShaderSource::Builtin(n)) if n == "blue-light-filter"));
    assert!(matches!(Toggle::auto_fallback(&a, b.clone(), c.clone()), Some(ShaderSource::Path(p)) if p == "/x/blue.glsl"));
}

#[test]
fn exit_status_classification() {
    assert_eq!(check_status(true, None, Some(0)), Ok(()));
    assert_eq!(check_status(false, None, Some(1)), Err(StatusError::ExitCode(1)));
    assert_eq!(check_status(false, Some(9), None), Err(StatusError::Signal(9)));
    assert_eq!(check_status(false, None, None), Err(StatusError::Unknown));
}

#[test]
fn resolver_kind_from_argument() {
    assert!(matches!(Resolver::with_cli_arg("blue-light-filter"), Resolver::WithName(n) if n == "blue-light-filter"));
    assert!(matches!(Resolver::with_cli_arg("~/shaders/x.glsl"), Resolver::WithPath(p) if p == "~/shaders/x.glsl"));
    assert!(matches!(Resolver::with_cli_arg("./x"), Resolver::WithPath(_)));
    assert!(matches!(
        ErrorFromPath::io_error_not_found("/nope".to_string()),
        ErrorFromPath::IoError(p, IoErrorKind::NotFound) if p == "/nope"
    ));
}
