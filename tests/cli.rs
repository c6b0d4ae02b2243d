use clap::{Arg, ArgAction, ArgGroup, Command};
use hyprshade::var::{ArgName, VarArg, VarArgParser};

fn var_arg(id: &'static str, long: &'static str) -> Arg {
    Arg::new(id)
        .long(long)
        .value_name("KEY=VALUE")
        .action(ArgAction::Append)
        .value_parser(move |s: &str| -> Result<VarArg, String> {
            VarArgParser
                .parse(s, ArgName::Long(long.to_string()))
                .map_err(|e| format!("{e:?}"))
        })
}

fn command() -> Command {
    Command::new("hyprshade")
        .arg(
            Arg::new("verbose")
                .short('v')
                .long("verbose")
                .action(ArgAction::Count)
                .global(true),
        )
        .arg(Arg::new("config").long("config").global(true))
        .subcommand_required(true)
        .subcommand(Command::new("auto"))
        .subcommand(Command::new("current").arg(Arg::new("long").short('l').long("long").action(ArgAction::SetTrue)))
        .subcommand(Command::new("install").arg(Arg::new("enable").long("enable").action(ArgAction::SetTrue)))
        .subcommand(Command::new("ls").arg(Arg::new("long").short('l').long("long").action(ArgAction::SetTrue)))
        .subcommand(Command::new("off"))
        .subcommand(
            Command::new("on")
                .arg(Arg::new("shader").required(true))
                .arg(var_arg("var", "var")),
        )
        .subcommand(
            Command::new("toggle")
                .arg(Arg::new("shader"))
                .arg(var_arg("var", "var"))
                .arg(Arg::new("fallback").long("fallback"))
                .arg(Arg::new("fallback_default").long("fallback-default").action(ArgAction::SetTrue))
                .arg(Arg::new("fallback_auto").long("fallback-auto").action(ArgAction::SetTrue))
                .group(
                    ArgGroup::new("fallback_args")
                        .args(["fallback", "fallback_default", "fallback_auto"])
                        .multiple(false),
                )
                .arg(var_arg("var_fallback", "var-fallback").requires("fallback_args")),
        )
}

#[test]
fn debug_assert() {
    command().debug_assert();
}

#[test]
fn command_line_uses_library_parser() {
    let m = command()
        .try_get_matches_from(["hyprshade", "on", "vibrance", "--var", "strength=0.5"])
        .unwrap();
    let (_, sub) = m.subcommand().unwrap();
    let vars: Vec<&VarArg> = sub.get_many::<VarArg>("var").unwrap().collect();
    assert_eq!(vars.len(), 1);
    assert_eq!(vars[0].display(), "--var strength=0.5");

    let bad = command().try_get_matches_from(["hyprshade", "on", "vibrance", "--var", "strength"]);
    assert!(bad.is_err());
    let both = command().try_get_matches_from([
        "hyprshade",
        "toggle",
        "--fallback",
        "vibrance",
        "--fallback-auto",
    ]);
    assert!(both.is_err());
}
