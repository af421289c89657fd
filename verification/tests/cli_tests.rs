use velin_core::cli::{parse_args, Command};

fn args(items: &[&str]) -> Vec<String> {
    items.iter().map(|item| item.to_string()).collect()
}

#[test]
fn parse_args_accepts_check_and_run_and_rejects_the_rest() {
    match parse_args(args(&["check", "--json", "a.velin"])) {
        Ok(Command::Check { path, json }) => {
            assert_eq!(path, "a.velin");
            assert!(json);
        }
        Ok(
            Command::Run(_)
            | Command::Format { .. }
            | Command::Compile { .. }
            | Command::Help
            | Command::Version,
        ) => {
            panic!("expected check")
        }
        Err(message) => panic!("expected check, got error {message}"),
    }
    match parse_args(args(&["run", "b.velin"])) {
        Ok(Command::Run(path)) => assert_eq!(path, "b.velin"),
        Ok(
            Command::Check { .. }
            | Command::Format { .. }
            | Command::Compile { .. }
            | Command::Help
            | Command::Version,
        ) => {
            panic!("expected run")
        }
        Err(message) => panic!("expected run, got error {message}"),
    }
    assert!(parse_args(Vec::new()).is_err());
    assert!(matches!(parse_args(args(&["--help"])), Ok(Command::Help)));
    assert!(matches!(parse_args(args(&["--version"])), Ok(Command::Version)));
    assert!(parse_args(args(&["check"])).is_err());
    assert!(parse_args(args(&["check", "a", "extra"])).is_err());
    assert!(parse_args(args(&["build", "a.velin"])).is_err());
    assert!(matches!(
        parse_args(args(&["fmt", "--check", "a.velin"])),
        Ok(Command::Format { check: true, .. })
    ));
}

#[test]
fn parse_errors_name_the_offending_argument() {
    assert_eq!(parse_args(Vec::new()).unwrap_err(), "missing subcommand");
    assert_eq!(
        parse_args(args(&["build", "a.velin"])).unwrap_err(),
        "unknown subcommand `build`"
    );
    assert_eq!(
        parse_args(args(&["check", "--json", "--json", "a"])).unwrap_err(),
        "`--json` was provided more than once"
    );
    assert_eq!(
        parse_args(args(&["check", "-x"])).unwrap_err(),
        "unknown option `-x` for `check`"
    );
    assert_eq!(
        parse_args(args(&["check", "a", "b"])).unwrap_err(),
        "`check` accepts exactly one file path"
    );
    assert_eq!(parse_args(args(&["check"])).unwrap_err(), "`check` needs a file path");
    assert_eq!(parse_args(args(&["run"])).unwrap_err(), "`run` needs a file path");
    assert_eq!(
        parse_args(args(&["run", "a", "b"])).unwrap_err(),
        "unexpected extra argument `b`"
    );
    assert_eq!(
        parse_args(args(&["--help", "x"])).unwrap_err(),
        "unexpected extra argument `x`"
    );
    assert_eq!(
        parse_args(args(&["compile", "a.velin", "x", "b"])).unwrap_err(),
        "`compile` expects `-o <output>`"
    );
    assert_eq!(
        parse_args(args(&["compile", "a.velin", "-o"])).unwrap_err(),
        "`compile` needs an output file"
    );
    assert_eq!(
        parse_args(args(&["compile", "a.velin"])).unwrap_err(),
        "`compile` needs `-o <output>`"
    );
}

#[test]
fn stdin_dash_is_a_path_and_compile_takes_input_and_output() {
    assert_eq!(
        parse_args(args(&["check", "-"])).unwrap(),
        Command::Check { path: "-".to_string(), json: false }
    );
    assert_eq!(
        parse_args(args(&["compile", "a.velin", "-o", "a.velinc"])).unwrap(),
        Command::Compile { input: "a.velin".to_string(), output: "a.velinc".to_string() }
    );
    assert_eq!(parse_args(args(&["-V"])).unwrap(), Command::Version);
    assert_eq!(parse_args(args(&["help"])).unwrap(), Command::Help);
}
