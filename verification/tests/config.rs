use asset_pipeline::config::{resolve_dirs, BuildError, Cli, Command, Config, ConfigError};

fn s(x: &str) -> String {
    x.to_string()
}

#[test]
fn set_known_keys() {
    let mut c = Config::new();
    assert!(c.set(&s("input"), s("res")).is_ok());
    assert!(c.set(&s("output"), s("out")).is_ok());
    assert_eq!(c.input, Some(s("res")));
    assert_eq!(c.output, Some(s("out")));
}

#[test]
fn set_unknown_key_fails() {
    let mut c = Config::new();
    match c.set(&s("colour"), s("red")) {
        Err(ConfigError::UnknownKey(k)) => assert_eq!(k, "colour"),
        Ok(()) => panic!("unknown key accepted"),
    }
    assert_eq!(c.input, None);
    assert_eq!(c.output, None);
}

#[test]
fn command_line_wins_over_config() {
    let config = Config { input: Some(s("saved-in")), output: Some(s("saved-out")) };
    assert_eq!(resolve_dirs(Some(s("in")), None, Some(config)), Ok((s("in"), s("saved-out"))));
}

#[test]
fn config_fills_in() {
    let config = Config { input: Some(s("saved-in")), output: None };
    assert_eq!(resolve_dirs(None, Some(s("out")), Some(config)), Ok((s("saved-in"), s("out"))));
}

#[test]
fn missing_directories_are_errors() {
    assert_eq!(resolve_dirs(None, None, None), Err(BuildError::MissingInput));
    assert_eq!(resolve_dirs(None, Some(s("out")), None), Err(BuildError::MissingInput));
    assert_eq!(resolve_dirs(Some(s("in")), None, None), Err(BuildError::MissingOutput));
    let config = Config { input: None, output: None };
    assert_eq!(resolve_dirs(Some(s("in")), None, Some(config)), Err(BuildError::MissingOutput));
}

#[test]
fn default_command_watches() {
    assert!(matches!(Command::default(), Command::Watch { input: None, output: None }));
    assert!(matches!(Cli { command: None }.into_command(), Command::Watch { input: None, output: None }));
    let cli = Cli { command: Some(Command::Build { input: Some(s("i")), output: None }) };
    match cli.into_command() {
        Command::Build { input, output } => {
            assert_eq!(input, Some(s("i")));
            assert_eq!(output, None);
        }
        _ => panic!("command changed"),
    }
}
