use fpsgame::command_line::{CommandLineArgs, Opt};

#[test]
fn has_arg_finds_exact_argument() {
    let args = CommandLineArgs { args: vec!["game".to_string(), "--debug".to_string()] };
    assert!(args.has_arg("--debug".to_string()));
    assert!(!args.has_arg("--debu".to_string()));
    assert!(!args.has_arg("-d".to_string()));
}

#[test]
fn has_arg_on_no_arguments() {
    let args = CommandLineArgs { args: Vec::new() };
    assert!(!args.has_arg(String::new()));
}

#[test]
fn debug_only_when_given_true() {
    assert!(Opt::new(Some(true)).is_debug());
    assert!(!Opt::new(Some(false)).is_debug());
    assert!(!Opt::new(None).is_debug());
}
