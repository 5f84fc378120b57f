use generator::args::{Args, Commands};

fn base() -> Args {
    Args {
        command: None,
        config_file: Some("top.json".to_string()),
        output_file: None,
        scanner_name: None,
        template_file: None,
        compress: false,
        parallel_minimize: false,
        verbose: 0,
        test_input: None,
        dump_dfa: None,
        meow: false,
    }
}

#[test]
fn subcommand_config_file_wins() {
    let mut a = base();
    a.command = Some(Commands::Generate { config_file: Some("sub.json".to_string()) });
    assert_eq!(a.get_config_file(), Some(&"sub.json".to_string()));
    a.command = Some(Commands::Validate { config_file: None });
    assert_eq!(a.get_config_file(), Some(&"top.json".to_string()));
    assert!(a.is_validate());
    assert!(!a.is_dump_dfa());
}

#[test]
fn test_mode_and_input() {
    let mut a = base();
    assert!(!a.is_test_mode());
    assert_eq!(a.get_test_input(), None);
    a.test_input = Some("x".to_string());
    assert!(a.is_test_mode());
    assert_eq!(a.get_test_input(), Some("x"));
    a.command = Some(Commands::Test { config_file: None, input: "y".to_string() });
    assert_eq!(a.get_test_input(), Some("y"));
}

#[test]
fn dump_output() {
    let mut a = base();
    a.command = Some(Commands::DumpDfa { config_file: None, output: Some("g.dot".to_string()) });
    assert!(a.is_dump_dfa());
    assert_eq!(a.get_dump_dfa_output(), Some(&"g.dot".to_string()));
}
