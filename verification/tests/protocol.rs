use kodachi::cli::{Cli, Commands, UiConfig, UiType};
use kodachi::protocol::{RequestIdGenerator, Uri, DEFAULT_PORT};

#[test]
fn uri_is_host_on_default_port() {
    let uri = Uri::from_string("mud.example.com");
    assert_eq!(uri.host, "mud.example.com");
    assert_eq!(uri.port, DEFAULT_PORT);
    assert_eq!(uri.port, 5656);
    assert!(!uri.tls);
}

#[test]
fn request_id_generator_test() {
    let mut generator = RequestIdGenerator::new();
    assert_eq!(generator.next(), 0);
    assert_eq!(generator.next(), 1);
}

#[test]
fn commands_default_to_stdout_ui() {
    assert_eq!(Commands::Stdio { ui: None }.ui(), UiConfig::Stdout);
    let external = UiConfig::External { window_size_provided: true };
    assert_eq!(
        Commands::Unix { path: "sock".to_string(), ui: Some(external) }.ui(),
        external
    );
}

#[test]
fn global_ui_option_wins() {
    let cli = Cli { command: Commands::Stdio { ui: None }, ui: Some(UiType::External) };
    assert_eq!(cli.ui(), UiConfig::External { window_size_provided: false });
    let cli = Cli { command: Commands::Testbed, ui: Some(UiType::Stdout) };
    assert_eq!(cli.ui(), UiConfig::Stdout);
    let cli = Cli { command: Commands::Stdio { ui: None }, ui: None };
    assert_eq!(cli.ui(), UiConfig::Stdout);
}
