use soma::server::cli::Cli;
use soma::server::config::{Config, ConfigError};

fn cli(listen: &str, port: Option<u16>) -> Cli {
    Cli {
        config: None,
        validate: false,
        listen: listen.to_string(),
        port,
        loglevel: "info".to_string(),
    }
}

fn err(listen: &str, port: Option<u16>) -> String {
    cli(listen, port).validate().unwrap_err()
}

#[test]
fn plain_addresses_are_accepted() {
    assert_eq!(cli("127.0.0.1", None).validate(), Ok(()));
    assert_eq!(cli("0.0.0.0", Some(8080)).validate(), Ok(()));
    assert_eq!(cli("192.168.1.10", Some(0)).validate(), Ok(()));
}

#[test]
fn addresses_with_a_port_are_accepted() {
    assert_eq!(cli("127.0.0.1:8080", None).validate(), Ok(()));
    assert_eq!(cli("0.0.0.0:1", None).validate(), Ok(()));
    assert_eq!(cli("10.1.2.3:65535", None).validate(), Ok(()));
    assert_eq!(cli("10.1.2.3:+80", None).validate(), Ok(()));
    assert_eq!(cli("10.1.2.3:00080", None).validate(), Ok(()));
    assert_eq!(cli("::1:8080", None).validate(), Ok(()));
    assert_eq!(cli("fe80::1:443", None).validate(), Ok(()));
    assert_eq!(cli("1:2:3:4:5:6:7:8:9", None).validate(), Ok(()));
}

#[test]
fn a_port_given_twice_is_refused() {
    let message = "Cannot specify both a port in --listen and --port option. Use only one.";
    assert_eq!(err("127.0.0.1:8080", Some(9090)), message);
    assert_eq!(err("::1", Some(9090)), message);
    assert_eq!(err("nonsense:x", Some(1)), message);
}

#[test]
fn the_port_is_checked_before_the_address() {
    assert_eq!(err("nonsense:x", None), "Invalid port number: x");
    assert_eq!(err("nonsense:0", None), "Port cannot be 0");
    assert_eq!(err("nonsense:80", None), "Invalid IP address: nonsense");
}

#[test]
fn malformed_ports() {
    assert_eq!(err("127.0.0.1:", None), "Invalid port number: ");
    assert_eq!(err("127.0.0.1:65536", None), "Invalid port number: 65536");
    assert_eq!(err("127.0.0.1:-1", None), "Invalid port number: -1");
    assert_eq!(err("127.0.0.1:+", None), "Invalid port number: +");
    assert_eq!(err("127.0.0.1:++1", None), "Invalid port number: ++1");
    assert_eq!(err("127.0.0.1:8o", None), "Invalid port number: 8o");
    assert_eq!(err("127.0.0.1: 80", None), "Invalid port number:  80");
    assert_eq!(err("127.0.0.1:99999999999999999999", None), "Invalid port number: 99999999999999999999");
    assert_eq!(err("127.0.0.1:0", None), "Port cannot be 0");
    assert_eq!(err("127.0.0.1:000", None), "Port cannot be 0");
    assert_eq!(err("127.0.0.1:+0", None), "Port cannot be 0");
    // The last colon splits: what stands after it is short of a port.
    assert_eq!(err("::1", None), "Invalid IP address: :");
    assert_eq!(err("fe80::", None), "Invalid port number: ");
}

#[test]
fn malformed_addresses() {
    assert_eq!(err("", None), "Invalid IP address: ");
    assert_eq!(err("localhost", None), "Invalid IP address: localhost");
    assert_eq!(err("localhost", Some(80)), "Invalid IP address: localhost");
    assert_eq!(err("256.0.0.1", None), "Invalid IP address: 256.0.0.1");
    assert_eq!(err("1.2.3:80", None), "Invalid IP address: 1.2.3");
    assert_eq!(err(":80", None), "Invalid IP address: ");
    assert_eq!(err("[::1]:80", None), "Invalid IP address: [::1]");
    assert_eq!(err("1.2.3.4:5:6", None), "Invalid IP address: 1.2.3.4:5");
    assert_eq!(err("h\u{f6}st:80", None), "Invalid IP address: h\u{f6}st");
}

#[test]
fn the_listen_address_alone() {
    assert_eq!(cli("::1:8080", Some(1)).validate_listen_address(), Ok(()));
    assert_eq!(
        cli("x", Some(1)).validate_listen_address(),
        Err("Invalid IP address: x".to_string())
    );
}

#[test]
fn ip_validity() {
    let c = cli("", None);
    assert!(c.is_valid_ip("127.0.0.1"));
    assert!(c.is_valid_ip("::1"));
    assert!(c.is_valid_ip("2001:db8::1"));
    assert!(!c.is_valid_ip("127.0.0.1:80"));
    assert!(!c.is_valid_ip("example.com"));
    assert!(!c.is_valid_ip(""));
}

#[test]
fn default_configuration() {
    let config = Config::default();
    assert_eq!(config.logfile, "/var/log/somasrv.log");
    assert!(config.validate().is_ok());
    assert_eq!(config.clone().logfile, "/var/log/somasrv.log");
    let other = Config { logfile: String::new() };
    assert!(other.validate().is_ok());
}

#[test]
fn configuration_path() {
    assert_eq!(Config::path_or_default(&None), "/etc/soma.toml");
    assert_eq!(Config::path_or_default(&Some("./config.toml".to_string())), "./config.toml");
}

#[test]
fn configuration_error_messages() {
    let p = || "/etc/soma.toml".to_string();
    assert_eq!(
        ConfigError::FileNotFound(p()).message(),
        "Configuration file not found: /etc/soma.toml"
    );
    assert_eq!(
        ConfigError::ReadError(p(), "permission denied".to_string()).message(),
        "Error reading configuration file /etc/soma.toml: permission denied"
    );
    assert_eq!(
        ConfigError::ParseError(p(), "expected `=`".to_string()).message(),
        "Error parsing configuration file /etc/soma.toml: expected `=`"
    );
    assert_eq!(
        ConfigError::WriteError(p(), "disk full".to_string()).message(),
        "Error writing configuration file /etc/soma.toml: disk full"
    );
    assert_eq!(
        ConfigError::InvalidLogLevel("loud".to_string()).message(),
        "Invalid log level: loud"
    );
    assert_eq!(
        ConfigError::WebrootNotDirectory("/srv/www".to_string()).message(),
        "Webroot path is not a directory: /srv/www"
    );
    assert_eq!(
        ConfigError::LogDirectoryNotDirectory("/var/log/x".to_string()).message(),
        "Log directory path is not a directory: /var/log/x"
    );
    assert_eq!(ConfigError::AlreadyInitialized.message(), "SomaSrv is already initialized");
}
