use relay_ssh::profiles::{KeyCheck, Profile};

fn profile(host: &str) -> Profile {
    Profile {
        host: host.into(),
        ..Default::default()
    }
}

#[test]
fn rejects_options_shell_syntax_and_invalid_ports() {
    for host in [
        "",
        "-oProxyCommand=evil",
        "host;id",
        "$(id)",
        "a b",
        "user@host",
        "ho\nst",
    ] {
        assert!(profile(host).ssh_args().is_err(), "{host}");
    }
    for port in ["0", "65536", "-1", "ssh"] {
        let mut p = profile("server");
        p.port = port.into();
        assert!(p.ssh_args().is_err());
    }
}

#[test]
fn preserves_config_defaults_and_host_verification() {
    let args = profile("production").ssh_args().unwrap();
    assert_eq!(&args[args.len() - 2..], ["--", "production"]);
    assert!(!args.iter().any(|a| a == "-l" || a == "-p"));
    assert!(args.contains(&"StrictHostKeyChecking=ask".to_string()));
    assert!(profile("2001:db8::1").ssh_args().is_ok());
}

#[test]
fn user_port_and_key_become_options_before_the_host() {
    let p = Profile {
        name: "Work".into(),
        host: "  example.com ".into(),
        user: " me ".into(),
        port: "+0022".into(),
        identity: "/keys/id".into(),
    };
    let args = p.ssh_args_checked(KeyCheck::Found).unwrap();
    assert_eq!(
        args,
        [
            "-tt",
            "-o",
            "StrictHostKeyChecking=ask",
            "-o",
            "ConnectTimeout=15",
            "-o",
            "ServerAliveInterval=30",
            "-o",
            "ServerAliveCountMax=3",
            "-l",
            "me",
            "-p",
            "22",
            "-i",
            "/keys/id",
            "--",
            "example.com"
        ]
    );
}

#[test]
fn key_checks_give_their_own_errors() {
    let mut p = profile("server");
    p.identity = "relative/key".into();
    assert_eq!(
        p.ssh_args_checked(KeyCheck::NotAbsolute).unwrap_err(),
        "The private key must have an absolute filesystem path."
    );
    assert_eq!(
        p.ssh_args_checked(KeyCheck::Missing).unwrap_err(),
        "Private key file does not exist: relative/key"
    );
    assert_eq!(
        p.ssh_args().unwrap_err(),
        "The private key must have an absolute filesystem path."
    );
    p.identity = "/nonexistent/relay/test/key".into();
    assert_eq!(
        p.ssh_args().unwrap_err(),
        "Private key file does not exist: /nonexistent/relay/test/key"
    );
}

#[test]
fn user_names_are_checked() {
    let mut p = profile("server");
    p.user = "-oops".into();
    assert_eq!(
        p.ssh_args().unwrap_err(),
        "The username contains unsupported characters."
    );
    p.user = "DOMAIN\\me@corp".into();
    assert!(p.ssh_args().is_ok());
    p.port = "65535".into();
    assert!(p.ssh_args().is_ok());
    p.port = "+".into();
    assert_eq!(
        p.ssh_args().unwrap_err(),
        "Port must be between 1 and 65535."
    );
}

#[test]
fn label_falls_back_to_the_host() {
    let mut p = profile("server.example.com");
    assert_eq!(p.label(), "server.example.com");
    p.name = " \t".into();
    assert_eq!(p.label(), "server.example.com");
    p.name = "Production".into();
    assert_eq!(p.label(), "Production");
}

#[test]
fn a_key_path_that_reads_as_an_option_is_refused() {
    let mut p = profile("server");
    p.identity = " -oProxyCommand=evil ".into();
    assert_eq!(
        p.ssh_args().unwrap_err(),
        "The private key must have an absolute filesystem path."
    );
    p.identity = String::new();
    let args = p.ssh_args().unwrap();
    assert_eq!(args.len(), 11);
    assert!(args[9..].iter().skip(1).all(|a| !a.starts_with('-')));
}
