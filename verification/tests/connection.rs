use relay_ssh::connection::{
    host_key_decision, host_key_fingerprint, parse_ssh_config, HostKeyCheck, HostKeyDecision,
    IdentitySource,
};

const CONFIG: &str = "user alice\nhostname server.example\nport 2222\nidentityfile ~/.ssh/id_ed25519\nidentityfile /keys/work\nproxyjump none\nhostkeyalias none\n";

#[test]
fn fingerprints_are_unpadded_standard_base64_of_the_digest() {
    assert_eq!(host_key_fingerprint(b"hello"), "SHA256:aGVsbG8");
    assert_eq!(host_key_fingerprint(b""), "SHA256:");
    assert_eq!(host_key_fingerprint(&[0xfb, 0xff]), "SHA256:+/8");
    assert_eq!(host_key_fingerprint(&[0u8; 32]).len(), 7 + 43);
}

#[test]
fn resolved_configuration_is_read_from_ssh_output() {
    let resolved = parse_ssh_config(CONFIG, true).unwrap();
    assert_eq!(resolved.host, "server.example");
    assert_eq!(resolved.user, "alice");
    assert_eq!(resolved.port, 2222);
    assert_eq!(resolved.host_alias, "none");
    assert_eq!(resolved.check_host(), "server.example");
    assert_eq!(resolved.identities.len(), 2);
    assert!(matches!(&resolved.identities[0], IdentitySource::InHome(p) if p == ".ssh/id_ed25519"));
    assert!(matches!(&resolved.identities[1], IdentitySource::Path(p) if p == "/keys/work"));
}

#[test]
fn host_key_alias_is_used_for_the_lookup_when_set() {
    let config = "hostname 10.0.0.5\nport 22\nhostkeyalias build-box\n";
    let resolved = parse_ssh_config(config, true).unwrap();
    assert_eq!(resolved.check_host(), "build-box");
    assert!(resolved.identities.is_empty());
    assert_eq!(resolved.user, "");
}

#[test]
fn jump_hosts_missing_home_and_bad_ports_are_refused() {
    let jump = "hostname a\nport 22\nproxyjump bastion\n";
    assert_eq!(
        parse_ssh_config(jump, true).unwrap_err(),
        "The file browser currently needs a direct SSH connection; jump hosts are supported in terminal tabs only."
    );
    let command = "hostname a\nport 22\nproxycommand nc %h %p\n";
    assert!(parse_ssh_config(command, true).is_err());
    assert_eq!(
        parse_ssh_config(CONFIG, false).unwrap_err(),
        "Cannot locate the home directory"
    );
    assert_eq!(
        parse_ssh_config("hostname a\nport 70000\n", true).unwrap_err(),
        "Cannot resolve SSH port"
    );
    assert_eq!(
        parse_ssh_config("hostname a\n", true).unwrap_err(),
        "Cannot resolve SSH port"
    );
}

#[test]
fn host_keys_are_trusted_only_when_known_or_confirmed() {
    assert!(matches!(
        host_key_decision(HostKeyCheck::Match, None, "SHA256:x", "h"),
        Ok(HostKeyDecision::Proceed)
    ));
    assert!(matches!(
        host_key_decision(HostKeyCheck::NotFound, None, "SHA256:x", "h"),
        Ok(HostKeyDecision::AskTrust(f)) if f == "SHA256:x"
    ));
    assert!(matches!(
        host_key_decision(HostKeyCheck::NotFound, Some("SHA256:y"), "SHA256:x", "h"),
        Ok(HostKeyDecision::AskTrust(_))
    ));
    assert!(matches!(
        host_key_decision(HostKeyCheck::NotFound, Some("SHA256:x"), "SHA256:x", "h"),
        Ok(HostKeyDecision::Proceed)
    ));
    assert_eq!(
        host_key_decision(HostKeyCheck::Mismatch, Some("SHA256:x"), "SHA256:x", "server")
            .unwrap_err(),
        "Host key changed for server. Connection blocked. Received SHA256:x"
    );
    assert_eq!(
        host_key_decision(HostKeyCheck::Failure, None, "SHA256:x", "server").unwrap_err(),
        "Host key verification failed."
    );
}
