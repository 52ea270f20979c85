use relay_ssh::ghostty::command_line;

#[test]
fn each_argument_is_quoted_on_its_own() {
    let args = vec![
        "-tt".to_string(),
        "hello world".to_string(),
        "a'b".to_string(),
        "$(echo unexpected)".to_string(),
        "日本語".to_string(),
    ];
    assert_eq!(
        command_line("/usr/bin/ssh", &args).unwrap(),
        "'/usr/bin/ssh' '-tt' 'hello world' 'a'\\''b' '$(echo unexpected)' '日本語'"
    );
}

#[test]
fn shell_alone_and_empty_arguments_are_kept() {
    assert_eq!(command_line("ssh", &vec![]).unwrap(), "'ssh'");
    assert_eq!(
        command_line("ssh", &vec![String::new(), "''".to_string()]).unwrap(),
        "'ssh' '' ''\\'''\\'''"
    );
}

#[test]
fn a_nul_character_gives_no_command_line() {
    assert_eq!(command_line("ss\0h", &vec![]), None);
    assert_eq!(
        command_line("ssh", &vec!["ok".to_string(), "bad\0arg".to_string()]),
        None
    );
}
