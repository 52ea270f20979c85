use relay_ssh::files::{
    connection_lost_message, error_category, is_transport_failure, join_remote, list_event,
    refresh_listings, remote_string, session_error_code, Entry, Event,
};
use relay_ssh::paths::PathSet;

#[test]
fn transport_failures_are_distinct_from_file_and_permission_errors() {
    for code in [-1, -7, -9, -13, -26, -27, -30, -43, -45] {
        let error = format!("Cannot list /folder: [Session({code})] error");
        assert_eq!(session_error_code(&error), Some(code));
        assert!(is_transport_failure(&error));
    }
    assert_eq!(
        error_category("[Session(-7)] Unable to send STAT/LSTAT/SETSTAT command"),
        "connection"
    );
    assert_eq!(
        error_category("[Session(-43)] Unable to send FXP_OP"),
        "connection"
    );
    assert!(!is_transport_failure("[SFTP(3)] permission denied"));
    assert!(!is_transport_failure(
        "Cannot list /[Session(-7)]: [SFTP(2)] no such file"
    ));
    assert!(!is_transport_failure("[Session(-31)] SFTP protocol error"));
    assert!(!is_transport_failure(
        "Only regular files can be previewed."
    ));
}

#[test]
fn listing_failures_keep_the_directory_and_have_private_log_categories() {
    assert!(
        matches!(list_event("/private/folder".into(), Err("Permission denied".into())), Event::ListFailed { path, error } if path == "/private/folder" && error == "Permission denied")
    );
    assert_eq!(
        error_category("Permission denied for /secret/path"),
        "permission_denied"
    );
    assert_eq!(
        error_category("Failed waiting on socket: timed out"),
        "timeout"
    );
    assert_eq!(error_category("No such file /secret/path"), "not_found");
}

#[test]
fn refresh_follows_fresh_expanded_folders_and_continues_after_errors() {
    let mut expanded = PathSet::new();
    for path in [
        "/root/open",
        "/root/gone",
        "/root/denied",
        "/root/closed/nested",
    ] {
        expanded.insert(path.to_string());
    }
    let folder = |path: &str| Entry {
        path: path.into(),
        name: path.rsplit('/').next().unwrap().into(),
        directory: true,
        file: false,
        size: 0,
    };
    let calls = std::cell::RefCell::new(Vec::<String>::new());
    let listings = refresh_listings("/root".into(), &expanded, |path| {
        calls.borrow_mut().push(path.to_owned());
        match path {
            "/root" => Ok(vec![
                folder("/root/denied"),
                folder("/root/open"),
                folder("/root/closed"),
            ]),
            "/root/denied" => Err("Permission denied".into()),
            "/root/open" => Ok(vec![]),
            _ => panic!("Must not request deleted or collapsed folders: {path}"),
        }
    });
    assert_eq!(*calls.borrow(), ["/root", "/root/denied", "/root/open"]);
    assert!(listings[1].1.is_err());
    assert!(listings[2].1.is_ok());
}

#[test]
fn remote_paths_are_posix_and_cannot_escape_destination() {
    assert_eq!(
        join_remote("/home/test", "a b.txt").unwrap(),
        "/home/test/a b.txt"
    );
    assert_eq!(join_remote("/", "test").unwrap(), "/test");
    for name in ["..", ".", "a/b", "a\\b", "\0"] {
        assert!(join_remote("/upload", name).is_err());
    }
}

#[test]
fn join_drops_every_trailing_slash_of_the_parent() {
    assert_eq!(join_remote("/srv//", "x").unwrap(), "/srv/x");
    assert_eq!(join_remote("", "x").unwrap(), "/x");
    assert_eq!(join_remote("/srv", "..x").unwrap(), "/srv/..x");
    assert_eq!(
        join_remote("/srv", "").unwrap_err(),
        "Unsupported file name."
    );
}

#[test]
fn remote_strings_use_forward_slashes() {
    assert_eq!(remote_string("C:\\Users\\me\\file.txt"), "C:/Users/me/file.txt");
    assert_eq!(remote_string("/already/posix"), "/already/posix");
}

#[test]
fn session_codes_come_from_the_last_marker_and_need_a_number() {
    assert_eq!(
        session_error_code("[Session(-1)] first [Session(-45)] second"),
        Some(-45)
    );
    assert_eq!(session_error_code("[Session(+13)]"), Some(13));
    assert_eq!(session_error_code("[Session(x)]"), None);
    assert_eq!(session_error_code("[Session(-7) no end"), None);
    assert_eq!(session_error_code("[Session(99999999999)]"), None);
    assert_eq!(session_error_code("plain error"), None);
}

#[test]
fn categories_cover_timeouts_connections_and_other_errors() {
    assert_eq!(error_category("[Session(-9)] timed out"), "timeout");
    assert_eq!(error_category("[Session(-30)] x"), "timeout");
    assert_eq!(error_category("[Session(-13)] x"), "connection");
    assert_eq!(error_category("Connect the file browser first."), "connection");
    assert_eq!(error_category("[SFTP(3)] x"), "permission_denied");
    assert_eq!(error_category("[SFTP(2)] x"), "not_found");
    assert_eq!(error_category("something odd"), "other");
}

#[test]
fn lost_connection_message_names_the_cause() {
    assert_eq!(
        connection_lost_message("[Session(-7)] broken"),
        "The file connection was lost. Reconnect files to continue.\n[Session(-7)] broken"
    );
}

#[test]
fn entries_become_an_entries_event() {
    let entry = Entry {
        path: "/r/a".into(),
        name: "a".into(),
        directory: false,
        file: true,
        size: 3,
    };
    match list_event("/r".into(), Ok(vec![entry])) {
        Event::Entries(path, entries) => {
            assert_eq!(path, "/r");
            assert_eq!(entries[0].name, "a");
        }
        _ => panic!("expected entries"),
    }
}
