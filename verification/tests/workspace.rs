use relay_ssh::browser::{entry_label_of, FileBrowser, Request};
use relay_ssh::files::Entry;
use relay_ssh::profiles::Profile;
use relay_ssh::workspace::{HostList, Tabs};

fn host(name: &str, host: &str) -> Profile {
    Profile {
        name: name.into(),
        host: host.into(),
        ..Default::default()
    }
}

#[test]
fn host_search_matches_label_and_host_ignoring_case() {
    let list = HostList::new(
        vec![
            host("Production", "prod.example"),
            host("", "db.internal"),
            host("Work", "café.example"),
        ],
        false,
    );
    assert_eq!(list.visible("PROD"), vec![0]);
    assert_eq!(list.visible(""), vec![0, 1, 2]);
    assert_eq!(list.visible("DB"), vec![1]);
    assert_eq!(list.visible("work CAFÉ"), vec![2]);
    assert!(list.visible("missing").is_empty());
    assert_eq!(list.empty_text(), "No matching connections.");
    assert_eq!(
        HostList::new(vec![], false).empty_text(),
        "Your saved hosts will appear here."
    );
}

#[test]
fn connection_save_validates_and_persists_before_changing_selection() {
    let mut list = HostList::new(vec![], false);
    let profile = host("", "example.com");
    // An invalid profile is refused before anything is written or selected.
    assert!(list.save_plan(&Profile::default(), None).is_err());
    assert!(list.profiles.is_empty());
    assert_eq!(list.selected, None);
    // The plan is the list to write; only after the write is it committed.
    let written = list.save_plan(&profile, None).unwrap();
    assert_eq!(written, vec![profile.clone()]);
    list.commit_save(written, &profile, None);
    assert_eq!(list.selected, Some(0));
    assert_eq!(list.draft, profile);
    assert_eq!(list.profiles, vec![profile.clone()]);

    let edited = Profile {
        name: "Production".into(),
        ..profile.clone()
    };
    // A failed write commits nothing: the saved connection and selection stay.
    let failed_write = list.save_plan(&edited, Some(0)).unwrap();
    drop(failed_write);
    assert_eq!(list.draft, profile);
    assert_eq!(list.profiles, vec![profile.clone()]);
    assert_eq!(list.selected, Some(0));
    let written = list.save_plan(&edited, Some(0)).unwrap();
    assert_eq!(written, vec![edited.clone()]);
    list.commit_save(written, &edited, Some(0));
    assert_eq!(list.profiles, vec![edited.clone()]);
    assert_eq!(list.draft, edited);
    let broken = HostList::new(vec![], true);
    assert_eq!(
        broken.save_plan(&profile, None).unwrap_err(),
        "Resolve the configuration read error and restart before saving connections."
    );
}

#[test]
fn removing_a_connection_clears_the_selection() {
    let mut list = HostList::new(vec![host("a", "a.example"), host("b", "b.example")], false);
    list.select(1);
    assert_eq!(list.draft.host, "b.example");
    assert_eq!(list.editor_profile(Some(0)).host, "a.example");
    assert_eq!(list.editor_profile(None), Profile::default());
    let updated = list.removal_plan(0);
    list.commit_remove(updated);
    assert_eq!(list.profiles, vec![host("b", "b.example")]);
    assert_eq!(list.selected, None);
    assert_eq!(list.draft, Profile::default());
}

#[test]
fn ended_sessions_keep_their_tab_and_report_the_exit_status() {
    let mut tabs = Tabs::new();
    tabs.next_id = 42;
    let id = tabs.open("test".into());
    assert_eq!(id, 42);
    let message = tabs.child_exited(42, "exit status: 255").unwrap();
    assert!(message.contains("255"));
    assert_eq!(
        message,
        "SSH session ended (exit status: 255). Its terminal output is kept in the tab."
    );
    assert!(tabs.pty_exited(42).is_none());
    assert_eq!(tabs.tabs.len(), 1);
    assert_eq!(tabs.active, Some(42));
    assert!(tabs.tabs[0].ended);
    assert_eq!(Tabs::title(&tabs.tabs[0]), "test · ended");
    assert!(tabs.child_exited(7, "exit status: 1").is_none());
}

#[test]
fn closing_the_shown_tab_shows_the_last_one_left() {
    let mut tabs = Tabs::new();
    let a = tabs.open("a".into());
    let b = tabs.open("b".into());
    let c = tabs.open("c".into());
    assert_eq!(tabs.pty_exited(b), Some("SSH session ended. Its terminal output is kept in the tab.".into()));
    tabs.select(a);
    tabs.close(c);
    assert_eq!(tabs.active, Some(a));
    tabs.close(a);
    assert_eq!(tabs.active, Some(b));
    tabs.close(b);
    assert_eq!(tabs.active, None);
    assert!(tabs.tabs.is_empty());
    assert_eq!(tabs.open("d".into()), 4);
}

#[test]
fn dropped_files_upload_only_when_connected_idle_and_shown() {
    let mut app = FileBrowser::new();
    app.destination = "/remote/selected folder".into();
    assert_eq!(app.accept_drop(1, true, false), None);
    assert_eq!(app.message, "Connect the file browser before dropping files.");
    app.files_connected = true;
    app.message.clear();
    assert_eq!(app.accept_drop(1, true, true), None, "A modal must block file uploads");
    assert_eq!(app.accept_drop(0, true, false), None);
    assert_eq!(app.message, "");
    assert_eq!(
        app.accept_drop(1, true, false).as_deref(),
        Some("/remote/selected folder")
    );
    app.files_busy = true;
    assert_eq!(app.accept_drop(2, true, false), None);
    assert_eq!(
        app.message,
        "Wait for the current file operation before uploading more files."
    );
    app.files_busy = false;
    assert_eq!(app.accept_drop(1, false, false), None);
    assert_eq!(
        app.message,
        "Drop files onto the Remote files panel to upload them."
    );
}

#[test]
fn folder_arrows_open_close_and_load_once() {
    let mut app = FileBrowser::new();
    app.files_connected = true;
    app.root = "/remote".into();
    let request = app.toggle_folder("/remote/folder".into(), false);
    assert!(matches!(request, Some(Request::List(p)) if p == "/remote/folder"));
    assert!(app.expanded.contains("/remote/folder"));
    assert!(app.toggle_folder("/remote/folder".into(), true).is_none());
    assert!(!app.expanded.contains("/remote/folder"));
    // During a search the choice is kept apart, and loaded folders are not read again.
    app.tree.insert("/remote/cached".into(), vec![]);
    app.file_search_query = "x".into();
    assert!(app.toggle_folder("/remote/cached".into(), false).is_none());
    assert_eq!(app.file_search_expanded.get("/remote/cached"), Some(&true));
    assert!(!app.expanded.contains("/remote/cached"));
}

#[test]
fn parent_folder_becomes_root_and_destination() {
    let mut app = FileBrowser::new();
    app.files_connected = true;
    app.root = "/home/user/".into();
    let request = app.go_to_parent();
    assert!(matches!(request, Some(Request::List(p)) if p == "/home"));
    assert_eq!(app.root, "/home");
    assert_eq!(app.destination, "/home");
    assert!(app.expanded.contains("/home"));
    app.root = "/home".into();
    app.go_to_parent();
    assert_eq!(app.root, "/");
    app.root = "relative".into();
    app.go_to_parent();
    assert_eq!(app.root, "/");
}

#[test]
fn choosing_a_file_selects_its_folder_and_previews_it() {
    let mut app = FileBrowser::new();
    app.files_connected = true;
    let entry = Entry {
        path: "/remote/docs/a.txt".into(),
        name: "a.txt".into(),
        directory: false,
        file: true,
        size: 10,
    };
    let request = app.choose_file(&entry);
    assert!(matches!(request, Some(Request::Preview { offset: 0, .. })));
    assert_eq!(app.destination, "/remote/docs");
    assert_eq!(app.selected_file.as_ref().unwrap().path, "/remote/docs/a.txt");
    assert!(app.can_download());
    app.choose_folder("/remote");
    assert!(app.selected_file.is_none());
    assert!(!app.can_download());
}

#[test]
fn disconnecting_clears_the_browser() {
    let mut app = FileBrowser::new();
    app.files_connected = true;
    app.tree.insert("/r".into(), vec![]);
    assert!(app.refresh("/r/a".into()).is_some());
    app.file_search = "x".into();
    app.disconnect();
    assert!(!app.files_connected && !app.files_busy);
    assert!(app.file_list_pending.is_empty());
    assert!(!app.tree.contains_key("/r"));
    assert!(app.file_search.is_empty());
    assert!(app.can_connect(true));
    app.fingerprint = Some("SHA256:x".into());
    assert!(!app.can_connect(true));
    app.cancel_trust();
    assert!(app.can_connect(true));
}

#[test]
fn entry_names_are_shown_on_one_line() {
    let entry = |name: &str, directory: bool, file: bool| Entry {
        path: format!("/r/{name}"),
        name: name.into(),
        directory,
        file,
        size: 0,
    };
    assert_eq!(entry_label_of(&entry("a\nb\rc", false, true)), "a⏎b⏎c");
    assert_eq!(entry_label_of(&entry("dir", true, false)), "dir");
    assert_eq!(entry_label_of(&entry("dev", false, false)), "dev (link / special)");
}

#[test]
fn searches_compare_lowercase_text() {
    assert_eq!(relay_ssh::text::lowercased("ReadMe.TXT"), "readme.txt");
    assert_eq!(relay_ssh::text::lowercased("Work CAFÉ"), "work café");
    assert_eq!(relay_ssh::text::lowercased(""), "");
}
