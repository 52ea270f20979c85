use relay_ssh::browser::{FileBrowser, Request};
use relay_ssh::files::{Entry, Event};
use relay_ssh::paths::PathMap;
use relay_ssh::preview::{Chunk, FilePreview, CHUNK_BYTES};
use relay_ssh::profiles::Profile;
use relay_ssh::tree::TreeRow;

/// Hands each event to the browser, then lets it send its preview read, as
/// the window does once per frame; gives back what it asked the worker for.
fn drain(app: &mut FileBrowser, events: Vec<Event>) -> Vec<Request> {
    let mut requests = vec![];
    for event in events {
        if let Some(request) = app.handle_event(event) {
            requests.push(request);
        }
    }
    if let Some(request) = app.pump_preview() {
        requests.push(request);
    }
    requests
}

fn rows(app: &mut FileBrowser) -> std::sync::Arc<Vec<TreeRow>> {
    app.tree_cache
        .rows(&app.tree, &app.root, "", &app.expanded, &PathMap::new())
}

fn row_names(rows: &[TreeRow]) -> Vec<String> {
    rows.iter()
        .filter_map(|row| match row {
            TreeRow::Entry {
                directory, index, ..
            } => Some(directory.entries[*index].name.clone()),
            _ => None,
        })
        .collect()
}

#[test]
fn disconnected_preview_reconnects_original_host_and_resumes_at_same_offset() {
    let mut app = FileBrowser::new();
    app.pending_profile = Some(Profile {
        host: "original.example".into(),
        ..Default::default()
    });
    let draft = Profile {
        host: "another.example".into(),
        ..Default::default()
    };
    app.files_connected = true;
    app.preview_active = true;
    app.preview_inflight = Some(7);
    app.next_preview_id = 8;
    app.preview = Some(FilePreview {
        id: 7,
        path: "/remote/log.txt".into(),
        name: "log.txt".into(),
        host: "original.example".into(),
        offset: CHUNK_BYTES as u64,
        chunk: None,
        lines: vec![],
        binary: false,
        error: None,
    });
    let requests = drain(
        &mut app,
        vec![Event::Disconnected(
            "The file connection was lost. Reconnect files to continue.".into(),
        )],
    );
    assert!(!app.files_connected);
    assert!(app.preview_inflight.is_none());
    assert!(requests.is_empty());
    // "Reconnect files"
    let request = app.reconnect_preview(&draft);
    assert!(
        matches!(request, Some(Request::Connect { profile, trusted: None }) if profile.host == "original.example")
    );
    assert!(app.resume_preview_after_connect);
    drain(&mut app, vec![Event::Trust("SHA256:fixture".into())]);
    let request = app.connect(&draft, Some("SHA256:fixture".into()));
    assert!(
        matches!(request, Some(Request::Connect { profile, trusted: Some(fingerprint) }) if profile.host == "original.example" && fingerprint == "SHA256:fixture")
    );
    assert_eq!(app.preview.as_ref().unwrap().offset, CHUNK_BYTES as u64);
    let requests = drain(&mut app, vec![Event::Connected("/remote".into())]);
    assert!(matches!(&requests[..], [Request::List(path)] if path == "/remote"));
    let requests = drain(&mut app, vec![Event::Entries("/remote".into(), vec![])]);
    assert!(
        matches!(&requests[..], [Request::Preview { id: 8, remote, offset }] if remote == "/remote/log.txt" && *offset == CHUNK_BYTES as u64)
    );
    drain(
        &mut app,
        vec![Event::Preview {
            id: 7,
            result: Err("stale response".into()),
        }],
    );
    assert!(app.preview.as_ref().unwrap().error.is_none());
    assert_eq!(app.preview_inflight, Some(8));
}

#[test]
fn failed_folder_shows_error_and_retry_recovers_without_repeated_requests() {
    let mut app = FileBrowser::new();
    app.files_connected = true;
    app.root = "/remote".into();
    app.expanded.insert("/remote/folder".into());
    app.tree.insert(
        "/remote".into(),
        vec![Entry {
            path: "/remote/folder".into(),
            name: "folder".into(),
            directory: true,
            file: false,
            size: 0,
        }],
    );
    let mut requests = vec![];
    requests.extend(app.refresh("/remote/folder".into()));
    requests.extend(app.refresh("/remote/folder".into()));
    assert!(matches!(&requests[..], [Request::List(path)] if path == "/remote/folder"));
    let requests = drain(
        &mut app,
        vec![Event::ListFailed {
            path: "/remote/folder".into(),
            error: "Permission denied".into(),
        }],
    );
    assert!(!app.files_busy);
    let shown = rows(&mut app);
    assert!(shown
        .iter()
        .any(|row| matches!(row, TreeRow::Error { path, .. } if path == "/remote/folder")));
    assert!(!shown.iter().any(|row| matches!(
        row,
        TreeRow::Message {
            text: "Loading…",
            ..
        }
    )));
    assert!(requests.is_empty());
    // "Retry"
    let request = app.refresh("/remote/folder".into());
    assert!(matches!(request, Some(Request::List(path)) if path == "/remote/folder"));
    assert!(app.files_busy);
    drain(
        &mut app,
        vec![Event::Entries("/remote/folder".into(), vec![])],
    );
    let shown = rows(&mut app);
    assert!(shown.iter().any(|row| matches!(
        row,
        TreeRow::Message {
            text: "Empty folder",
            ..
        }
    )));
    assert!(!shown.iter().any(|row| matches!(row, TreeRow::Error { .. })));
    // A later refresh failure should also replace Loading with an error.
    drain(
        &mut app,
        vec![Event::Refreshed(vec![(
            "/remote/folder".into(),
            Err("Timed out".into()),
        )])],
    );
    let shown = rows(&mut app);
    assert!(shown.iter().any(
        |row| matches!(row, TreeRow::Error { error, .. } if error.as_str() == "Timed out")
    ));
}

#[test]
fn stopped_file_worker_clears_pending_listing_and_allows_reconnect() {
    let mut app = FileBrowser::new();
    app.files_connected = true;
    assert!(app.refresh("/remote".into()).is_some());
    app.worker_stopped();
    assert!(app.file_worker_stopped);
    assert!(!app.files_busy);
    assert!(!app.files_connected);
    assert!(app.file_list_pending.is_empty());
    assert!(app.message.contains("Reconnect"));
}

#[test]
fn refresh_button_updates_open_tree_independently_of_upload_destination() {
    let mut app = FileBrowser::new();
    app.files_connected = true;
    app.root = "/remote".into();
    app.destination = "/remote/gone".into();
    let entry = |path: &str, directory: bool| Entry {
        path: path.into(),
        name: path.rsplit('/').next().unwrap().into(),
        directory,
        file: !directory,
        size: 0,
    };
    for path in ["/remote", "/remote/open", "/remote/gone"] {
        app.expanded.insert(path.into());
    }
    app.tree.insert(
        "/remote".into(),
        vec![entry("/remote/open", true), entry("/remote/gone", true)],
    );
    app.tree.insert("/remote/open".into(), vec![]);
    app.tree.insert(
        "/remote/gone".into(),
        vec![entry("/remote/gone/old.txt", false)],
    );
    app.selected_file = Some(entry("/remote/gone/old.txt", false));
    // "Refresh"
    let request = app.refresh_directory_listing();
    assert!(
        matches!(&request, Request::Refresh { root, expanded } if root == "/remote" && expanded.contains("/remote/open"))
    );
    assert!(app.files_busy);
    let requests = drain(
        &mut app,
        vec![Event::Refreshed(vec![
            (
                "/remote".into(),
                Ok(vec![
                    entry("/remote/open", true),
                    entry("/remote/new.txt", false),
                ]),
            ),
            (
                "/remote/open".into(),
                Ok(vec![entry("/remote/open/nested.txt", false)]),
            ),
        ])],
    );
    assert!(!app.files_busy);
    assert!(app.expanded.contains("/remote/open"));
    assert!(!app.expanded.contains("/remote/gone"));
    assert!(!app.tree.contains_key("/remote/gone"));
    assert!(app.selected_file.is_none());
    assert_eq!(app.destination, "/remote");
    let names = row_names(&rows(&mut app));
    assert!(names.iter().any(|name| name == "new.txt"));
    assert!(names.iter().any(|name| name == "nested.txt"));
    assert_eq!(app.message, "Directory listing refreshed.");
    assert!(requests.is_empty());
}

#[test]
fn clicking_remote_file_opens_preview_and_next_requests_only_the_next_range() {
    let mut app = FileBrowser::new();
    app.files_connected = true;
    app.root = "/remote".into();
    app.destination = app.root.clone();
    let config = Entry {
        path: "/remote/config.toml".into(),
        name: "config.toml".into(),
        file: true,
        directory: false,
        size: 200_000,
    };
    app.tree.insert(app.root.clone(), vec![config.clone()]);
    // "config.toml"
    let id = match app.open_preview(&config) {
        Some(Request::Preview {
            id,
            remote,
            offset: 0,
        }) => {
            assert_eq!(remote, "/remote/config.toml");
            id
        }
        _ => panic!("Expected a range read, not a download"),
    };
    assert!(app.preview_active);
    let mut data = b"port = 8080\n".to_vec();
    data.resize(CHUNK_BYTES + 3, b' ');
    let requests = drain(
        &mut app,
        vec![Event::Preview {
            id,
            result: Ok(Chunk {
                offset: 0,
                size: 200_000,
                bytes: data,
            }),
        }],
    );
    assert!(requests.is_empty());
    let preview = app.preview.as_ref().unwrap();
    assert!(preview.lines.iter().any(|line| line == "port = 8080"));
    assert!(preview.chunk.as_ref().unwrap().has_next());
    // "Next"
    let offset = preview.offset + CHUNK_BYTES as u64;
    let request = app.preview_page(offset);
    assert!(
        matches!(request, Some(Request::Preview { offset, .. }) if offset == CHUNK_BYTES as u64)
    );
    assert!(app.pump_preview().is_none());
}

#[test]
fn preview_coalesces_selection_ignores_old_results_and_requests_pages_on_demand() {
    let mut app = FileBrowser::new();
    app.files_connected = true;
    app.files_label = "Test host".into();
    let entry = |name: &str| Entry {
        name: name.into(),
        path: format!("/remote/{name}"),
        file: true,
        directory: false,
        size: 1_000_000,
    };
    let first_id = match app.open_preview(&entry("first.txt")) {
        Some(Request::Preview { id, offset: 0, .. }) => id,
        _ => panic!("Expected initial range"),
    };
    let second = app.open_preview(&entry("second.txt"));
    let latest = app.open_preview(&entry("latest.txt"));
    assert!(
        second.is_none() && latest.is_none(),
        "Only one read may be in flight"
    );
    let requests = drain(
        &mut app,
        vec![Event::Preview {
            id: first_id,
            result: Err("stale error".into()),
        }],
    );
    assert!(app.preview.as_ref().unwrap().error.is_none());
    let current_id = match &requests[..] {
        [Request::Preview {
            id,
            remote,
            offset: 0,
        }] => {
            assert_eq!(remote, "/remote/latest.txt");
            *id
        }
        _ => panic!("Expected only the latest selection"),
    };
    drain(
        &mut app,
        vec![Event::Preview {
            id: current_id,
            result: Ok(Chunk {
                offset: 0,
                size: 1_000_000,
                bytes: vec![b'x'; CHUNK_BYTES + 3],
            }),
        }],
    );
    assert!(app.preview.as_ref().unwrap().chunk.is_some());
    assert!(
        app.pump_preview().is_none(),
        "No speculative full-file fetching"
    );
    let request = app.preview_page(CHUNK_BYTES as u64);
    assert!(
        app.preview.as_ref().unwrap().chunk.is_none(),
        "Release the previous chunk"
    );
    let next_id = match request {
        Some(Request::Preview { id, offset, .. }) => {
            assert_eq!(offset, CHUNK_BYTES as u64);
            id
        }
        _ => panic!("Expected next range"),
    };
    assert!(matches!(app.close_preview(), Request::ClosePreview));
    drain(
        &mut app,
        vec![Event::Preview {
            id: next_id,
            result: Err("late result".into()),
        }],
    );
    assert!(app.preview.is_none());
    assert!(!app.preview_active);
}

#[test]
fn listing_failure_is_reported_with_its_path() {
    let mut app = FileBrowser::new();
    app.files_connected = true;
    assert!(app.refresh("/remote/a".into()).is_some());
    assert!(app.refresh("/remote/b".into()).is_some());
    drain(
        &mut app,
        vec![Event::ListFailed {
            path: "/remote/a".into(),
            error: "Permission denied".into(),
        }],
    );
    assert_eq!(app.message, "Could not load /remote/a: Permission denied");
    assert!(app.files_busy, "Another listing is still pending");
    assert!(app.file_list_pending.contains("/remote/b"));
    assert!(!app.file_list_pending.contains("/remote/a"));
}

#[test]
fn refresh_failures_are_joined_in_the_message() {
    let mut app = FileBrowser::new();
    app.files_connected = true;
    drain(
        &mut app,
        vec![Event::Refreshed(vec![
            ("/r/a".into(), Err("Timed out".into())),
            ("/r".into(), Ok(vec![])),
            ("/r/b".into(), Err("Permission denied".into())),
        ])],
    );
    assert_eq!(
        app.message,
        "Could not refresh /r/a: Timed out; /r/b: Permission denied"
    );
    assert!(app.tree.contains_key("/r"));
}

#[test]
fn disconnection_fails_every_pending_listing() {
    let mut app = FileBrowser::new();
    app.files_connected = true;
    app.tree.insert("/r".into(), vec![]);
    assert!(app.refresh("/r/a".into()).is_some());
    assert!(app.refresh("/r/b".into()).is_some());
    drain(&mut app, vec![Event::Disconnected("gone".into())]);
    assert!(app.file_list_pending.is_empty());
    assert!(!app.files_busy && !app.files_connected);
    assert_eq!(app.message, "gone");
    assert!(app.tree.contains_key("/r"));
    let shown = app
        .tree_cache
        .rows(&app.tree, "/r", "", &app.expanded, &PathMap::new());
    assert!(shown.iter().all(|row| !matches!(row, TreeRow::Error { .. })));
}

#[test]
fn connecting_clears_the_tree_and_reports_bad_profiles() {
    let mut app = FileBrowser::new();
    app.tree.insert("/old".into(), vec![]);
    app.expanded.insert("/old".into());
    let bad = Profile {
        host: "-oProxyCommand=evil".into(),
        ..Default::default()
    };
    assert!(app.connect(&bad, None).is_none());
    assert_eq!(
        app.message,
        "Enter a hostname, IPv4/IPv6 address, or SSH config alias."
    );
    assert!(app.tree.contains_key("/old"), "A refused profile changes nothing else");
    let good = Profile {
        name: "Work".into(),
        host: "server.example".into(),
        ..Default::default()
    };
    let request = app.connect(&good, None);
    assert!(
        matches!(request, Some(Request::Connect { profile, trusted: None }) if profile.host == "server.example")
    );
    assert!(app.files_busy && !app.files_connected);
    assert!(!app.tree.contains_key("/old"));
    assert!(!app.expanded.contains("/old"));
    assert_eq!(app.files_label, "Work");
    assert_eq!(app.message, "Opening SFTP connection to server.example…");
}

#[test]
fn finished_transfer_lists_the_destination_again() {
    let mut app = FileBrowser::new();
    app.files_connected = true;
    app.destination = "/remote/uploads".into();
    app.start_transfer();
    assert!(app.files_busy);
    drain(
        &mut app,
        vec![Event::Progress {
            name: "a.bin".into(),
            done: 5,
            total: 10,
        }],
    );
    assert_eq!(app.progress, Some(("a.bin".into(), 5, 10)));
    let requests = drain(&mut app, vec![Event::Done("Uploaded a.bin".into())]);
    assert!(matches!(&requests[..], [Request::List(path)] if path == "/remote/uploads"));
    assert_eq!(app.progress, None);
    assert_eq!(app.message, "Uploaded a.bin");
}

#[test]
fn selected_file_follows_a_new_listing_of_its_folder() {
    let mut app = FileBrowser::new();
    let file = |path: &str, size: u64| Entry {
        path: path.into(),
        name: path.rsplit('/').next().unwrap().into(),
        directory: false,
        file: true,
        size,
    };
    app.tree.insert("/r".into(), vec![file("/r/a.txt", 1)]);
    app.selected_file = Some(file("/r/a.txt", 1));
    app.apply_entries("/r".into(), vec![file("/r/a.txt", 7)]);
    assert_eq!(app.selected_file.as_ref().unwrap().size, 7);
    app.apply_entries("/r".into(), vec![file("/r/b.txt", 2)]);
    assert!(app.selected_file.is_none());
    app.selected_file = Some(file("/top.txt", 3));
    app.apply_entries("/".into(), vec![file("/top.txt", 4)]);
    assert_eq!(app.selected_file.as_ref().unwrap().size, 4);
}

#[test]
fn search_choices_decide_which_folders_a_refresh_follows() {
    let mut app = FileBrowser::new();
    app.files_connected = true;
    app.root = "/r".into();
    let folder = |path: &str| Entry {
        path: path.into(),
        name: path.rsplit('/').next().unwrap().into(),
        directory: true,
        file: false,
        size: 0,
    };
    app.tree.insert("/r".into(), vec![folder("/r/docs"), folder("/r/src")]);
    app.tree
        .insert("/r/docs".into(), vec![folder("/r/docs/guide")]);
    app.file_search = "  GUIDE ".into();
    app.file_search_expanded
        .insert("/r/docs".into(), false);
    let request = app.refresh_directory_listing();
    assert_eq!(app.file_search_query, "guide");
    assert!(app.file_search_expanded.len() == 0, "A new query drops earlier choices");
    match request {
        Request::Refresh { root, expanded } => {
            assert_eq!(root, "/r");
            assert!(expanded.contains("/r/docs"));
            assert!(expanded.contains("/r/docs/guide"));
            assert!(!expanded.contains("/r/src"));
        }
        _ => panic!("Expected a refresh"),
    }
    app.file_search_expanded
        .insert("/r/docs".into(), false);
    match app.refresh_directory_listing() {
        Request::Refresh { expanded, .. } => {
            assert!(!expanded.contains("/r/docs"), "A folder closed by hand stays closed");
            assert!(expanded.contains("/r/docs/guide"));
        }
        _ => panic!("Expected a refresh"),
    }
    assert_eq!(app.message, "Refreshing directory listing…");
}

#[test]
fn preview_buttons_follow_the_connection_and_the_chunk() {
    let mut app = FileBrowser::new();
    app.files_connected = true;
    app.preview = Some(FilePreview {
        id: 1,
        path: "/r/a".into(),
        name: "a".into(),
        host: "h".into(),
        offset: CHUNK_BYTES as u64,
        chunk: None,
        lines: vec![],
        binary: false,
        error: None,
    });
    let waiting = app.preview_controls();
    assert!(waiting.previous.is_none() && waiting.next.is_none() && !waiting.reload);
    assert!(!waiting.reconnect);
    assert_eq!(app.waiting_message(), "Reading from the remote host…");
    app.preview.as_mut().unwrap().chunk = Some(Chunk {
        offset: CHUNK_BYTES as u64,
        size: 1_000_000,
        bytes: vec![b'x'; CHUNK_BYTES + 3],
    });
    let ready = app.preview_controls();
    assert_eq!(ready.previous, Some(0));
    assert_eq!(ready.next, Some(2 * CHUNK_BYTES as u64));
    assert!(ready.reload);
    app.files_busy = true;
    let busy = app.preview_controls();
    assert!(busy.previous.is_none() && busy.next.is_none() && !busy.reload);
    assert_eq!(app.waiting_message(), "Waiting for the file operation…");
    app.files_busy = false;
    app.files_connected = false;
    assert!(app.preview_controls().reconnect);
    app.fingerprint = Some("SHA256:x".into());
    assert!(!app.preview_controls().reconnect);
}

#[test]
fn chunk_ranges_and_empty_chunks_are_described() {
    let chunk = Chunk {
        offset: 10,
        size: 15,
        bytes: vec![1; 5],
    };
    assert_eq!(chunk.shown_end(), 15);
    let long = Chunk {
        offset: 0,
        size: 1_000_000,
        bytes: vec![1; CHUNK_BYTES + 3],
    };
    assert_eq!(long.shown_end(), CHUNK_BYTES as u64);
    let empty = Chunk {
        offset: 0,
        size: 0,
        bytes: vec![],
    };
    assert_eq!(empty.empty_message(), "This file is empty.");
    let end = Chunk {
        offset: 70_000,
        size: 70_000,
        bytes: vec![],
    };
    assert_eq!(end.empty_message(), "End of file. Reload if it has changed.");
}

fn tree_entry(path: &str, directory: bool) -> Entry {
    Entry {
        path: path.into(),
        name: path.rsplit('/').next().unwrap().into(),
        directory,
        file: !directory,
        size: 0,
    }
}

/// What the window shows of the tree: the search is read, then the rows.
fn shown_rows(app: &mut FileBrowser) -> std::sync::Arc<Vec<TreeRow>> {
    app.filtered_tree_paths();
    app.tree_cache.rows(
        &app.tree,
        &app.root,
        &app.file_search_query,
        &app.expanded,
        &app.file_search_expanded,
    )
}

/// Whether the row of folder `path` is shown open.
fn folder_shown_open(rows: &[TreeRow], path: &str) -> bool {
    rows.iter()
        .find_map(|row| match row {
            TreeRow::Entry {
                directory,
                index,
                expanded,
                ..
            } if directory.entries[*index].path == path => Some(*expanded),
            _ => None,
        })
        .expect("Rendered folder arrow")
}

#[test]
fn filtered_folder_arrows_expand_cached_contents_and_load_only_on_click() {
    let mut app = FileBrowser::new();
    app.files_connected = true;
    app.root = "/remote".into();
    app.file_search = "folder".into();
    app.tree
        .insert("/remote".into(), vec![tree_entry("/remote/folder", true)]);
    app.tree.insert(
        "/remote/folder".into(),
        vec![tree_entry("/remote/folder/readme.txt", false)],
    );
    let mut requests: Vec<Request> = vec![];
    for _ in 0..3 {
        shown_rows(&mut app);
    }
    let click_arrow = |app: &mut FileBrowser| {
        let rows = shown_rows(app);
        let open = folder_shown_open(&rows, "/remote/folder");
        app.toggle_folder("/remote/folder".into(), open)
    };
    requests.extend(click_arrow(&mut app));
    assert_eq!(app.file_search_expanded.get("/remote/folder"), Some(&true));
    let rows = shown_rows(&mut app);
    assert!(row_names(&rows).iter().any(|name| name == "readme.txt"));
    assert!(requests.is_empty(), "Cached expansion needs no remote read");
    requests.extend(click_arrow(&mut app));
    assert_eq!(app.file_search_expanded.get("/remote/folder"), Some(&false));
    app.tree.remove("/remote/folder");
    shown_rows(&mut app);
    assert!(requests.is_empty());
    requests.extend(click_arrow(&mut app));
    assert!(matches!(&requests[..], [Request::List(path)] if path == "/remote/folder"));
    requests.clear();
    requests.extend(drain(
        &mut app,
        vec![Event::Entries(
            "/remote/folder".into(),
            vec![tree_entry("/remote/folder/new.txt", false)],
        )],
    ));
    let rows = shown_rows(&mut app);
    assert!(row_names(&rows).iter().any(|name| name == "new.txt"));
    assert!(
        app.expanded.is_empty(),
        "Search expansion preserves the unfiltered tree"
    );
    app.file_search.clear();
    shown_rows(&mut app);
    assert!(app.file_search_expanded.len() == 0);
    assert!(requests.is_empty());
}

#[test]
fn file_search_filters_cached_names_without_remote_requests_or_expansion_changes() {
    let mut app = FileBrowser::new();
    app.files_connected = true;
    app.root = "/remote".into();
    app.destination = app.root.clone();
    app.tree.insert(
        "/remote".into(),
        vec![
            tree_entry("/remote/app", true),
            tree_entry("/remote/unopened", true),
            tree_entry("/remote/CONFIG.json", false),
            tree_entry("/remote/readme.txt", false),
        ],
    );
    app.tree.insert(
        "/remote/app".into(),
        vec![tree_entry("/remote/app/config.toml", false)],
    );
    // A cache left from navigating elsewhere must not appear in this tree.
    app.tree.insert(
        "/elsewhere".into(),
        vec![tree_entry("/elsewhere/config.yaml", false)],
    );
    let original_expanded: Vec<String> = app.expanded.paths().clone();
    app.file_search = "  ConFiG  ".into();
    let found = app.filtered_tree_paths().unwrap();
    let mut found_paths = found.paths().clone();
    found_paths.sort();
    let mut expected: Vec<String> = [
        "/remote/app",
        "/remote/app/config.toml",
        "/remote/CONFIG.json",
    ]
    .map(String::from)
    .into_iter()
    .collect();
    expected.sort();
    assert_eq!(found_paths, expected);
    let names = row_names(&shown_rows(&mut app));
    for name in ["app", "config.toml", "CONFIG.json"] {
        assert!(names.iter().any(|n| n == name));
    }
    assert_eq!(*app.expanded.paths(), original_expanded);

    app.file_search = "unopened".into();
    let names = row_names(&shown_rows(&mut app));
    assert!(names.iter().any(|n| n == "unopened"));
    assert_eq!(app.filtered_tree_paths().unwrap().paths().len(), 1);
    app.file_search = "missing".into();
    let rows = shown_rows(&mut app);
    assert!(rows.iter().any(|row| matches!(
        row,
        TreeRow::Message {
            text: "No matching files or folders.",
            ..
        }
    )));
    // "Clear"
    app.file_search.clear();
    assert!(app.filtered_tree_paths().is_none());
    assert_eq!(*app.expanded.paths(), original_expanded);
    app.file_search = " \t ".into();
    assert!(app.filtered_tree_paths().is_none());
    assert_eq!(app.file_search_query, "");
    let names = row_names(&shown_rows(&mut app));
    assert!(names.iter().any(|n| n == "readme.txt"));
}

#[test]
fn large_trees_are_flattened_once_and_searched_without_remote_reads() {
    for count in [1_000, 10_000, 100_000] {
        let mut app = FileBrowser::new();
        app.files_connected = true;
        app.root = "/mock".into();
        app.tree.insert(
            app.root.clone(),
            (0..count)
                .map(|i| Entry {
                    path: format!("/mock/file-{i:06}.txt"),
                    name: format!("file-{i:06}.txt"),
                    directory: false,
                    file: true,
                    size: 4096,
                })
                .collect(),
        );
        for _ in 0..3 {
            shown_rows(&mut app);
        }
        assert_eq!(app.tree_cache.row_builds, 1);
        assert_eq!(app.tree_cache.search_builds, 0);
        let rows = shown_rows(&mut app);
        let last = format!("file-{:06}.txt", count - 1);
        let entry = match &rows[rows.len() - 1] {
            TreeRow::Entry {
                directory, index, ..
            } => directory.entries[*index].clone(),
            _ => panic!("Expected the last file"),
        };
        assert_eq!(entry.name, last);
        let request = app.choose_file(&entry);
        assert!(
            matches!(request, Some(Request::Preview { remote, offset: 0, .. }) if remote == format!("/mock/{last}"))
        );
        assert!(app.pump_preview().is_none());
        shown_rows(&mut app);
        assert_eq!(
            app.tree_cache.row_builds, 1,
            "Scrolling must reuse flattened rows"
        );
        app.file_search = last.clone();
        let rows = shown_rows(&mut app);
        assert_eq!(rows.len(), 1);
        for _ in 0..3 {
            shown_rows(&mut app);
        }
        assert_eq!(app.tree_cache.search_builds, 1);
        assert_eq!(app.tree_cache.row_builds, 2);
    }
}
