use relay_ssh::diagnostics::{logs_to_remove, LogBudget, MAX_LOG_BYTES};
use relay_ssh::files::{Entry, Event};
use relay_ssh::preview::Chunk;
use relay_ssh::sorting::sort_listing;
use relay_ssh::units::bytes;
use relay_ssh::transfer::{
    download_check, download_done_message, file_destination, folder_destination, plan_upload,
    temporary_path, upload_done_message, CopyProgress, CopyStep, LocalKind, RemoteStat,
    UploadItem,
};
use relay_ssh::worker::{
    keeps_preview_file, must_reopen, not_connected, RefreshGuard, RequestOutcome,
};

fn entry(name: &str, directory: bool) -> Entry {
    Entry {
        path: format!("/r/{name}"),
        name: name.into(),
        directory,
        file: !directory,
        size: 0,
    }
}

#[test]
fn listings_show_folders_first_then_names_ignoring_case() {
    let sorted = sort_listing(vec![
        entry("b.txt", false),
        entry("Zeta", true),
        entry("A.txt", false),
        entry("alpha", true),
        entry("a.txt", false),
    ]);
    let names: Vec<&str> = sorted.iter().map(|e| e.name.as_str()).collect();
    assert_eq!(names, ["alpha", "Zeta", "A.txt", "a.txt", "b.txt"]);
    assert!(sort_listing(vec![]).is_empty());
}

#[test]
fn uploads_refuse_links_deep_folders_and_bad_names() {
    assert!(matches!(
        plan_upload(false, 0, LocalKind::File, "/home/u/a.txt", Some("a.txt"), "/up/"),
        Ok(UploadItem::File { destination }) if destination == "/up/a.txt"
    ));
    assert!(matches!(
        plan_upload(false, 3, LocalKind::Folder, "/home/u/docs", Some("docs"), "/up"),
        Ok(UploadItem::Folder { destination }) if destination == "/up/docs"
    ));
    assert_eq!(
        plan_upload(true, 0, LocalKind::File, "/a", Some("a"), "/up").err().unwrap(),
        "Transfer cancelled."
    );
    assert_eq!(
        plan_upload(false, 65, LocalKind::Folder, "/a", Some("a"), "/up").err().unwrap(),
        "Folder nesting exceeds 64 levels."
    );
    assert!(plan_upload(false, 64, LocalKind::Folder, "/a", Some("a"), "/up").is_ok());
    assert_eq!(
        plan_upload(false, 0, LocalKind::Symlink, "/home/u/link", Some("link"), "/up")
            .err()
            .unwrap(),
        "Symbolic links are not uploaded: /home/u/link"
    );
    assert_eq!(
        plan_upload(false, 0, LocalKind::File, "/x", None, "/up").err().unwrap(),
        "Unsupported local filename"
    );
    assert_eq!(
        plan_upload(false, 0, LocalKind::File, "/x", Some(".."), "/up").err().unwrap(),
        "Unsupported file name."
    );
    assert_eq!(
        plan_upload(false, 0, LocalKind::Other, "/dev/x", Some("x"), "/up").err().unwrap(),
        "Only regular files and folders can be uploaded."
    );
}

#[test]
fn existing_remote_items_are_never_replaced() {
    assert_eq!(folder_destination(RemoteStat::Folder, "/up/d"), Ok(false));
    assert_eq!(folder_destination(RemoteStat::Missing, "/up/d"), Ok(true));
    assert_eq!(
        folder_destination(RemoteStat::Other, "/up/d"),
        Err("Destination already exists: /up/d".into())
    );
    assert_eq!(
        folder_destination(RemoteStat::Failed("denied".into()), "/up/d"),
        Err("denied".into())
    );
    assert_eq!(file_destination(RemoteStat::Missing, "/up/f"), Ok(()));
    for stat in [RemoteStat::Folder, RemoteStat::Other] {
        assert_eq!(
            file_destination(stat, "/up/f"),
            Err("Destination already exists; no file was replaced: /up/f".into())
        );
    }
    assert_eq!(
        temporary_path("/up/", 42, 1_700_000_000_000_000_000),
        Ok("/up/.relay-upload-42-1700000000000000000".into())
    );
}

#[test]
fn downloads_need_a_remote_file_and_a_new_local_name() {
    assert_eq!(
        download_check(false, false, "/tmp/x"),
        Err("Select a regular file to download.".into())
    );
    assert_eq!(
        download_check(true, true, "/tmp/x"),
        Err("Choose a new destination; /tmp/x already exists.".into())
    );
    assert_eq!(download_check(true, false, "/tmp/x"), Ok(()));
    assert_eq!(download_done_message("/tmp/x"), "Downloaded to /tmp/x");
    assert_eq!(upload_done_message("/up"), "Upload complete: /up");
}

#[test]
fn copies_count_bytes_and_report_when_due() {
    let (mut progress, first) = CopyProgress::start("f.bin", 10);
    assert!(matches!(first, Event::Progress { name, done: 0, total: 10 } if name == "f.bin"));
    assert!(matches!(progress.read(4, false), CopyStep::Counted(None)));
    assert!(matches!(
        progress.read(3, true),
        CopyStep::Counted(Some(Event::Progress { done: 7, total: 10, .. }))
    ));
    assert!(matches!(progress.read(0, true), CopyStep::Finished));
    assert_eq!(progress.done, 7);
    assert!(matches!(progress.report(), Event::Progress { done: 7, .. }));
}

#[test]
fn request_outcomes_track_failures_and_lost_connections() {
    let mut outcome = RequestOutcome::new();
    assert!(outcome.note(&Event::Done("ok".into())).is_empty());
    assert!(!outcome.failed);
    let errors = outcome.note(&Event::Refreshed(vec![
        ("/a".into(), Err("[SFTP(3)] permission denied".into())),
        ("/b".into(), Ok(vec![])),
        ("/c".into(), Err("[Session(-7)] Unable to send".into())),
    ]));
    assert_eq!(errors.len(), 2);
    assert!(outcome.failed);
    assert_eq!(
        outcome.transport_failure.as_deref(),
        Some("[Session(-7)] Unable to send")
    );
    assert!(outcome.lost_connection(false).is_none());
    assert!(matches!(
        outcome.lost_connection(true),
        Some(Event::Disconnected(m)) if m == "The file connection was lost. Reconnect files to continue.\n[Session(-7)] Unable to send"
    ));
}

#[test]
fn refresh_stops_reading_after_the_connection_fails() {
    let mut guard = RefreshGuard::new();
    assert!(guard.blocked().is_none());
    guard.note(&Err("[SFTP(2)] no such file".into()));
    assert!(guard.blocked().is_none());
    guard.note(&Err("[Session(-43)] Unable to send FXP_OP".into()));
    assert!(matches!(guard.blocked(), Some(Err(e)) if e == "[Session(-43)] Unable to send FXP_OP"));
}

#[test]
fn preview_files_are_reopened_only_when_needed() {
    let path = String::from("/r/a");
    let other = String::from("/r/b");
    assert!(must_reopen(None, &path, 10));
    assert!(must_reopen(Some(&other), &path, 10));
    assert!(must_reopen(Some(&path), &path, 0));
    assert!(!must_reopen(Some(&path), &path, 10));
    assert!(keeps_preview_file(&Ok(Chunk {
        offset: 0,
        size: 0,
        bytes: vec![]
    })));
    assert!(!keeps_preview_file(&Err("Only regular files can be previewed.".into())));
    assert!(keeps_preview_file(&Err("[Session(-7)] gone".into())));
}

#[test]
fn diagnostics_logs_stay_bounded() {
    let mut budget = LogBudget::new();
    assert!(!budget.reserve(100));
    assert_eq!(budget.bytes, 100);
    budget.bytes = MAX_LOG_BYTES;
    assert!(budget.reserve(100));
    assert_eq!(budget.bytes, 100);
    assert!(!budget.reserve(MAX_LOG_BYTES - 100));
    assert_eq!(budget.bytes, MAX_LOG_BYTES);
    assert_eq!(logs_to_remove(10), 3);
    assert_eq!(logs_to_remove(7), 0);
    assert_eq!(logs_to_remove(0), 0);
}

#[test]
fn log_content_follows_the_budget() {
    let line = b"{\"code\":255,\"event\":\"terminal_process_exited\",\"tab_id\":2}\n".to_vec();
    let mut content: Vec<u8> = Vec::new();
    let mut budget = LogBudget::new();
    let mut write = |content: &mut Vec<u8>, budget: &mut LogBudget| {
        if budget.reserve(line.len() as u64) {
            content.clear();
        }
        content.extend_from_slice(&line);
    };
    write(&mut content, &mut budget);
    assert_eq!(content, line);
    assert_eq!(budget.bytes, content.len() as u64);
    content.resize(MAX_LOG_BYTES as usize, b' ');
    budget.bytes = MAX_LOG_BYTES;
    write(&mut content, &mut budget);
    assert_eq!(content, line);
    assert_eq!(budget.bytes, line.len() as u64);
    assert!(budget.bytes < MAX_LOG_BYTES);
}

#[test]
fn terminal_palette_is_light() {
    let palette = relay_ssh::appearance::terminal();
    assert_eq!(palette.background, "#ffffff");
    assert_eq!(palette.foreground, "#1d1d1f");
    assert_eq!(palette.bright_foreground.as_deref(), Some("#101012"));
    assert_eq!(palette.dim_white, "#afafb5");
}

fn printed_as_double(size: u64) -> String {
    if size >= 1024 * 1024 * 1024 {
        format!("{:.1} GiB", size as f64 / (1024.0 * 1024.0 * 1024.0))
    } else if size >= 1024 * 1024 {
        format!("{:.1} MiB", size as f64 / (1024.0 * 1024.0))
    } else if size >= 1024 {
        format!("{:.1} KiB", size as f64 / 1024.0)
    } else {
        format!("{size} B")
    }
}

#[test]
fn sizes_are_shown_with_one_decimal_of_the_largest_unit() {
    assert_eq!(bytes(0), "0 B");
    assert_eq!(bytes(1023), "1023 B");
    assert_eq!(bytes(1024), "1.0 KiB");
    assert_eq!(bytes(1280), printed_as_double(1280));
    assert_eq!(bytes(4096), "4.0 KiB");
    assert_eq!(bytes(200_000), "195.3 KiB");
    assert_eq!(bytes(1_000_000), "976.6 KiB");
    assert_eq!(bytes(1_048_576), "1.0 MiB");
    assert_eq!(bytes(1_073_741_824), "1.0 GiB");
    let mut samples: Vec<u64> = vec![u64::MAX, u64::MAX - 1, (1 << 53) + 1, (1 << 60) + 12_345];
    for i in 0..20_000u64 {
        samples.push(i * 997);
        samples.push(i.wrapping_mul(0x9E37_79B9_7F4A_7C15) >> (i % 64));
    }
    for m in 0..2_000u64 {
        // Sizes whose tenths end exactly on a half.
        if (512 * m + 256) % 5 == 0 {
            samples.push((512 * m + 256) / 5);
        }
    }
    for size in samples {
        assert_eq!(bytes(size), printed_as_double(size), "size {size}");
    }
}

#[test]
fn requests_before_a_connection_are_refused() {
    let listing: Result<Vec<Entry>, String> = not_connected();
    assert_eq!(listing.unwrap_err(), "Connect the file browser first.");
    let preview: Result<Chunk, String> = not_connected();
    assert!(!keeps_preview_file(&preview));
    match relay_ssh::files::list_event("/srv".into(), not_connected()) {
        Event::ListFailed { path, error } => {
            assert_eq!(path, "/srv");
            assert_eq!(error, "Connect the file browser first.");
        }
        _ => panic!("a listing without a connection must fail"),
    }
}
