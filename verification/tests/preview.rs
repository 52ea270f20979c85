use relay_ssh::preview::{Chunk, FilePreview, CHUNK_BYTES};

#[test]
fn utf8_is_not_lost_or_duplicated_across_chunk_boundaries() {
    for character in ["é", "€", "🦀"] {
        for overlap in 1..character.len() {
            let text = format!("{}{}tail", "x".repeat(CHUNK_BYTES - overlap), character);
            let bytes = text.as_bytes();
            let first = Chunk {
                offset: 0,
                size: bytes.len() as u64,
                bytes: bytes[..bytes.len().min(CHUNK_BYTES + 3)].to_vec(),
            };
            let second = Chunk {
                offset: CHUNK_BYTES as u64,
                size: bytes.len() as u64,
                bytes: bytes[CHUNK_BYTES..].to_vec(),
            };
            assert_eq!(
                format!("{}{}", first.text().unwrap(), second.text().unwrap()),
                text
            );
            assert!(first.has_next());
            assert!(!second.has_next());
        }
    }
}

#[test]
fn binary_and_empty_files_have_readable_preview_states() {
    let binary = Chunk {
        offset: 65536,
        size: 65540,
        bytes: vec![0, 255, b'A', b'\n'],
    };
    let (is_binary, lines) = binary.lines();
    assert!(is_binary);
    assert!(lines[0].starts_with("00010000  00 ff 41 0a"));
    let empty = Chunk {
        offset: 0,
        size: 0,
        bytes: vec![],
    };
    assert_eq!(empty.text().as_deref(), Some(""));
    assert!(!empty.has_next());
}

#[test]
fn hex_view_pads_short_rows_and_shows_printable_bytes() {
    let chunk = Chunk {
        offset: 0x1234,
        size: 0x2000,
        bytes: vec![b'h', b'i', 0x7f, b' '],
    };
    let (is_binary, lines) = chunk.lines();
    assert!(is_binary);
    assert_eq!(lines.len(), 1);
    assert_eq!(
        lines[0],
        format!("00001234  68 69 7f 20 {} hi. ", " ".repeat(36))
    );
}

#[test]
fn text_lines_split_at_line_feeds_and_drop_carriage_returns() {
    let chunk = Chunk {
        offset: 0,
        size: 12,
        bytes: b"\xef\xbb\xbfa\r\nb\r\r\n\tc\n".to_vec(),
    };
    assert_eq!(chunk.text().as_deref(), Some("a\r\nb\r\r\n\tc\n"));
    let (is_binary, lines) = chunk.lines();
    assert!(!is_binary);
    assert_eq!(lines, vec!["a", "b", "\tc", ""]);
}

#[test]
fn control_characters_and_invalid_utf8_are_binary() {
    let bell = Chunk {
        offset: 0,
        size: 3,
        bytes: b"a\x07b".to_vec(),
    };
    assert_eq!(bell.text(), None);
    let invalid = Chunk {
        offset: 0,
        size: 2,
        bytes: vec![0xc3, 0x28],
    };
    assert_eq!(invalid.text(), None);
    assert!(invalid.lines().0);
}

#[test]
fn later_chunks_keep_a_leading_byte_order_mark() {
    let chunk = Chunk {
        offset: 10,
        size: 20,
        bytes: "\u{feff}x".as_bytes().to_vec(),
    };
    assert_eq!(chunk.text().as_deref(), Some("\u{feff}x"));
}

#[test]
fn has_next_needs_a_full_window_and_more_file() {
    let full = Chunk {
        offset: 0,
        size: CHUNK_BYTES as u64 + 1,
        bytes: vec![b'a'; CHUNK_BYTES],
    };
    assert!(full.has_next());
    let at_end = Chunk {
        offset: 0,
        size: CHUNK_BYTES as u64,
        bytes: vec![b'a'; CHUNK_BYTES],
    };
    assert!(!at_end.has_next());
    let saturated = Chunk {
        offset: u64::MAX - 5,
        size: u64::MAX,
        bytes: vec![b'a'; CHUNK_BYTES],
    };
    assert!(!saturated.has_next());
}

#[test]
fn accepted_chunk_replaces_lines_and_error_keeps_them() {
    let mut preview = FilePreview {
        id: 1,
        path: "/remote/a.txt".into(),
        name: "a.txt".into(),
        host: "host".into(),
        offset: 0,
        chunk: None,
        lines: vec![],
        binary: false,
        error: Some("old".into()),
    };
    preview.accept(Ok(Chunk {
        offset: 0,
        size: 5,
        bytes: b"one\ntwo".to_vec(),
    }));
    assert_eq!(preview.lines, vec!["one", "two"]);
    assert!(preview.error.is_none());
    assert!(!preview.binary);
    preview.accept(Err("Timed out".into()));
    assert_eq!(preview.error.as_deref(), Some("Timed out"));
    assert_eq!(preview.lines, vec!["one", "two"]);
    assert!(preview.chunk.is_some());
}

#[test]
fn reading_every_chunk_shows_the_whole_file_once() {
    let text = format!(
        "\u{feff}{}é{}日本{}",
        "a".repeat(CHUNK_BYTES - 4),
        "b".repeat(CHUNK_BYTES - 3),
        "end\n"
    );
    let bytes = text.as_bytes();
    let mut shown = String::new();
    let mut offset = 0usize;
    while offset < bytes.len() {
        let end = bytes.len().min(offset + CHUNK_BYTES + 3);
        let chunk = Chunk {
            offset: offset as u64,
            size: bytes.len() as u64,
            bytes: bytes[offset..end].to_vec(),
        };
        shown.push_str(&chunk.text().unwrap());
        offset += CHUNK_BYTES;
    }
    assert_eq!(shown, text.trim_start_matches('\u{feff}'));
}
