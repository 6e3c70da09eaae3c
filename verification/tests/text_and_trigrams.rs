use source_fast::text::{contains_bytes, contains_str, content_trigrams, is_binary_prefix,
    normalize_path, snippet_from_lines};
use source_fast::trigram::{collect_trigrams, collect_trigrams_bytes};

#[test]
fn trigrams_of_short_inputs_are_empty() {
    assert!(collect_trigrams("").is_empty());
    assert!(collect_trigrams("a").is_empty());
    assert!(collect_trigrams("ab").is_empty());
    assert_eq!(collect_trigrams("abc"), vec![[97u8, 98, 99]]);
}

#[test]
fn trigrams_are_sorted_and_distinct() {
    let t = collect_trigrams("abcd");
    assert_eq!(t, vec![[97u8, 98, 99], [98, 99, 100]]);
    let t = collect_trigrams("aaaa");
    assert_eq!(t, vec![[97u8, 97, 97]]);
    let t = collect_trigrams("cabcab");
    assert_eq!(t, vec![[97u8, 98, 99], [98, 99, 97], [99, 97, 98]]);
}

#[test]
fn trigrams_cross_codepoint_boundaries() {
    // "aéb" is the bytes [97, 195, 169, 98]: the 3-byte windows straddle
    // the two-byte encoding of the accented character.
    let t = collect_trigrams("a\u{e9}b");
    assert_eq!(t.len(), 2);
    assert!(t.contains(&[97u8, 195, 169]));
    assert!(t.contains(&[195u8, 169, 98]));
}

#[test]
fn trigram_bytes_match_str_form() {
    let a = collect_trigrams("hello world");
    let b = collect_trigrams_bytes("hello world".as_bytes());
    assert_eq!(a, b);
}

#[test]
fn binary_detection_looks_at_first_kilobyte() {
    assert!(!is_binary_prefix(b""));
    assert!(!is_binary_prefix(b"plain text"));
    assert!(is_binary_prefix(&[0u8, 1, 2]));
    assert!(is_binary_prefix(&[65u8, 0, 66]));
    let mut far = vec![65u8; 2000];
    far[1500] = 0;
    assert!(!is_binary_prefix(&far));
    let mut near = vec![65u8; 2000];
    near[1023] = 0;
    assert!(is_binary_prefix(&near));
}

#[test]
fn content_gate_skips_binary_and_invalid() {
    assert!(content_trigrams(&[0u8, 65, 66, 67]).is_none());
    assert!(content_trigrams(&[0xffu8, 0xfe, 0xfd, 0xfc]).is_none());
    let short = content_trigrams(b"ab").unwrap();
    assert!(short.is_empty());
    let some = content_trigrams(b"abcd").unwrap();
    assert_eq!(some.len(), 2);
}

#[test]
fn byte_substring_search() {
    assert!(contains_bytes(b"hello world", b"o wo"));
    assert!(contains_bytes(b"hello", b""));
    assert!(!contains_bytes(b"hello", b"world"));
    assert!(!contains_bytes(b"ab", b"abc"));
    assert!(contains_str("some line of code", "line"));
    assert!(!contains_str("some line of code", "LINE"));
}

#[test]
fn snippet_finds_first_match_with_context() {
    let lines: Vec<String> = vec![
        "one".to_string(),
        "two".to_string(),
        "three needle".to_string(),
        "four".to_string(),
        "five".to_string(),
        "six needle".to_string(),
    ];
    let s = snippet_from_lines("/p/f.rs", &lines, "needle").unwrap();
    assert_eq!(s.path, "/p/f.rs");
    assert_eq!(s.line_number, 3);
    let collected: Vec<(usize, String)> = s.lines;
    assert_eq!(collected.len(), 5);
    assert_eq!(collected[0], (1, "one".to_string()));
    assert_eq!(collected[2], (3, "three needle".to_string()));
    assert_eq!(collected[4], (5, "five".to_string()));
}

#[test]
fn snippet_clips_at_file_edges() {
    let lines: Vec<String> = vec!["needle at top".to_string(), "after".to_string()];
    let s = snippet_from_lines("f", &lines, "needle").unwrap();
    assert_eq!(s.line_number, 1);
    assert_eq!(s.lines.len(), 2);
    assert_eq!(s.lines[0].0, 1);

    let lines: Vec<String> = vec!["a".to_string(), "b".to_string(), "needle at end".to_string()];
    let s = snippet_from_lines("f", &lines, "needle").unwrap();
    assert_eq!(s.line_number, 3);
    assert_eq!(s.lines.len(), 3);
    assert_eq!(s.lines[2].0, 3);
}

#[test]
fn snippet_absent_on_no_match() {
    let lines: Vec<String> = vec!["one".to_string(), "two".to_string()];
    assert!(snippet_from_lines("f", &lines, "needle").is_none());
    let empty: Vec<String> = Vec::new();
    assert!(snippet_from_lines("f", &empty, "needle").is_none());
}

#[test]
fn normalize_keeps_unresolvable_paths() {
    // Neither the path nor its parent exists, so the input comes back
    // unchanged; deletions and upserts therefore agree on the key.
    let p = "/no_such_root_zqx/sub/file.rs";
    assert_eq!(normalize_path(p), p);
    assert_eq!(normalize_path(""), "");
    assert_eq!(normalize_path("bare_name_zqx"), "bare_name_zqx");
}
