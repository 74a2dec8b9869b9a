use dbake::tui::dashboard::{
    missing_log, short_node, tail_lines, tail_start, truncate, LogStamp, LogTailCache, TAIL_BYTES,
};

#[test]
fn truncate_leaves_short_strings_alone() {
    assert_eq!(truncate("RUN make", 40), "RUN make");
}

#[test]
fn truncate_shortens_long_ascii() {
    assert_eq!(truncate("abcdefghij", 8), "abcde...");
}

#[test]
fn truncate_does_not_split_a_multibyte_char() {
    assert_eq!(truncate("abcdéfghijklmnop", 8), "abcdé...");
}

#[test]
fn truncate_handles_an_all_unicode_description() {
    let s = "RUN echo ✓✓✓✓✓✓✓✓✓✓✓✓✓✓✓✓✓✓✓✓✓✓✓✓✓✓✓✓✓✓✓✓✓✓✓";
    let out = truncate(s, 40);
    assert_eq!(out.chars().count(), 40);
    assert!(out.ends_with("..."));
}

#[test]
fn truncate_with_tiny_limit_is_not_a_panic() {
    assert_eq!(truncate("✓✓✓✓", 2).chars().count(), 2);
    assert_eq!(truncate("abcd", 0), "");
}

fn look(
    cache: &mut LogTailCache,
    disk: Option<&[u8]>,
    path: &str,
    height: usize,
    scroll: usize,
) -> Vec<String> {
    let bytes = match disk {
        Some(bytes) => bytes,
        None => return missing_log(),
    };
    let stamp = LogStamp {
        len: bytes.len() as u64,
        modified: None,
    };
    if !cache.is_current(path, stamp) {
        let from = tail_start(stamp.len);
        let text = String::from_utf8_lossy(&bytes[from.unwrap_or(0) as usize..]).into_owned();
        cache.store(path, stamp, tail_lines(&text, from.is_none()));
    }
    cache.view(height, scroll)
}

#[test]
fn tail_shows_the_last_lines_within_the_window() {
    let path = "small";
    let disk: &[u8] = b"a\nb\nc\nd\n";
    let mut cache = LogTailCache::new();
    assert_eq!(
        look(&mut cache, Some(disk), path, 2, 0),
        vec!["c".to_string(), "d".to_string()]
    );
    assert_eq!(look(&mut cache, Some(disk), path, 10, 0).len(), 4, "short file read whole");
}

#[test]
fn tail_scrolls_back_from_the_end() {
    let path = "scroll";
    let disk: &[u8] = b"1\n2\n3\n4\n5\n";
    let mut cache = LogTailCache::new();
    assert_eq!(
        look(&mut cache, Some(disk), path, 2, 2),
        vec!["2".to_string(), "3".to_string()]
    );
}

#[test]
fn a_newline_free_log_still_renders() {
    let mut blob = vec![b'x'; (TAIL_BYTES as usize) + 4096];
    blob.extend_from_slice(b"END");
    let path = "noeol";
    let disk: &[u8] = &blob;

    let mut cache = LogTailCache::new();
    let view = look(&mut cache, Some(disk), path, 40, 0);
    assert_eq!(view.len(), 1, "expected the single long line, got {view:?}");
    assert!(view[0].ends_with("END"), "tail must reach the newest bytes");
}

#[test]
fn tail_drops_only_the_partial_first_line_on_a_big_file() {
    let mut blob = vec![b'x'; (TAIL_BYTES as usize) + 10];
    blob.extend_from_slice(b"\nkept-1\nkept-2\n");
    let path = "big";
    let disk: &[u8] = &blob;

    let mut cache = LogTailCache::new();
    let view = look(&mut cache, Some(disk), path, 40, 0);
    assert_eq!(view, vec!["kept-1".to_string(), "kept-2".to_string()]);
}

#[test]
fn tail_refreshes_when_the_file_grows() {
    let path = "growing";
    let disk: &[u8] = b"one\n";
    let mut cache = LogTailCache::new();
    assert_eq!(look(&mut cache, Some(disk), path, 10, 0), vec!["one".to_string()]);

    let disk: &[u8] = b"one\ntwo\n";
    assert_eq!(
        look(&mut cache, Some(disk), path, 10, 0),
        vec!["one".to_string(), "two".to_string()],
        "an appending log must not render stale"
    );
}

#[test]
fn scrolling_past_the_buffered_window_shows_the_oldest_lines() {
    let path = "clamp";
    let disk: &[u8] = b"1\n2\n3\n4\n5\n";
    let mut cache = LogTailCache::new();

    let top = look(&mut cache, Some(disk), path, 2, usize::MAX);
    assert!(!top.is_empty(), "scrolling to the top must not go blank");
    assert_eq!(top, vec!["1".to_string()]);
}

#[test]
fn a_missing_log_is_reported_not_panicked() {
    let mut cache = LogTailCache::new();
    let view = look(&mut cache, None, "/nonexistent/dbake.log", 10, 0);
    assert_eq!(view.len(), 1);
    assert!(view[0].contains("not yet available"));
}

#[test]
fn short_node_strips_the_buildkit_prefix() {
    assert_eq!(short_node("buildx_buildkit_zot-m3-pro0"), "zot-m3-pro0");
    assert_eq!(short_node("plain-node"), "plain-node");
}
