use dbake::order::{not_after, place_of};
use dbake::text::{
    begins_with, chars_of, count_bytes, count_char, cut_at, cut_at_last, decimal_of, has_piece,
    is_white, joined, last_piece, lines_of, lists, pieces, read_u32, same_text, spells, string_of,
    strip_lead, trimmed, trimmed_end, trimmed_start,
};

fn strings(parts: &[&[char]]) -> Vec<String> {
    parts.iter().map(|p| p.iter().collect()).collect()
}

#[test]
fn characters_come_back_as_they_were() {
    for s in ["", "abc", "✓ äöü", "a\nb"] {
        assert_eq!(string_of(&chars_of(s)), s);
    }
    assert!(same_text("é", "é"));
    assert!(!same_text("e", "é"));
    assert!(spells(&chars_of("ab"), "ab"));
    assert!(!spells(&chars_of("ab"), "abc"));
}

#[test]
fn white_space_is_that_of_unicode() {
    for n in 0..=0x10ffffu32 {
        if let Some(c) = char::from_u32(n) {
            assert_eq!(is_white(c), c.is_whitespace(), "{n:x}");
        }
    }
}

#[test]
fn trimming_takes_both_ends() {
    let s = chars_of(" \t a b\u{a0}\n");
    assert_eq!(string_of(trimmed(&s)), "a b");
    assert_eq!(string_of(trimmed_start(&s)), "a b\u{a0}\n");
    assert_eq!(string_of(trimmed_end(&s)), " \t a b");
    assert_eq!(string_of(trimmed(&chars_of("  "))), "");
}

#[test]
fn lines_are_those_of_the_standard_library() {
    for s in ["", "\n", "a", "a\n", "a\nb", "a\r\nb\r\n", "a\rb", "\n\na", "a\r", "\r\n"] {
        let expected: Vec<&str> = s.lines().collect();
        assert_eq!(strings(&lines_of(&chars_of(s))), expected, "{s:?}");
    }
}

#[test]
fn pieces_are_those_of_the_standard_library() {
    for s in ["", ",", "a", "a,b", ",a,", "a,,b"] {
        let expected: Vec<&str> = s.split(',').collect();
        assert_eq!(strings(&pieces(&chars_of(s), ',')), expected, "{s:?}");
    }
}

#[test]
fn cuts_are_at_the_first_and_at_the_last() {
    let s = chars_of("a:b:c");
    let (head, tail) = cut_at(&s, ':').unwrap();
    assert_eq!((string_of(head), string_of(tail)), ("a".into(), "b:c".into()));
    let (head, tail) = cut_at_last(&s, ':').unwrap();
    assert_eq!((string_of(head), string_of(tail)), ("a:b".into(), "c".into()));
    assert!(cut_at(&s, '/').is_none());
    assert!(cut_at_last(&s, '/').is_none());
}

#[test]
fn pieces_inside_a_text_are_found() {
    let s = chars_of("abcabc");
    assert!(begins_with(&s, "abc"));
    assert!(!begins_with(&s, "bc"));
    assert_eq!(string_of(strip_lead(&s, "ab").unwrap()), "cabc");
    assert!(strip_lead(&s, "b").is_none());
    assert!(has_piece(&s, "ca"));
    assert!(!has_piece(&s, "cc"));
    assert_eq!(last_piece(&s, "abc"), Some(3));
    assert_eq!(last_piece(&s, "x"), None);
    assert_eq!(count_char(&s, 'a'), 2);
    assert_eq!(count_bytes(&chars_of("aé✓𝄞")), 10);
}

#[test]
fn numbers_are_written_and_read() {
    for n in [0u64, 7, 10, 99, 100, u32::MAX as u64, u64::MAX] {
        assert_eq!(decimal_of(n), n.to_string());
    }
    for s in ["", "0", "007", "+7", "-7", "+", "4294967295", "4294967296", "1a", " 1", "٣"] {
        assert_eq!(read_u32(&chars_of(s)), s.parse::<u32>().ok(), "{s:?}");
    }
}

#[test]
fn lists_are_joined_and_searched() {
    let list = vec!["b".to_string(), "a".to_string()];
    assert_eq!(joined(&list, ", "), "b, a");
    assert_eq!(joined(&[], ", "), "");
    assert!(lists(&list, "a"));
    assert!(!lists(&list, "c"));
}

#[test]
fn the_order_is_that_of_strings() {
    let words = ["", "a", "A", "ab", "b", "é", "✓", "𝄞", "z10", "z9"];
    for a in words {
        for b in words {
            assert_eq!(not_after(a, b), a <= b, "{a} {b}");
        }
    }
    let sorted = vec!["a".to_string(), "c".to_string()];
    assert_eq!(place_of(&sorted, "c"), (1, true));
    assert_eq!(place_of(&sorted, "b"), (1, false));
    assert_eq!(place_of(&sorted, "d"), (2, false));
}
