use dir_schema::scanner::scan_lines;
use dir_schema::text::{chars_of, is_whitespace, string_of};
use dir_schema::IndentMeasuredString;

fn line(indent: usize, name: &str, source_line: usize) -> IndentMeasuredString {
    IndentMeasuredString { indent, name: name.to_string(), source_line }
}

/// The same lines, measured with what std offers.
fn measured_by_std(text: &str) -> Vec<IndentMeasuredString> {
    let mut pieces: Vec<&str> = text.split('\n').collect();
    if pieces.last() == Some(&"") {
        pieces.pop();
    }
    let mut out = Vec::new();
    for (i, piece) in pieces.iter().enumerate() {
        let rest = piece.trim_start();
        if rest.is_empty() || rest.starts_with('#') {
            continue;
        }
        let indent = piece.chars().take_while(|c| c.is_whitespace()).count();
        out.push(line(indent, piece.trim(), i + 1));
    }
    out
}

#[test]
fn whitespace_class_is_that_of_std() {
    for code in 0u32..=0x10FFFF {
        if let Some(c) = char::from_u32(code) {
            assert_eq!(is_whitespace(c), c.is_whitespace(), "code point {:#x}", code);
        }
    }
}

#[test]
fn whitespace_class_named_members() {
    assert!(is_whitespace(' '));
    assert!(is_whitespace('\t'));
    assert!(is_whitespace('\n'));
    assert!(is_whitespace('\r'));
    assert!(is_whitespace('\u{3000}'));
    assert!(!is_whitespace('#'));
    assert!(!is_whitespace('/'));
    assert!(!is_whitespace('a'));
    assert!(!is_whitespace('\u{200B}'));
}

#[test]
fn chars_of_gives_the_characters_in_order() {
    assert_eq!(chars_of(""), Vec::<char>::new());
    assert_eq!(chars_of("a/ü\t"), vec!['a', '/', 'ü', '\t']);
}

#[test]
fn string_of_takes_the_range() {
    let chars = vec!['s', 'r', 'c', '/', 'é'];
    assert_eq!(string_of(&chars, 0, 5), "src/é");
    assert_eq!(string_of(&chars, 1, 3), "rc");
    assert_eq!(string_of(&chars, 2, 2), "");
    assert_eq!(string_of(&chars, 4, 5), "é");
}

#[test]
fn scan_empty_text() {
    assert_eq!(scan_lines(""), vec![]);
    assert_eq!(scan_lines("\n"), vec![]);
    assert_eq!(scan_lines("\n\n\n"), vec![]);
}

#[test]
fn scan_single_line_with_and_without_line_feed() {
    assert_eq!(scan_lines("a"), vec![line(0, "a", 1)]);
    assert_eq!(scan_lines("a\n"), vec![line(0, "a", 1)]);
    assert_eq!(scan_lines("a\nb"), vec![line(0, "a", 1), line(0, "b", 2)]);
}

#[test]
fn scan_measures_indentation_and_trims() {
    let text = "project/\n    src/\n        main.txt\n    README\n";
    assert_eq!(
        scan_lines(text),
        vec![
            line(0, "project/", 1),
            line(4, "src/", 2),
            line(8, "main.txt", 3),
            line(4, "README", 4),
        ]
    );
}

#[test]
fn scan_counts_tabs_and_spaces_alike() {
    assert_eq!(scan_lines("\ta"), vec![line(1, "a", 1)]);
    assert_eq!(scan_lines(" \t b  \t"), vec![line(3, "b", 1)]);
    assert_eq!(scan_lines("\t\tc d\t"), vec![line(2, "c d", 1)]);
}

#[test]
fn scan_drops_blank_lines_and_comments_but_counts_them() {
    let text = "# a schema\n\nroot/\n   \n  # inside\n  file\n#x\n\t\n  other";
    assert_eq!(
        scan_lines(text),
        vec![line(0, "root/", 3), line(2, "file", 6), line(2, "other", 9)]
    );
}

#[test]
fn scan_keeps_hash_inside_a_name() {
    assert_eq!(scan_lines("a#b\n  c #d"), vec![line(0, "a#b", 1), line(2, "c #d", 2)]);
}

#[test]
fn scan_takes_carriage_return_as_whitespace() {
    assert_eq!(
        scan_lines("a/\r\n  b\r\n\r\n# c\r\n"),
        vec![line(0, "a/", 1), line(2, "b", 2)]
    );
}

#[test]
fn scan_keeps_the_marker_of_a_directory() {
    assert_eq!(scan_lines("  dir/  "), vec![line(2, "dir/", 1)]);
    assert_eq!(scan_lines("/"), vec![line(0, "/", 1)]);
}

#[test]
fn scan_agrees_with_std_on_many_texts() {
    let pieces = ["", " ", "\t", "a", "#", "/", "\n", "b c", "\r", "\u{a0}", "é", "  #x", "d/"];
    let mut state: u64 = 0x2545F4914F6CDD1D;
    for round in 0..3000usize {
        let mut text = String::new();
        let count = round % 9;
        for _ in 0..count {
            state ^= state << 13;
            state ^= state >> 7;
            state ^= state << 17;
            text.push_str(pieces[(state % pieces.len() as u64) as usize]);
        }
        assert_eq!(scan_lines(&text), measured_by_std(&text), "text {:?}", text);
    }
}
