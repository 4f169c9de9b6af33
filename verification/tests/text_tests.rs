use tcp_speeder::text::{chars_of, is_blank, is_space_char, join_lines_of, split_lines_of, trimmed_eq};

#[test]
fn unicode_whitespace_is_recognised() {
    for c in ['\t', '\n', '\u{b}', '\u{c}', '\r', ' ', '\u{85}', '\u{a0}', '\u{2003}', '\u{3000}'] {
        assert!(is_space_char(c), "{:?}", c);
        assert_eq!(is_space_char(c), c.is_whitespace());
    }
    for c in ['a', '#', '\u{0}', '\u{200b}', '\u{feff}'] {
        assert!(!is_space_char(c), "{:?}", c);
        assert_eq!(is_space_char(c), c.is_whitespace());
    }
}

#[test]
fn trimmed_eq_matches_str_trim() {
    assert!(trimmed_eq("  # TCP Speed Test \t", "# TCP Speed Test"));
    assert!(trimmed_eq("# TCP Speed Test", "# TCP Speed Test"));
    assert!(!trimmed_eq("# TCP Speed Test x", "# TCP Speed Test"));
    assert!(!trimmed_eq("#  TCP Speed Test", "# TCP Speed Test"));
    assert!(trimmed_eq("\u{3000}abc\u{a0}", "abc"));
    assert!(trimmed_eq("   ", ""));
    assert!(trimmed_eq("", ""));
}

#[test]
fn blank_text_is_only_whitespace() {
    assert!(is_blank(""));
    assert!(is_blank(" \n\t\r\n"));
    assert!(!is_blank("  [[targets]]  "));
    assert!(!is_blank("x"));
}

#[test]
fn chars_of_gives_each_char() {
    assert_eq!(chars_of("aé€"), vec!['a', 'é', '€']);
    assert_eq!(chars_of(""), Vec::<char>::new());
}

#[test]
fn split_lines_follows_bufread_lines() {
    let cases = ["", "a", "a\n", "a\nb", "a\r\nb\r\n", "\n", "\n\n", "a\n\nb\n", "x\r", "x\r\r\n", "é\nü"];
    for case in cases {
        let expected: Vec<String> = std::io::BufRead::lines(case.as_bytes()).map(|l| l.unwrap()).collect();
        assert_eq!(split_lines_of(case), expected, "{:?}", case);
    }
}

#[test]
fn join_lines_ends_every_line() {
    let lines = vec!["a".to_string(), "".to_string(), "b c".to_string()];
    assert_eq!(join_lines_of(&lines), "a\n\nb c\n");
    assert_eq!(join_lines_of(&Vec::new()), "");
}

#[test]
fn split_then_join_round_trip() {
    let lines = vec!["127.0.0.1 localhost".to_string(), "".to_string(), "# c".to_string()];
    assert_eq!(split_lines_of(&join_lines_of(&lines)), lines);
}
