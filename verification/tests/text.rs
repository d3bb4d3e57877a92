use rtk::text::{
    decimal_string, first_word_of, is_whitespace, join_with_newlines, lines_of, str_is_blank,
    str_starts_with, trimmed,
};

const SAMPLES: &[&str] = &[
    "",
    "\n",
    "\n\n",
    "a",
    "a\n",
    "a\r\n",
    "a\r",
    "a\r\r\n",
    "\r\n",
    "a\n\nb",
    "foo\r\nbar\n\nbaz\r",
    "  x  \t\n\u{3000}y\u{A0}",
    "\u{2028}line",
    "héllo wörld\n✓ done",
];

#[test]
fn whitespace_matches_std() {
    for u in 0u32..0x11_0000 {
        if let Some(c) = char::from_u32(u) {
            assert_eq!(is_whitespace(c), c.is_whitespace(), "{:?}", c);
        }
    }
}

#[test]
fn lines_match_std() {
    for s in SAMPLES {
        let ours = lines_of(s);
        let std: Vec<String> = s.lines().map(|l| l.to_string()).collect();
        assert_eq!(ours, std, "{:?}", s);
    }
}

#[test]
fn trim_matches_std() {
    for s in SAMPLES {
        assert_eq!(trimmed(s), s.trim(), "{:?}", s);
        assert_eq!(str_is_blank(s), s.trim().is_empty(), "{:?}", s);
    }
}

#[test]
fn join_matches_std() {
    for s in SAMPLES {
        let lines = lines_of(s);
        assert_eq!(join_with_newlines(&lines), lines.join("\n"));
    }
    assert_eq!(join_with_newlines(&vec![]), "");
    assert_eq!(join_with_newlines(&vec!["".to_string(), "".to_string()]), "\n");
}

#[test]
fn split_then_join_gives_lines_back() {
    let lines: Vec<String> = vec!["a".into(), "".into(), "c d".into()];
    assert_eq!(lines_of(&join_with_newlines(&lines)), lines);
}

#[test]
fn decimal_matches_std() {
    for n in [0usize, 1, 9, 10, 11, 99, 100, 1950, 123456789, usize::MAX] {
        assert_eq!(decimal_string(n), n.to_string());
    }
}

#[test]
fn first_word_matches_std() {
    for s in SAMPLES {
        let ours: String = first_word_of(s).into_iter().collect();
        assert_eq!(ours, s.split_whitespace().next().unwrap_or(""), "{:?}", s);
    }
}

#[test]
fn starts_with_matches_std() {
    let word: Vec<char> = "Res".chars().collect();
    assert!(str_starts_with("Resolving", &word));
    assert!(!str_starts_with("Re", &word));
    assert!(!str_starts_with("Loading", &word));
    assert!(str_starts_with("anything", &[]));
}
