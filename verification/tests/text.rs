use launcher::common::{
    char_positions, clip_display_line, font_file, highlight, highlight_query, match_indices,
    should_show_mime_label, truncate,
};
use launcher::keyfile::{
    find_first, find_first_items, find_last, find_last_items, flag, parse_settings, split_items,
};
use launcher::path::{extension_of, file_name_of, is_absolute, join, set_extension, stem_of};
use launcher::text::{
    chars_of, comes_before, contains_str, decimal_string, is_whitespace, join_texts, lines_of,
    parse_number, signed_decimal_string, split_chars, starts_with, string_of, trim_chars, words_of,
    Separator,
};

/// All texts of at most `most` characters out of some.
fn texts(of: &[char], most: usize) -> Vec<String> {
    let mut all = vec![String::new()];
    let mut last = all.clone();
    for _ in 0..most {
        last = last.iter().flat_map(|s| of.iter().map(move |c| format!("{s}{c}"))).collect();
        all.extend(last.iter().cloned());
    }
    all
}

#[test]
fn short_texts_are_taken_apart_as_by_str() {
    for s in texts(&['a', ' ', '\n', '\r', ':'], 6) {
        let c = chars_of(&s);
        assert_eq!(string_of(trim_chars(&c)), s.trim());
        assert_eq!(lines_of(&s), s.lines().collect::<Vec<_>>());
        assert_eq!(split_chars(&c, Separator::Char(':')), s.split(':').collect::<Vec<_>>());
        let words: Vec<&str> = s.split_whitespace().collect();
        assert_eq!(words_of(&c, Separator::Whitespace), words);
        let pieces: Vec<&str> = s.split(|x: char| !x.is_alphanumeric()).collect();
        assert_eq!(split_chars(&c, Separator::NonAlphanumeric), pieces);
        assert_eq!(contains_str(&s, "a:"), s.contains("a:"));
        assert_eq!(starts_with(&s, "a "), s.starts_with("a "));
    }
}

#[test]
fn short_paths_are_taken_apart_as_by_path() {
    let all = texts(&['a', '.', '/'], 6);
    for p in &all {
        let q = std::path::Path::new(p);
        let name = file_name_of(p);
        assert_eq!(name.as_deref(), q.file_name().map(|n| n.to_str().unwrap()), "{}", p);
        assert_eq!(is_absolute(p), q.is_absolute());
        if let Some(n) = name {
            assert_eq!(stem_of(&n), q.file_stem().unwrap().to_str().unwrap(), "{}", p);
            assert_eq!(extension_of(&n).as_deref(), q.extension().map(|e| e.to_str().unwrap()));
        }
        let mut changed = q.to_path_buf();
        changed.set_extension("png");
        assert_eq!(set_extension(p, "png"), changed.to_str().unwrap(), "{}", p);
        for b in ["a", "", "/a", "a/.", ".."] {
            assert_eq!(join(p, b), q.join(b).to_str().unwrap(), "{} {}", p, b);
        }
    }
}

#[test]
fn whitespace_is_that_of_unicode() {
    for n in 0..=0x10ffffu32 {
        if let Some(c) = char::from_u32(n) {
            assert_eq!(is_whitespace(c), c.is_whitespace(), "{:x}", n);
        }
    }
}

#[test]
fn trimming_is_that_of_str() {
    for s in ["", "  ", " a b ", "\u{a0}x\u{2003}", "x"] {
        let c = chars_of(s);
        assert_eq!(string_of(trim_chars(&c)), s.trim());
    }
}

#[test]
fn splitting_keeps_empty_pieces() {
    let c = chars_of("a::b:");
    assert_eq!(split_chars(&c, Separator::Char(':')), ["a", "", "b", ""]);
    assert_eq!(split_chars(&[], Separator::Char(':')), [""]);
}

#[test]
fn words_drop_empty_pieces() {
    let c = chars_of("  foo \t bar\n");
    assert_eq!(words_of(&c, Separator::Whitespace), ["foo", "bar"]);
    let d = chars_of("foo-bar_baz9 ä");
    assert_eq!(words_of(&d, Separator::NonAlphanumeric), ["foo", "bar", "baz9", "ä"]);
}

#[test]
fn lines_are_those_of_str() {
    for s in ["", "a", "a\n", "a\r\nb", "\n\n", "a\rb\n", "x\n\r\n"] {
        let all: Vec<&str> = s.lines().collect();
        assert_eq!(lines_of(s), all, "{:?}", s);
    }
}

#[test]
fn substrings_and_prefixes() {
    assert!(contains_str("hello", "ell"));
    assert!(contains_str("hello", ""));
    assert!(!contains_str("hello", "elo"));
    assert!(starts_with("hello", "hel"));
    assert!(!starts_with("he", "hel"));
}

#[test]
fn texts_are_ordered_as_strings() {
    for (a, b) in [("", "a"), ("a", "b"), ("a", "aa"), ("Z", "a"), ("é", "e"), ("\u{ffff}", "\u{10000}")] {
        assert_eq!(comes_before(&chars_of(a), &chars_of(b)), a < b);
        assert_eq!(comes_before(&chars_of(b), &chars_of(a)), b < a);
        assert!(!comes_before(&chars_of(a), &chars_of(a)));
    }
}

#[test]
fn numbers_are_written_and_read() {
    assert_eq!(decimal_string(0), "0");
    assert_eq!(decimal_string(1900), "1900");
    assert_eq!(signed_decimal_string(-42), "-42");
    assert_eq!(signed_decimal_string(7), "7");
    for s in ["0", "42", "+7", "4294967295", "4294967296", "", "+", "-1", "1a", "٣"] {
        assert_eq!(parse_number(s), s.parse::<u32>().ok(), "{:?}", s);
    }
}

#[test]
fn texts_are_joined() {
    assert_eq!(join_texts(&vec![], ", "), "");
    assert_eq!(join_texts(&vec!["a".to_string()], ", "), "a");
    assert_eq!(join_texts(&vec!["a".to_string(), "b".to_string()], ", "), "a, b");
}

#[test]
fn paths_are_joined_and_taken_apart() {
    assert_eq!(join("/usr", "share"), "/usr/share");
    assert_eq!(join("/usr/", "share"), "/usr/share");
    assert_eq!(join("/usr", "/etc"), "/etc");
    assert_eq!(join("", "share"), "share");
    assert!(is_absolute("/x"));
    assert!(!is_absolute("x/y"));
    for p in ["/a/b.c", "/a/b/", "/", "a/..", "x.tar.gz", "/a/.hidden", "."] {
        let q = std::path::Path::new(p);
        assert_eq!(file_name_of(p), q.file_name().map(|n| n.to_str().unwrap().to_string()), "{}", p);
    }
    for n in ["b.c", "x.tar.gz", ".hidden", "plain", "dot."] {
        let q = std::path::Path::new(n);
        assert_eq!(stem_of(n), q.file_stem().unwrap().to_str().unwrap(), "{}", n);
        assert_eq!(extension_of(n), q.extension().map(|e| e.to_str().unwrap().to_string()), "{}", n);
    }
    assert_eq!(set_extension("/cache/firefox.svg", "png"), "/cache/firefox.png");
}

#[test]
fn settings_know_their_section() {
    let all = parse_settings(
        "Stray=1\n[A]\n# Key=no\nKey = x\n Key=first \nKey=second\nList=a;;b;\nOn=true\n[B]\nKey=third\n",
    );
    assert_eq!(find_first(&all, "", "Stray"), Some("1".to_string()));
    assert_eq!(find_first(&all, "A", "Key"), Some("first".to_string()));
    assert_eq!(find_last(&all, "A", "Key"), Some("second".to_string()));
    assert_eq!(find_first(&all, "B", "Key"), Some("third".to_string()));
    assert_eq!(find_first(&all, "C", "Key"), None);
    assert_eq!(find_last_items(&all, "A", "List"), ["a", "b"]);
    assert_eq!(find_first_items(&all, "A", "List"), ["a", "b"]);
    assert_eq!(split_items("x;;y"), ["x", "y"]);
    assert!(flag(&all, "A", "On"));
    assert!(!flag(&all, "A", "Key"));
}

#[test]
fn truncate_cuts_with_ellipsis() {
    assert_eq!(truncate("hello\tworld", 6), "hello…");
    assert_eq!(truncate("a\nb", 45), "a b");
    assert_eq!(truncate("", 0), "");
    assert_eq!(truncate("ab", 0), "");
    assert_eq!(truncate("ab", 1), "…");
    assert_eq!(truncate("äöü", 3), "äöü");
    assert_eq!(truncate("äöüß", 3), "äö…");
}

#[test]
fn display_line_collapses_whitespace() {
    assert_eq!(clip_display_line("  a \n\t b  "), "a b ");
    assert_eq!(clip_display_line(""), "");
    assert_eq!(clip_display_line(&clip_display_line(" x\n\ny ")), clip_display_line(" x\n\ny "));
}

#[test]
fn common_mime_types_are_not_shown() {
    assert!(!should_show_mime_label("text/plain"));
    assert!(!should_show_mime_label("text/plain;charset=utf-8"));
    assert!(!should_show_mime_label(" image/png ; x"));
    assert!(!should_show_mime_label("image/jpeg"));
    assert!(!should_show_mime_label("text/uri-list"));
    assert!(should_show_mime_label("text/html"));
    assert!(should_show_mime_label(""));
}

#[test]
fn query_matches_as_substring_first() {
    assert_eq!(match_indices("Firefox", "fox"), [4, 5, 6]);
    assert_eq!(match_indices("Firefox", "FOX"), [4, 5, 6]);
    assert_eq!(match_indices("Firefox", ""), Vec::<usize>::new());
}

#[test]
fn query_matches_in_sequence_otherwise() {
    assert_eq!(match_indices("Firefox", "ffx"), [0, 4, 6]);
    assert_eq!(match_indices("Firefox", "xf"), Vec::<usize>::new());
    assert_eq!(match_indices("äfb", "äb"), [0, 3]);
}

#[test]
fn query_with_wide_characters_has_one_index_each() {
    assert_eq!(match_indices("xäöy", "äö"), [1, 3]);
    assert_eq!(match_indices("xä", "ä"), [1]);
}

#[test]
fn highlighting_keeps_the_text() {
    let spans = highlight("firefox", &vec![0, 4, 5]);
    let shown: Vec<(String, bool)> = spans.into_iter().map(|s| (s.text, s.highlighted)).collect();
    assert_eq!(
        shown,
        [
            ("f".to_string(), true),
            ("ire".to_string(), false),
            ("f".to_string(), true),
            ("o".to_string(), true),
            ("x".to_string(), false),
        ]
    );
    let text: String = shown.into_iter().map(|s| s.0).collect();
    assert_eq!(text, "firefox");
}

#[test]
fn bytes_lead_to_characters() {
    assert_eq!(char_positions("xäy", &vec![1, 3]), Some(vec![1, 2]));
    assert_eq!(char_positions("xäy", &vec![2]), None);
    assert_eq!(char_positions("xäy", &vec![3, 1]), None);
    assert_eq!(char_positions("xäy", &vec![]), Some(vec![]));
}

#[test]
fn query_is_highlighted() {
    let spans = highlight_query("Größe", "öß").unwrap();
    let shown: Vec<(String, bool)> = spans.into_iter().map(|s| (s.text, s.highlighted)).collect();
    assert_eq!(
        shown,
        [
            ("Gr".to_string(), false),
            ("ö".to_string(), true),
            ("ß".to_string(), true),
            ("e".to_string(), false),
        ]
    );
    // The lower-case form of the first letter has three bytes, the letter two.
    assert!(highlight_query("İä", "ä").is_none());
}

#[test]
fn font_path_is_read() {
    assert_eq!(font_file(b"/fonts/Inter.ttf"), Some("/fonts/Inter.ttf".to_string()));
    assert_eq!(font_file(b"/a\xff"), Some("/a\u{fffd}".to_string()));
    assert_eq!(font_file(b""), None);
}
