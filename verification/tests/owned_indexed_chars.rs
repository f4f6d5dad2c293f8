use char_index::OwnedIndexedChars;

#[test]
fn foo_scenario() {
    let w = OwnedIndexedChars::new(String::from("foo"));
    assert_eq!(w.char_count(), 3);
    assert_eq!(w.get_char(0), Some('f'));
    assert_eq!(w.get_char(1), Some('o'));
    assert_eq!(w.get_char(2), Some('o'));
    assert_eq!(w.get_char(3), None);
}

#[test]
fn empty_text() {
    let w = OwnedIndexedChars::new(String::new());
    assert_eq!(w.char_count(), 0);
    assert_eq!(w.get_char(0), None);
    assert_eq!(w.get_char(1), None);
}

#[test]
fn ground_truth_cross_check() {
    let samples = [
        "hello world",
        "a\u{df}\u{597d}\u{1f600}b",
        "\u{e9}\u{e9}\u{e9} mixed ascii \u{2603} and wide \u{1f980}!",
        "tab\tnewline\nnull\0",
    ];
    for s in samples {
        let w = OwnedIndexedChars::new(String::from(s));
        for (i, c) in s.chars().enumerate() {
            assert_eq!(w.get_char(i), Some(c));
        }
    }
}

#[test]
fn out_of_range_is_absent() {
    let samples = ["", "x", "abc", "\u{1f600}\u{1f600}"];
    for s in samples {
        let w = OwnedIndexedChars::new(String::from(s));
        let n = w.char_count();
        assert_eq!(w.get_char(n), None);
        assert_eq!(w.get_char(n + 1), None);
        assert_eq!(w.get_char(usize::MAX), None);
    }
}

#[test]
fn char_count_matches_decomposition() {
    let samples = ["", "ascii only", "\u{df}\u{df}", "\u{597d}", "a\u{e9}\u{597d}\u{1f600}"];
    for s in samples {
        let w = OwnedIndexedChars::new(String::from(s));
        assert_eq!(w.char_count(), s.chars().count());
    }
}

#[test]
fn rebuild_gives_identical_lookups() {
    let text = "re\u{e9}build \u{1f600} twice";
    let a = OwnedIndexedChars::new(String::from(text));
    let b = OwnedIndexedChars::new(String::from(text));
    assert_eq!(a.char_count(), b.char_count());
    for i in 0..=a.char_count() {
        assert_eq!(a.get_char(i), b.get_char(i));
    }
}

#[test]
fn rollover_boundary_255_ascii_then_multibyte() {
    let mut text = "a".repeat(255);
    text.push('\u{df}');
    let w = OwnedIndexedChars::new(text);
    assert_eq!(w.char_count(), 256);
    for i in 0..255 {
        assert_eq!(w.get_char(i), Some('a'));
    }
    assert_eq!(w.get_char(255), Some('\u{df}'));
    assert_eq!(w.get_char(256), None);
}

#[test]
fn rollover_boundary_256_ascii() {
    let text = "b".repeat(256);
    let w = OwnedIndexedChars::new(text);
    assert_eq!(w.char_count(), 256);
    for i in 0..256 {
        assert_eq!(w.get_char(i), Some('b'));
    }
    assert_eq!(w.get_char(256), None);
}

#[test]
fn rollover_boundary_two_byte_chars() {
    let text = "\u{df}".repeat(128);
    let w = OwnedIndexedChars::new(text);
    assert_eq!(w.char_count(), 128);
    for i in 0..128 {
        assert_eq!(w.get_char(i), Some('\u{df}'));
    }
    assert_eq!(w.get_char(128), None);
}

#[test]
fn multi_segment_binary_search() {
    let text = "\u{597d}".repeat(300);
    let w = OwnedIndexedChars::new(text);
    assert_eq!(w.char_count(), 300);
    assert_eq!(w.get_char(150), Some('\u{597d}'));
    assert_eq!(w.get_char(0), Some('\u{597d}'));
    assert_eq!(w.get_char(299), Some('\u{597d}'));
    assert_eq!(w.get_char(300), None);
}

#[test]
fn four_byte_chars_across_segments() {
    let text = "\u{1f600}".repeat(100);
    let w = OwnedIndexedChars::new(text);
    assert_eq!(w.char_count(), 100);
    for i in 0..100 {
        assert_eq!(w.get_char(i), Some('\u{1f600}'));
    }
    assert_eq!(w.get_char(100), None);
}

#[test]
fn round_trip_returns_original_text() {
    let samples = ["", "plain", "s\u{e9}gment\u{e9} \u{1f980}"];
    for s in samples {
        let original = String::from(s);
        let w = OwnedIndexedChars::new(original.clone());
        assert_eq!(w.into_string(), original);
    }
}

#[test]
fn text_views_expose_backing_string() {
    let w = OwnedIndexedChars::new(String::from("view m\u{e9}"));
    assert_eq!(w.as_str(), "view m\u{e9}");
    assert_eq!(w.as_string(), &String::from("view m\u{e9}"));
}

#[test]
fn equality_compares_text_only() {
    let a = OwnedIndexedChars::new(String::from("same \u{1f600} text"));
    let b = OwnedIndexedChars::new(String::from("same \u{1f600} text"));
    let c = OwnedIndexedChars::new(String::from("other text"));
    assert!(a == b);
    assert!(a != c);
}
