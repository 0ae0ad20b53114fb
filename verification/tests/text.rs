use language_model_edit_prediction::removal::{remove, remove_each};
use language_model_edit_prediction::rows;
use language_model_edit_prediction::text;

#[test]
fn trim_agrees_with_the_standard_library_on_every_character() {
    let mut white = Vec::new();
    for u in 0..=0x10ffffu32 {
        if let Some(c) = char::from_u32(u) {
            if c.is_whitespace() {
                white.push(u);
            }
        }
    }
    let mut expected: Vec<u32> = (0x9..=0xd).collect();
    expected.extend([0x20, 0x85, 0xa0, 0x1680]);
    expected.extend(0x2000..=0x200a);
    expected.extend([0x2028, 0x2029, 0x202f, 0x205f, 0x3000]);
    assert_eq!(white, expected);
    for u in expected {
        let s = format!("{}a{}", char::from_u32(u).unwrap(), char::from_u32(u).unwrap());
        assert_eq!(text::trim(&s), "a");
    }
}

#[test]
fn trim_keeps_inner_white_space() {
    assert_eq!(text::trim("\u{a0} a \n b\t\r\n"), "a \n b");
    assert_eq!(text::trim(" \u{200b} "), "\u{200b}");
    assert_eq!(text::trim(" \n"), "");
    assert_eq!(text::trim(""), "");
}

#[test]
fn blank_text_is_white_space_alone() {
    assert!(text::is_blank(""));
    assert!(text::is_blank(" \t\u{2003}\n"));
    assert!(!text::is_blank(" .\n"));
}

#[test]
fn head_and_tail_count_characters() {
    assert_eq!(text::tail_of("aéb\u{1f600}c", 3), "b\u{1f600}c");
    assert_eq!(text::head_of("aéb\u{1f600}c", 2), "aé");
    assert_eq!(text::tail_of("ab", 5), "ab");
    assert_eq!(text::head_of("ab", 2), "ab");
    assert_eq!(text::tail_of("ab", 0), "");
    assert_eq!(text::head_of("", 3), "");
}

#[test]
fn byte_lengths_follow_utf8() {
    for s in ["", "abc", "é", "€€", "\u{1f600}x", "\u{7f}\u{80}\u{7ff}\u{800}\u{ffff}\u{10000}"] {
        let chars = text::chars_of(s);
        for bound in 0..20 {
            assert_eq!(text::at_least_bytes(&chars, 0, chars.len(), bound), s.len() >= bound);
        }
        for (i, (offset, _)) in s.char_indices().enumerate() {
            assert_eq!(text::char_index_of(&chars, offset), i);
        }
        assert_eq!(text::char_index_of(&chars, s.len()), chars.len());
    }
}

#[test]
fn removal_agrees_with_replacing_by_nothing() {
    let cases = [
        ("", "ab"),
        ("ababab", "ab"),
        ("aaaa", "aa"),
        ("aaaaa", "aa"),
        ("xabyabz", "ab"),
        ("aabb", "ab"),
        ("éaé", "é"),
        ("abc", "abcd"),
        ("abc", ""),
        ("[PRE[PREFIX]FIX]", "[PREFIX]"),
    ];
    for (s, pattern) in cases {
        assert_eq!(remove(s, pattern), s.replace(pattern, ""));
    }
    assert_eq!(remove("aabb", "ab"), "ab");
    assert_eq!(remove("[PRE[PREFIX]FIX]", "[PREFIX]"), "[PREFIX]");
}

#[test]
fn patterns_are_removed_in_the_order_given() {
    let ab = vec!["ab".to_string(), "b".to_string()];
    let ba = vec!["b".to_string(), "ab".to_string()];
    assert_eq!(remove_each("abba".to_string(), &ab), "a");
    assert_eq!(remove_each("abba".to_string(), &ba), "aa");
    assert_eq!(remove_each("abba".to_string(), &vec![]), "abba");
}

#[test]
fn rows_start_behind_newlines() {
    let chars = text::chars_of("ab\n\né\n");
    assert_eq!(rows::row_starts(&chars), vec![0, 3, 4, 6]);
    assert_eq!(rows::row_at(&chars, 0), 0);
    assert_eq!(rows::row_at(&chars, 2), 0);
    assert_eq!(rows::row_at(&chars, 3), 1);
    assert_eq!(rows::row_at(&chars, 5), 2);
    assert_eq!(rows::row_at(&chars, 6), 3);
    assert_eq!(rows::row_starts(&text::chars_of("")), vec![0]);
}
