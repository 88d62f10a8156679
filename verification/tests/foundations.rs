use tmux_mcp_rs::bytes::{
    byte_len, char_offsets, char_width, clamp_char_boundary, find_occurrences, slice,
};
use tmux_mcp_rs::numbers::{
    decimal, hex_pair, parse_hex_byte, parse_unsigned, signed_decimal,
};
use tmux_mcp_rs::score::{bound_threshold, score_reaches, Score};
use tmux_mcp_rs::text;

#[test]
fn white_space_is_that_of_the_standard_library() {
    for c in '\0'..=char::MAX {
        assert_eq!(text::is_white_space(c), c.is_whitespace(), "{c:?}");
    }
}

#[test]
fn texts_are_split_and_trimmed_as_the_standard_library_does() {
    for s in [
        "", " ", "a", " a b ", "\ta\u{a0}\u{2003}b\n", "a\n\nb", "a\r\nb\r\n", "\n", "\r", "x\r\r\n",
        "\u{3000}\u{e9}\u{3000}", "a\tb\t", "\u{200b}x\u{200b}",
    ] {
        assert_eq!(text::trim(s), s.trim(), "{s:?}");
        assert_eq!(text::words(s), s.split_whitespace().collect::<Vec<_>>(), "{s:?}");
        assert_eq!(text::lines(s), s.lines().collect::<Vec<_>>(), "{s:?}");
        assert_eq!(text::split_on(s, '\t'), s.split('\t').collect::<Vec<_>>(), "{s:?}");
        for part in ["", "a", "\n", "\u{e9}", "b\n"] {
            assert_eq!(text::contains(s, part), s.contains(part), "{s:?} {part:?}");
        }
    }
}

#[test]
fn text_after_the_last_mark() {
    assert_eq!(text::text_after_last("a-b-c", "-"), "c");
    assert_eq!(text::text_after_last("aaa", "aa"), "");
    assert_eq!(text::text_after_last("abc", "x"), "abc");
    assert_eq!(text::text_after_last("x", "xx"), "x");
}

#[test]
fn numbers_are_written_and_read_back() {
    for n in [0, 9, 10, 99, 12_345, u64::MAX] {
        assert_eq!(decimal(n), n.to_string());
        assert_eq!(parse_unsigned(&decimal(n), u64::MAX), Some(n));
    }
    for n in [0, -1, 7, i32::MIN, i32::MAX] {
        assert_eq!(signed_decimal(n), n.to_string());
    }
    assert_eq!(parse_unsigned("256", 255), None);
    assert_eq!(parse_unsigned("255", 255), Some(255));
    assert_eq!(parse_unsigned("7", 5), None);
    assert_eq!(parse_unsigned("18446744073709551616", u64::MAX), None);
    for byte in 0..=255u8 {
        assert_eq!(hex_pair(byte), format!("{byte:02x}"));
        assert_eq!(parse_hex_byte(&hex_pair(byte)), Some(byte));
    }
}

#[test]
fn offsets_move_to_character_boundaries() {
    let s = "a\u{e9}\u{20ac}\u{1f600}b";
    for at in 0..=s.len() + 2 {
        for forward in [false, true] {
            let moved = clamp_char_boundary(s, at, forward);
            assert!(s.is_char_boundary(moved));
            if at >= s.len() {
                assert_eq!(moved, s.len());
            } else if s.is_char_boundary(at) {
                assert_eq!(moved, at);
            } else {
                assert_eq!(moved > at, forward);
            }
        }
    }
}

#[test]
fn characters_have_their_offsets() {
    let s = "a\u{e9}\u{20ac}\u{1f600}b";
    let mut expected: Vec<usize> = s.char_indices().map(|(i, _)| i).collect();
    expected.push(s.len());
    assert_eq!(char_offsets(s), expected);
    assert_eq!(byte_len(s), s.len());
    for c in s.chars() {
        assert_eq!(char_width(c), c.len_utf8());
    }
    assert_eq!(slice(s, 1, 6), &s[1..6]);
}

#[test]
fn occurrences_between_two_offsets() {
    assert_eq!(find_occurrences("abababab", "ab", 1, 7), vec![2, 4]);
    assert_eq!(find_occurrences("aaaa", "aa", 1, 4), vec![1]);
    assert_eq!(find_occurrences("aaaa", "aa", 1, 2), Vec::<usize>::new());
}

#[test]
fn scores_compare_like_numbers() {
    let score = |n: f32| Score { bits: n.to_bits() };
    for a in [0.0_f32, 0.1, 0.5, 0.999, 1.0] {
        for t in [-3.0_f32, -0.0, 0.0, 0.1, 0.5, 1.0, 2.0, f32::INFINITY] {
            let bounded = bound_threshold(score(t));
            assert_eq!(bounded, score(t.clamp(0.0, 1.0)));
            assert_eq!(score_reaches(score(a), bounded), a >= t.clamp(0.0, 1.0));
        }
        assert!(!score_reaches(score(a), bound_threshold(score(f32::NAN))));
        assert!(!score_reaches(score(a), bound_threshold(score(-f32::NAN))));
    }
}
