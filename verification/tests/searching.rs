use tmux_mcp_rs::errors::Error;
use tmux_mcp_rs::offsets::OffsetMap;
use tmux_mcp_rs::score::{similarity_score, Score};
use tmux_mcp_rs::tmux::search::{search_texts, whole_buffer, BufferText};
use tmux_mcp_rs::tmux::subsearch::subsearch_text_view;
use tmux_mcp_rs::tmux::window::{
    decode_window, is_utf8_continuation, plan_search, plan_subsearch, search_window_len,
    streaming_window, window_from_bytes, window_of_buffer, WindowRequest,
};
use tmux_mcp_rs::tmux::{
    parse_buffers, search_text, subsearch_text, SearchOptions, SubsearchOptions,
};
use tmux_mcp_rs::types::{BufferSearchOutput, SearchMode};

fn literal(text: &str, query: &str, options: SearchOptions) -> BufferSearchOutput {
    search_text("b", text, query, SearchMode::Literal, options).expect("search")
}

fn regex(text: &str, query: &str, options: SearchOptions) -> BufferSearchOutput {
    search_text("b", text, query, SearchMode::Regex, options).expect("search")
}

fn found(output: &BufferSearchOutput) -> Vec<(u64, u32)> {
    output.matches.iter().map(|m| (m.offset_bytes, m.match_len)).collect()
}

fn resume(entries: &[(&str, u64)]) -> Option<OffsetMap> {
    let mut map = OffsetMap::new();
    for (name, offset) in entries {
        map.insert_absent(name, *offset);
    }
    Some(map)
}

fn refusal<T: std::fmt::Debug>(result: Result<T, Error>) -> String {
    match result {
        Err(Error::InvalidArgument { message }) => message,
        other => panic!("expected invalid argument error, got {other:?}"),
    }
}

fn anchored(context_bytes: u32) -> SubsearchOptions {
    SubsearchOptions {
        context_bytes,
        max_matches: None,
        include_similarity: false,
        fuzzy_match: false,
        similarity_threshold: None,
        resume_from_offset: None,
    }
}

fn score(n: f32) -> Score {
    Score { bits: n.to_bits() }
}

/// Searches the one buffer that a listing and its content describe, as far as tmux allows.
fn search_buffers(
    listing: &str,
    content: &[u8],
    query: &str,
    options: SearchOptions,
    streaming_threshold_bytes: u64,
) -> Result<BufferSearchOutput, Error> {
    let infos = parse_buffers(listing);
    let requests = plan_search(
        &infos,
        Some(vec!["buffer0".to_string()]),
        query,
        options.context_bytes,
        options.max_scan_bytes,
        &options.resume_from_offset,
        streaming_threshold_bytes,
    );
    let mut windows = Vec::new();
    for request in requests {
        let start = request.start as usize;
        windows.push(if request.streaming {
            let (len, full_len) = streaming_window(
                &request.buffer,
                request.start,
                request.len,
                request.size_hint,
                content.len() as u64,
            )?;
            let end = content.len().min(start + len as usize);
            window_from_bytes(&request.buffer, &content[start.min(end)..end], start, full_len)?
        } else {
            window_of_buffer(&request.buffer, content, request.start, request.len)?
        });
    }
    search_texts(windows, query, SearchMode::Literal, options)
}

#[test]
fn search_buffers_returns_offsets_and_snippets() {
    let options = SearchOptions {
        context_bytes: Some(2),
        max_matches: Some(10),
        max_scan_bytes: Some(1024),
        ..SearchOptions::default()
    };
    let result = search_buffers(
        "buffer0\t21\t0",
        b"alpha beta gamma beta",
        "beta",
        options,
        262_144,
    )
    .expect("search buffers");
    assert_eq!(result.total_matches, 2);
    assert_eq!(result.matches.len(), 2);
    assert_eq!(result.matches[0].offset_bytes, 6);
    assert!(result.matches[0].snippet.contains("beta"));
    assert_eq!(result.matches[0].snippet, "a beta g");
    assert_eq!(result.matches[0].match_id, "buffer0:6");
    assert_eq!((result.matches[0].context_start, result.matches[0].context_end), (4, 12));
}

#[test]
fn search_buffers_streaming_uses_scan_window() {
    let options = SearchOptions {
        context_bytes: Some(0),
        max_matches: Some(10),
        max_scan_bytes: Some(5),
        ..SearchOptions::default()
    };
    let result = search_buffers("buffer0\t15\t0", b"aaaaabbbbbccccc", "b", options, 1)
        .expect("search buffers");
    assert_eq!(result.total_matches, 0);
    assert!(result.truncated_buffers.contains(&"buffer0".to_string()));
    assert_eq!(result.resume_from_offset.get("buffer0"), Some(5));
}

#[test]
fn searches_go_on_where_they_stopped() {
    let text = "one two one two one two";
    let all = found(&literal(text, "one", SearchOptions::default()));
    assert_eq!(all, vec![(0, 3), (8, 3), (16, 3)]);
    let first = literal(text, "one", SearchOptions { max_matches: Some(1), ..SearchOptions::default() });
    assert_eq!(found(&first), all[..1]);
    assert_eq!(first.truncated_buffers, vec!["b"]);
    assert_eq!(first.resume_from_offset.get("b"), Some(8));
    let rest = literal(
        text,
        "one",
        SearchOptions {
            resume_from_offset: Some(first.resume_from_offset),
            ..SearchOptions::default()
        },
    );
    assert_eq!(found(&rest), all[1..]);
    assert!(rest.truncated_buffers.is_empty());
    assert_eq!(rest.resume_from_offset.len(), 0);
}

#[test]
fn pages_together_are_the_whole() {
    let text = "aa\u{e9}aab aaa\naa aaaa";
    let places = |output: &BufferSearchOutput| -> Vec<(u64, String, u32)> {
        output.matches.iter().map(|m| (m.offset_bytes, m.match_id.clone(), m.match_len)).collect()
    };
    let page = |max_matches: u32, resume_from_offset: Option<OffsetMap>| {
        let options = SearchOptions {
            max_matches: Some(max_matches),
            resume_from_offset,
            ..SearchOptions::default()
        };
        literal(text, "aa", options)
    };
    let full = page(u32::MAX, None);
    assert_eq!(full.matches.len(), 6);
    assert_eq!(full.resume_from_offset.len(), 0);
    for size in 0..=7 {
        let first = page(size, None);
        assert_eq!(first.resume_from_offset.len() == 0, first.matches.len() == full.matches.len());
        if first.resume_from_offset.len() > 0 {
            let rest = page(u32::MAX, Some(first.resume_from_offset.clone()));
            assert_eq!([places(&first), places(&rest)].concat(), places(&full));
        }
    }
    let mut gone_through = Vec::new();
    let mut resume_from_offset = None;
    loop {
        let next = page(2, resume_from_offset);
        gone_through.extend(places(&next));
        if next.resume_from_offset.len() == 0 {
            break;
        }
        resume_from_offset = Some(next.resume_from_offset);
    }
    assert_eq!(gone_through, places(&full));
}

#[test]
fn several_buffers_give_what_each_of_them_gives() {
    for count in [0, 1, 3, 10, 17] {
        let buffers: Vec<BufferText> =
            (0..count).map(|i| whole_buffer(&format!("b{i}"), &"x-".repeat(i % 4))).collect();
        let options = || SearchOptions { max_matches: Some(100), ..SearchOptions::default() };
        let search = |list: Vec<BufferText>| {
            search_texts(list, "x", SearchMode::Literal, options()).expect("search")
        };
        let together = search(buffers.clone());
        let singles: Vec<BufferSearchOutput> =
            buffers.into_iter().map(|buffer| search(vec![buffer])).collect();
        let matches: Vec<_> = singles.iter().flat_map(|o| o.matches.clone()).collect();
        assert_eq!(together.matches, matches);
        assert_eq!(
            together.bytes_scanned_total,
            singles.iter().map(|o| o.bytes_scanned_total).sum::<u64>()
        );
    }
    let refused = |list| {
        refusal(search_texts(list, "(", SearchMode::Regex, SearchOptions::default()))
    };
    let buffer = || whole_buffer("a", "text");
    assert_eq!(refused(vec![buffer(), whole_buffer("b", "")]), refused(vec![buffer()]));
}

#[test]
fn the_way_a_buffer_is_loaded_does_not_show() {
    let content = "a\u{e9}b\u{20ac}c\u{1f600}".as_bytes();
    let size = content.len() as u64;
    for start in 0..=size + 2 {
        for len in 0..=size + 2 {
            let whole = window_of_buffer("b", content, start, len);
            let streamed = streaming_window("b", start, len, Some(size), size).and_then(
                |(len, full_len)| {
                    let (from, to) = (start as usize, (start + len) as usize);
                    window_from_bytes("b", &content[from..to], from, full_len)
                },
            );
            match (whole, streamed) {
                (Ok(a), Ok(b)) => assert_eq!(a, b),
                (a, b) => assert_eq!(refusal(a), refusal(b)),
            }
        }
    }
}

#[test]
fn literal_matches_do_not_overlap() {
    assert_eq!(found(&literal("aaaaa", "aa", SearchOptions::default())), vec![(0, 2), (2, 2)]);
    for (text, query) in [
        ("h\u{e9}h\u{e9}", "\u{e9}"),
        ("abcabc", "d"),
        ("xx", "xxx"),
        ("\u{1f600}a\u{1f600}", "\u{1f600}"),
    ] {
        let expected: Vec<(u64, u32)> = text
            .match_indices(query)
            .map(|(at, part)| (at as u64, part.len() as u32))
            .collect();
        assert_eq!(found(&literal(text, query, SearchOptions::default())), expected);
    }
}

#[test]
fn patterns_match_as_the_regex_crate_matches() {
    for (text, pattern) in [
        ("a1b22c333", r"\d+"),
        ("abc", "x*"),
        ("h\u{e9}llo", "[^a-z]"),
        ("line\nline", "(?m)^l"),
        ("aab\u{e9}a", "a*"),
        ("aab", "a|"),
    ] {
        let expected: Vec<(u64, u32)> = regex::Regex::new(pattern)
            .expect("pattern")
            .find_iter(text)
            .filter(|m| m.start() < text.len())
            .map(|m| (m.start() as u64, m.len() as u32))
            .collect();
        assert_eq!(found(&regex(text, pattern, SearchOptions::default())), expected);
    }
}

#[test]
fn no_two_matches_have_one_offset() {
    for (text, query, mode) in [
        ("aaaa\nabab\n", "a", SearchMode::Literal),
        ("ab\u{e9}ab\nxab", "(?:ab)?", SearchMode::Regex),
        ("", "x*", SearchMode::Regex),
    ] {
        let options = SearchOptions {
            fuzzy_match: true,
            similarity_threshold: Some(score(0.1)),
            ..SearchOptions::default()
        };
        let output = search_text("b", text, query, mode, options).expect("search");
        for pair in output.matches.windows(2) {
            assert!(pair[0].offset_bytes < pair[1].offset_bytes);
            assert_ne!(pair[0].match_id, pair[1].match_id);
        }
    }
}

#[test]
fn windows_of_valid_text_leave_out_at_most_one_character() {
    let whole = "a\u{e9}\u{20ac}b\u{1f600}\u{1f600}cd\u{e9}";
    for from in 0..=whole.len() {
        for to in from..=whole.len() {
            let window = &whole.as_bytes()[from..to];
            let (text, start) = decode_window("b", window, from).expect("text");
            assert_eq!(text.as_bytes(), &whole.as_bytes()[start..start + text.len()]);
            assert!((from..start).all(|k| !whole.is_char_boundary(k)));
            let end = start + text.len();
            assert!((end + 1..to).all(|k| !whole.is_char_boundary(k)));
            assert!(to - end <= 4);
            assert!(window.last().is_none_or(|b| !b.is_ascii()) || end == to);
            if end < to {
                let left = whole[end..].chars().next().expect("a character");
                assert!(left.len_utf8() > 1);
            }
        }
    }
}

#[test]
fn an_empty_match_at_the_end_counts_around_an_anchor_only() {
    assert_eq!(found(&regex("ab", "$", SearchOptions::default())), vec![]);
    let output = subsearch_text("b", "ab", 0, 2, "$", SearchMode::Regex, anchored(0)).expect("search");
    assert_eq!(found(&output), vec![(2, 0)]);
    assert_eq!(output.matches[0].snippet, "");
}

#[test]
fn searches_report_what_they_did() {
    let output = literal(
        "abc abc",
        "bc",
        SearchOptions {
            context_bytes: Some(1),
            include_similarity: true,
            ..SearchOptions::default()
        },
    );
    assert_eq!(output.query, "bc");
    assert_eq!(output.mode, SearchMode::Literal);
    assert_eq!(output.context_bytes, 1);
    assert_eq!(output.max_matches, 50);
    assert!(output.include_similarity);
    assert!(!output.fuzzy_match);
    assert_eq!(output.similarity_threshold, None);
    assert_eq!(output.buffers, vec!["b"]);
    assert_eq!(output.buffers_scanned, 1);
    assert_eq!(output.bytes_scanned_total, 7);
    assert_eq!(output.total_matches, 2);
    assert_eq!(output.max_similarity, Some(score(1.0)));
    assert!(output.matches.iter().all(|m| m.similarity == Some(score(1.0))));
    assert_eq!(output.matches[1].snippet, "abc");
    let plain = literal("abc", "bc", SearchOptions::default());
    assert_eq!(plain.max_similarity, None);
    assert_eq!(plain.matches[0].similarity, None);
    assert_eq!(plain.context_bytes, 40);
}

#[test]
fn contexts_end_between_characters_and_inside_the_search() {
    let text = "\u{e9}\u{e9}X\u{e9}\u{e9}";
    let output = literal(text, "X", SearchOptions { context_bytes: Some(1), ..SearchOptions::default() });
    assert_eq!(output.matches[0].snippet, "\u{e9}X\u{e9}");
    assert_eq!((output.matches[0].context_start, output.matches[0].context_end), (2, 7));
    let output = literal(
        "0123456789",
        "4",
        SearchOptions {
            context_bytes: Some(u32::MAX),
            max_scan_bytes: Some(4),
            resume_from_offset: resume(&[("b", 3)]),
            ..SearchOptions::default()
        },
    );
    assert_eq!(output.matches[0].snippet, "3456");
    assert_eq!(output.bytes_scanned_total, 4);
    assert_eq!(output.resume_from_offset.get("b"), Some(7));
}

#[test]
fn searches_are_refused_with_a_reason() {
    let search = |query: &str, mode, resume_from_offset| {
        search_text(
            "b",
            "text",
            query,
            mode,
            SearchOptions { resume_from_offset, ..SearchOptions::default() },
        )
    };
    assert_eq!(refusal(search("", SearchMode::Regex, None)), "query must not be empty");
    let reason = regex::Regex::new("(").unwrap_err().to_string();
    assert_eq!(
        refusal(search("(", SearchMode::Regex, resume(&[("x", 0)]))),
        format!("invalid regex: {reason}")
    );
    assert!(search("(", SearchMode::Literal, None).is_ok());
    assert_eq!(
        refusal(search("q", SearchMode::Literal, resume(&[("b", 9), ("z", 0), ("x", 0)]))),
        "resumeFromOffset references unknown buffer 'x'"
    );
    assert_eq!(
        refusal(search("q", SearchMode::Literal, resume(&[("b", 5)]))),
        "resumeFromOffset 5 exceeds buffer 'b' length 4"
    );
    let window = BufferText {
        name: "b".into(),
        text: "text".into(),
        base_offset: 10,
        full_len: 100,
    };
    let options = SearchOptions {
        resume_from_offset: resume(&[("b", 15)]),
        ..SearchOptions::default()
    };
    assert_eq!(
        refusal(search_texts(vec![window], "q", SearchMode::Literal, options)),
        "resumeFromOffset 15 is outside the scan window for buffer 'b'"
    );
}

#[test]
fn similar_lines_are_found() {
    let text = "hello wrold\nnothing here\nhello world\nhelo";
    let output = literal(
        text,
        "world",
        SearchOptions { similarity_threshold: Some(score(0.7)), ..SearchOptions::default() },
    );
    assert!(output.fuzzy_match);
    assert!(output.include_similarity);
    assert_eq!(output.similarity_threshold, Some(score(0.7)));
    assert_eq!(found(&output), vec![(6, 5), (31, 5)]);
    let ratio = rapidfuzz::fuzz::ratio("world".chars(), "wrold".chars()) as f32;
    assert_eq!(output.matches[0].similarity, Some(score(ratio)));
    assert_eq!(output.matches[1].similarity, Some(score(1.0)));
    assert_eq!(output.max_similarity, Some(score(1.0)));
}

#[test]
fn thresholds_are_brought_into_range() {
    let threshold = |given: Option<f32>| {
        literal(
            "abc",
            "abd",
            SearchOptions {
                fuzzy_match: true,
                similarity_threshold: given.map(score),
                ..SearchOptions::default()
            },
        )
    };
    assert_eq!(threshold(None).similarity_threshold, Some(score(0.8)));
    for given in [-1.0_f32, -0.0, 0.0, 0.25, 1.0, 1.5, f32::INFINITY, f32::NEG_INFINITY] {
        let output = threshold(Some(given));
        assert_eq!(output.similarity_threshold, Some(score(given.clamp(0.0, 1.0))));
        let ratio = rapidfuzz::fuzz::ratio("abd".chars(), "abc".chars()) as f32;
        assert_eq!(output.matches.len() == 1, ratio >= given.clamp(0.0, 1.0));
    }
    let output = threshold(Some(f32::NAN));
    assert_eq!(output.matches.len(), 0);
    assert_eq!(output.similarity_threshold.map(|s| f32::from_bits(s.bits).is_nan()), Some(true));
}

#[test]
fn overlong_lines_are_skipped_and_counted() {
    let long = "x".repeat(4_097);
    let text = format!("{long}\nabc\n{long}y\n{}", "z".repeat(4_096));
    let output = literal(
        &text,
        "abd",
        SearchOptions { similarity_threshold: Some(score(0.6)), ..SearchOptions::default() },
    );
    assert_eq!(output.fuzzy_skipped_lines, 2);
    assert_eq!(output.fuzzy_skipped_bytes, 4_097 + 4_098);
    assert_eq!(found(&output), vec![(4_098, 3)]);
}

#[test]
fn a_line_without_likeness_counts_whole_for_the_lowest_threshold() {
    let output = literal(
        "abcdef",
        "xy",
        SearchOptions { similarity_threshold: Some(score(0.0)), ..SearchOptions::default() },
    );
    assert_eq!(found(&output), vec![(0, 6)]);
    assert_eq!(output.matches[0].similarity, Some(score(0.0)));
}

#[test]
fn scores_are_those_of_rapidfuzz_in_single_precision() {
    let words = ["a", "ab", "abc", "world", "wrold", "h\u{e9}llo", "kitten", "sitting", "", "zzz",
        "a much longer text to compare with", "another text, of some length, that differs"];
    for a in words {
        for b in words {
            let ratio = rapidfuzz::fuzz::ratio(a.chars(), b.chars()).clamp(0.0, 1.0) as f32;
            assert_eq!(similarity_score(a, b), score(ratio), "{a:?} and {b:?}");
        }
    }
}

#[test]
fn names_of_truncated_buffers_are_not_repeated() {
    let window = |text: &str| BufferText {
        name: "same".into(),
        text: text.into(),
        base_offset: 0,
        full_len: text.len(),
    };
    let options = SearchOptions { max_matches: Some(1), ..SearchOptions::default() };
    let output = search_texts(
        vec![window("q q"), window("xq"), window("q")],
        "q",
        SearchMode::Literal,
        options,
    )
    .expect("search");
    assert_eq!(output.truncated_buffers, vec!["same"]);
    assert_eq!(output.resume_from_offset.get("same"), Some(2));
    assert_eq!(output.buffers, vec!["same", "same", "same"]);
    assert_eq!(output.bytes_scanned_total, 6);
}

#[test]
fn no_matches_are_reported_where_none_are_asked_for() {
    let output = literal("q q", "q", SearchOptions { max_matches: Some(0), ..SearchOptions::default() });
    assert_eq!(output.total_matches, 0);
    assert_eq!(output.resume_from_offset.get("b"), Some(0));
}

#[test]
fn many_buffers_are_searched_like_few() {
    let window = |i: usize| {
        let text = format!("{} needle {i}", "pad ".repeat(i));
        BufferText {
            name: format!("buffer{i}"),
            full_len: text.len(),
            text,
            base_offset: 0,
        }
    };
    let search = |from: usize, to: usize| {
        search_texts(
            (from..to).map(window).collect(),
            "needle",
            SearchMode::Literal,
            SearchOptions::default(),
        )
        .expect("search")
    };
    let many = search(0, 24);
    assert_eq!(many.buffers_scanned, 24);
    assert_eq!(many.total_matches, 24);
    let mut expected = search(0, 8).matches;
    expected.extend(search(8, 16).matches);
    expected.extend(search(16, 24).matches);
    assert_eq!(many.matches, expected);
}

#[test]
fn offsets_are_kept_in_the_order_of_the_names() {
    let mut map = OffsetMap::new();
    for (name, offset) in [("b", 1), ("a", 2), ("\u{e9}", 3), ("ab", 4), ("Z", 5), ("a", 6), ("", 7)] {
        map.insert_absent(name, offset);
    }
    let mut expected = std::collections::BTreeMap::new();
    for (name, offset) in [("b", 1), ("a", 2), ("\u{e9}", 3), ("ab", 4), ("Z", 5), ("", 7)] {
        expected.insert(name.to_string(), offset);
    }
    let entries: Vec<(String, u64)> = (0..map.len())
        .map(|i| (map.name_at(i).to_string(), map.offset_at(i)))
        .collect();
    assert_eq!(entries, expected.into_iter().collect::<Vec<_>>());
    assert_eq!(map.get("a"), Some(2));
    assert_eq!(map.get("c"), None);
    assert_eq!(map.clone(), map);
}

#[test]
fn subsearches_stay_around_their_anchor() {
    let text = "needle ... needle ... needle";
    let output = subsearch_text("b", text, 11, 6, "needle", SearchMode::Literal, anchored(3)).expect("search");
    assert_eq!(found(&output), vec![(11, 6)]);
    assert_eq!(output.bytes_scanned_total, 12);
    assert_eq!(output.resume_from_offset.get("b"), Some(20));
    assert_eq!(output.truncated_buffers, vec!["b"]);
    assert_eq!(output.buffers, vec!["b"]);
    assert_eq!(output.buffers_scanned, 1);
    assert_eq!(output.context_bytes, 3);
    let options = SubsearchOptions {
        max_matches: Some(1),
        ..anchored(100)
    };
    let output = subsearch_text("b", text, 11, 6, "needle", SearchMode::Literal, options).expect("search");
    assert_eq!(found(&output), vec![(0, 6)]);
    assert_eq!(output.resume_from_offset.get("b"), Some(11));
    let options = SubsearchOptions {
        resume_from_offset: Some(11),
        ..anchored(100)
    };
    let output = subsearch_text("b", text, 11, 6, "needle", SearchMode::Literal, options).expect("search");
    assert_eq!(found(&output), vec![(11, 6), (22, 6)]);
    assert!(output.truncated_buffers.is_empty());
}

#[test]
fn subsearches_begin_and_end_between_characters() {
    let text = "\u{e9}\u{e9}\u{e9}";
    let output = subsearch_text("b", text, 3, 0, "\u{e9}", SearchMode::Literal, anchored(0)).expect("search");
    assert_eq!(found(&output), vec![(2, 2)]);
    assert_eq!(output.bytes_scanned_total, 2);
}

#[test]
fn subsearches_are_refused_with_a_reason() {
    let search = |anchor, query: &str, mode, options| subsearch_text("b", "0123456789", anchor, 2, query, mode, options);
    let from = |offset| SubsearchOptions { resume_from_offset: Some(offset), ..anchored(1) };
    let lit = SearchMode::Literal;
    assert_eq!(refusal(search(11, "", lit, anchored(1))), "query must not be empty");
    assert_eq!(
        refusal(search(11, "q", lit, anchored(1))),
        "anchor offset 11 exceeds buffer length 10"
    );
    assert_eq!(
        refusal(search(5, "q", lit, from(11))),
        "resumeFromOffset 11 exceeds buffer length 10"
    );
    assert_eq!(
        refusal(search(5, "q", lit, from(3))),
        "resumeFromOffset 3 is outside the anchor window"
    );
    assert_eq!(
        refusal(search(5, "q", lit, from(9))),
        "resumeFromOffset 9 is outside the anchor window"
    );
    assert!(refusal(search(5, "(", SearchMode::Regex, from(4))).starts_with("invalid regex: "));
    assert!(search(10, "q", lit, from(10)).is_ok());
    let window = BufferText {
        name: "b".into(),
        text: "3456".into(),
        base_offset: 3,
        full_len: 10,
    };
    for anchor in [3, 6] {
        assert_eq!(
            refusal(subsearch_text_view(&window, anchor, 1, "q", lit, anchored(1))),
            "anchor window for buffer 'b' is outside the scan window"
        );
    }
    let output = subsearch_text_view(&window, 4, 1, "5", lit, anchored(1)).expect("search");
    assert_eq!(found(&output), vec![(5, 1)]);
    assert_eq!(output.matches[0].match_id, "b:5");
}

#[test]
fn decode_window_rejects_invalid_utf8() {
    let bytes = [0xff, 0xff];
    let err = decode_window("buffer0", &bytes, 0).unwrap_err();
    match err {
        Error::InvalidArgument { message } => {
            assert!(message.contains("non-UTF-8"));
            assert_eq!(
                message,
                "buffer 'buffer0' contains non-UTF-8 bytes; search requires UTF-8"
            );
        }
        _ => panic!("expected invalid argument error"),
    }
}

#[test]
fn windows_are_cut_between_characters() {
    let decode = |bytes: &[u8]| decode_window("b", bytes, 100).expect("text");
    assert_eq!(decode(b""), (String::new(), 100));
    assert_eq!(decode(b"plain"), ("plain".to_string(), 100));
    assert_eq!(decode(b"\x82\xacabc"), ("abc".to_string(), 102));
    assert_eq!(decode(b"abc\xe2\x82"), ("abc".to_string(), 100));
    assert_eq!(decode(b"abc\xe2"), ("abc".to_string(), 100));
    assert_eq!(decode(b"\x80\x80"), (String::new(), 102));
    assert_eq!(decode(b"\xe2\x82"), (String::new(), 100));
    // A last character of several bytes is left out as well.
    assert_eq!(decode("caf\u{e9}".as_bytes()), ("caf".to_string(), 100));
    assert!(decode_window("b", b"a\xffb", 0).is_err());
    assert!(decode_window("b", b"a\xe2b", 0).is_err());
    assert_eq!(decode_window("b", b"\x80a", usize::MAX).expect("text"), ("a".to_string(), usize::MAX));
    for byte in 0..=255u8 {
        assert_eq!(is_utf8_continuation(byte), (byte & 0b1100_0000) == 0b1000_0000);
    }
}

#[test]
fn windows_lie_inside_their_buffers() {
    let window = window_of_buffer("b", b"0123456789", 4, 3).expect("window");
    assert_eq!(
        window,
        BufferText { name: "b".into(), text: "456".into(), base_offset: 4, full_len: 10 }
    );
    let window = window_of_buffer("b", b"0123456789", 8, u64::MAX).expect("window");
    assert_eq!(window.text, "89");
    assert_eq!(window_of_buffer("b", b"0123", 4, 1).expect("window").text, "");
    assert_eq!(
        refusal(window_of_buffer("b", b"0123", 5, 1)),
        "resumeFromOffset 5 exceeds buffer 'b' length 4"
    );
    assert_eq!(streaming_window("b", 4, 3, Some(10), 8).expect("window"), (3, 10));
    assert_eq!(streaming_window("b", 4, 30, Some(6), 8).expect("window"), (4, 8));
    assert_eq!(streaming_window("b", 8, u64::MAX, None, 8).expect("window"), (0, 8));
    assert_eq!(
        refusal(streaming_window("b", 9, 1, Some(6), 8)),
        "resumeFromOffset 9 exceeds buffer 'b' length 8"
    );
    assert!(window_from_bytes("b", b"\xff", 0, 1).is_err());
}

#[test]
fn requests_cover_what_is_searched() {
    let infos = parse_buffers("one\t10\t0\ntwo\t300\t0\none\t20\t0");
    assert_eq!(search_window_len(None, None, "h\u{e9}"), 65_536 + 40 + 3);
    assert_eq!(search_window_len(Some(1), Some(u64::MAX), "q"), u64::MAX);
    let requests = plan_search(
        &infos,
        None,
        "q",
        Some(0),
        Some(5),
        &resume(&[("two", 7)]),
        100,
    );
    let request = |buffer: &str, start, size_hint, streaming| WindowRequest {
        buffer: buffer.into(),
        start,
        len: 6,
        size_hint,
        streaming,
    };
    assert_eq!(
        requests,
        vec![
            request("one", 0, Some(20), false),
            request("two", 7, Some(300), true),
            request("one", 0, Some(20), false),
        ]
    );
    let requests = plan_search(&infos, Some(vec!["new".into()]), "q", Some(0), Some(5), &None, 0);
    assert_eq!(requests, vec![request("new", 0, None, false)]);
    assert!(plan_search(&infos, Some(vec![]), "q", None, None, &None, 0).is_empty());
}

#[test]
fn requests_cover_the_stretch_around_an_anchor() {
    let infos = parse_buffers("one\t10\t0\none\t20\t0");
    assert_eq!(
        plan_subsearch(&infos, "one", 8, 2, 3, 9).expect("request"),
        WindowRequest {
            buffer: "one".into(),
            start: 5,
            len: 8,
            size_hint: Some(10),
            streaming: true
        }
    );
    assert_eq!(
        plan_subsearch(&infos, "new", u64::MAX, 2, 3, 9).expect("request"),
        WindowRequest {
            buffer: "new".into(),
            start: u64::MAX - 3,
            len: 3,
            size_hint: None,
            streaming: false
        }
    );
    assert_eq!(
        refusal(plan_subsearch(&infos, "one", 11, 2, 3, 9)),
        "anchor offset 11 exceeds buffer length 10"
    );
}

#[test]
fn equal_texts_are_as_alike_as_can_be() {
    for text in ["", "a", "h\u{e9}llo", "the same long text, word for word"] {
        assert_eq!(similarity_score(text, text), score(1.0));
    }
    assert_eq!(similarity_score("abc", "xyz"), score(0.0));
}

#[test]
fn searches_get_ahead_by_at_least_a_character() {
    let text = "\u{1f600}".repeat(5);
    let mut offset = 0;
    for _ in 0..5 {
        let output = literal(
            &text,
            "q",
            SearchOptions {
                max_scan_bytes: Some(4),
                resume_from_offset: resume(&[("b", offset)]),
                ..SearchOptions::default()
            },
        );
        let next = output.resume_from_offset.get("b").unwrap_or(text.len() as u64);
        assert_eq!(next, offset + 4);
        offset = next;
    }
}

#[test]
fn offsets_count_from_the_start_of_the_buffer() {
    let content = "h\u{e9}llo needle h\u{e9}llo needle".as_bytes();
    for start in 0..8 {
        let window = window_of_buffer("b", content, start, 100).expect("window");
        let output = search_texts(vec![window], "needle", SearchMode::Literal, SearchOptions::default())
            .expect("search");
        assert_eq!(output.total_matches, 2);
        for m in &output.matches {
            let at = m.offset_bytes as usize;
            assert_eq!(&content[at..at + m.match_len as usize], b"needle");
        }
    }
}

#[test]
fn the_first_of_the_best_windows_counts() {
    let output = literal(
        "abx aby abd",
        "abc",
        SearchOptions { similarity_threshold: Some(score(0.5)), ..SearchOptions::default() },
    );
    assert_eq!(found(&output), vec![(0, 3)]);
}

#[test]
fn reported_matches_are_the_first_ones() {
    let window = |name: &str| BufferText {
        name: name.into(),
        text: "q q".into(),
        base_offset: 0,
        full_len: 3,
    };
    for max in 0..6 {
        let output = search_texts(
            vec![window("a"), window("b")],
            "q",
            SearchMode::Literal,
            SearchOptions { max_matches: Some(max), ..SearchOptions::default() },
        )
        .expect("search");
        let ids: Vec<&str> = output.matches.iter().map(|m| m.match_id.as_str()).collect();
        let all = ["a:0", "a:2", "b:0", "b:2"];
        assert_eq!(ids, all[..all.len().min(max as usize)]);
        assert_eq!(output.truncated_buffers.len(), output.resume_from_offset.len());
        for name in &output.truncated_buffers {
            assert!(output.resume_from_offset.get(name).is_some());
        }
    }
}
