//! Finding the matches of a query in a stretch of text.

use vstd::prelude::*;
use vstd::string::*;
use vstd::utf8::*;

use crate::bytes;
use crate::numbers;
use crate::outside;
use crate::score;
use crate::score::Score;
use crate::types;
use crate::types::{BufferSearchMatch, SearchMode};

verus! {

/// The longest line, in bytes, that is compared with a query for similarity.
pub const FUZZY_MAX_LINE_BYTES: usize = 4_096;

/// The byte that ends a line.
pub const LINE_FEED: u8 = 10;

/// A stretch of a line, in bytes from its start, and how alike a query it is.
pub struct Window {
    pub score: Score,
    pub start: int,
    pub len: int,
}

/// A place in a text, in bytes, and how alike the query it is where it was found by that.
pub struct Hit {
    pub at: int,
    pub len: int,
    pub score: Option<Score>,
}

/// The highest score above zero of the first `upto` windows of as many characters as the query
/// has, and the first window that has it.
pub open spec fn best_before(query: Seq<char>, line: Seq<char>, upto: int) -> (Score, Option<int>)
    decreases upto,
{
    if upto <= 0 {
        (Score { bits: 0 }, None)
    } else {
        let before = best_before(query, line, upto - 1);
        let score = score::similarity(query, line.subrange(upto - 1, upto - 1 + query.len()));
        if score.bits > before.0.bits {
            (score, Some(upto - 1))
        } else {
            before
        }
    }
}

/// The stretch of a line that is most alike a query. A line that has no more characters than
/// the query is taken whole, and so is one of which no window scores above zero.
pub open spec fn best_window(query: Seq<char>, line: Seq<char>) -> Window {
    let whole = encode_utf8(line).len() as int;
    if line.len() == 0 || query.len() == 0 {
        Window { score: Score { bits: 0 }, start: 0, len: 0 }
    } else if query.len() >= line.len() {
        Window { score: score::similarity(query, line), start: 0, len: whole }
    } else {
        let best = best_before(query, line, line.len() - query.len() + 1);
        match best.1 {
            Some(i) => Window {
                score: best.0,
                start: bytes::char_offset(line, i),
                len: bytes::char_offset(line, i + query.len()) - bytes::char_offset(line, i),
            },
            None => Window { score: best.0, start: 0, len: whole },
        }
    }
}

/// Law: no window scores higher than the best one, and none before it scores as high.
pub proof fn law_best_before(query: Seq<char>, line: Seq<char>, upto: int)
    requires
        0 <= upto,
    ensures
        match best_before(query, line, upto).1 {
            Some(i) => {
                &&& 0 <= i < upto
                &&& best_before(query, line, upto).0 == score::similarity(
                    query,
                    line.subrange(i, i + query.len()),
                )
                &&& best_before(query, line, upto).0.bits > 0
                &&& forall|j: int|
                    0 <= j < i ==> score::similarity(
                        query,
                        #[trigger] line.subrange(j, j + query.len()),
                    ).bits < best_before(query, line, upto).0.bits
            },
            None => best_before(query, line, upto).0.bits == 0,
        },
        forall|j: int|
            0 <= j < upto ==> score::similarity(
                query,
                #[trigger] line.subrange(j, j + query.len()),
            ).bits <= best_before(query, line, upto).0.bits,
    decreases upto,
{
    if upto > 0 {
        law_best_before(query, line, upto - 1);
    }
}

/// A best window lies inside the line, between character boundaries.
proof fn lemma_best_window(query: Seq<char>, line: Seq<char>)
    ensures
        0 <= best_window(query, line).start,
        0 <= best_window(query, line).len,
        best_window(query, line).start + best_window(query, line).len <= encode_utf8(line).len(),
        is_char_boundary(encode_utf8(line), best_window(query, line).start),
        is_char_boundary(
            encode_utf8(line),
            best_window(query, line).start + best_window(query, line).len,
        ),
{
    bytes::lemma_text_bytes(line);
    if line.len() > 0 && 0 < query.len() < line.len() {
        let upto = line.len() - query.len() + 1;
        law_best_before(query, line, upto);
        if let Some(i) = best_before(query, line, upto).1 {
            bytes::lemma_char_offset(line, i, i + query.len());
        }
    }
}

/// Finds the stretch of a line that is most alike a query: its score, and its start and length
/// in bytes.
pub fn best_fuzzy_window(query: &str, line: &str) -> (r: (Score, usize, usize))
    ensures
        r.0 == best_window(query@, line@).score,
        r.1 == best_window(query@, line@).start,
        r.2 == best_window(query@, line@).len,
{
    let offsets = bytes::char_offsets(line);
    let query_chars = bytes::char_offsets(query).len() - 1;
    let line_chars = offsets.len() - 1;
    if line_chars == 0 || query_chars == 0 {
        return (Score { bits: 0 }, 0, 0);
    }
    let whole = bytes::byte_len(line);
    if query_chars >= line_chars {
        return (score::similarity_score(query, line), 0, whole);
    }
    let mut best_score = Score { bits: 0 };
    let mut best_start: usize = 0;
    let mut best_len: usize = whole;
    let mut i: usize = 0;
    let last = line_chars - query_chars;
    while i <= last
        invariant
            0 < query_chars < line_chars,
            query_chars == query@.len(),
            line_chars == line@.len(),
            last == line_chars - query_chars,
            i <= last + 1,
            whole == encode_utf8(line@).len(),
            offsets@.len() == line_chars + 1,
            forall|k: int| 0 <= k <= line_chars ==> #[trigger] offsets@[k] == bytes::char_offset(
                line@,
                k,
            ),
            best_score == best_before(query@, line@, i as int).0,
            match best_before(query@, line@, i as int).1 {
                Some(k) => {
                    &&& 0 <= k < i
                    &&& best_start == bytes::char_offset(line@, k)
                    &&& best_len == bytes::char_offset(line@, k + query_chars)
                        - bytes::char_offset(line@, k)
                },
                None => best_start == 0 && best_len == whole,
            },
        decreases last + 1 - i,
    {
        let start = offsets[i];
        let end = offsets[i + query_chars];
        proof {
            bytes::lemma_char_offset(line@, i as int, i + query_chars);
            encode_utf8_decode_utf8(line@.subrange(i as int, i + query_chars));
        }
        let score = score::similarity_score(query, bytes::slice(line, start, end));
        if score.bits > best_score.bits {
            best_score = score;
            best_start = start;
            best_len = end - start;
        }
        i += 1;
    }
    (best_score, best_start, best_len)
}

/// The end of the line that holds offset `from`: the next line feed before `to`, or `to`.
pub open spec fn line_end(text: Seq<u8>, from: int, to: int) -> int
    decreases to - from,
{
    if from >= to || text[from] == LINE_FEED {
        from
    } else {
        line_end(text, from + 1, to)
    }
}

/// The line end lies between the two offsets.
pub proof fn lemma_line_end(text: Seq<u8>, from: int, to: int)
    requires
        from <= to,
    ensures
        from <= line_end(text, from, to) <= to,
        line_end(text, from, to) < to ==> text[line_end(text, from, to)] == LINE_FEED,
        forall|i: int| from <= i < line_end(text, from, to) ==> text[i] != LINE_FEED,
    decreases to - from,
{
    if from < to && text[from] != LINE_FEED {
        lemma_line_end(text, from + 1, to);
    }
}

/// The hit that a line gives by similarity: its best window, where it reaches the threshold.
/// Empty lines and overlong ones give none.
pub open spec fn line_hit(
    query: Seq<char>,
    threshold: Score,
    text: Seq<u8>,
    from: int,
    end: int,
) -> Option<Hit> {
    let window = best_window(query, decode_utf8(text.subrange(from, end)));
    if 0 < end - from <= FUZZY_MAX_LINE_BYTES && score::reaches(window.score, threshold)
        && window.len > 0 {
        Some(Hit { at: from + window.start, len: window.len, score: Some(window.score) })
    } else {
        None
    }
}

/// The hits by similarity in the lines from `from` to `to`.
pub open spec fn fuzzy_hits(
    query: Seq<char>,
    threshold: Score,
    text: Seq<u8>,
    from: int,
    to: int,
) -> Seq<Hit>
    decreases to - from + 1,
{
    if from >= to {
        Seq::empty()
    } else {
        proof {
            lemma_line_end(text, from, to);
        }
        let end = line_end(text, from, to);
        let rest = fuzzy_hits(query, threshold, text, end + 1, to);
        match line_hit(query, threshold, text, from, end) {
            Some(hit) => seq![hit] + rest,
            None => rest,
        }
    }
}

/// The lengths of the lines from `from` to `to` that are too long to be compared.
pub open spec fn overlong_lines(text: Seq<u8>, from: int, to: int) -> Seq<nat>
    decreases to - from + 1,
{
    if from >= to {
        Seq::empty()
    } else {
        proof {
            lemma_line_end(text, from, to);
        }
        let end = line_end(text, from, to);
        let rest = overlong_lines(text, end + 1, to);
        if end - from > FUZZY_MAX_LINE_BYTES {
            seq![(end - from) as nat] + rest
        } else {
            rest
        }
    }
}

/// The sum of some lengths.
pub open spec fn total(lens: Seq<nat>) -> nat
    decreases lens.len(),
{
    if lens.len() == 0 {
        0
    } else {
        lens[0] + total(lens.skip(1))
    }
}

/// `n`, or `max` where `n` is larger.
pub open spec fn at_most(n: int, max: int) -> int {
    if n > max {
        max
    } else {
        n
    }
}

/// A hit of a search, as it is found.
#[derive(Clone, Copy)]
pub struct Found {
    pub at: usize,
    pub len: usize,
    pub score: Option<Score>,
}

impl View for Found {
    type V = Hit;

    open spec fn view(&self) -> Hit {
        Hit { at: self.at as int, len: self.len as int, score: self.score }
    }
}

/// Whether a hit lies between two offsets and on character boundaries.
pub open spec fn hit_inside(text: Seq<u8>, from: int, to: int, hit: Hit) -> bool {
    &&& from <= hit.at
    &&& 0 <= hit.len
    &&& hit.at + hit.len <= to
    &&& is_char_boundary(text, hit.at)
    &&& is_char_boundary(text, hit.at + hit.len)
}

/// Whether hits lie between two offsets, on character boundaries, in strictly ascending order.
pub open spec fn hits_inside(text: Seq<u8>, from: int, to: int, hits: Seq<Hit>) -> bool {
    &&& forall|i: int| 0 <= i < hits.len() ==> hit_inside(text, from, to, #[trigger] hits[i])
    &&& forall|i: int, j: int|
        0 <= i < j < hits.len() ==> (#[trigger] hits[i]).at < (#[trigger] hits[j]).at
}

/// A line feed begins and ends a character.
proof fn lemma_line_feed(text: Seq<u8>, at: int)
    requires
        valid_utf8(text),
        0 <= at < text.len(),
        text[at] == LINE_FEED,
    ensures
        is_char_boundary(text, at),
        is_char_boundary(text, at + 1),
{
    let part = encode_utf8(seq!['\n']);
    reveal_with_fuel(encode_utf8, 2);
    bytes::lemma_text_bytes(seq!['\n']);
    assert('\n' as u32 == 10);
    assert((10u32 & 0x7f) as u8 == 10) by (bit_vector);
    assert(part =~= seq![LINE_FEED]);
    assert(text.subrange(at, at + 1) =~= part);
    bytes::lemma_occurrence_boundaries(text, part, at);
}

/// Both ends of a line are character boundaries.
proof fn lemma_line_boundaries(text: Seq<u8>, from: int, to: int)
    requires
        valid_utf8(text),
        0 <= from < to <= text.len(),
        is_char_boundary(text, from),
        is_char_boundary(text, to),
    ensures
        is_char_boundary(text, line_end(text, from, to)),
        line_end(text, from, to) < to ==> is_char_boundary(text, line_end(text, from, to) + 1),
{
    lemma_line_end(text, from, to);
    let end = line_end(text, from, to);
    if end < to {
        lemma_line_feed(text, end);
    }
}

/// A hit in a line lies inside the line.
proof fn lemma_line_hit(query: Seq<char>, threshold: Score, text: Seq<u8>, from: int, end: int)
    requires
        valid_utf8(text),
        0 <= from <= end <= text.len(),
        is_char_boundary(text, from),
        is_char_boundary(text, end),
    ensures
        match line_hit(query, threshold, text, from, end) {
            Some(hit) => hit_inside(text, from, end, hit) && hit.len > 0,
            None => true,
        },
{
    let stretch = text.subrange(from, end);
    bytes::lemma_stretch(text, from, end);
    decode_utf8_encode_utf8(stretch);
    lemma_best_window(query, decode_utf8(stretch));
}

/// Hits by similarity lie inside the stretch, on boundaries, in strictly ascending order.
pub proof fn lemma_fuzzy_hits(query: Seq<char>, threshold: Score, text: Seq<u8>, from: int, to: int)
    requires
        valid_utf8(text),
        0 <= from,
        to <= text.len(),
        from <= to ==> is_char_boundary(text, from),
        is_char_boundary(text, to),
    ensures
        hits_inside(text, from, to, fuzzy_hits(query, threshold, text, from, to)),
    decreases to - from + 1,
{
    if from < to {
        lemma_line_end(text, from, to);
        lemma_line_boundaries(text, from, to);
        let end = line_end(text, from, to);
        lemma_fuzzy_hits(query, threshold, text, end + 1, to);
        lemma_line_hit(query, threshold, text, from, end);
        let rest = fuzzy_hits(query, threshold, text, end + 1, to);
        if let Some(hit) = line_hit(query, threshold, text, from, end) {
            let all = seq![hit] + rest;
            assert forall|i: int| 0 <= i < all.len() implies hit_inside(
                text,
                from,
                to,
                #[trigger] all[i],
            ) by {
                if i > 0 {
                    assert(all[i] == rest[i - 1]);
                }
            }
            assert forall|i: int, j: int| 0 <= i < j < all.len() implies (#[trigger] all[i]).at < (
            #[trigger] all[j]).at by {
                assert(all[j] == rest[j - 1]);
                if i > 0 {
                    assert(all[i] == rest[i - 1]);
                }
            }
        } else {
            assert forall|i: int| 0 <= i < rest.len() implies hit_inside(
                text,
                from,
                to,
                #[trigger] rest[i],
            ) by {
                assert(hit_inside(text, end + 1, to, rest[i]));
            }
        }
    }
}

/// Finds the hits by similarity between two boundaries; with them come the number and the
/// total length of the lines that are too long to be compared.
fn find_fuzzy(query: &str, threshold: Score, text: &str, from: usize, to: usize) -> (r: (
    Vec<Found>,
    u32,
    u64,
))
    requires
        from <= to <= text.spec_bytes().len(),
        is_char_boundary(text.spec_bytes(), from as int),
        is_char_boundary(text.spec_bytes(), to as int),
    ensures
        types::views(r.0@) == fuzzy_hits(
            query@,
            threshold,
            text.spec_bytes(),
            from as int,
            to as int,
        ),
        r.1 == at_most(
            overlong_lines(text.spec_bytes(), from as int, to as int).len() as int,
            u32::MAX as int,
        ),
        r.2 == at_most(
            total(overlong_lines(text.spec_bytes(), from as int, to as int)) as int,
            u64::MAX as int,
        ),
{
    let raw = text.as_bytes();
    let ghost t = text.spec_bytes();
    let ghost whole = fuzzy_hits(query@, threshold, t, from as int, to as int);
    let ghost long = overlong_lines(t, from as int, to as int);
    let ghost mut lines_before: nat = 0;
    let ghost mut bytes_before: nat = 0;
    let mut hits: Vec<Found> = Vec::new();
    let mut lines: u32 = 0;
    let mut skipped: u64 = 0;
    let mut at: usize = from;
    proof {
        bytes::lemma_text_bytes(text@);
        assert(types::views(hits@) + whole =~= whole);
    }
    while at < to
        invariant
            raw@ == t,
            t == text.spec_bytes(),
            valid_utf8(t),
            at <= to <= t.len(),
            is_char_boundary(t, at as int),
            is_char_boundary(t, to as int),
            whole == types::views(hits@) + fuzzy_hits(query@, threshold, t, at as int, to as int),
            long.len() == lines_before + overlong_lines(t, at as int, to as int).len(),
            total(long) == bytes_before + total(overlong_lines(t, at as int, to as int)),
            lines == at_most(lines_before as int, u32::MAX as int),
            skipped == at_most(bytes_before as int, u64::MAX as int),
        decreases to - at,
    {
        let mut end: usize = at;
        while end < to && raw[end] != LINE_FEED
            invariant
                raw@ == t,
                at <= end <= to <= t.len(),
                line_end(t, end as int, to as int) == line_end(t, at as int, to as int),
            decreases to - end,
        {
            end += 1;
        }
        proof {
            lemma_line_end(t, at as int, to as int);
            lemma_line_boundaries(t, at as int, to as int);
            lemma_line_hit(query@, threshold, t, at as int, end as int);
        }
        let line_len = end - at;
        if line_len > 0 {
            if line_len > FUZZY_MAX_LINE_BYTES {
                lines = lines.saturating_add(1);
                skipped = skipped.saturating_add(line_len as u64);
                proof {
                    let rest = overlong_lines(t, end + 1, to as int);
                    let all = overlong_lines(t, at as int, to as int);
                    assert(all.skip(1) =~= rest);
                    lines_before = lines_before + 1;
                    bytes_before = bytes_before + line_len as nat;
                }
            } else {
                let line = bytes::slice(text, at, end);
                let (score, start, len) = best_fuzzy_window(query, line);
                if score::score_reaches(score, threshold) && len > 0 {
                    let found = Found { at: at + start, len, score: Some(score) };
                    let ghost before = hits@;
                    hits.push(found);
                    proof {
                        assert(types::views(hits@) =~= types::views(before).push(found@));
                        assert(types::views(before) + (seq![found@] + fuzzy_hits(
                            query@,
                            threshold,
                            t,
                            end + 1,
                            to as int,
                        )) =~= types::views(hits@) + fuzzy_hits(
                            query@,
                            threshold,
                            t,
                            end + 1,
                            to as int,
                        ));
                    }
                }
            }
        }
        if end == to {
            at = to;
            proof {
                assert(fuzzy_hits(query@, threshold, t, end + 1, to as int) =~= fuzzy_hits(
                    query@,
                    threshold,
                    t,
                    to as int,
                    to as int,
                ));
                assert(overlong_lines(t, end + 1, to as int) =~= overlong_lines(
                    t,
                    to as int,
                    to as int,
                ));
            }
        } else {
            at = end + 1;
        }
    }
    proof {
        assert(types::views(hits@) =~= whole);
    }
    (hits, lines, skipped)
}

/// What is searched for, where, and how.
pub struct Scan {
    /// The name of the buffer.
    pub buffer: Seq<char>,
    /// The text of the buffer that is at hand.
    pub text: Seq<u8>,
    /// The offset in the buffer at which the text begins.
    pub base: int,
    pub query: Seq<char>,
    /// How many bytes to show on either side of a match.
    pub context: int,
    /// Whether matches carry how alike the query they are.
    pub include_similarity: bool,
    pub mode: SearchMode,
    /// Whether lines are compared with the query for similarity.
    pub fuzzy: bool,
    pub threshold: Score,
    /// Where in the text the search begins and ends.
    pub start: int,
    pub end: int,
}

/// The occurrences of the query as it stands, or the matches of the query as a pattern.
pub open spec fn direct_hits(scan: Scan) -> Seq<Hit> {
    match scan.mode {
        SearchMode::Literal => {
            let part = encode_utf8(scan.query);
            bytes::occurrences(scan.text.take(scan.end), part, scan.start).map_values(
                |at: int| Hit { at, len: part.len() as int, score: None },
            )
        },
        SearchMode::Regex => {
            let stretch = decode_utf8(scan.text.subrange(scan.start, scan.end));
            outside::regex_spans(scan.query, stretch).map_values(
                |span: (int, int)|
                    Hit { at: scan.start + span.0, len: span.1 - span.0, score: None },
            )
        },
    }
}

/// Two lists of hits in one, by offset; of the second list only those count at whose offset the
/// first has none.
pub open spec fn merged(direct: Seq<Hit>, fuzzy: Seq<Hit>) -> Seq<Hit>
    decreases direct.len() + fuzzy.len(),
{
    if fuzzy.len() == 0 {
        direct
    } else if direct.len() == 0 {
        fuzzy
    } else if direct[0].at == fuzzy[0].at {
        merged(direct, fuzzy.skip(1))
    } else if direct[0].at < fuzzy[0].at {
        seq![direct[0]] + merged(direct.skip(1), fuzzy)
    } else {
        seq![fuzzy[0]] + merged(direct, fuzzy.skip(1))
    }
}

/// The hits of a search, by offset.
pub open spec fn hits_of(scan: Scan) -> Seq<Hit> {
    if scan.fuzzy {
        merged(
            direct_hits(scan),
            fuzzy_hits(scan.query, scan.threshold, scan.text, scan.start, scan.end),
        )
    } else {
        direct_hits(scan)
    }
}

/// The larger of two offsets.
pub open spec fn later(a: int, b: int) -> int {
    if a > b {
        a
    } else {
        b
    }
}

/// Where the text that is shown before a hit begins, inside the stretch that is searched.
pub open spec fn context_start(scan: Scan, hit: Hit) -> int {
    later(bytes::clamped(scan.text, later(hit.at - scan.context, 0), false), scan.start)
}

/// Where the text that is shown after a hit ends, inside the stretch that is searched.
pub open spec fn context_end(scan: Scan, hit: Hit) -> int {
    at_most(bytes::clamped(scan.text, hit.at + hit.len + scan.context, true), scan.end)
}

/// The match that is reported for a hit.
pub open spec fn match_of(scan: Scan, hit: Hit) -> types::MatchView {
    let from = context_start(scan, hit);
    let to = context_end(scan, hit);
    types::MatchView {
        match_id: scan.buffer + ":"@ + numbers::decimal_text((scan.base + hit.at) as nat),
        buffer: scan.buffer,
        offset_bytes: (scan.base + hit.at) as u64,
        match_len: hit.len as u32,
        context_start: (scan.base + from) as u64,
        context_end: (scan.base + to) as u64,
        snippet: decode_utf8(scan.text.subrange(from, to)),
        similarity: match hit.score {
            Some(score) => Some(score),
            None => if scan.include_similarity {
                Some(
                    score::similarity(
                        scan.query,
                        decode_utf8(scan.text.subrange(hit.at, hit.at + hit.len)),
                    ),
                )
            } else {
                None
            },
        },
    }
}

/// The matches that are reported for hits.
pub open spec fn matches_of(scan: Scan, hits: Seq<Hit>) -> Seq<types::MatchView> {
    hits.map_values(|hit: Hit| match_of(scan, hit))
}

/// Whether a search makes sense: the text is UTF-8 and, from its place in the buffer on, in
/// reach of offsets; the search begins and ends on character boundaries; there is something to
/// search for.
pub open spec fn scan_valid(scan: Scan) -> bool {
    &&& valid_utf8(scan.text)
    &&& 0 <= scan.base
    &&& scan.base + scan.text.len() <= usize::MAX
    &&& 0 <= scan.context
    &&& 0 <= scan.start <= scan.end <= scan.text.len()
    &&& is_char_boundary(scan.text, scan.start)
    &&& is_char_boundary(scan.text, scan.end)
    &&& scan.query.len() > 0
}

/// What the matches of a search have in common.
pub struct MatchContext<'a> {
    pub buffer: &'a str,
    pub text: &'a str,
    pub query: &'a str,
    pub context_bytes: usize,
    pub include_similarity: bool,
    pub base_offset: usize,
    pub mode: SearchMode,
    pub fuzzy: bool,
    pub threshold: Score,
    pub scan_start: usize,
    pub scan_end: usize,
}

impl<'a> View for MatchContext<'a> {
    type V = Scan;

    open spec fn view(&self) -> Scan {
        Scan {
            buffer: self.buffer@,
            text: self.text.spec_bytes(),
            base: self.base_offset as int,
            query: self.query@,
            context: self.context_bytes as int,
            include_similarity: self.include_similarity,
            mode: self.mode,
            fuzzy: self.fuzzy,
            threshold: self.threshold,
            start: self.scan_start as int,
            end: self.scan_end as int,
        }
    }
}

/// The context of a hit encloses it, and begins and ends on boundaries.
pub proof fn lemma_context(scan: Scan, hit: Hit)
    requires
        scan_valid(scan),
        hit_inside(scan.text, scan.start, scan.end, hit),
    ensures
        scan.start <= context_start(scan, hit) <= hit.at,
        hit.at + hit.len <= context_end(scan, hit) <= scan.end,
        is_char_boundary(scan.text, context_start(scan, hit)),
        is_char_boundary(scan.text, context_end(scan, hit)),
{
    bytes::law_clamped(scan.text, later(hit.at - scan.context, 0), false);
    bytes::law_clamped(scan.text, hit.at + hit.len + scan.context, true);
}

/// Law: the text that is shown with a match lies inside the stretch that is searched and
/// encloses the match, with at least the asked context on either side as far as the stretch
/// reaches.
pub proof fn law_context(scan: Scan, hit: Hit)
    requires
        scan_valid(scan),
        hit_inside(scan.text, scan.start, scan.end, hit),
    ensures
        scan.start <= context_start(scan, hit) <= hit.at,
        hit.at + hit.len <= context_end(scan, hit) <= scan.end,
        context_start(scan, hit) == scan.start || context_start(scan, hit) <= hit.at - scan.context,
        context_end(scan, hit) == scan.end || context_end(scan, hit) >= hit.at + hit.len
            + scan.context,
{
    lemma_context(scan, hit);
    bytes::law_clamped(scan.text, later(hit.at - scan.context, 0), false);
    bytes::law_clamped(scan.text, hit.at + hit.len + scan.context, true);
}

/// Builds the match that is reported for a hit.
pub fn build_match(ctx: &MatchContext<'_>, found: Found) -> (r: BufferSearchMatch)
    requires
        scan_valid(ctx@),
        hit_inside(ctx@.text, ctx@.start, ctx@.end, found@),
    ensures
        r@ == match_of(ctx@, found@),
        found.score is None && ctx.include_similarity && decode_utf8(
            ctx@.text.subrange(found.at as int, found.at + found.len),
        ) == ctx.query@ ==> r.similarity == Some(Score { bits: score::ONE_BITS }),
{
    let offset = found.at;
    let end = offset + found.len;
    proof {
        lemma_context(ctx@, found@);
    }
    let before = bytes::clamp_char_boundary(
        ctx.text,
        offset.saturating_sub(ctx.context_bytes),
        false,
    );
    let after = bytes::clamp_char_boundary(ctx.text, end.saturating_add(ctx.context_bytes), true);
    let bounded_start = if before > ctx.scan_start {
        before
    } else {
        ctx.scan_start
    };
    let bounded_end = if after > ctx.scan_end {
        ctx.scan_end
    } else {
        after
    };
    let snippet = bytes::slice(ctx.text, bounded_start, bounded_end).to_owned();
    let similarity = match found.score {
        Some(score) => Some(score),
        None => if ctx.include_similarity {
            Some(score::similarity_score(ctx.query, bytes::slice(ctx.text, offset, end)))
        } else {
            None
        },
    };
    let absolute = ctx.base_offset + offset;
    let mut match_id = ctx.buffer.to_owned();
    match_id.append(":");
    match_id.append(numbers::decimal(absolute as u64).as_str());
    BufferSearchMatch {
        match_id,
        buffer: ctx.buffer.to_owned(),
        offset_bytes: absolute as u64,
        match_len: found.len as u32,
        context_start: (ctx.base_offset + bounded_start) as u64,
        context_end: (ctx.base_offset + bounded_end) as u64,
        snippet,
        similarity,
    }
}

/// Occurrences of the query, and matches of a pattern, lie inside the stretch that is searched,
/// on boundaries, in strictly ascending order.
proof fn lemma_direct_hits(scan: Scan)
    requires
        scan_valid(scan),
        scan.mode is Regex ==> outside::spans_of(
            scan.text.subrange(scan.start, scan.end),
            outside::regex_spans(
                scan.query,
                decode_utf8(scan.text.subrange(scan.start, scan.end)),
            ),
        ),
    ensures
        hits_inside(scan.text, scan.start, scan.end, direct_hits(scan)),
{
    let hits = direct_hits(scan);
    match scan.mode {
        SearchMode::Literal => {
            let part = encode_utf8(scan.query);
            let head = scan.text.take(scan.end);
            let found = bytes::occurrences(head, part, scan.start);
            bytes::lemma_text_bytes(scan.query);
            bytes::lemma_char_offset(scan.query, 0, scan.query.len() as int);
            bytes::lemma_boundary_in_prefix(scan.text, scan.end, scan.start);
            bytes::law_occurrences_separate(head, part, scan.start);
            assert forall|i: int| 0 <= i < hits.len() implies hit_inside(
                scan.text,
                scan.start,
                scan.end,
                #[trigger] hits[i],
            ) by {
                let at = found[i];
                assert(crate::text::occurs_at(head, part, at));
                bytes::lemma_occurrence_boundaries(head, part, at);
                bytes::lemma_boundary_in_prefix(scan.text, scan.end, at);
                bytes::lemma_boundary_in_prefix(scan.text, scan.end, at + part.len());
            }
            assert forall|i: int, j: int| 0 <= i < j < hits.len() implies (
            #[trigger] hits[i]).at < (#[trigger] hits[j]).at by {
                assert(found[i] + part.len() <= found[j]);
            }
        },
        SearchMode::Regex => {
            let stretch = scan.text.subrange(scan.start, scan.end);
            let spans = outside::regex_spans(scan.query, decode_utf8(stretch));
            bytes::lemma_stretch(scan.text, scan.start, scan.end);
            assert forall|i: int| 0 <= i < hits.len() implies hit_inside(
                scan.text,
                scan.start,
                scan.end,
                #[trigger] hits[i],
            ) by {
                let span = spans[i];
                assert(hits[i].at == scan.start + span.0);
                assert(hits[i].at + hits[i].len == scan.start + span.1);
            }
            assert forall|i: int, j: int| 0 <= i < j < hits.len() implies (
            #[trigger] hits[i]).at < (#[trigger] hits[j]).at by {
                assert(spans[i].0 < spans[j].0);
            }
        },
    }
}

/// Finds the occurrences of the query, or the matches of the query as a pattern.
fn find_direct(ctx: &MatchContext<'_>) -> (hits: Vec<Found>)
    requires
        scan_valid(ctx@),
        ctx.mode is Regex ==> outside::regex_error(ctx.query@) is None,
    ensures
        types::views(hits@) == direct_hits(ctx@),
        hits_inside(ctx@.text, ctx@.start, ctx@.end, types::views(hits@)),
{
    let mut hits: Vec<Found> = Vec::new();
    let mut i: usize = 0;
    match ctx.mode {
        SearchMode::Literal => {
            let len = bytes::byte_len(ctx.query);
            proof {
                bytes::lemma_char_offset(ctx.query@, 0, ctx.query@.len() as int);
            }
            let found = bytes::find_occurrences(ctx.text, ctx.query, ctx.scan_start, ctx.scan_end);
            let ghost all = direct_hits(ctx@);
            while i < found.len()
                invariant
                    i <= found@.len(),
                    ctx.mode is Literal,
                    len == encode_utf8(ctx.query@).len(),
                    all == direct_hits(ctx@),
                    all.len() == found@.len(),
                    found@.map_values(|n: usize| n as int) == bytes::occurrences(
                        ctx@.text.take(ctx@.end),
                        encode_utf8(ctx.query@),
                        ctx@.start,
                    ),
                    types::views(hits@) == all.take(i as int),
                decreases found@.len() - i,
            {
                let ghost before = hits@;
                let hit = Found { at: found[i], len, score: None };
                hits.push(hit);
                proof {
                    assert(found@.map_values(|n: usize| n as int)[i as int] == found@[i as int]);
                    assert(all[i as int] == hit@);
                    assert(types::views(hits@) =~= types::views(before).push(hit@));
                    assert(all.take(i + 1) =~= all.take(i as int).push(hit@));
                }
                i += 1;
            }
            proof {
                assert(all.take(all.len() as int) =~= all);
                lemma_direct_hits(ctx@);
            }
        },
        SearchMode::Regex => {
            let stretch = bytes::slice(ctx.text, ctx.scan_start, ctx.scan_end);
            let spans = outside::find_regex(ctx.query, stretch);
            let ghost pairs = spans@.map_values(|s: (usize, usize)| (s.0 as int, s.1 as int));
            let ghost all = direct_hits(ctx@);
            while i < spans.len()
                invariant
                    i <= spans@.len(),
                    scan_valid(ctx@),
                    ctx.mode is Regex,
                    all == direct_hits(ctx@),
                    all.len() == spans@.len(),
                    pairs == spans@.map_values(|s: (usize, usize)| (s.0 as int, s.1 as int)),
                    pairs == outside::regex_spans(
                        ctx.query@,
                        decode_utf8(ctx@.text.subrange(ctx@.start, ctx@.end)),
                    ),
                    outside::spans_of(ctx@.text.subrange(ctx@.start, ctx@.end), pairs),
                    types::views(hits@) == all.take(i as int),
                decreases spans@.len() - i,
            {
                let ghost before = hits@;
                proof {
                    let span = spans@[i as int];
                    assert(pairs[i as int] == (span.0 as int, span.1 as int));
                }
                let (from, to) = spans[i];
                let hit = Found { at: ctx.scan_start + from, len: to - from, score: None };
                hits.push(hit);
                proof {
                    assert(all[i as int] == hit@);
                    assert(types::views(hits@) =~= types::views(before).push(hit@));
                    assert(all.take(i + 1) =~= all.take(i as int).push(hit@));
                }
                i += 1;
            }
            proof {
                assert(all.take(all.len() as int) =~= all);
                lemma_direct_hits(ctx@);
            }
        },
    }
    hits
}

/// Merging puts into one list every direct hit, every other hit that has an offset of its own,
/// and nothing else, in strictly ascending order.
pub open spec fn merge_of(direct: Seq<Hit>, fuzzy: Seq<Hit>, all: Seq<Hit>) -> bool {
    &&& forall|i: int, j: int|
        0 <= i < j < all.len() ==> (#[trigger] all[i]).at < (#[trigger] all[j]).at
    &&& forall|i: int| 0 <= i < direct.len() ==> all.contains(#[trigger] direct[i])
    &&& forall|i: int|
        0 <= i < fuzzy.len() ==> all.contains(#[trigger] fuzzy[i]) || exists|k: int|
            0 <= k < direct.len() && (#[trigger] direct[k]).at == fuzzy[i].at
    &&& forall|i: int|
        0 <= i < all.len() ==> direct.contains(#[trigger] all[i]) || (fuzzy.contains(all[i])
            && forall|k: int| 0 <= k < direct.len() ==> (#[trigger] direct[k]).at != all[i].at)
}

/// Whether hits are in strictly ascending order of their offsets.
pub open spec fn by_offset(hits: Seq<Hit>) -> bool {
    forall|i: int, j: int|
        0 <= i < j < hits.len() ==> (#[trigger] hits[i]).at < (#[trigger] hits[j]).at
}

/// Law: the merged list of two lists in strictly ascending order is in strictly ascending order
/// and holds every direct hit, every other hit that has an offset of its own, and nothing else.
pub proof fn law_merged(direct: Seq<Hit>, fuzzy: Seq<Hit>)
    requires
        by_offset(direct),
        by_offset(fuzzy),
    ensures
        merge_of(direct, fuzzy, merged(direct, fuzzy)),
    decreases direct.len() + fuzzy.len(),
{
    let all = merged(direct, fuzzy);
    if fuzzy.len() == 0 {
        assert forall|i: int| 0 <= i < direct.len() implies all.contains(#[trigger] direct[i]) by {
            assert(all[i] == direct[i]);
        }
    } else if direct.len() == 0 {
        assert forall|i: int| 0 <= i < fuzzy.len() implies all.contains(#[trigger] fuzzy[i]) by {
            assert(all[i] == fuzzy[i]);
        }
    } else {
        let d = direct[0];
        let f = fuzzy[0];
        let drest = direct.skip(1);
        let frest = fuzzy.skip(1);
        assert(by_offset(drest)) by {
            assert forall|i: int, j: int| 0 <= i < j < drest.len() implies (
            #[trigger] drest[i]).at < (#[trigger] drest[j]).at by {
                assert(drest[i] == direct[i + 1] && drest[j] == direct[j + 1]);
            }
        }
        assert(by_offset(frest)) by {
            assert forall|i: int, j: int| 0 <= i < j < frest.len() implies (
            #[trigger] frest[i]).at < (#[trigger] frest[j]).at by {
                assert(frest[i] == fuzzy[i + 1] && frest[j] == fuzzy[j + 1]);
            }
        }
        if d.at == f.at {
            law_merged(direct, frest);
            lemma_merge_drop(direct, fuzzy, all);
        } else if d.at < f.at {
            law_merged(drest, fuzzy);
            lemma_merge_direct(direct, fuzzy, merged(drest, fuzzy));
        } else {
            law_merged(direct, frest);
            lemma_merge_fuzzy(direct, fuzzy, merged(direct, frest));
        }
    }
}

/// A first hit by similarity that was found directly as well adds nothing.
proof fn lemma_merge_drop(direct: Seq<Hit>, fuzzy: Seq<Hit>, all: Seq<Hit>)
    requires
        direct.len() > 0,
        fuzzy.len() > 0,
        direct[0].at == fuzzy[0].at,
        merge_of(direct, fuzzy.skip(1), all),
    ensures
        merge_of(direct, fuzzy, all),
{
    let frest = fuzzy.skip(1);
    assert forall|i: int| 0 <= i < fuzzy.len() implies all.contains(#[trigger] fuzzy[i]) || exists|
        k: int,
    | 0 <= k < direct.len() && (#[trigger] direct[k]).at == fuzzy[i].at by {
        if i > 0 {
            assert(frest[i - 1] == fuzzy[i]);
        } else {
            assert(direct[0].at == fuzzy[i].at);
        }
    }
    assert forall|i: int| 0 <= i < all.len() && !direct.contains(#[trigger] all[i]) implies (
    fuzzy.contains(all[i]) && forall|k: int|
        0 <= k < direct.len() ==> (#[trigger] direct[k]).at != all[i].at) by {
        let k = choose|k: int| 0 <= k < frest.len() && frest[k] == all[i];
        assert(fuzzy[k + 1] == all[i]);
    }
}

/// A first direct hit goes before everything else.
proof fn lemma_merge_direct(direct: Seq<Hit>, fuzzy: Seq<Hit>, rest: Seq<Hit>)
    requires
        by_offset(direct),
        by_offset(fuzzy),
        direct.len() > 0,
        fuzzy.len() > 0,
        direct[0].at < fuzzy[0].at,
        merge_of(direct.skip(1), fuzzy, rest),
    ensures
        merge_of(direct, fuzzy, seq![direct[0]] + rest),
{
    let d = direct[0];
    let drest = direct.skip(1);
    let all = seq![d] + rest;
    assert forall|i: int| 0 <= i < rest.len() implies d.at < (#[trigger] rest[i]).at by {
        if drest.contains(rest[i]) {
            let k = choose|k: int| 0 <= k < drest.len() && drest[k] == rest[i];
            assert(direct[k + 1] == rest[i]);
        } else {
            let k = choose|k: int| 0 <= k < fuzzy.len() && fuzzy[k] == rest[i];
            assert(fuzzy[0].at <= fuzzy[k].at);
        }
    }
    assert forall|i: int, j: int| 0 <= i < j < all.len() implies (#[trigger] all[i]).at < (
    #[trigger] all[j]).at by {
        assert(all[j] == rest[j - 1]);
        if i > 0 {
            assert(all[i] == rest[i - 1]);
        }
    }
    assert forall|x: Hit| rest.contains(x) implies #[trigger] all.contains(x) by {
        let k = choose|k: int| 0 <= k < rest.len() && rest[k] == x;
        assert(all[k + 1] == x);
    }
    assert forall|i: int| 0 <= i < direct.len() implies all.contains(#[trigger] direct[i]) by {
        if i == 0 {
            assert(all[0] == d);
        } else {
            assert(drest[i - 1] == direct[i]);
        }
    }
    assert forall|i: int| 0 <= i < fuzzy.len() implies all.contains(#[trigger] fuzzy[i]) || exists|
        k: int,
    | 0 <= k < direct.len() && (#[trigger] direct[k]).at == fuzzy[i].at by {
        if !rest.contains(fuzzy[i]) {
            let k = choose|k: int| 0 <= k < drest.len() && (#[trigger] drest[k]).at == fuzzy[i].at;
            assert(direct[k + 1] == drest[k]);
        }
    }
    assert forall|i: int| 0 <= i < all.len() && !direct.contains(#[trigger] all[i]) implies (
    fuzzy.contains(all[i]) && forall|k: int|
        0 <= k < direct.len() ==> (#[trigger] direct[k]).at != all[i].at) by {
        if i == 0 {
            assert(direct[0] == all[0]);
        } else {
            let x = rest[i - 1];
            assert(all[i] == x);
            if drest.contains(x) {
                let k = choose|k: int| 0 <= k < drest.len() && drest[k] == x;
                assert(direct[k + 1] == x);
            }
            let l = choose|l: int| 0 <= l < fuzzy.len() && fuzzy[l] == x;
            assert(fuzzy[0].at <= fuzzy[l].at);
            assert forall|k: int| 0 <= k < direct.len() implies (#[trigger] direct[k]).at
                != x.at by {
                if k > 0 {
                    assert(drest[k - 1] == direct[k]);
                }
            }
        }
    }
}

/// A first hit by similarity before all direct ones goes first.
proof fn lemma_merge_fuzzy(direct: Seq<Hit>, fuzzy: Seq<Hit>, rest: Seq<Hit>)
    requires
        by_offset(direct),
        by_offset(fuzzy),
        direct.len() > 0,
        fuzzy.len() > 0,
        direct[0].at > fuzzy[0].at,
        merge_of(direct, fuzzy.skip(1), rest),
    ensures
        merge_of(direct, fuzzy, seq![fuzzy[0]] + rest),
{
    let f = fuzzy[0];
    let frest = fuzzy.skip(1);
    let all = seq![f] + rest;
    assert forall|i: int| 0 <= i < rest.len() implies f.at < (#[trigger] rest[i]).at by {
        if direct.contains(rest[i]) {
            let k = choose|k: int| 0 <= k < direct.len() && direct[k] == rest[i];
            assert(direct[0].at <= direct[k].at);
        } else {
            let k = choose|k: int| 0 <= k < frest.len() && frest[k] == rest[i];
            assert(fuzzy[k + 1] == rest[i]);
        }
    }
    assert forall|i: int, j: int| 0 <= i < j < all.len() implies (#[trigger] all[i]).at < (
    #[trigger] all[j]).at by {
        assert(all[j] == rest[j - 1]);
        if i > 0 {
            assert(all[i] == rest[i - 1]);
        }
    }
    assert forall|x: Hit| rest.contains(x) implies #[trigger] all.contains(x) by {
        let k = choose|k: int| 0 <= k < rest.len() && rest[k] == x;
        assert(all[k + 1] == x);
    }
    assert forall|i: int| 0 <= i < fuzzy.len() implies all.contains(#[trigger] fuzzy[i]) || exists|
        k: int,
    | 0 <= k < direct.len() && (#[trigger] direct[k]).at == fuzzy[i].at by {
        if i == 0 {
            assert(all[0] == f);
        } else {
            assert(frest[i - 1] == fuzzy[i]);
        }
    }
    assert forall|i: int| 0 <= i < all.len() && !direct.contains(#[trigger] all[i]) implies (
    fuzzy.contains(all[i]) && forall|k: int|
        0 <= k < direct.len() ==> (#[trigger] direct[k]).at != all[i].at) by {
        if i == 0 {
            assert(fuzzy[0] == all[0]);
            assert forall|k: int| 0 <= k < direct.len() implies (#[trigger] direct[k]).at
                != f.at by {
                assert(direct[0].at <= direct[k].at);
            }
        } else {
            let x = rest[i - 1];
            assert(all[i] == x);
            let k = choose|k: int| 0 <= k < frest.len() && frest[k] == x;
            assert(fuzzy[k + 1] == x);
        }
    }
}

/// Merged hits lie where the hits of the two lists lie.
proof fn lemma_merged_inside(
    text: Seq<u8>,
    from: int,
    to: int,
    direct: Seq<Hit>,
    fuzzy: Seq<Hit>,
)
    requires
        hits_inside(text, from, to, direct),
        hits_inside(text, from, to, fuzzy),
    ensures
        hits_inside(text, from, to, merged(direct, fuzzy)),
{
    let all = merged(direct, fuzzy);
    law_merged(direct, fuzzy);
    assert forall|i: int| 0 <= i < all.len() implies hit_inside(
        text,
        from,
        to,
        #[trigger] all[i],
    ) by {
        if direct.contains(all[i]) {
            let k = choose|k: int| 0 <= k < direct.len() && direct[k] == all[i];
            assert(hit_inside(text, from, to, direct[k]));
        } else {
            let k = choose|k: int| 0 <= k < fuzzy.len() && fuzzy[k] == all[i];
            assert(hit_inside(text, from, to, fuzzy[k]));
        }
    }
}

/// Law: the hits of a search lie inside the stretch that is searched, on character boundaries,
/// in strictly ascending order.
pub proof fn law_hits_inside(scan: Scan)
    requires
        scan_valid(scan),
        scan.mode is Regex ==> outside::spans_of(
            scan.text.subrange(scan.start, scan.end),
            outside::regex_spans(
                scan.query,
                decode_utf8(scan.text.subrange(scan.start, scan.end)),
            ),
        ),
    ensures
        hits_inside(scan.text, scan.start, scan.end, hits_of(scan)),
{
    lemma_direct_hits(scan);
    if scan.fuzzy {
        lemma_fuzzy_hits(scan.query, scan.threshold, scan.text, scan.start, scan.end);
        lemma_merged_inside(
            scan.text,
            scan.start,
            scan.end,
            direct_hits(scan),
            fuzzy_hits(scan.query, scan.threshold, scan.text, scan.start, scan.end),
        );
    }
}

/// Law: of two matches of a search the later one has the larger offset, and their ids differ.
pub proof fn law_matches_distinct(scan: Scan, i: int, j: int)
    requires
        scan_valid(scan),
        scan.mode is Regex ==> outside::spans_of(
            scan.text.subrange(scan.start, scan.end),
            outside::regex_spans(
                scan.query,
                decode_utf8(scan.text.subrange(scan.start, scan.end)),
            ),
        ),
        0 <= i < j < hits_of(scan).len(),
    ensures
        matches_of(scan, hits_of(scan))[i].offset_bytes < matches_of(
            scan,
            hits_of(scan),
        )[j].offset_bytes,
        matches_of(scan, hits_of(scan))[i].match_id != matches_of(
            scan,
            hits_of(scan),
        )[j].match_id,
{
    let hits = hits_of(scan);
    law_hits_inside(scan);
    assert(hit_inside(scan.text, scan.start, scan.end, hits[i]));
    assert(hit_inside(scan.text, scan.start, scan.end, hits[j]));
    let a = (scan.base + hits[i].at) as nat;
    let b = (scan.base + hits[j].at) as nat;
    let head = scan.buffer + ":"@;
    let x = numbers::decimal_text(a);
    let y = numbers::decimal_text(b);
    numbers::law_decimal_round_trip(a, u64::MAX as nat);
    numbers::law_decimal_round_trip(b, u64::MAX as nat);
    if head + x == head + y {
        assert((head + x).skip(head.len() as int) =~= x);
        assert((head + y).skip(head.len() as int) =~= y);
    }
}

/// Merges two lists of hits.
fn merge_hits(direct: &Vec<Found>, fuzzy: &Vec<Found>) -> (all: Vec<Found>)
    ensures
        types::views(all@) == merged(types::views(direct@), types::views(fuzzy@)),
{
    let ghost d = types::views(direct@);
    let ghost f = types::views(fuzzy@);
    let mut all: Vec<Found> = Vec::new();
    let mut i: usize = 0;
    let mut j: usize = 0;
    proof {
        assert(d.skip(0) =~= d);
        assert(f.skip(0) =~= f);
        assert(types::views(all@) + merged(d, f) =~= merged(d, f));
    }
    while i < direct.len() && j < fuzzy.len()
        invariant
            d == types::views(direct@),
            f == types::views(fuzzy@),
            i <= direct@.len(),
            j <= fuzzy@.len(),
            types::views(all@) + merged(d.skip(i as int), f.skip(j as int)) == merged(d, f),
        decreases direct@.len() - i + fuzzy@.len() - j,
    {
        let a = direct[i];
        let b = fuzzy[j];
        let ghost before = all@;
        let ghost rest = merged(d.skip(i as int), f.skip(j as int));
        proof {
            assert(d.skip(i as int)[0] == a@);
            assert(f.skip(j as int)[0] == b@);
            assert(d.skip(i as int).skip(1) =~= d.skip(i + 1));
            assert(f.skip(j as int).skip(1) =~= f.skip(j + 1));
        }
        if a.at == b.at {
            j += 1;
        } else if a.at < b.at {
            all.push(a);
            i += 1;
            proof {
                assert(types::views(all@) =~= types::views(before).push(a@));
                assert(types::views(before) + rest =~= types::views(all@) + merged(
                    d.skip(i as int),
                    f.skip(j as int),
                ));
            }
        } else {
            all.push(b);
            j += 1;
            proof {
                assert(types::views(all@) =~= types::views(before).push(b@));
                assert(types::views(before) + rest =~= types::views(all@) + merged(
                    d.skip(i as int),
                    f.skip(j as int),
                ));
            }
        }
    }
    while i < direct.len()
        invariant
            d == types::views(direct@),
            f == types::views(fuzzy@),
            i <= direct@.len(),
            j <= fuzzy@.len(),
            i < direct@.len() ==> j == fuzzy@.len(),
            types::views(all@) + merged(d.skip(i as int), f.skip(j as int)) == merged(d, f),
        decreases direct@.len() - i,
    {
        let ghost before = all@;
        let hit = direct[i];
        all.push(hit);
        proof {
            assert(types::views(all@) =~= types::views(before).push(hit@));
            assert(types::views(before) + d.skip(i as int) =~= types::views(all@) + d.skip(i + 1));
        }
        i += 1;
    }
    while j < fuzzy.len()
        invariant
            d == types::views(direct@),
            f == types::views(fuzzy@),
            i == direct@.len(),
            j <= fuzzy@.len(),
            types::views(all@) + merged(d.skip(i as int), f.skip(j as int)) == merged(d, f),
        decreases fuzzy@.len() - j,
    {
        let ghost before = all@;
        let hit = fuzzy[j];
        all.push(hit);
        proof {
            assert(types::views(all@) =~= types::views(before).push(hit@));
            assert(types::views(before) + f.skip(j as int) =~= types::views(all@) + f.skip(j + 1));
            assert(d.skip(i as int) + f.skip(j + 1) =~= f.skip(j + 1));
        }
        j += 1;
    }
    proof {
        assert(types::views(all@) =~= merged(d, f));
    }
    all
}

/// The matches of a search in one text, with the number and the total length of the lines that
/// were too long to be compared for similarity.
pub struct MatchCollection {
    pub matches: Vec<BufferSearchMatch>,
    pub fuzzy_skipped_lines: u32,
    pub fuzzy_skipped_bytes: u64,
}

/// How many lines were too long to be compared, as far as the number is counted.
pub open spec fn skipped_lines(scan: Scan) -> u32 {
    if scan.fuzzy {
        at_most(
            overlong_lines(scan.text, scan.start, scan.end).len() as int,
            u32::MAX as int,
        ) as u32
    } else {
        0
    }
}

/// The total length of the lines that were too long to be compared, as far as it is counted.
pub open spec fn skipped_bytes(scan: Scan) -> u64 {
    if scan.fuzzy {
        at_most(
            total(overlong_lines(scan.text, scan.start, scan.end)) as int,
            u64::MAX as int,
        ) as u64
    } else {
        0
    }
}

/// Collects the matches of a search in one text, by offset.
pub fn collect_matches(ctx: &MatchContext<'_>) -> (r: MatchCollection)
    requires
        scan_valid(ctx@),
        ctx.mode is Regex ==> outside::regex_error(ctx.query@) is None,
    ensures
        types::views(r.matches@) == matches_of(ctx@, hits_of(ctx@)),
        hits_inside(ctx@.text, ctx@.start, ctx@.end, hits_of(ctx@)),
        r.fuzzy_skipped_lines == skipped_lines(ctx@),
        r.fuzzy_skipped_bytes == skipped_bytes(ctx@),
{
    let direct = find_direct(ctx);
    let (hits, lines, skipped) = if ctx.fuzzy {
        let (fuzzy, lines, skipped) = find_fuzzy(
            ctx.query,
            ctx.threshold,
            ctx.text,
            ctx.scan_start,
            ctx.scan_end,
        );
        proof {
            lemma_fuzzy_hits(ctx@.query, ctx@.threshold, ctx@.text, ctx@.start, ctx@.end);
            lemma_merged_inside(
                ctx@.text,
                ctx@.start,
                ctx@.end,
                types::views(direct@),
                types::views(fuzzy@),
            );
        }
        (merge_hits(&direct, &fuzzy), lines, skipped)
    } else {
        (direct, 0, 0)
    };
    let ghost all = types::views(hits@);
    let mut matches: Vec<BufferSearchMatch> = Vec::new();
    let mut i: usize = 0;
    while i < hits.len()
        invariant
            i <= hits@.len(),
            scan_valid(ctx@),
            all == types::views(hits@),
            hits_inside(ctx@.text, ctx@.start, ctx@.end, all),
            types::views(matches@) == matches_of(ctx@, all.take(i as int)),
        decreases hits@.len() - i,
    {
        proof {
            assert(all[i as int] == hits@[i as int]@);
        }
        let found = build_match(ctx, hits[i]);
        let ghost before = matches@;
        matches.push(found);
        proof {
            assert(types::views(matches@) =~= types::views(before).push(found@));
            assert(matches_of(ctx@, all.take(i + 1)) =~= matches_of(ctx@, all.take(i as int)).push(
                match_of(ctx@, all[i as int]),
            ));
        }
        i += 1;
    }
    proof {
        assert(all.take(all.len() as int) =~= all);
    }
    MatchCollection { matches, fuzzy_skipped_lines: lines, fuzzy_skipped_bytes: skipped }
}

} // verus!
