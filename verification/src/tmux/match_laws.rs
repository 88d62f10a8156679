//! What holds of the matches of a search, one by one.

use vstd::prelude::*;
use vstd::utf8::*;

use crate::bytes;
use crate::numbers;
use crate::outside;
use crate::score;
use crate::score::Score;
use crate::tmux::matching;

verus! {

/// Law: what is reported of a hit. Its offset counts from the start of the buffer, its id is the
/// name of the buffer and that offset, its length is in bytes. The text that is shown is the text
/// of the buffer between the two context offsets. These lie in the stretch that is searched, as
/// many bytes before and after the hit as are asked for, moved outward to the ends of a character,
/// or at an end of the stretch where that comes first.
pub proof fn law_match(scan: matching::Scan, hit: matching::Hit)
    requires
        matching::scan_valid(scan),
        matching::hit_inside(scan.text, scan.start, scan.end, hit),
        hit.len <= u32::MAX,
    ensures
        ({
            let m = matching::match_of(scan, hit);
            let from = m.context_start - scan.base;
            let to = m.context_end - scan.base;
            let before = hit.at - scan.context;
            let after = hit.at + hit.len + scan.context;
            &&& m.buffer == scan.buffer
            &&& m.offset_bytes == scan.base + hit.at
            &&& m.match_id == scan.buffer + seq![':'] + numbers::decimal_text(m.offset_bytes as nat)
            &&& m.match_len == hit.len
            &&& encode_utf8(m.snippet) == scan.text.subrange(from, to)
            &&& scan.start <= from <= hit.at
            &&& hit.at + hit.len <= to <= scan.end
            &&& from == scan.start || from <= before
            &&& forall|i: int| from < i <= before ==> !is_char_boundary(scan.text, i)
            &&& to == scan.end || after <= to
            &&& forall|i: int| after <= i < to ==> !is_char_boundary(scan.text, i)
        }),
{
    let m = matching::match_of(scan, hit);
    let from = matching::context_start(scan, hit);
    let to = matching::context_end(scan, hit);
    matching::lemma_context(scan, hit);
    bytes::law_clamped(scan.text, matching::later(hit.at - scan.context, 0), false);
    bytes::law_clamped(scan.text, hit.at + hit.len + scan.context, true);
    bytes::lemma_stretch(scan.text, from, to);
    decode_utf8_encode_utf8(scan.text.subrange(from, to));
    reveal_strlit(":");
    assert(":"@ =~= seq![':']);
}

/// Law: the similarity that is reported. A hit that was found by similarity carries its score;
/// another one carries that of its text where scores are asked for, and none otherwise.
pub proof fn law_match_similarity(scan: matching::Scan, hit: matching::Hit)
    requires
        matching::scan_valid(scan),
        matching::hit_inside(scan.text, scan.start, scan.end, hit),
    ensures
        ({
            let m = matching::match_of(scan, hit);
            let found = decode_utf8(scan.text.subrange(hit.at, hit.at + hit.len));
            &&& hit.score is Some ==> m.similarity == hit.score
            &&& hit.score is None && scan.include_similarity ==> m.similarity == Some(
                score::similarity(scan.query, found),
            )
            &&& hit.score is None && !scan.include_similarity ==> m.similarity is None
        }),
{
}

/// Law: without similarity, the hits of a pattern are the matches that the pattern has in the text
/// that is searched, in their order, each at its place there.
pub proof fn law_pattern_hits(scan: matching::Scan)
    requires
        matching::scan_valid(scan),
        scan.mode is Regex,
        !scan.fuzzy,
    ensures
        ({
            let spans = outside::regex_spans(
                scan.query,
                decode_utf8(scan.text.subrange(scan.start, scan.end)),
            );
            let hits = matching::hits_of(scan);
            &&& hits.len() == spans.len()
            &&& forall|i: int|
                0 <= i < spans.len() ==> {
                    &&& (#[trigger] hits[i]).at == scan.start + spans[i].0
                    &&& hits[i].at + hits[i].len == scan.start + spans[i].1
                    &&& hits[i].score is None
                }
        }),
{
}

/// Law: with similarity, a search finds all that it finds without, and besides every line that is
/// alike enough at an offset of its own, and nothing else.
pub proof fn law_similar_lines_added(scan: matching::Scan)
    requires
        matching::scan_valid(scan),
        scan.fuzzy,
        scan.mode is Regex ==> outside::spans_of(
            scan.text.subrange(scan.start, scan.end),
            outside::regex_spans(
                scan.query,
                decode_utf8(scan.text.subrange(scan.start, scan.end)),
            ),
        ),
    ensures
        ({
            let plain = matching::hits_of(matching::Scan { fuzzy: false, ..scan });
            let alike = matching::fuzzy_hits(
                scan.query,
                scan.threshold,
                scan.text,
                scan.start,
                scan.end,
            );
            let all = matching::hits_of(scan);
            &&& forall|i: int| 0 <= i < plain.len() ==> all.contains(#[trigger] plain[i])
            &&& forall|i: int|
                0 <= i < alike.len() ==> exists|k: int|
                    0 <= k < all.len() && (#[trigger] all[k]).at == (#[trigger] alike[i]).at
            &&& forall|i: int|
                0 <= i < all.len() ==> plain.contains(#[trigger] all[i]) || (alike.contains(all[i])
                    && forall|k: int|
                    0 <= k < plain.len() ==> (#[trigger] plain[k]).at != all[i].at)
            &&& forall|i: int, j: int|
                0 <= i < j < all.len() ==> (#[trigger] all[i]).at < (#[trigger] all[j]).at
        }),
{
    let plain = matching::direct_hits(scan);
    let alike = matching::fuzzy_hits(
        scan.query,
        scan.threshold,
        scan.text,
        scan.start,
        scan.end,
    );
    let all = matching::hits_of(scan);
    assert(plain == matching::hits_of(matching::Scan { fuzzy: false, ..scan }));
    matching::law_hits_inside(matching::Scan { fuzzy: false, ..scan });
    matching::lemma_fuzzy_hits(scan.query, scan.threshold, scan.text, scan.start, scan.end);
    matching::law_merged(plain, alike);
    assert forall|i: int| 0 <= i < alike.len() implies exists|k: int|
        0 <= k < all.len() && (#[trigger] all[k]).at == (#[trigger] alike[i]).at by {
        if all.contains(alike[i]) {
            let k = choose|k: int| 0 <= k < all.len() && all[k] == alike[i];
            assert(all[k].at == alike[i].at);
        } else {
            let j = choose|j: int|
                0 <= j < plain.len() && (#[trigger] plain[j]).at == alike[i].at;
            assert(all.contains(plain[j]));
            let k = choose|k: int| 0 <= k < all.len() && all[k] == plain[j];
            assert(all[k].at == alike[i].at);
        }
    }
}

/// Law: lines are compared one by one. What two stretches with a line feed between them give is
/// what the first gives, and then what the second does.
pub proof fn law_lines_apart(
    query: Seq<char>,
    threshold: Score,
    text: Seq<u8>,
    from: int,
    feed: int,
    to: int,
)
    requires
        from <= feed < to,
        text[feed] == 10,
    ensures
        matching::fuzzy_hits(query, threshold, text, from, to) == matching::fuzzy_hits(
            query,
            threshold,
            text,
            from,
            feed,
        ) + matching::fuzzy_hits(query, threshold, text, feed + 1, to),
        matching::overlong_lines(text, from, to) == matching::overlong_lines(text, from, feed)
            + matching::overlong_lines(text, feed + 1, to),
    decreases feed - from,
{
    let end = matching::line_end(text, from, to);
    matching::lemma_line_end(text, from, to);
    let hits = matching::fuzzy_hits(query, threshold, text, feed + 1, to);
    let longs = matching::overlong_lines(text, feed + 1, to);
    if from == feed {
        assert(end == from);
        assert(matching::fuzzy_hits(query, threshold, text, from, feed) + hits =~= hits);
        assert(matching::overlong_lines(text, from, feed) + longs =~= longs);
    } else {
        matching::lemma_line_end(text, from, feed);
        let short = matching::line_end(text, from, feed);
        assert(end <= feed);
        assert(short == end) by {
            if short < end {
                assert(text[short] != matching::LINE_FEED);
            } else if short > end {
                assert(text[end] != matching::LINE_FEED);
            }
        }
        if end < feed {
            law_lines_apart(query, threshold, text, end + 1, feed, to);
        } else {
            assert(matching::fuzzy_hits(query, threshold, text, feed + 1, feed) + hits =~= hits);
            assert(matching::overlong_lines(text, feed + 1, feed) + longs =~= longs);
        }
        assert(matching::fuzzy_hits(query, threshold, text, from, to)
            =~= matching::fuzzy_hits(query, threshold, text, from, feed) + hits);
        assert(matching::overlong_lines(text, from, to) =~= matching::overlong_lines(
            text,
            from,
            feed,
        ) + longs);
    }
}

/// Law: what a single line gives. One of more than 4096 bytes is skipped and counted with its
/// length. Any other that is not empty gives its best window as a hit, exactly where the score of
/// that reaches the threshold.
pub proof fn law_one_line(
    query: Seq<char>,
    threshold: Score,
    text: Seq<u8>,
    from: int,
    to: int,
)
    requires
        0 <= from <= to <= text.len(),
        forall|i: int| from <= i < to ==> text[i] != 10,
    ensures
        ({
            let hits = matching::fuzzy_hits(query, threshold, text, from, to);
            let longs = matching::overlong_lines(text, from, to);
            let best = matching::best_window(query, decode_utf8(text.subrange(from, to)));
            let compared = 0 < to - from <= 4_096;
            &&& to - from > 4_096 <==> longs.len() == 1
            &&& to - from <= 4_096 <==> longs.len() == 0
            &&& to - from > 4_096 ==> longs[0] == to - from
            &&& hits.len() <= 1
            &&& hits.len() == 1 <==> compared && best.len > 0 && score::reaches(
                best.score,
                threshold,
            )
            &&& hits.len() == 1 ==> hits[0].at == from + best.start && hits[0].len == best.len
                && hits[0].score == Some(best.score)
        }),
{
    matching::lemma_line_end(text, from, to);
    if from < to {
        let end = matching::line_end(text, from, to);
        assert(end == to);
        assert(matching::fuzzy_hits(query, threshold, text, end + 1, to).len() == 0);
        assert(matching::overlong_lines(text, end + 1, to).len() == 0);
    }
}

/// Law: the best window of a line is as many characters of it as the query has, namely those that
/// are most alike the query, and of several the first. A line that is no longer than the query is
/// compared as a whole, and so counts one in which nothing is alike at all.
pub proof fn law_best_window(query: Seq<char>, line: Seq<char>)
    requires
        line.len() > 0,
        query.len() > 0,
    ensures
        ({
            let best = matching::best_window(query, line);
            let whole = encode_utf8(line).len();
            &&& query.len() >= line.len() ==> best.start == 0 && best.len == whole && best.score
                == score::similarity(query, line)
            &&& query.len() < line.len() ==> {
                &&& forall|j: int|
                    0 <= j <= line.len() - query.len() ==> score::similarity(
                        query,
                        #[trigger] line.subrange(j, j + query.len()),
                    ).bits <= best.score.bits
                &&& best.score.bits == 0 ==> best.start == 0 && best.len == whole
                &&& best.score.bits > 0 ==> exists|i: int|
                    {
                        &&& 0 <= i <= line.len() - query.len()
                        &&& best.start == encode_utf8(line.take(i)).len()
                        &&& best.len == encode_utf8(line.subrange(i, i + query.len())).len()
                        &&& best.score == score::similarity(
                            query,
                            #[trigger] line.subrange(i, i + query.len()),
                        )
                        &&& forall|j: int|
                            0 <= j < i ==> score::similarity(
                                query,
                                #[trigger] line.subrange(j, j + query.len()),
                            ).bits < best.score.bits
                    }
            }
        }),
{
    if query.len() < line.len() {
        let upto = line.len() - query.len() + 1;
        matching::law_best_before(query, line, upto);
        if let Some(i) = matching::best_before(query, line, upto).1 {
            bytes::lemma_char_offset(line, i, i + query.len());
            assert(line.subrange(i, i + query.len()).len() == query.len());
        }
    }
}

/// Law: what was skipped is counted only where lines are compared, and then the number of the
/// lines and the sum of their lengths, as far as these can be counted.
pub proof fn law_skipped(scan: matching::Scan)
    ensures
        !scan.fuzzy ==> matching::skipped_lines(scan) == 0 && matching::skipped_bytes(scan) == 0,
        scan.fuzzy ==> {
            let longs = matching::overlong_lines(scan.text, scan.start, scan.end);
            &&& longs.len() <= u32::MAX ==> matching::skipped_lines(scan) == longs.len()
            &&& longs.len() > u32::MAX ==> matching::skipped_lines(scan) == u32::MAX
            &&& matching::total(longs) <= u64::MAX ==> matching::skipped_bytes(scan)
                == matching::total(longs)
            &&& matching::total(longs) > u64::MAX ==> matching::skipped_bytes(scan) == u64::MAX
        },
{
}

/// Law: sums are additive.
pub proof fn law_total(a: Seq<nat>, b: Seq<nat>, n: nat)
    ensures
        matching::total(a + b) == matching::total(a) + matching::total(b),
        matching::total(seq![n]) == n,
        matching::total(Seq::<nat>::empty()) == 0,
    decreases a.len(),
{
    reveal_with_fuel(matching::total, 2);
    assert(seq![n].skip(1) =~= Seq::<nat>::empty());
    if a.len() == 0 {
        assert(a + b =~= b);
    } else {
        law_total(a.skip(1), b, n);
        assert((a + b).skip(1) =~= a.skip(1) + b);
    }
}

/// Law: a threshold stays as it is from zero to one. Below zero it becomes zero, above one it
/// becomes one, and what is no number stays what it is.
pub proof fn law_threshold(bits: u32)
    ensures
        ({
            let bounded = score::bounded_threshold(Score { bits }).bits;
            &&& bits <= 0x3f80_0000 ==> bounded == bits
            &&& 0x3f80_0000 < bits <= 0x7f80_0000 ==> bounded == 0x3f80_0000
            &&& 0x7f80_0000 < bits < 0x8000_0000 ==> bounded == bits
            &&& 0x8000_0000 < bits <= 0xff80_0000 ==> bounded == 0
            &&& bits > 0xff80_0000 ==> bounded == bits
            &&& bits == 0x8000_0000 ==> bounded == bits
        }),
{
}

/// Law: a score from zero to one reaches a threshold in that range exactly where it is no lower,
/// reaches every negative zero, and reaches nothing that is no number.
pub proof fn law_reaches(score: Score, threshold: Score)
    requires
        score.bits <= 0x3f80_0000,
    ensures
        threshold.bits <= 0x3f80_0000 ==> (score::reaches(score, threshold) <==> score.bits
            >= threshold.bits),
        threshold.bits == 0x8000_0000 ==> score::reaches(score, threshold),
        0x7f80_0000 < threshold.bits < 0x8000_0000 || threshold.bits > 0xff80_0000
            ==> !score::reaches(score, threshold),
{
}

/// Law: the similarity of two texts is the ratio that is measured for them, rounded to single
/// precision: to the nearest number, and of two that are equally near to the even one.
pub proof fn law_similarity(query: Seq<char>, matched: Seq<char>)
    requires
        ({
            let ratio = outside::ratio_bits(query, matched);
            ratio == 0 || 0x3ca0_0000_0000_0000 <= ratio <= 0x3ff0_0000_0000_0000
        }),
    ensures
        ({
            let ratio = outside::ratio_bits(query, matched) as int;
            let bits = score::similarity(query, matched).bits;
            let off = (bits + 0x1_c000_0000) * 0x2000_0000 - ratio;
            &&& ratio == 0 ==> bits == 0
            &&& ratio > 0 ==> -0x1000_0000 <= off <= 0x1000_0000
            &&& ratio > 0 && (off == 0x1000_0000 || off == -0x1000_0000) ==> bits % 2 == 0
            &&& bits <= 0x3f80_0000
        }),
{
    let ratio = outside::ratio_bits(query, matched);
    if ratio > 0 {
        score::law_narrowed_nearest(ratio);
    }
}

/// Law: an occurrence that is found as it stands is no hit by similarity: it has no score of its own,
/// and is as long as the query.
pub proof fn law_literal_hit(scan: matching::Scan)
    requires
        matching::scan_valid(scan),
        scan.mode is Literal,
        !scan.fuzzy,
    ensures
        forall|i: int|
            0 <= i < matching::hits_of(scan).len() ==> (#[trigger] matching::hits_of(
                scan,
            )[i]).score is None && matching::hits_of(scan)[i].len == encode_utf8(scan.query).len(),
{
}

} // verus!
