//! What holds of searches that are gone through page by page.

use vstd::prelude::*;
use vstd::utf8::*;

use crate::bytes;
use crate::offsets;
use crate::outside;
use crate::score;
use crate::text;
use crate::tmux::match_laws;
use crate::tmux::matching;
use crate::tmux::search;
use crate::tmux::search_laws;
use crate::tmux::search_laws::{all_matches, places};
use crate::tmux::subsearch;
use crate::types;

verus! {

/// A name that none of the buffers has is not among those to go on with.
proof fn lemma_not_resumed(results: Seq<search::ScanView>, max_matches: int, name: Seq<char>)
    requires
        forall|i: int| 0 <= i < results.len() ==> (#[trigger] results[i]).name != name,
    ensures
        !search::gathered(results, max_matches).resume.dom().contains(name),
    decreases results.len(),
{
    if results.len() > 0 {
        let init = results.drop_last();
        assert forall|i: int| 0 <= i < init.len() implies (#[trigger] init[i]).name != name by {
            assert(init[i] == results[i]);
        }
        lemma_not_resumed(init, max_matches, name);
        assert(results[results.len() - 1].name != name);
    }
}

/// Law: where to go on. Matches are reported buffer by buffer until there is no room. A buffer
/// with matches that were found and not reported is gone on with at the first of these, also
/// where a part of it was not searched at all. One whose matches were all reported, but which was
/// not searched to its end, is gone on with where its search ended. Any other is done with.
pub proof fn law_where_to_go_on(results: Seq<search::ScanView>, max_matches: int, i: int)
    requires
        0 <= max_matches,
        0 <= i < results.len(),
        forall|a: int, b: int|
            0 <= a < b < results.len() ==> (#[trigger] results[a]).name != (
            #[trigger] results[b]).name,
    ensures
        ({
            let earlier = all_matches(results.take(i)).len();
            let found = results[i].matches;
            let reported = if earlier >= max_matches {
                0
            } else if earlier + found.len() > max_matches {
                max_matches - earlier
            } else {
                found.len() as int
            };
            let resume = search::gathered(results, max_matches).resume;
            let name = results[i].name;
            &&& reported < found.len() ==> resume.dom().contains(name) && resume[name]
                == found[reported].offset_bytes
            &&& reported == found.len() && results[i].truncated_by_scan ==> resume.dom().contains(
                name,
            ) && resume[name] == results[i].scan_end
            &&& reported == found.len() && !results[i].truncated_by_scan ==> !resume.dom().contains(
                name,
            )
        }),
    decreases results.len(),
{
    let init = results.drop_last();
    let n = results.len() - 1;
    let name = results[i].name;
    assert forall|a: int, b: int| 0 <= a < b < init.len() implies (#[trigger] init[a]).name != (
    #[trigger] init[b]).name by {
        assert(init[a] == results[a] && init[b] == results[b]);
    }
    if i < n {
        assert(init.take(i) =~= results.take(i));
        assert(init[i] == results[i]);
        law_where_to_go_on(init, max_matches, i);
        assert(results[i].name != results[n].name);
    } else {
        assert(results.take(i) =~= init);
        search_laws::law_reported_first(init, max_matches);
        assert forall|a: int| 0 <= a < init.len() implies (#[trigger] init[a]).name != name by {
            assert(init[a] == results[a]);
            assert(results[a].name != results[n].name);
        }
        lemma_not_resumed(init, max_matches, name);
    }
}

/// Law: a search begins at the offset that it is asked to go on from, or at the start of the
/// character that holds it, and otherwise at the start of the text. It ends where the text ends or
/// the bytes that it may cover do, or at the start of the character that stands there.
pub proof fn law_search_range(
    resume: Seq<(Seq<char>, u64)>,
    max_scan: usize,
    buffer: search::TextView,
)
    requires
        search::text_valid(buffer),
        search::resume_error(resume, buffer) is None,
    ensures
        ({
            let start = search::scan_start(resume, buffer);
            let end = search::scan_end(resume, max_scan, buffer);
            let limit = if start + max_scan > buffer.text.len() {
                buffer.text.len() as int
            } else {
                start + max_scan
            };
            &&& is_char_boundary(buffer.text, start)
            &&& is_char_boundary(buffer.text, end)
            &&& start <= end <= limit
            &&& forall|i: int| end < i <= limit ==> !is_char_boundary(buffer.text, i)
            &&& offsets::offset_in(resume, buffer.name) is None ==> start == 0
            &&& match offsets::offset_in(resume, buffer.name) {
                Some(offset) => buffer.base <= offset <= usize::MAX ==> {
                    &&& start <= offset - buffer.base
                    &&& forall|i: int|
                        start < i <= offset - buffer.base ==> !is_char_boundary(buffer.text, i)
                },
                None => true,
            }
            &&& match offsets::offset_in(resume, buffer.name) {
                Some(offset) => offset < buffer.base ==> start == 0,
                None => true,
            }
        }),
{
    search::law_scan_range(resume, max_scan, buffer);
    let start = search::scan_start(resume, buffer);
    let len = buffer.text.len() as int;
    let limit = if start + max_scan > len {
        len
    } else {
        start + max_scan
    };
    bytes::law_clamped(buffer.text, limit, false);
    if let Some(offset) = search::resume_at(resume, buffer) {
        bytes::law_clamped(buffer.text, matching::later(offset - buffer.base, 0), false);
    }
}

/// Law: what the search of a buffer gives. It names the buffer, says up to which offset of the
/// buffer it went, and that a part was left exactly where that is not the end of the buffer; its
/// matches are those of the hits that begin before its end, in their order.
pub proof fn law_search_of_buffer(settings: search::Settings, buffer: search::TextView)
    requires
        search::text_valid(buffer),
    ensures
        ({
            let r = search::scanned(settings, buffer);
            let scan = search_laws::scan_of(settings, buffer);
            let hits = matching::hits_of(scan).filter(|hit: matching::Hit| hit.at < scan.end);
            &&& r.name == buffer.name
            &&& r.scan_end == buffer.base + scan.end
            &&& r.truncated_by_scan <==> buffer.base + scan.end < buffer.full_len
            &&& r.matches.len() == hits.len()
            &&& forall|i: int|
                0 <= i < hits.len() ==> #[trigger] r.matches[i] == matching::match_of(
                    scan,
                    hits[i],
                )
            &&& scan.buffer == buffer.name
            &&& scan.text == buffer.text
            &&& scan.base == buffer.base
            &&& scan.query == settings.terms.query
            &&& scan.mode == settings.terms.mode
            &&& scan.context == settings.terms.context
            &&& scan.include_similarity == settings.terms.include_similarity
            &&& scan.fuzzy == settings.terms.fuzzy
            &&& scan.threshold == settings.terms.threshold
        }),
{
    search::law_scan_range(settings.resume, settings.max_scan, buffer);
}

/// Law: going through a literal search page by page, with any limit on the bytes that a page
/// covers, loses nothing that a page has covered. Every occurrence of the query in what the first
/// page covered is one of the matches that it reports, or overlaps one of them, or lies where the
/// next page begins or after it. The next page can be asked for, and begins at the first match
/// that was found and not reported, or else where the first page ended.
pub proof fn law_pages_lose_nothing(
    settings: search::Settings,
    buffer: search::TextView,
    entries: Seq<(Seq<char>, u64)>,
    at: int,
)
    requires
        search::text_valid(buffer),
        settings.terms.query.len() > 0,
        settings.terms.mode is Literal,
        !settings.terms.fuzzy,
        offsets::ascending(entries),
        offsets::offset_map(entries) == search::search_output(
            settings,
            seq![buffer],
        ).resume_from_offset,
        search::scan_start(settings.resume, buffer) <= at,
        at + encode_utf8(settings.terms.query).len() <= search::scan_end(
            settings.resume,
            settings.max_scan,
            buffer,
        ),
        text::occurs_at(buffer.text, encode_utf8(settings.terms.query), at),
    ensures
        ({
            let first = search::search_output(settings, seq![buffer]);
            let next = search::Settings { resume: entries, ..settings };
            &&& (exists|i: int|
                0 <= i < first.matches.len() && (#[trigger] first.matches[i]).offset_bytes
                    <= buffer.base + at < first.matches[i].offset_bytes + encode_utf8(
                    settings.terms.query,
                ).len()) || (entries.len() == 1 && entries[0].0 == buffer.name
                && search::scan_start(entries, buffer) <= at)
            &&& entries.len() > 0 ==> search::search_error(next, seq![buffer]) is None
        }),
{
    let scan = search_laws::scan_of(settings, buffer);
    let part = encode_utf8(settings.terms.query);
    let r = search::scanned(settings, buffer);
    let hits = search::hits_before_end(scan);
    let first = search::search_output(settings, seq![buffer]);
    let k = settings.max_matches as int;
    search::law_scan_range(settings.resume, settings.max_scan, buffer);
    search_laws::lemma_literal_before_end(scan);
    search_laws::law_literal_hits(scan);
    search_laws::law_literal_complete(scan, at);
    lemma_page(settings, buffer);
    bytes::lemma_char_offset(settings.terms.query, 0, settings.terms.query.len() as int);
    let j = choose|j: int|
        0 <= j < matching::hits_of(scan).len() && (#[trigger] matching::hits_of(scan)[j]).at <= at
            < matching::hits_of(scan)[j].at + matching::hits_of(scan)[j].len;
    assert(hits[j].len == part.len());
    assert(r.matches[j] == matching::match_of(scan, hits[j]));
    if j < k {
        assert(first.matches[j] == r.matches[j]);
    }
    if entries.len() > 0 {
        lemma_next_page(settings, buffer, entries);
    }
    if j >= k {
        let offset = r.matches[k].offset_bytes;
        assert(r.matches[k] == matching::match_of(scan, hits[k]));
        assert(map![buffer.name => offset].dom().contains(buffer.name));
        search_laws::lemma_single_entry(entries, buffer.name, offset);
        search_laws::law_literal_resume(settings, buffer, k);
        matching::law_hits_inside(scan);
        if k < j {
            assert(matching::hits_of(scan)[k].at < matching::hits_of(scan)[j].at);
        }
    }
}

/// What a search of one buffer reports, and where it goes on.
proof fn lemma_page(settings: search::Settings, buffer: search::TextView)
    ensures
        ({
            let r = search::scanned(settings, buffer);
            let output = search::search_output(settings, seq![buffer]);
            let k = settings.max_matches as int;
            &&& output.matches == r.matches.take(matching::at_most(r.matches.len() as int, k))
            &&& output.resume_from_offset == if k < r.matches.len() {
                map![buffer.name => r.matches[k].offset_bytes]
            } else if r.truncated_by_scan {
                map![buffer.name => r.scan_end]
            } else {
                Map::empty()
            }
        }),
{
    let r = search::scanned(settings, buffer);
    let k = settings.max_matches as int;
    let one = seq![r];
    let none = Seq::<search::ScanView>::empty();
    assert(seq![buffer].map_values(|b: search::TextView| search::scanned(settings, b)) =~= one);
    assert(one.drop_last() =~= none);
    assert(one.last() == r);
    let g = search::gathered(one, k);
    assert(g == search::gathered_with(search::gathered(none, k), k, r));
    assert(g.matches =~= r.matches.take(matching::at_most(r.matches.len() as int, k)));
    if k < r.matches.len() {
        assert(g.resume =~= map![buffer.name => r.matches[k].offset_bytes]);
    } else if r.truncated_by_scan {
        assert(g.resume =~= map![buffer.name => r.scan_end]);
    } else {
        assert(g.resume =~= Map::empty());
    }
}

/// The next page of a literal search can be asked for.
proof fn lemma_next_page(
    settings: search::Settings,
    buffer: search::TextView,
    entries: Seq<(Seq<char>, u64)>,
)
    requires
        search::text_valid(buffer),
        settings.terms.query.len() > 0,
        settings.terms.mode is Literal,
        !settings.terms.fuzzy,
        offsets::ascending(entries),
        offsets::offset_map(entries) == search::search_output(
            settings,
            seq![buffer],
        ).resume_from_offset,
        entries.len() > 0,
    ensures
        search::search_error(
            search::Settings { resume: entries, ..settings },
            seq![buffer],
        ) is None,
{
    let scan = search_laws::scan_of(settings, buffer);
    let r = search::scanned(settings, buffer);
    let k = settings.max_matches as int;
    let next = search::Settings { resume: entries, ..settings };
    lemma_page(settings, buffer);
    search::law_scan_range(settings.resume, settings.max_scan, buffer);
    offsets::lemma_offset_of_entry(entries, 0);
    assert(offsets::offset_map(entries).dom().contains(entries[0].0));
    if k < r.matches.len() {
        let hits = search::hits_before_end(scan);
        let offset = r.matches[k].offset_bytes;
        assert(r.matches[k] == matching::match_of(scan, hits[k]));
        search_laws::lemma_single_entry(entries, buffer.name, offset);
        search_laws::law_literal_resume(settings, buffer, k);
        search_laws::lemma_resume_accepted(next, buffer, offset);
    } else {
        assert(r.truncated_by_scan);
        let offset = r.scan_end;
        search_laws::lemma_single_entry(entries, buffer.name, offset);
        assert(entries.last() == (buffer.name, offset));
        assert(offsets::offset_in(entries, buffer.name) == Some(offset));
        search_laws::lemma_resume_accepted(next, buffer, offset);
    }
}

/// Law: where a literal search has reported all that it found, but may not cover the whole text
/// at once, the next page begins just where it ended: no byte is skipped and none is searched
/// twice.
pub proof fn law_next_page_adjoins(
    settings: search::Settings,
    buffer: search::TextView,
    entries: Seq<(Seq<char>, u64)>,
)
    requires
        search::text_valid(buffer),
        search::scanned(settings, buffer).matches.len() <= settings.max_matches,
        buffer.base + search::scan_end(settings.resume, settings.max_scan, buffer)
            < buffer.full_len,
        offsets::ascending(entries),
        offsets::offset_map(entries) == search::search_output(
            settings,
            seq![buffer],
        ).resume_from_offset,
    ensures
        search::resume_error(entries, buffer) is None,
        search::scan_start(entries, buffer) == search::scan_end(
            settings.resume,
            settings.max_scan,
            buffer,
        ),
        search::search_output(settings, seq![buffer]).matches == search::scanned(
            settings,
            buffer,
        ).matches,
{
    let r = search::scanned(settings, buffer);
    let end = search::scan_end(settings.resume, settings.max_scan, buffer);
    lemma_page(settings, buffer);
    search::law_scan_range(settings.resume, settings.max_scan, buffer);
    assert(r.truncated_by_scan);
    search_laws::lemma_single_entry(entries, buffer.name, r.scan_end);
    assert(entries.last() == (buffer.name, r.scan_end));
    assert(offsets::offset_in(entries, buffer.name) == Some(r.scan_end));
    bytes::law_clamped(buffer.text, end, false);
    assert(r.matches.take(r.matches.len() as int) =~= r.matches);
}

/// Law: where a literal search has left matches that it found, the next page reports these first,
/// in their order and under their ids, as many as it has room for, whatever the limit on the
/// bytes that a page covers.
pub proof fn law_left_matches_come_next(
    settings: search::Settings,
    buffer: search::TextView,
    entries: Seq<(Seq<char>, u64)>,
    max_matches: u32,
)
    requires
        search::text_valid(buffer),
        settings.terms.query.len() > 0,
        settings.terms.mode is Literal,
        !settings.terms.fuzzy,
        search::scanned(settings, buffer).matches.len() > settings.max_matches,
        offsets::ascending(entries),
        offsets::offset_map(entries) == search::search_output(
            settings,
            seq![buffer],
        ).resume_from_offset,
    ensures
        ({
            let found = places(search::scanned(settings, buffer).matches);
            let first = places(search::search_output(settings, seq![buffer]).matches);
            let next = search::Settings { resume: entries, max_matches, ..settings };
            let second = places(search::search_output(next, seq![buffer]).matches);
            let both = first + second;
            &&& first.len() == settings.max_matches
            &&& forall|i: int|
                0 <= i < both.len() && i < found.len() ==> #[trigger] both[i] == found[i]
            &&& both.len() < found.len() ==> second.len() == max_matches
        }),
{
    let scan = search_laws::scan_of(settings, buffer);
    let r = search::scanned(settings, buffer);
    let hits = search::hits_before_end(scan);
    let k = settings.max_matches as int;
    let offset = r.matches[k].offset_bytes;
    lemma_page(settings, buffer);
    assert(r.matches[k] == matching::match_of(scan, hits[k]));
    search_laws::lemma_single_entry(entries, buffer.name, offset);
    search_laws::law_literal_resume(settings, buffer, k);
    let next = search::Settings { resume: entries, max_matches, ..settings };
    let later = search_laws::scan_of(next, buffer);
    assert(later == search_laws::scan_of(
        search_laws::resumed(settings, buffer.name, offset),
        buffer,
    ));
    lemma_page(next, buffer);
    let more = search::hits_before_end(later);
    let rest = search::scanned(next, buffer).matches;
    let found = places(r.matches);
    let first = places(search::search_output(settings, seq![buffer]).matches);
    let second = places(search::search_output(next, seq![buffer]).matches);
    let both = first + second;
    assert forall|i: int| 0 <= i < both.len() && i < found.len() implies #[trigger] both[i]
        == found[i] by {
        if i >= k {
            assert(hits.skip(k)[i - k] == hits[i]);
            assert(more[i - k] == hits[i]);
            assert(rest[i - k] == matching::match_of(later, more[i - k]));
            assert(r.matches[i] == matching::match_of(scan, hits[i]));
        }
    }
    assert(more.len() >= hits.len() - k);
    assert(rest.len() == more.len());
}

/// Law: a subsearch covers the stretch around its anchor: from so many bytes before the anchor to
/// so many after it, as far as the buffer reaches. It begins at the offset that it is asked to go
/// on from, wherever in the stretch that lies, and otherwise at the start of the stretch; both
/// ends are moved outward to the ends of a character.
pub proof fn law_subsearch_range(
    terms: search::Terms,
    anchor: subsearch::Anchor,
    resume: Option<int>,
    buffer: search::TextView,
)
    requires
        search::text_valid(buffer),
        0 <= anchor.offset,
        0 <= anchor.len,
        0 <= anchor.context,
        subsearch::subsearch_error(terms, anchor, resume, buffer) is None,
    ensures
        ({
            let first = if anchor.offset > anchor.context {
                anchor.offset - anchor.context
            } else {
                0
            };
            let last = if anchor.offset + anchor.len + anchor.context < buffer.full_len {
                anchor.offset + anchor.len + anchor.context
            } else {
                buffer.full_len
            };
            let from = match resume {
                Some(offset) => offset,
                None => first,
            };
            let start = subsearch::subscan_start(anchor, resume, buffer);
            let end = subsearch::subscan_end(anchor, buffer);
            &&& resume is Some ==> first <= resume->0 <= last
            &&& buffer.base <= first
            &&& last <= buffer.base + buffer.text.len()
            &&& is_char_boundary(buffer.text, start)
            &&& start <= from - buffer.base
            &&& forall|i: int| start < i <= from - buffer.base ==> !is_char_boundary(buffer.text, i)
            &&& is_char_boundary(buffer.text, end)
            &&& last - buffer.base <= end
            &&& forall|i: int| last - buffer.base <= i < end ==> !is_char_boundary(buffer.text, i)
        }),
{
    subsearch::law_subscan_range(terms, anchor, resume, buffer);
    let from = match resume {
        Some(offset) => offset,
        None => subsearch::anchor_start(anchor),
    };
    bytes::law_clamped(buffer.text, from - buffer.base, false);
    bytes::law_clamped(
        buffer.text,
        subsearch::anchor_end(anchor, buffer) - buffer.base,
        true,
    );
}

/// Law: when a subsearch is refused. There must be something to search for, and a pattern must be
/// one; the anchor must begin in the buffer, the stretch around it must be at hand, and the offset
/// to go on from must lie in that stretch.
pub proof fn law_subsearch_refused(
    terms: search::Terms,
    anchor: subsearch::Anchor,
    resume: Option<int>,
    buffer: search::TextView,
)
    requires
        search::text_valid(buffer),
        0 <= anchor.offset,
        0 <= anchor.len,
        0 <= anchor.context,
    ensures
        ({
            let first = if anchor.offset > anchor.context {
                anchor.offset - anchor.context
            } else {
                0
            };
            let last = if anchor.offset + anchor.len + anchor.context < buffer.full_len {
                anchor.offset + anchor.len + anchor.context
            } else {
                buffer.full_len
            };
            subsearch::subsearch_error(terms, anchor, resume, buffer) is None <==> {
                &&& terms.query.len() > 0
                &&& anchor.offset <= buffer.full_len
                &&& buffer.base <= first
                &&& last <= buffer.base + buffer.text.len()
                &&& resume is Some ==> first <= resume->0 <= last
                &&& terms.mode is Regex ==> outside::regex_error(terms.query) is None
            }
        }),
{
}

/// Law: what a subsearch gives: the first of the matches in what it covers, as many as it may
/// report, and the offset of the first one that is left, or else the end of the stretch where the
/// buffer goes on after that.
pub proof fn law_subsearch_page(
    terms: search::Terms,
    anchor: subsearch::Anchor,
    resume: Option<int>,
    max_matches: u32,
    buffer: search::TextView,
)
    requires
        search::text_valid(buffer),
        0 <= anchor.offset,
        0 <= anchor.len,
        0 <= anchor.context,
        subsearch::subsearch_error(terms, anchor, resume, buffer) is None,
    ensures
        ({
            let scan = search::scan_over(
                terms,
                buffer,
                subsearch::subscan_start(anchor, resume, buffer),
                subsearch::subscan_end(anchor, buffer),
            );
            let hits = matching::hits_of(scan);
            let output = subsearch::subsearch_output(terms, anchor, resume, max_matches, buffer);
            let last = anchor.offset + anchor.len + anchor.context;
            let count = if hits.len() > max_matches {
                max_matches as int
            } else {
                hits.len() as int
            };
            &&& output.matches.len() == count
            &&& output.total_matches == count
            &&& forall|i: int|
                0 <= i < count ==> #[trigger] output.matches[i] == matching::match_of(
                    scan,
                    hits[i],
                )
            &&& hits.len() > count ==> output.resume_from_offset == map![
                buffer.name => matching::match_of(scan, hits[count]).offset_bytes
            ]
            &&& hits.len() <= max_matches && last < buffer.full_len ==> output.resume_from_offset
                == map![buffer.name => last as u64]
            &&& hits.len() <= max_matches && last >= buffer.full_len ==> output.resume_from_offset
                == Map::<Seq<char>, u64>::empty()
            &&& output.bytes_scanned_total == scan.end - scan.start
            &&& output.buffers == seq![buffer.name]
            &&& output.buffers_scanned == 1
            &&& output.query == terms.query
            &&& output.mode == terms.mode
            &&& output.max_matches == max_matches
            &&& output.context_bytes == terms.context
            &&& output.include_similarity == terms.include_similarity
            &&& output.fuzzy_match == terms.fuzzy
            &&& terms.fuzzy ==> output.similarity_threshold == Some(terms.threshold)
            &&& !terms.fuzzy ==> output.similarity_threshold is None
            &&& terms.include_similarity ==> output.max_similarity == search::best_similarity(
                output.matches,
            )
            &&& !terms.include_similarity ==> output.max_similarity is None
            &&& output.fuzzy_skipped_lines == matching::skipped_lines(scan)
            &&& output.fuzzy_skipped_bytes == matching::skipped_bytes(scan)
            &&& forall|name: Seq<char>|
                output.truncated_buffers.contains(name)
                    == #[trigger] output.resume_from_offset.dom().contains(name)
        }),
{
    let r = subsearch::subscanned(terms, anchor, resume, buffer);
    let k = max_matches as int;
    let one = seq![r];
    let none = Seq::<search::ScanView>::empty();
    subsearch::law_subscan_range(terms, anchor, resume, buffer);
    assert(one.drop_last() =~= none);
    assert(one.last() == r);
    let g = search::gathered(one, k);
    assert(g == search::gathered_with(search::gathered(none, k), k, r));
    let count = matching::at_most(r.matches.len() as int, k);
    search_laws::law_truncated_resumable(one, k);
    assert(g.matches =~= r.matches.take(count));
    if k < r.matches.len() {
        assert(g.resume =~= map![buffer.name => r.matches[k].offset_bytes]);
    } else if r.truncated_by_scan {
        assert(g.resume =~= map![buffer.name => r.scan_end]);
    } else {
        assert(g.resume =~= Map::empty());
    }
}

/// Law: the pages of a literal subsearch, one after the other, hold all matches in the stretch
/// around the anchor: where a page has left some, the page that goes on from the offset it gives
/// can be asked for, and the two together hold the first of all matches, as many as they have
/// room for, under the same offsets and ids.
pub proof fn law_subsearch_pages(
    terms: search::Terms,
    anchor: subsearch::Anchor,
    resume: Option<int>,
    first_max: u32,
    second_max: u32,
    buffer: search::TextView,
)
    requires
        search::text_valid(buffer),
        0 <= anchor.offset,
        0 <= anchor.len,
        0 <= anchor.context,
        subsearch::subsearch_error(terms, anchor, resume, buffer) is None,
        terms.mode is Literal,
        !terms.fuzzy,
        first_max > 0,
        subsearch::subscanned(terms, anchor, resume, buffer).matches.len() > first_max,
    ensures
        ({
            let all = places(subsearch::subscanned(terms, anchor, resume, buffer).matches);
            let first = subsearch::subsearch_output(terms, anchor, resume, first_max, buffer);
            let offset = first.resume_from_offset[buffer.name];
            let second = subsearch::subsearch_output(
                terms,
                anchor,
                Some(offset as int),
                second_max,
                buffer,
            );
            &&& first.resume_from_offset.dom().contains(buffer.name)
            &&& subsearch::subsearch_error(terms, anchor, Some(offset as int), buffer) is None
            &&& places(first.matches) + places(second.matches) == all.take(
                if first_max + second_max < all.len() {
                    first_max + second_max
                } else {
                    all.len() as int
                },
            )
        }),
{
    let start = subsearch::subscan_start(anchor, resume, buffer);
    let end = subsearch::subscan_end(anchor, buffer);
    let scan = search::scan_over(terms, buffer, start, end);
    let hits = matching::hits_of(scan);
    let k = first_max as int;
    subsearch::law_subscan_range(terms, anchor, resume, buffer);
    law_subsearch_page(terms, anchor, resume, first_max, buffer);
    lemma_subsearch_goes_on(terms, anchor, resume, buffer, k);
    let at = hits[k].at;
    let offset = (buffer.base + at) as u64;
    let first = subsearch::subsearch_output(terms, anchor, resume, first_max, buffer);
    assert(map![buffer.name => offset].dom().contains(buffer.name));
    let again = Some(offset as int);
    law_subsearch_page(terms, anchor, again, second_max, buffer);
    let later = search::scan_over(terms, buffer, at, end);
    let second = subsearch::subsearch_output(terms, anchor, again, second_max, buffer);
    let found = subsearch::subscanned(terms, anchor, resume, buffer).matches;
    lemma_joined_places(scan, later, hits, k, first.matches, second.matches, found);
}

/// A literal subsearch can go on from any hit but its first, begins there, and finds the rest.
proof fn lemma_subsearch_goes_on(
    terms: search::Terms,
    anchor: subsearch::Anchor,
    resume: Option<int>,
    buffer: search::TextView,
    k: int,
)
    requires
        search::text_valid(buffer),
        0 <= anchor.offset,
        0 <= anchor.len,
        0 <= anchor.context,
        subsearch::subsearch_error(terms, anchor, resume, buffer) is None,
        terms.mode is Literal,
        !terms.fuzzy,
        0 < k < matching::hits_of(
            search::scan_over(
                terms,
                buffer,
                subsearch::subscan_start(anchor, resume, buffer),
                subsearch::subscan_end(anchor, buffer),
            ),
        ).len(),
    ensures
        ({
            let end = subsearch::subscan_end(anchor, buffer);
            let hits = matching::hits_of(
                search::scan_over(
                    terms,
                    buffer,
                    subsearch::subscan_start(anchor, resume, buffer),
                    end,
                ),
            );
            let at = hits[k].at;
            &&& 0 <= at <= buffer.text.len()
            &&& subsearch::subsearch_error(terms, anchor, Some(buffer.base + at), buffer) is None
            &&& subsearch::subscan_start(anchor, Some(buffer.base + at), buffer) == at
            &&& matching::hits_of(search::scan_over(terms, buffer, at, end)) == hits.skip(k)
        }),
{
    let start = subsearch::subscan_start(anchor, resume, buffer);
    let end = subsearch::subscan_end(anchor, buffer);
    let scan = search::scan_over(terms, buffer, start, end);
    let hits = matching::hits_of(scan);
    let part = encode_utf8(terms.query);
    subsearch::law_subscan_range(terms, anchor, resume, buffer);
    law_subsearch_range(terms, anchor, resume, buffer);
    matching::law_hits_inside(scan);
    let at = hits[k].at;
    assert(matching::hit_inside(scan.text, scan.start, scan.end, hits[k]));
    assert(matching::hit_inside(scan.text, scan.start, scan.end, hits[0]));
    assert(hits[0].at < hits[k].at);
    bytes::lemma_char_offset(terms.query, 0, terms.query.len() as int);
    assert(hits[k].len == part.len());
    let from = match resume {
        Some(offset) => offset,
        None => subsearch::anchor_start(anchor),
    };
    assert(buffer.base + at > from) by {
        if at <= from - buffer.base {
            assert(!is_char_boundary(buffer.text, at));
        }
    }
    assert(buffer.base + at <= subsearch::anchor_end(anchor, buffer)) by {
        if at >= subsearch::anchor_end(anchor, buffer) - buffer.base {
            assert(!is_char_boundary(buffer.text, at));
        }
    }
    bytes::law_clamped(buffer.text, at, false);
    let found = bytes::occurrences(buffer.text.take(end), part, start);
    assert(found[k] == at);
    bytes::law_occurrences_resume(buffer.text.take(end), part, start, k);
    assert(matching::hits_of(search::scan_over(terms, buffer, at, end)) =~= hits.skip(k));
}

/// The places of the first hits and of some that follow them are the places of the hits.
proof fn lemma_joined_places(
    scan: matching::Scan,
    later: matching::Scan,
    hits: Seq<matching::Hit>,
    k: int,
    first: Seq<types::MatchView>,
    second: Seq<types::MatchView>,
    found: Seq<types::MatchView>,
)
    requires
        later == (matching::Scan { start: later.start, ..scan }),
        0 <= k <= hits.len(),
        found == matching::matches_of(scan, hits),
        first.len() == k,
        second.len() <= hits.len() - k,
        forall|i: int| 0 <= i < k ==> #[trigger] first[i] == matching::match_of(scan, hits[i]),
        forall|i: int|
            0 <= i < second.len() ==> #[trigger] second[i] == matching::match_of(
                later,
                hits.skip(k)[i],
            ),
    ensures
        places(first) + places(second) == places(found).take(k + second.len()),
{
    let both = places(first) + places(second);
    assert forall|i: int| 0 <= i < both.len() implies both[i] == places(found)[i] by {
        if i >= k {
            assert(hits.skip(k)[i - k] == hits[i]);
            assert(second[i - k] == matching::match_of(later, hits.skip(k)[i - k]));
        } else {
            assert(first[i] == matching::match_of(scan, hits[i]));
        }
    }
    assert(both =~= places(found).take(k + second.len()));
}

/// Law: what is asked of a search where options leave it open, and what they say otherwise. The
/// context is 40 bytes, at most 50 matches are reported and 65536 bytes searched. Scores are given
/// where that, or a comparison for similarity, is asked for; lines are compared where that is
/// asked for or a threshold is given, which is eight tenths where none is.
pub proof fn law_defaults(
    query: Seq<char>,
    mode: types::SearchMode,
    options: search::SearchOptions,
)
    requires
        options.max_scan_bytes is Some ==> options.max_scan_bytes->0 <= usize::MAX,
    ensures
        ({
            let s = search::settings_of(query, mode, options);
            &&& s.terms.query == query
            &&& s.terms.mode == mode
            &&& s.terms.context == if options.context_bytes is Some {
                options.context_bytes->0
            } else {
                40
            }
            &&& s.max_matches == if options.max_matches is Some {
                options.max_matches->0
            } else {
                50
            }
            &&& s.max_scan == if options.max_scan_bytes is Some {
                options.max_scan_bytes->0 as int
            } else {
                65_536
            }
            &&& s.terms.fuzzy <==> options.fuzzy_match || options.similarity_threshold is Some
            &&& s.terms.include_similarity <==> options.include_similarity || options.fuzzy_match
                || options.similarity_threshold is Some
            &&& options.similarity_threshold is None ==> s.terms.threshold.bits == 0x3f4c_cccd
            &&& options.similarity_threshold is Some ==> s.terms.threshold
                == score::bounded_threshold(options.similarity_threshold->0)
            &&& options.resume_from_offset is None ==> s.resume.len() == 0
            &&& options.resume_from_offset is Some ==> s.resume == options.resume_from_offset->0@
        }),
{
}

/// Law: the same of a subsearch, where the context is always given.
pub proof fn law_subsearch_defaults(
    query: Seq<char>,
    mode: types::SearchMode,
    offset: u64,
    len: u32,
    options: subsearch::SubsearchOptions,
)
    requires
        offset <= usize::MAX,
        options.resume_from_offset is Some ==> options.resume_from_offset->0 <= usize::MAX,
    ensures
        ({
            let terms = subsearch::subsearch_terms(query, mode, options);
            let anchor = subsearch::anchor_of(offset, len, options);
            &&& terms.query == query
            &&& terms.mode == mode
            &&& terms.context == options.context_bytes
            &&& terms.fuzzy <==> options.fuzzy_match || options.similarity_threshold is Some
            &&& terms.include_similarity <==> options.include_similarity || options.fuzzy_match
                || options.similarity_threshold is Some
            &&& options.similarity_threshold is None ==> terms.threshold.bits == 0x3f4c_cccd
            &&& options.similarity_threshold is Some ==> terms.threshold
                == score::bounded_threshold(options.similarity_threshold->0)
            &&& anchor.offset == offset
            &&& anchor.len == len
            &&& anchor.context == options.context_bytes
            &&& subsearch::subsearch_limit(options) == if options.max_matches is Some {
                options.max_matches->0
            } else {
                50
            }
            &&& subsearch::subsearch_resume(options) is Some
                <==> options.resume_from_offset is Some
            &&& options.resume_from_offset is Some ==> subsearch::subsearch_resume(options)
                == Some(options.resume_from_offset->0 as int)
        }),
{
}

/// Law: the highest similarity of some matches is that of one of them, and none has a higher one.
/// There is none exactly where no match has one.
pub proof fn law_best_similarity(matches: Seq<types::MatchView>)
    ensures
        match search::best_similarity(matches) {
            Some(best) => {
                &&& exists|i: int|
                    0 <= i < matches.len() && (#[trigger] matches[i]).similarity == Some(best)
                &&& forall|i: int|
                    0 <= i < matches.len() && (#[trigger] matches[i]).similarity is Some
                        ==> matches[i].similarity->0.bits <= best.bits
            },
            None => forall|i: int|
                0 <= i < matches.len() ==> (#[trigger] matches[i]).similarity is None,
        },
    decreases matches.len(),
{
    if matches.len() > 0 {
        let init = matches.drop_last();
        law_best_similarity(init);
        let last = matches[matches.len() - 1];
        assert(last == matches.last());
        assert forall|i: int| 0 <= i < init.len() implies init[i] == #[trigger] matches[i] by {}
        if let Some(best) = search::best_similarity(matches) {
            if last.similarity == Some(best) {
            } else {
                let k = choose|k: int|
                    0 <= k < init.len() && (#[trigger] init[k]).similarity == Some(best);
                assert(matches[k].similarity == Some(best));
            }
        }
    }
}

/// Law: the report of a search repeats what was asked, names and counts the buffers, and counts
/// the matches that it holds. The buffers that count as truncated are those that it can go on with.
/// The highest similarity is that of one of them and no other has a
/// higher one; there is none where similarity was not asked for.
pub proof fn law_report(settings: search::Settings, buffers: Seq<search::TextView>)
    requires
        buffers.len() <= u32::MAX,
    ensures
        ({
            let output = search::search_output(settings, buffers);
            &&& output.query == settings.terms.query
            &&& output.mode == settings.terms.mode
            &&& output.context_bytes == settings.terms.context
            &&& output.max_matches == settings.max_matches
            &&& output.include_similarity == settings.terms.include_similarity
            &&& output.fuzzy_match == settings.terms.fuzzy
            &&& output.similarity_threshold is Some <==> settings.terms.fuzzy
            &&& settings.terms.fuzzy ==> output.similarity_threshold->0 == settings.terms.threshold
            &&& output.buffers.len() == buffers.len()
            &&& forall|i: int|
                0 <= i < buffers.len() ==> #[trigger] output.buffers[i] == buffers[i].name
            &&& output.buffers_scanned == buffers.len()
            &&& output.total_matches == output.matches.len()
            &&& forall|name: Seq<char>|
                output.truncated_buffers.contains(name)
                    == #[trigger] output.resume_from_offset.dom().contains(name)
            &&& !settings.terms.include_similarity ==> output.max_similarity is None
            &&& settings.terms.include_similarity ==> match output.max_similarity {
                Some(best) => {
                    &&& exists|i: int|
                        0 <= i < output.matches.len() && (
                        #[trigger] output.matches[i]).similarity == Some(best)
                    &&& forall|i: int|
                        0 <= i < output.matches.len() && (
                        #[trigger] output.matches[i]).similarity is Some
                            ==> output.matches[i].similarity->0.bits <= best.bits
                },
                None => forall|i: int|
                    0 <= i < output.matches.len() ==> (
                    #[trigger] output.matches[i]).similarity is None,
            }
        }),
{
    search_laws::law_report_limit(settings, buffers);
    search_laws::law_truncated_resumable(
        buffers.map_values(|b: search::TextView| search::scanned(settings, b)),
        settings.max_matches as int,
    );
    law_best_similarity(search::search_output(settings, buffers).matches);
}

/// Law: when a search is refused. There must be something to search for, and a pattern must be
/// one; every offset to go on from must belong to one of the buffers, and lie in the buffer and
/// not after the text that is at hand.
pub proof fn law_search_refused(settings: search::Settings, buffers: Seq<search::TextView>)
    ensures
        search::search_error(settings, buffers) is None <==> {
            &&& settings.terms.query.len() > 0
            &&& settings.terms.mode is Regex ==> outside::regex_error(settings.terms.query) is None
            &&& forall|i: int|
                0 <= i < settings.resume.len() ==> exists|j: int|
                    0 <= j < buffers.len() && (#[trigger] buffers[j]).name == (
                    #[trigger] settings.resume[i]).0
            &&& forall|j: int|
                0 <= j < buffers.len() ==> match offsets::offset_in(
                    settings.resume,
                    (#[trigger] buffers[j]).name,
                ) {
                    Some(offset) => (offset as usize) <= buffers[j].full_len && (offset as usize)
                        - buffers[j].base <= buffers[j].text.len(),
                    None => true,
                }
        },
{
    lemma_unknown_name(settings.resume, buffers);
    lemma_first_resume_error(settings.resume, buffers);
}

/// Every offset belongs to a buffer just where no name is unknown.
proof fn lemma_unknown_name(resume: Seq<(Seq<char>, u64)>, buffers: Seq<search::TextView>)
    ensures
        search::unknown_name(resume, search::names_of(buffers)) is None <==> forall|i: int|
            0 <= i < resume.len() ==> exists|j: int|
                0 <= j < buffers.len() && (#[trigger] buffers[j]).name == (#[trigger] resume[i]).0,
    decreases resume.len(),
{
    let names = search::names_of(buffers);
    if resume.len() > 0 {
        let rest = resume.skip(1);
        lemma_unknown_name(rest, buffers);
        assert(names.contains(resume[0].0) <==> exists|j: int|
            0 <= j < buffers.len() && (#[trigger] buffers[j]).name == resume[0].0) by {
            if names.contains(resume[0].0) {
                let j = choose|j: int| 0 <= j < names.len() && names[j] == resume[0].0;
                assert(buffers[j].name == resume[0].0);
            }
            if exists|j: int| 0 <= j < buffers.len() && (#[trigger] buffers[j]).name
                == resume[0].0 {
                let j = choose|j: int|
                    0 <= j < buffers.len() && (#[trigger] buffers[j]).name == resume[0].0;
                assert(names[j] == resume[0].0);
            }
        }
        assert forall|i: int| 1 <= i < resume.len() implies #[trigger] resume[i] == rest[i - 1] by {
        }
        assert forall|i: int| 0 <= i < rest.len() implies #[trigger] rest[i] == resume[i + 1] by {}
    }
}

/// No buffer is refused just where none of them is.
proof fn lemma_first_resume_error(resume: Seq<(Seq<char>, u64)>, buffers: Seq<search::TextView>)
    ensures
        search::first_resume_error(resume, buffers) is None <==> forall|j: int|
            0 <= j < buffers.len() ==> match offsets::offset_in(
                resume,
                (#[trigger] buffers[j]).name,
            ) {
                Some(offset) => (offset as usize) <= buffers[j].full_len && (offset as usize)
                    - buffers[j].base <= buffers[j].text.len(),
                None => true,
            },
    decreases buffers.len(),
{
    if buffers.len() > 0 {
        let rest = buffers.skip(1);
        lemma_first_resume_error(resume, rest);
        assert forall|j: int| 1 <= j < buffers.len() implies #[trigger] buffers[j]
            == rest[j - 1] by {}
        assert forall|j: int| 0 <= j < rest.len() implies #[trigger] rest[j] == buffers[j + 1] by {}
    }
}

/// Law: how many bytes a search covers: in each buffer those from where it begins to where it ends,
/// and in all the sum of these, as far as it can be counted. What was skipped adds up in the same
/// way.
pub proof fn law_counts(settings: search::Settings, buffers: Seq<search::TextView>)
    requires
        search::texts_valid(buffers),
    ensures
        ({
            let output = search::search_output(settings, buffers);
            let sum = matching::total(
                buffers.map_values(
                    |b: search::TextView|
                        (search::scan_end(settings.resume, settings.max_scan, b)
                            - search::scan_start(settings.resume, b)) as nat,
                ),
            );
            let lines = matching::total(
                buffers.map_values(
                    |b: search::TextView|
                        matching::skipped_lines(search_laws::scan_of(settings, b)) as nat,
                ),
            );
            let skipped = matching::total(
                buffers.map_values(
                    |b: search::TextView|
                        matching::skipped_bytes(search_laws::scan_of(settings, b)) as nat,
                ),
            );
            &&& sum <= u64::MAX ==> output.bytes_scanned_total == sum
            &&& sum > u64::MAX ==> output.bytes_scanned_total == u64::MAX
            &&& lines <= u32::MAX ==> output.fuzzy_skipped_lines == lines
            &&& lines > u32::MAX ==> output.fuzzy_skipped_lines == u32::MAX
            &&& skipped <= u64::MAX ==> output.fuzzy_skipped_bytes == skipped
            &&& skipped > u64::MAX ==> output.fuzzy_skipped_bytes == u64::MAX
        }),
{
    let lens = search::scan_lens(settings.resume, settings.max_scan, buffers);
    assert(lens =~= buffers.map_values(
        |b: search::TextView|
            (search::scan_end(settings.resume, settings.max_scan, b) - search::scan_start(
                settings.resume,
                b,
            )) as nat,
    ));
    let results = buffers.map_values(|b: search::TextView| search::scanned(settings, b));
    lemma_skipped_sums(results, settings.max_matches as int);
    assert(results.map_values(|r: search::ScanView| r.fuzzy_skipped_lines as nat)
        =~= buffers.map_values(
        |b: search::TextView| matching::skipped_lines(search_laws::scan_of(settings, b)) as nat,
    ));
    assert(results.map_values(|r: search::ScanView| r.fuzzy_skipped_bytes as nat)
        =~= buffers.map_values(
        |b: search::TextView| matching::skipped_bytes(search_laws::scan_of(settings, b)) as nat,
    ));
}

/// What was skipped in the buffers adds up.
proof fn lemma_skipped_sums(results: Seq<search::ScanView>, max_matches: int)
    ensures
        ({
            let g = search::gathered(results, max_matches);
            let lines = matching::total(
                results.map_values(|r: search::ScanView| r.fuzzy_skipped_lines as nat),
            );
            let skipped = matching::total(
                results.map_values(|r: search::ScanView| r.fuzzy_skipped_bytes as nat),
            );
            &&& g.fuzzy_skipped_lines == matching::at_most(lines as int, u32::MAX as int)
            &&& g.fuzzy_skipped_bytes == matching::at_most(skipped as int, u64::MAX as int)
        }),
    decreases results.len(),
{
    let a = results.map_values(|r: search::ScanView| r.fuzzy_skipped_lines as nat);
    let b = results.map_values(|r: search::ScanView| r.fuzzy_skipped_bytes as nat);
    if results.len() > 0 {
        let init = results.drop_last();
        lemma_skipped_sums(init, max_matches);
        let x = init.map_values(|r: search::ScanView| r.fuzzy_skipped_lines as nat);
        let y = init.map_values(|r: search::ScanView| r.fuzzy_skipped_bytes as nat);
        let m = results.last().fuzzy_skipped_lines as nat;
        let n = results.last().fuzzy_skipped_bytes as nat;
        assert(a =~= x + seq![m]);
        assert(b =~= y + seq![n]);
        match_laws::law_total(x, seq![m], m);
        match_laws::law_total(y, seq![n], n);
    } else {
        assert(matching::total(a) == 0);
        assert(matching::total(b) == 0);
    }
}

/// Whether a page says where to go on.
pub open spec fn goes_on(settings: search::Settings, buffer: search::TextView) -> bool {
    search::search_output(settings, seq![buffer]).resume_from_offset.dom().contains(buffer.name)
}

/// The search that goes on from where a page says.
pub open spec fn following(settings: search::Settings, buffer: search::TextView) -> search::Settings {
    search::Settings {
        resume: seq![
            (
                buffer.name,
                search::search_output(settings, seq![buffer]).resume_from_offset[buffer.name],
            ),
        ],
        ..settings
    }
}

/// The first pages of a search, each going on from where the one before says, but no more than
/// `count` after the first.
pub open spec fn pages(settings: search::Settings, buffer: search::TextView, count: nat) -> Seq<
    types::OutputView,
>
    decreases count,
{
    let page = search::search_output(settings, seq![buffer]);
    if count > 0 && goes_on(settings, buffer) {
        seq![page] + pages(following(settings, buffer), buffer, (count - 1) as nat)
    } else {
        seq![page]
    }
}

/// Whether a place is covered by a match on one of the pages.
pub open spec fn on_a_page(pages: Seq<types::OutputView>, offset: int, len: int) -> bool {
    exists|i: int, j: int|
        0 <= i < pages.len() && 0 <= j < pages[i].matches.len() && (
        #[trigger] pages[i].matches[j]).offset_bytes <= offset < pages[i].matches[j].offset_bytes
            + len
}

/// Whether one of the pages ends inside a stretch.
pub open spec fn cut_by_a_page(
    pages: Seq<types::OutputView>,
    name: Seq<char>,
    offset: int,
    len: int,
) -> bool {
    exists|i: int|
        0 <= i < pages.len() && (#[trigger] pages[i]).resume_from_offset.dom().contains(name)
            && offset < pages[i].resume_from_offset[name] < offset + len
}

/// Law: all pages of a literal search, with any limit on the matches and on the bytes of a page, hold
/// all matches, with none left out. Once a page is reached that does not say where to go on, every
/// occurrence of the query, from where the first page began to the end of the buffer, is on one of
/// the pages, or overlaps one that is, unless it lies on both sides of the place where a page ends.
pub proof fn law_all_pages(
    settings: search::Settings,
    buffer: search::TextView,
    count: nat,
    at: int,
)
    requires
        search::text_valid(buffer),
        buffer.base + buffer.text.len() == buffer.full_len,
        settings.terms.query.len() > 0,
        settings.terms.mode is Literal,
        !settings.terms.fuzzy,
        pages(settings, buffer, count).last().resume_from_offset == Map::<Seq<char>, u64>::empty(),
        search::scan_start(settings.resume, buffer) <= at,
        text::occurs_at(buffer.text, encode_utf8(settings.terms.query), at),
    ensures
        ({
            let all = pages(settings, buffer, count);
            let len = encode_utf8(settings.terms.query).len() as int;
            on_a_page(all, buffer.base + at, len) || cut_by_a_page(
                all,
                buffer.name,
                buffer.base + at,
                len,
            )
        }),
    decreases count,
{
    let all = pages(settings, buffer, count);
    let page = search::search_output(settings, seq![buffer]);
    let len = encode_utf8(settings.terms.query).len() as int;
    let end = search::scan_end(settings.resume, settings.max_scan, buffer);
    let name = buffer.name;
    assert(all[0] == page);
    lemma_page(settings, buffer);
    search::law_scan_range(settings.resume, settings.max_scan, buffer);
    if goes_on(settings, buffer) {
        if count == 0 {
            assert(all.last() == page);
        } else {
            let next = following(settings, buffer);
            let rest = pages(next, buffer, (count - 1) as nat);
            assert(all == seq![page] + rest);
            assert(rest.len() > 0) by {
                assert(rest[0] == search::search_output(next, seq![buffer]));
            }
            assert(all.last() == rest.last());
            lemma_following(settings, buffer, at);
            if search::scan_start(next.resume, buffer) <= at {
                law_all_pages(next, buffer, (count - 1) as nat, at);
                if on_a_page(rest, buffer.base + at, len) {
                    let (i, j) = choose|i: int, j: int|
                        0 <= i < rest.len() && 0 <= j < rest[i].matches.len() && (
                        #[trigger] rest[i].matches[j]).offset_bytes <= buffer.base + at
                            < rest[i].matches[j].offset_bytes + len;
                    assert(all[i + 1] == rest[i]);
                    assert(all[i + 1].matches[j].offset_bytes <= buffer.base + at);
                } else {
                    let i = choose|i: int|
                        0 <= i < rest.len() && (
                        #[trigger] rest[i]).resume_from_offset.dom().contains(name) && buffer.base
                            + at < rest[i].resume_from_offset[name] < buffer.base + at + len;
                    assert(all[i + 1] == rest[i]);
                }
            } else if exists|j: int|
                0 <= j < page.matches.len() && (#[trigger] page.matches[j]).offset_bytes
                    <= buffer.base + at < page.matches[j].offset_bytes + len {
                let j = choose|j: int|
                    0 <= j < page.matches.len() && (#[trigger] page.matches[j]).offset_bytes
                        <= buffer.base + at < page.matches[j].offset_bytes + len;
                assert(all[0].matches[j].offset_bytes <= buffer.base + at);
            } else {
                assert(all[0].resume_from_offset.dom().contains(name));
            }
        }
    } else {
        assert(end == buffer.text.len());
        let none = Seq::<(Seq<char>, u64)>::empty();
        assert(offsets::offset_map(none) =~= Map::<Seq<char>, u64>::empty());
        assert(page.resume_from_offset =~= Map::<Seq<char>, u64>::empty());
        law_pages_lose_nothing(settings, buffer, none, at);
        let j = choose|j: int|
            0 <= j < page.matches.len() && (#[trigger] page.matches[j]).offset_bytes <= buffer.base
                + at < page.matches[j].offset_bytes + len;
        assert(all[0].matches[j].offset_bytes <= buffer.base + at);
    }
}

/// An occurrence is on a page, or lies where the page that follows begins or after that, or the page
/// ends inside it.
proof fn lemma_following(settings: search::Settings, buffer: search::TextView, at: int)
    requires
        search::text_valid(buffer),
        settings.terms.query.len() > 0,
        settings.terms.mode is Literal,
        !settings.terms.fuzzy,
        goes_on(settings, buffer),
        search::scan_start(settings.resume, buffer) <= at,
        text::occurs_at(buffer.text, encode_utf8(settings.terms.query), at),
    ensures
        ({
            let page = search::search_output(settings, seq![buffer]);
            let len = encode_utf8(settings.terms.query).len();
            let next = following(settings, buffer);
            ||| search::scan_start(next.resume, buffer) <= at
            ||| exists|j: int|
                0 <= j < page.matches.len() && (#[trigger] page.matches[j]).offset_bytes
                    <= buffer.base + at < page.matches[j].offset_bytes + len
            ||| buffer.base + at < page.resume_from_offset[buffer.name] < buffer.base + at + len
        }),
{
    let page = search::search_output(settings, seq![buffer]);
    let next = following(settings, buffer);
    let offset = page.resume_from_offset[buffer.name];
    let entries = next.resume;
    let len = encode_utf8(settings.terms.query).len();
    let end = search::scan_end(settings.resume, settings.max_scan, buffer);
    let r = search::scanned(settings, buffer);
    let k = settings.max_matches as int;
    lemma_page(settings, buffer);
    search::law_scan_range(settings.resume, settings.max_scan, buffer);
    assert(entries =~= seq![(buffer.name, offset)]);
    lemma_one_entry(buffer.name, offset);
    assert(page.resume_from_offset =~= map![buffer.name => offset]);
    if at + len <= end {
        law_pages_lose_nothing(settings, buffer, entries, at);
    } else if k < r.matches.len() {
        let scan = search_laws::scan_of(settings, buffer);
        let hits = search::hits_before_end(scan);
        assert(r.matches[k] == matching::match_of(scan, hits[k]));
        search_laws::lemma_literal_before_end(scan);
        search_laws::law_literal_hits(scan);
        search_laws::law_literal_resume(settings, buffer, k);
        assert(hits[k].len == len);
    } else {
        assert(offset == buffer.base + end);
        bytes::law_clamped(buffer.text, end, false);
        assert(entries.last() == (buffer.name, offset));
        assert(offsets::offset_in(entries, buffer.name) == Some(offset));
        assert(search::scan_start(entries, buffer) == end);
    }
}

/// A single entry is in order and holds its offset.
proof fn lemma_one_entry(name: Seq<char>, offset: u64)
    ensures
        offsets::ascending(seq![(name, offset)]),
        offsets::offset_map(seq![(name, offset)]) == map![name => offset],
{
    let one = seq![(name, offset)];
    reveal_with_fuel(offsets::offset_in, 2);
    assert(one.drop_last() =~= Seq::<(Seq<char>, u64)>::empty());
    assert forall|n: Seq<char>| offsets::offset_in(one, n) == if n == name {
        Some(offset)
    } else {
        None::<u64>
    } by {
        assert(one.last() == (name, offset));
    }
    assert(offsets::offset_map(one) =~= map![name => offset]);
}

} // verus!
