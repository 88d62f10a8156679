//! What holds of searches as a whole.

use vstd::prelude::*;
use vstd::utf8::*;

use crate::bytes;
use crate::errors::ErrorView;
use crate::offsets;
use crate::score;
use crate::score::Score;
use crate::sequences;
use crate::text;
use crate::tmux::matching;
use crate::tmux::search;
use crate::tmux::window;
use crate::types;

verus! {

/// Law: a search reports no more matches than are asked for, and counts the ones it reports.
pub proof fn law_report_limit(settings: search::Settings, buffers: Seq<search::TextView>)
    ensures
        search::search_output(settings, buffers).matches.len() <= settings.max_matches,
        search::search_output(settings, buffers).total_matches == search::search_output(
            settings,
            buffers,
        ).matches.len(),
{
    lemma_gathered_room(
        buffers.map_values(|b: search::TextView| search::scanned(settings, b)),
        settings.max_matches as int,
    );
}

/// No more matches are gathered than there is room for.
proof fn lemma_gathered_room(results: Seq<search::ScanView>, max_matches: int)
    requires
        0 <= max_matches,
    ensures
        search::gathered(results, max_matches).matches.len() <= max_matches,
    decreases results.len(),
{
    if results.len() > 0 {
        lemma_gathered_room(results.drop_last(), max_matches);
    }
}

/// Law: the buffers that are reported as truncated are just those that have an offset to go on
/// from, and none of them is named twice.
pub proof fn law_truncated_resumable(results: Seq<search::ScanView>, max_matches: int)
    ensures
        forall|name: Seq<char>|
            search::gathered(results, max_matches).truncated.contains(name)
                == #[trigger] search::gathered(results, max_matches).resume.dom().contains(name),
        search::gathered(results, max_matches).truncated.no_duplicates(),
    decreases results.len(),
{
    let g = search::gathered(results, max_matches);
    if results.len() > 0 {
        law_truncated_resumable(results.drop_last(), max_matches);
        let before = search::gathered(results.drop_last(), max_matches);
        let name = results.last().name;
        assert forall|n: Seq<char>| g.truncated.contains(n) == #[trigger] g.resume.dom().contains(
            n,
        ) by {
            assert(before.truncated.contains(n) == before.resume.dom().contains(n));
            if g.truncated != before.truncated {
                sequences::lemma_push_contains(before.truncated, name, n);
            }
        }
        if g.truncated != before.truncated {
            assert(g.truncated == before.truncated.push(name));
            assert(!before.truncated.contains(name));
        }
    }
}

/// All matches that were found, buffer after buffer.
pub open spec fn all_matches(results: Seq<search::ScanView>) -> Seq<types::MatchView>
    decreases results.len(),
{
    if results.len() == 0 {
        Seq::empty()
    } else {
        all_matches(results.drop_last()) + results.last().matches
    }
}

/// Law: the matches that are reported are the first ones of all that were found.
pub proof fn law_reported_first(results: Seq<search::ScanView>, max_matches: int)
    requires
        0 <= max_matches,
    ensures
        search::gathered(results, max_matches).matches == all_matches(results).take(
            matching::at_most(all_matches(results).len() as int, max_matches),
        ),
    decreases results.len(),
{
    let g = search::gathered(results, max_matches);
    let all = all_matches(results);
    if results.len() > 0 {
        let init = results.drop_last();
        law_reported_first(init, max_matches);
        assert(g.matches =~= all.take(matching::at_most(all.len() as int, max_matches)));
    } else {
        assert(g.matches =~= all.take(0));
    }
}

/// Law: where no buffer is reported as truncated, every match is reported and every buffer was
/// searched to its end.
pub proof fn law_complete_when_not_truncated(results: Seq<search::ScanView>, max_matches: int)
    requires
        0 <= max_matches,
        search::gathered(results, max_matches).truncated.len() == 0,
    ensures
        search::gathered(results, max_matches).matches == all_matches(results),
        forall|i: int| 0 <= i < results.len() ==> !(#[trigger] results[i]).truncated_by_scan,
    decreases results.len(),
{
    if results.len() > 0 {
        let init = results.drop_last();
        let before = search::gathered(init, max_matches);
        let last = results.last();
        if before.truncated.len() > 0 {
            assert(search::gathered(results, max_matches).truncated.len() > 0);
        }
        law_complete_when_not_truncated(init, max_matches);
        lemma_gathered_room(init, max_matches);
        assert(last.matches.take(last.matches.len() as int) =~= last.matches);
        assert forall|i: int| 0 <= i < results.len() implies !(
        #[trigger] results[i]).truncated_by_scan by {
            if i < init.len() {
                assert(init[i] == results[i]);
            }
        }
    }
}

/// Law: in a literal search every hit is an occurrence of the query in the stretch that is
/// searched.
pub proof fn law_literal_hits(scan: matching::Scan)
    requires
        matching::scan_valid(scan),
        scan.mode is Literal,
        !scan.fuzzy,
    ensures
        forall|i: int|
            0 <= i < matching::hits_of(scan).len() ==> {
                let hit = #[trigger] matching::hits_of(scan)[i];
                &&& scan.start <= hit.at
                &&& hit.at + hit.len <= scan.end
                &&& scan.text.subrange(hit.at, hit.at + hit.len) == encode_utf8(scan.query)
            },
{
    let hits = matching::hits_of(scan);
    let part = encode_utf8(scan.query);
    let head = scan.text.take(scan.end);
    bytes::lemma_char_offset(scan.query, 0, scan.query.len() as int);
    bytes::law_occurrences_separate(head, part, scan.start);
    assert forall|i: int| 0 <= i < hits.len() implies {
        let hit = #[trigger] hits[i];
        &&& scan.start <= hit.at
        &&& hit.at + hit.len <= scan.end
        &&& scan.text.subrange(hit.at, hit.at + hit.len) == encode_utf8(scan.query)
    } by {
        let at = bytes::occurrences(head, part, scan.start)[i];
        assert(text::occurs_at(head, part, at));
        assert(head.subrange(at, at + part.len()) =~= scan.text.subrange(at, at + part.len()));
    }
}

/// Law: a literal search misses no occurrence of the query in the stretch that is searched,
/// except where it overlaps one that was found before.
pub proof fn law_literal_complete(scan: matching::Scan, at: int)
    requires
        matching::scan_valid(scan),
        scan.mode is Literal,
        !scan.fuzzy,
        scan.start <= at,
        at + encode_utf8(scan.query).len() <= scan.end,
        text::occurs_at(scan.text, encode_utf8(scan.query), at),
    ensures
        exists|i: int|
            0 <= i < matching::hits_of(scan).len() && (#[trigger] matching::hits_of(scan)[i]).at
                <= at < matching::hits_of(scan)[i].at + matching::hits_of(scan)[i].len,
{
    let part = encode_utf8(scan.query);
    let head = scan.text.take(scan.end);
    bytes::lemma_char_offset(scan.query, 0, scan.query.len() as int);
    assert(head.subrange(at, at + part.len()) =~= scan.text.subrange(at, at + part.len()));
    bytes::law_occurrences_complete(head, part, scan.start, at);
    let found = bytes::occurrences(head, part, scan.start);
    let k = choose|k: int| 0 <= k < found.len() && #[trigger] found[k] <= at < found[k]
        + part.len();
    let hit = matching::hits_of(scan)[k];
    assert(hit.at == found[k]);
}

/// More text after a stretch leaves the occurrences inside it as they are.
proof fn lemma_occurrences_extend(s: Seq<u8>, part: Seq<u8>, from: int, end: int, longer: int)
    requires
        part.len() > 0,
        0 <= from,
        0 <= end <= longer <= s.len(),
    ensures
        bytes::occurrences(s.take(end), part, from).is_prefix_of(
            bytes::occurrences(s.take(longer), part, from),
        ),
    decreases s.len() - from,
{
    let a = s.take(end);
    let b = s.take(longer);
    bytes::lemma_first_occurrence(a, part, from);
    bytes::lemma_first_occurrence(b, part, from);
    assert forall|i: int| i + part.len() <= end implies text::occurs_at(a, part, i)
        == text::occurs_at(b, part, i) by {
        if 0 <= i {
            assert(a.subrange(i, i + part.len()) =~= b.subrange(i, i + part.len()));
        }
    }
    if let Some(at) = bytes::first_occurrence(a, part, from) {
        assert(text::occurs_at(b, part, at));
        let other = bytes::first_occurrence(b, part, from);
        match other {
            Some(first) => {
                if first < at {
                    assert(text::occurs_at(a, part, first));
                } else if first > at {
                    assert(!text::occurs_at(b, part, at));
                }
            },
            None => {
                assert(!text::occurs_at(b, part, at));
            },
        }
        lemma_occurrences_extend(s, part, at + part.len(), end, longer);
        let x = bytes::occurrences(a, part, at + part.len());
        let y = bytes::occurrences(b, part, at + part.len());
        assert(bytes::occurrences(a, part, from) =~= seq![at] + x);
        assert(bytes::occurrences(b, part, from) =~= seq![at] + y);
        assert(x =~= y.take(x.len() as int));
    }
}

/// In a literal search all hits begin before the end of the search.
pub proof fn lemma_literal_before_end(scan: matching::Scan)
    requires
        matching::scan_valid(scan),
        scan.mode is Literal,
        !scan.fuzzy,
    ensures
        search::hits_before_end(scan) == matching::hits_of(scan),
{
    let hits = matching::hits_of(scan);
    law_literal_hits(scan);
    bytes::lemma_char_offset(scan.query, 0, scan.query.len() as int);
    let keep = |hit: matching::Hit| hit.at < scan.end;
    assert forall|i: int| 0 <= i < hits.len() implies keep(#[trigger] hits[i]) by {
        let hit = hits[i];
        assert(hit.len == encode_utf8(scan.query).len());
    }
    sequences::lemma_filter_all(hits, keep);
}

/// Moving an offset forward does not move the boundary before it back.
proof fn lemma_clamped_monotone(bytes: Seq<u8>, a: int, b: int)
    requires
        valid_utf8(bytes),
        0 <= a <= b,
    ensures
        bytes::clamped(bytes, a, false) <= bytes::clamped(bytes, b, false),
{
    bytes::law_clamped(bytes, a, false);
    bytes::law_clamped(bytes, b, false);
}

/// The settings of a search that goes on in one buffer from an offset.
pub open spec fn resumed(
    settings: search::Settings,
    name: Seq<char>,
    offset: u64,
) -> search::Settings {
    search::Settings { resume: seq![(name, offset)], ..settings }
}

/// Law: a literal search that goes on from the offset of a hit begins at this hit and finds
/// first what the earlier search had found from there on, hit by hit. Where both end at the same
/// place, that is all it finds.
pub proof fn law_literal_resume(
    settings: search::Settings,
    buffer: search::TextView,
    k: int,
)
    requires
        search::text_valid(buffer),
        settings.terms.query.len() > 0,
        settings.terms.mode is Literal,
        !settings.terms.fuzzy,
        0 <= k < search::hits_before_end(scan_of(settings, buffer)).len(),
    ensures
        ({
            let hits = search::hits_before_end(scan_of(settings, buffer));
            let offset = (buffer.base + hits[k].at) as u64;
            let next = scan_of(resumed(settings, buffer.name, offset), buffer);
            &&& search::resume_error(seq![(buffer.name, offset)], buffer) is None
            &&& next.start == hits[k].at
            &&& hits.skip(k).is_prefix_of(search::hits_before_end(next))
            &&& next.end == scan_of(settings, buffer).end ==> search::hits_before_end(next)
                == hits.skip(k)
        }),
{
    let first = scan_of(settings, buffer);
    search::law_scan_range(settings.resume, settings.max_scan, buffer);
    let hits = search::hits_before_end(first);
    lemma_literal_before_end(first);
    law_literal_hits(first);
    let part = encode_utf8(settings.terms.query);
    bytes::lemma_char_offset(settings.terms.query, 0, settings.terms.query.len() as int);
    let found = bytes::occurrences(buffer.text.take(first.end), part, first.start);
    let at = hits[k].at;
    assert(at == found[k]);
    let offset = (buffer.base + at) as u64;
    let entries = seq![(buffer.name, offset)];
    assert(entries.last() == (buffer.name, offset));
    assert(offsets::offset_in(entries, buffer.name) == Some(offset));
    bytes::lemma_text_bytes(settings.terms.query);
    bytes::lemma_occurrence_boundaries(buffer.text, part, at);
    bytes::law_clamped(buffer.text, at, false);
    let again = resumed(settings, buffer.name, offset);
    let next = scan_of(again, buffer);
    assert(next.start == at);
    search::law_scan_range(entries, settings.max_scan, buffer);
    let len = buffer.text.len() as int;
    lemma_clamped_monotone(
        buffer.text,
        matching::at_most(first.start + settings.max_scan, len),
        matching::at_most(at + settings.max_scan, len),
    );
    lemma_literal_before_end(next);
    bytes::law_occurrences_resume(buffer.text.take(first.end), part, first.start, k);
    lemma_occurrences_extend(buffer.text, part, at, first.end, next.end);
    let old_rest = bytes::occurrences(buffer.text.take(first.end), part, at);
    let new_all = bytes::occurrences(buffer.text.take(next.end), part, at);
    let more = search::hits_before_end(next);
    assert forall|i: int| 0 <= i < hits.skip(k).len() implies hits.skip(k)[i] == more[i] by {
        assert(old_rest[i] == found[k + i]);
        assert(new_all[i] == old_rest[i]);
    }
    assert(hits.skip(k).len() <= more.len());
    assert(hits.skip(k) =~= more.take(hits.skip(k).len() as int));
    if next.end == first.end {
        assert(more =~= hits.skip(k));
    }
}

/// By what a match is told from others and found again: its offset, its id and its length.
pub open spec fn places(matches: Seq<types::MatchView>) -> Seq<(u64, Seq<char>, u32)> {
    matches.map_values(|m: types::MatchView| (m.offset_bytes, m.match_id, m.match_len))
}

/// What the search of a single buffer gathers.
proof fn lemma_gathered_one(r: search::ScanView, max_matches: int)
    requires
        0 <= max_matches,
        !r.truncated_by_scan,
    ensures
        ({
            let g = search::gathered(seq![r], max_matches);
            &&& g.matches == r.matches.take(
                matching::at_most(r.matches.len() as int, max_matches),
            )
            &&& g.resume == if max_matches < r.matches.len() {
                map![r.name => r.matches[max_matches].offset_bytes]
            } else {
                Map::empty()
            }
        }),
{
    let one = seq![r];
    let none = Seq::<search::ScanView>::empty();
    let k = matching::at_most(r.matches.len() as int, max_matches);
    assert(one.drop_last() =~= none);
    assert(one.last() == r);
    let before = search::gathered(none, max_matches);
    let g = search::gathered(one, max_matches);
    assert(g == search::gathered_with(before, max_matches, r));
    assert(g.matches =~= r.matches.take(k));
    if max_matches < r.matches.len() {
        assert(g.resume =~= map![r.name => r.matches[max_matches].offset_bytes]);
    }
}

/// A search of a single buffer reports what its scan gives.
proof fn lemma_output_one(settings: search::Settings, buffer: search::TextView)
    requires
        !search::scanned(settings, buffer).truncated_by_scan,
    ensures
        ({
            let r = search::scanned(settings, buffer);
            let output = search::search_output(settings, seq![buffer]);
            &&& output.matches == r.matches.take(
                matching::at_most(r.matches.len() as int, settings.max_matches as int),
            )
            &&& output.resume_from_offset == if settings.max_matches < r.matches.len() {
                map![buffer.name => r.matches[settings.max_matches as int].offset_bytes]
            } else {
                Map::empty()
            }
        }),
{
    let r = search::scanned(settings, buffer);
    assert(seq![buffer].map_values(|b: search::TextView| search::scanned(settings, b))
        =~= seq![r]);
    lemma_gathered_one(r, settings.max_matches as int);
}

/// Entries that hold one offset, and no other, are just that one.
pub proof fn lemma_single_entry(entries: Seq<(Seq<char>, u64)>, name: Seq<char>, offset: u64)
    requires
        offsets::ascending(entries),
        offsets::offset_map(entries) == map![name => offset],
    ensures
        entries == seq![(name, offset)],
{
    let one = seq![(name, offset)];
    reveal_with_fuel(offsets::offset_in, 2);
    assert(one.drop_last() =~= Seq::<(Seq<char>, u64)>::empty());
    assert forall|n: Seq<char>| offsets::offset_in(one, n) == if n == name {
        Some(offset)
    } else {
        None::<u64>
    } by {
        assert(one.last() == (name, offset));
    }
    assert(offsets::offset_map(one) =~= map![name => offset]);
    offsets::law_entries_determined(entries, one);
}

/// A search that may cover the whole text ends where the text ends.
proof fn lemma_whole_scan(
    resume: Seq<(Seq<char>, u64)>,
    max_scan: usize,
    buffer: search::TextView,
)
    requires
        search::text_valid(buffer),
        buffer.text.len() <= max_scan,
    ensures
        search::scan_end(resume, max_scan, buffer) == buffer.text.len(),
{
    search::law_scan_range(resume, max_scan, buffer);
}

/// Law: paging through a literal search loses, repeats and renames nothing. The first page holds
/// the first matches of all there are. It gives no offset to go on from just where these are all.
/// Otherwise the search can go on from the offsets that it gives, and the matches of the first
/// page, then those of the next one, are again the first of all, as many as the two have room
/// for. The text must reach to the end of the buffer and fit the limit of the search.
pub proof fn law_pages(
    settings: search::Settings,
    buffer: search::TextView,
    entries: Seq<(Seq<char>, u64)>,
    max_matches: u32,
)
    requires
        search::text_valid(buffer),
        buffer.base + buffer.text.len() == buffer.full_len,
        buffer.text.len() <= settings.max_scan,
        settings.terms.query.len() > 0,
        settings.terms.mode is Literal,
        !settings.terms.fuzzy,
        offsets::ascending(entries),
        offsets::offset_map(entries) == search::search_output(
            settings,
            seq![buffer],
        ).resume_from_offset,
    ensures
        ({
            let all = search::scanned(settings, buffer).matches;
            let first = search::search_output(settings, seq![buffer]);
            let next = search::Settings { resume: entries, max_matches, ..settings };
            &&& first.matches == all.take(
                matching::at_most(all.len() as int, settings.max_matches as int),
            )
            &&& first.resume_from_offset == Map::<Seq<char>, u64>::empty() <==> first.matches == all
            &&& first.resume_from_offset != Map::<Seq<char>, u64>::empty() ==> {
                let second = search::search_output(next, seq![buffer]);
                &&& search::search_error(next, seq![buffer]) is None
                &&& places(first.matches) + places(second.matches) == places(all).take(
                    matching::at_most(all.len() as int, settings.max_matches + max_matches),
                )
                &&& second.resume_from_offset == Map::<Seq<char>, u64>::empty() <==> all.len()
                    <= settings.max_matches + max_matches
            }
        }),
{
    let r = search::scanned(settings, buffer);
    let all = r.matches;
    let k = settings.max_matches as int;
    let first = search::search_output(settings, seq![buffer]);
    lemma_whole_scan(settings.resume, settings.max_scan, buffer);
    lemma_output_one(settings, buffer);
    if all.len() <= k {
        assert(all.take(all.len() as int) =~= all);
    } else {
        let name = buffer.name;
        let offset = all[k].offset_bytes;
        assert(map![name => offset].dom().contains(name));
        assert(first.matches.len() == k);
        lemma_single_entry(entries, name, offset);
        let scan = scan_of(settings, buffer);
        let hits = search::hits_before_end(scan);
        assert(all[k] == matching::match_of(scan, hits[k]));
        law_literal_resume(settings, buffer, k);
        let next = search::Settings { resume: entries, max_matches, ..settings };
        let later = scan_of(next, buffer);
        assert(later == scan_of(resumed(settings, name, offset), buffer));
        lemma_whole_scan(entries, settings.max_scan, buffer);
        let rest = search::scanned(next, buffer).matches;
        assert(rest == matching::matches_of(later, hits.skip(k)));
        assert(places(rest) =~= places(all).skip(k));
        lemma_output_one(next, buffer);
        lemma_resume_accepted(next, buffer, offset);
        let second = search::search_output(next, seq![buffer]);
        let m = matching::at_most(rest.len() as int, max_matches as int);
        assert(places(second.matches) =~= places(rest).take(m));
        assert(places(first.matches) =~= places(all).take(k));
        assert(rest.len() == places(rest).len());
        assert(all.len() == places(all).len());
        assert(places(first.matches) + places(second.matches) =~= places(all).take(
            matching::at_most(all.len() as int, k + max_matches),
        ));
        if max_matches < rest.len() {
            assert(map![name => rest[max_matches as int].offset_bytes].dom().contains(name));
        }
    }
}

/// A search can go on in its one buffer from an offset inside the text.
pub proof fn lemma_resume_accepted(settings: search::Settings, buffer: search::TextView, offset: u64)
    requires
        settings.terms.query.len() > 0,
        settings.terms.mode is Literal,
        settings.resume == seq![(buffer.name, offset)],
        search::resume_error(settings.resume, buffer) is None,
    ensures
        search::search_error(settings, seq![buffer]) is None,
{
    let names = search::names_of(seq![buffer]);
    assert(names[0] == buffer.name);
    assert(names.contains(settings.resume[0].0));
    reveal_with_fuel(search::unknown_name, 2);
    reveal_with_fuel(search::first_resume_error, 2);
    assert(seq![buffer].skip(1) =~= Seq::<search::TextView>::empty());
    assert(settings.resume.skip(1) =~= Seq::<(Seq<char>, u64)>::empty());
}

/// Law: the first page of a literal search and all that follows it are, match by match, what one
/// search with room for everything reports.
pub proof fn law_pages_are_whole(
    settings: search::Settings,
    buffer: search::TextView,
    entries: Seq<(Seq<char>, u64)>,
)
    requires
        search::text_valid(buffer),
        buffer.base + buffer.text.len() == buffer.full_len,
        buffer.text.len() <= settings.max_scan,
        settings.terms.query.len() > 0,
        settings.terms.mode is Literal,
        !settings.terms.fuzzy,
        search::scanned(settings, buffer).matches.len() <= u32::MAX,
        offsets::ascending(entries),
        offsets::offset_map(entries) == search::search_output(
            settings,
            seq![buffer],
        ).resume_from_offset,
    ensures
        ({
            let full = search::search_output(
                search::Settings { max_matches: u32::MAX, ..settings },
                seq![buffer],
            );
            let first = search::search_output(settings, seq![buffer]);
            let rest = search::search_output(
                search::Settings { resume: entries, max_matches: u32::MAX, ..settings },
                seq![buffer],
            );
            &&& first.resume_from_offset == Map::<Seq<char>, u64>::empty() <==> first.matches
                == full.matches
            &&& first.resume_from_offset != Map::<Seq<char>, u64>::empty() ==> places(first.matches)
                + places(rest.matches) == places(full.matches)
        }),
{
    let unlimited = search::Settings { max_matches: u32::MAX, ..settings };
    let all = search::scanned(settings, buffer).matches;
    assert(search::scanned(unlimited, buffer) == search::scanned(settings, buffer));
    lemma_whole_scan(settings.resume, settings.max_scan, buffer);
    lemma_output_one(unlimited, buffer);
    assert(all.take(all.len() as int) =~= all);
    law_pages(settings, buffer, entries, u32::MAX);
    assert(places(all).take(all.len() as int) =~= places(all));
    assert(places(all).len() == all.len());
}

/// The searches of the buffers, each on its own.
pub open spec fn single_outputs(
    settings: search::Settings,
    buffers: Seq<search::TextView>,
) -> Seq<types::OutputView> {
    buffers.map_values(|b: search::TextView| search::search_output(settings, seq![b]))
}

/// The matches of searches, one after the other.
pub open spec fn matches_joined(outputs: Seq<types::OutputView>) -> Seq<types::MatchView>
    decreases outputs.len(),
{
    if outputs.len() == 0 {
        Seq::empty()
    } else {
        matches_joined(outputs.drop_last()) + outputs.last().matches
    }
}

/// Law: a search of several buffers from their beginnings, with room for all matches, finds in
/// them what the searches of the single buffers find, in the order of the buffers, and covers as
/// many bytes as these do together, as far as that can be counted. It is refused where each of
/// these is, with the same words.
pub proof fn law_buffers_apart(settings: search::Settings, buffers: Seq<search::TextView>)
    requires
        search::texts_valid(buffers),
        settings.resume.len() == 0,
        all_matches(
            buffers.map_values(|b: search::TextView| search::scanned(settings, b)),
        ).len() <= settings.max_matches,
    ensures
        search::search_output(settings, buffers).matches == matches_joined(
            single_outputs(settings, buffers),
        ),
        search::search_output(settings, buffers).bytes_scanned_total == matching::at_most(
            matching::total(
                single_outputs(settings, buffers).map_values(
                    |o: types::OutputView| o.bytes_scanned_total as nat,
                ),
            ) as int,
            u64::MAX as int,
        ),
        forall|i: int|
            0 <= i < buffers.len() ==> search::search_error(settings, buffers)
                == search::search_error(settings, seq![#[trigger] buffers[i]]),
{
    let results = buffers.map_values(|b: search::TextView| search::scanned(settings, b));
    let outputs = single_outputs(settings, buffers);
    law_reported_first(results, settings.max_matches as int);
    assert(all_matches(results).take(all_matches(results).len() as int) =~= all_matches(results));
    lemma_singles_joined(settings, buffers);
    let lens = search::scan_lens(settings.resume, settings.max_scan, buffers);
    let sums = outputs.map_values(|o: types::OutputView| o.bytes_scanned_total as nat);
    assert forall|i: int| 0 <= i < buffers.len() implies sums[i] == lens[i] by {
        assert(search::text_valid(buffers[i]));
        lemma_bytes_one(settings, buffers[i]);
    }
    assert(sums =~= lens);
    assert forall|i: int| 0 <= i < buffers.len() implies search::search_error(settings, buffers)
        == search::search_error(settings, seq![#[trigger] buffers[i]]) by {
        lemma_no_resume_error(settings.resume, buffers);
        lemma_no_resume_error(settings.resume, seq![buffers[i]]);
    }
}

/// The bytes that the search of one buffer covers.
proof fn lemma_bytes_one(settings: search::Settings, buffer: search::TextView)
    requires
        search::text_valid(buffer),
    ensures
        search::search_output(settings, seq![buffer]).bytes_scanned_total == search::scan_end(
            settings.resume,
            settings.max_scan,
            buffer,
        ) - search::scan_start(settings.resume, buffer),
{
    search::law_scan_range(settings.resume, settings.max_scan, buffer);
    let lens = search::scan_lens(settings.resume, settings.max_scan, seq![buffer]);
    reveal_with_fuel(matching::total, 2);
    assert(lens.skip(1) =~= Seq::<nat>::empty());
}

/// Where no offset is asked for, none can be wrong.
proof fn lemma_no_resume_error(
    resume: Seq<(Seq<char>, u64)>,
    buffers: Seq<search::TextView>,
)
    requires
        resume.len() == 0,
    ensures
        search::first_resume_error(resume, buffers) is None,
    decreases buffers.len(),
{
    if buffers.len() > 0 {
        assert(offsets::offset_in(resume, buffers[0].name) is None);
        lemma_no_resume_error(resume, buffers.skip(1));
    }
}

/// Where there is room for all matches, the single searches report all of theirs.
proof fn lemma_singles_joined(settings: search::Settings, buffers: Seq<search::TextView>)
    requires
        all_matches(
            buffers.map_values(|b: search::TextView| search::scanned(settings, b)),
        ).len() <= settings.max_matches,
    ensures
        all_matches(buffers.map_values(|b: search::TextView| search::scanned(settings, b)))
            == matches_joined(single_outputs(settings, buffers)),
    decreases buffers.len(),
{
    let results = buffers.map_values(|b: search::TextView| search::scanned(settings, b));
    let outputs = single_outputs(settings, buffers);
    if buffers.len() > 0 {
        let init = buffers.drop_last();
        let last = buffers.last();
        let before = init.map_values(|b: search::TextView| search::scanned(settings, b));
        assert(results.drop_last() =~= before);
        assert(outputs.drop_last() =~= single_outputs(settings, init));
        lemma_singles_joined(settings, init);
        let r = search::scanned(settings, last);
        let one = seq![last].map_values(|b: search::TextView| search::scanned(settings, b));
        assert(one =~= seq![r]);
        law_reported_first(one, settings.max_matches as int);
        assert(one.drop_last() =~= Seq::<search::ScanView>::empty());
        assert(all_matches(one.drop_last()).len() == 0);
        assert(all_matches(one) =~= r.matches);
        assert(r.matches.take(r.matches.len() as int) =~= r.matches);
        assert(search::search_output(settings, seq![last]).matches == r.matches);
        assert(results.last() == r);
        assert(outputs.last() == search::search_output(settings, seq![last]));
    }
}

/// The search of one buffer.
pub open spec fn scan_of(settings: search::Settings, buffer: search::TextView) -> matching::Scan {
    search::scan_over(
        settings.terms,
        buffer,
        search::scan_start(settings.resume, buffer),
        search::scan_end(settings.resume, settings.max_scan, buffer),
    )
}

/// Law: a search that may cover four bytes gets ahead, unless it begins at the end of the text.
pub proof fn law_scan_progress(
    resume: Seq<(Seq<char>, u64)>,
    max_scan: usize,
    buffer: search::TextView,
)
    requires
        search::text_valid(buffer),
        max_scan >= 4,
        search::scan_start(resume, buffer) < buffer.text.len(),
    ensures
        search::scan_end(resume, max_scan, buffer) > search::scan_start(resume, buffer),
{
    search::law_scan_range(resume, max_scan, buffer);
    let start = search::scan_start(resume, buffer);
    let next = bytes::lemma_next_boundary(buffer.text, start);
    let limit = matching::at_most(start + max_scan, buffer.text.len() as int);
    bytes::law_clamped(buffer.text, limit, false);
}

/// Law: what is found by similarity reaches the threshold.
pub proof fn law_fuzzy_reaches(
    query: Seq<char>,
    threshold: Score,
    text: Seq<u8>,
    from: int,
    to: int,
)
    ensures
        forall|i: int|
            0 <= i < matching::fuzzy_hits(query, threshold, text, from, to).len() ==> {
                let hit = #[trigger] matching::fuzzy_hits(query, threshold, text, from, to)[i];
                hit.score is Some && score::reaches(hit.score->0, threshold)
            },
    decreases to - from + 1,
{
    if from < to {
        matching::lemma_line_end(text, from, to);
        let end = matching::line_end(text, from, to);
        law_fuzzy_reaches(query, threshold, text, end + 1, to);
        let rest = matching::fuzzy_hits(query, threshold, text, end + 1, to);
        let all = matching::fuzzy_hits(query, threshold, text, from, to);
        if let Some(hit) = matching::line_hit(query, threshold, text, from, end) {
            assert forall|i: int| 0 <= i < all.len() implies {
                let hit = #[trigger] all[i];
                hit.score is Some && score::reaches(hit.score->0, threshold)
            } by {
                if i > 0 {
                    assert(all[i] == rest[i - 1]);
                }
            }
        }
    }
}

/// Law: a literal match that is found in a window of a buffer stands in the buffer at the offset
/// that is reported.
pub proof fn law_offsets_in_buffer(
    content: Seq<u8>,
    name: Seq<char>,
    from: int,
    to: int,
    scan: matching::Scan,
    i: int,
)
    requires
        0 <= from <= to <= content.len() <= usize::MAX,
        matching::scan_valid(scan),
        scan.mode is Literal,
        !scan.fuzzy,
        0 <= i < matching::hits_of(scan).len(),
        window::window_outcome(name, content.subrange(from, to), from, content.len() as int) == Ok::<
            search::TextView,
            ErrorView,
        >(
            search::TextView {
                name,
                text: scan.text,
                base: scan.base,
                full_len: content.len() as int,
            },
        ),
    ensures
        ({
            let found = matching::match_of(scan, matching::hits_of(scan)[i]);
            text::occurs_at(content, encode_utf8(scan.query), found.offset_bytes as int)
        }),
{
    let part = content.subrange(from, to);
    window::law_window_text(part);
    law_literal_hits(scan);
    let hit = matching::hits_of(scan)[i];
    let at = scan.base + hit.at;
    assert(content.subrange(at, at + hit.len) =~= scan.text.subrange(hit.at, hit.at + hit.len));
}

} // verus!
