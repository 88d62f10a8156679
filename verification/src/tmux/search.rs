//! Searching buffers: where to look, how much to report, and where to go on.

use vstd::prelude::*;
use vstd::string::*;
use vstd::utf8::*;

use crate::bytes;
use crate::errors::{Error, ErrorView};
use crate::numbers;
use crate::offsets;
use crate::offsets::OffsetMap;
use crate::outside;
use crate::score;
use crate::score::Score;
use crate::sequences;
use crate::text;
use crate::tmux::matching;
use crate::tmux::matching::MatchContext;
use crate::types;
use crate::types::{BufferSearchMatch, BufferSearchOutput, SearchMode};

verus! {

/// How many bytes are shown on either side of a match where nothing else is asked for.
pub const DEFAULT_SEARCH_CONTEXT_BYTES: u32 = 40;

/// How many matches are reported at most where nothing else is asked for.
pub const DEFAULT_SEARCH_MAX_MATCHES: u32 = 50;

/// How many bytes of a buffer are searched at most where nothing else is asked for.
pub const DEFAULT_SEARCH_MAX_SCAN_BYTES: u64 = 65_536;

/// From how many buffers on they are searched in parallel.
pub const PARALLEL_BUFFER_THRESHOLD: usize = 10;

/// A stretch of a buffer: its text begins at `base_offset` of a buffer of `full_len` bytes.
#[derive(Debug, Clone, PartialEq, Eq)]
pub struct BufferText {
    pub name: String,
    pub text: String,
    pub base_offset: usize,
    pub full_len: usize,
}

/// A stretch of a buffer, as characters and bytes.
pub struct TextView {
    pub name: Seq<char>,
    pub text: Seq<u8>,
    pub base: int,
    pub full_len: int,
}

impl View for BufferText {
    type V = TextView;

    open spec fn view(&self) -> TextView {
        TextView {
            name: self.name@,
            text: encode_utf8(self.text@),
            base: self.base_offset as int,
            full_len: self.full_len as int,
        }
    }
}

/// Whether the stretch lies inside the buffer.
pub open spec fn text_valid(buffer: TextView) -> bool {
    &&& valid_utf8(buffer.text)
    &&& 0 <= buffer.base
    &&& buffer.base + buffer.text.len() <= buffer.full_len <= usize::MAX
}

/// Options for buffer search operations.
#[derive(Debug, Clone, PartialEq, Eq)]
pub struct SearchOptions {
    pub context_bytes: Option<u32>,
    pub max_matches: Option<u32>,
    pub max_scan_bytes: Option<u64>,
    pub include_similarity: bool,
    pub fuzzy_match: bool,
    pub similarity_threshold: Option<Score>,
    pub resume_from_offset: Option<OffsetMap>,
}

impl Default for SearchOptions {
    /// The usual amounts, nothing on similarity, from the start.
    fn default() -> (r: Self)
        ensures
            r.context_bytes is None,
            r.max_matches is None,
            r.max_scan_bytes is None,
            !r.include_similarity,
            !r.fuzzy_match,
            r.similarity_threshold is None,
            r.resume_from_offset is None,
    {
        SearchOptions {
            context_bytes: None,
            max_matches: None,
            max_scan_bytes: None,
            include_similarity: false,
            fuzzy_match: false,
            similarity_threshold: None,
            resume_from_offset: None,
        }
    }
}

/// What is searched for, and how.
pub struct Terms {
    pub query: Seq<char>,
    pub mode: SearchMode,
    pub context: u32,
    pub include_similarity: bool,
    pub fuzzy: bool,
    pub threshold: Score,
}

/// What is asked of a search, with every default filled in.
pub struct Settings {
    pub terms: Terms,
    pub max_matches: u32,
    pub max_scan: usize,
    pub resume: Seq<(Seq<char>, u64)>,
}

/// What is searched for, and how.
pub struct SearchTerms<'a> {
    pub query: &'a str,
    pub mode: SearchMode,
    pub context_bytes: u32,
    pub include_similarity: bool,
    pub fuzzy: bool,
    pub threshold: Score,
}

impl<'a> View for SearchTerms<'a> {
    type V = Terms;

    open spec fn view(&self) -> Terms {
        Terms {
            query: self.query@,
            mode: self.mode,
            context: self.context_bytes,
            include_similarity: self.include_similarity,
            fuzzy: self.fuzzy,
            threshold: self.threshold,
        }
    }
}

/// Whether lines are compared for similarity: where that is asked for, or a threshold is given.
pub open spec fn fuzzy_asked(fuzzy_match: bool, threshold: Option<Score>) -> bool {
    fuzzy_match || threshold is Some
}

/// The threshold that holds.
pub open spec fn threshold_asked(threshold: Option<Score>) -> Score {
    score::bounded_threshold(
        match threshold {
            Some(given) => given,
            None => Score { bits: score::DEFAULT_THRESHOLD_BITS },
        },
    )
}

/// The offsets from which a search goes on.
pub open spec fn resume_entries(resume: Option<OffsetMap>) -> Seq<(Seq<char>, u64)> {
    match resume {
        Some(offsets) => offsets@,
        None => Seq::empty(),
    }
}

/// The settings that options stand for.
pub open spec fn settings_of(
    query: Seq<char>,
    mode: SearchMode,
    options: SearchOptions,
) -> Settings {
    let fuzzy = fuzzy_asked(options.fuzzy_match, options.similarity_threshold);
    Settings {
        terms: Terms {
            query,
            mode,
            context: match options.context_bytes {
                Some(n) => n,
                None => DEFAULT_SEARCH_CONTEXT_BYTES,
            },
            include_similarity: options.include_similarity || fuzzy,
            fuzzy,
            threshold: threshold_asked(options.similarity_threshold),
        },
        max_matches: match options.max_matches {
            Some(n) => n,
            None => DEFAULT_SEARCH_MAX_MATCHES,
        },
        max_scan: match options.max_scan_bytes {
            Some(n) => n as usize,
            None => DEFAULT_SEARCH_MAX_SCAN_BYTES as usize,
        },
        resume: resume_entries(options.resume_from_offset),
    }
}

/// Whether and how to compare for similarity, and from which score on.
pub fn resolve_similarity_flags(
    include_similarity: bool,
    fuzzy_match: bool,
    similarity_threshold: Option<Score>,
) -> (r: (bool, bool, Score))
    ensures
        r.0 == (include_similarity || fuzzy_asked(fuzzy_match, similarity_threshold)),
        r.1 == fuzzy_asked(fuzzy_match, similarity_threshold),
        r.2 == threshold_asked(similarity_threshold),
{
    let fuzzy_enabled = fuzzy_match || similarity_threshold.is_some();
    let threshold = match similarity_threshold {
        Some(given) => given,
        None => Score { bits: score::DEFAULT_THRESHOLD_BITS },
    };
    (include_similarity || fuzzy_enabled, fuzzy_enabled, score::bound_threshold(threshold))
}

/// The offset in the stretch at which the search of a buffer is asked to go on.
pub open spec fn resume_at(resume: Seq<(Seq<char>, u64)>, buffer: TextView) -> Option<int> {
    match offsets::offset_in(resume, buffer.name) {
        Some(offset) => Some((offset as usize) as int),
        None => None,
    }
}

/// Why a buffer cannot be searched from where it is asked to go on.
pub open spec fn resume_error(resume: Seq<(Seq<char>, u64)>, buffer: TextView) -> Option<
    Seq<char>,
> {
    match resume_at(resume, buffer) {
        Some(offset) => if offset > buffer.full_len {
            Some(
                "resumeFromOffset "@ + numbers::decimal_text(offset as nat) + " exceeds buffer '"@
                    + buffer.name + "' length "@ + numbers::decimal_text(buffer.full_len as nat),
            )
        } else if offset - buffer.base > buffer.text.len() {
            Some(
                "resumeFromOffset "@ + numbers::decimal_text(offset as nat)
                    + " is outside the scan window for buffer '"@ + buffer.name + "'"@,
            )
        } else {
            None
        },
        None => None,
    }
}

/// Where in the stretch the search begins.
pub open spec fn scan_start(resume: Seq<(Seq<char>, u64)>, buffer: TextView) -> int {
    match resume_at(resume, buffer) {
        Some(offset) => bytes::clamped(
            buffer.text,
            matching::later(offset - buffer.base, 0),
            false,
        ),
        None => 0,
    }
}

/// Where in the stretch the search ends.
pub open spec fn scan_end(
    resume: Seq<(Seq<char>, u64)>,
    max_scan: usize,
    buffer: TextView,
) -> int {
    bytes::clamped(
        buffer.text,
        matching::at_most(
            scan_start(resume, buffer) + max_scan,
            buffer.text.len() as int,
        ),
        false,
    )
}

/// The search of a buffer between two offsets of its stretch.
pub open spec fn scan_over(terms: Terms, buffer: TextView, start: int, end: int) -> matching::Scan {
    matching::Scan {
        buffer: buffer.name,
        text: buffer.text,
        base: buffer.base,
        query: terms.query,
        context: terms.context as int,
        include_similarity: terms.include_similarity,
        mode: terms.mode,
        fuzzy: terms.fuzzy,
        threshold: terms.threshold,
        start,
        end,
    }
}

/// What the search of one buffer gives.
pub struct ScanView {
    pub name: Seq<char>,
    pub matches: Seq<types::MatchView>,
    pub scan_end: u64,
    pub truncated_by_scan: bool,
    pub fuzzy_skipped_lines: u32,
    pub fuzzy_skipped_bytes: u64,
}

/// The hits of a search that begin before its end.
pub open spec fn hits_before_end(scan: matching::Scan) -> Seq<matching::Hit> {
    matching::hits_of(scan).filter(|hit: matching::Hit| hit.at < scan.end)
}

/// What the search of a buffer between two offsets of its stretch gives.
pub open spec fn scanned_over(terms: Terms, buffer: TextView, start: int, end: int) -> ScanView {
    let scan = scan_over(terms, buffer, start, end);
    ScanView {
        name: buffer.name,
        matches: matching::matches_of(scan, hits_before_end(scan)),
        scan_end: (buffer.base + end) as u64,
        truncated_by_scan: buffer.base + end < buffer.full_len,
        fuzzy_skipped_lines: matching::skipped_lines(scan),
        fuzzy_skipped_bytes: matching::skipped_bytes(scan),
    }
}

/// What the search of one buffer gives.
pub open spec fn scanned(settings: Settings, buffer: TextView) -> ScanView {
    scanned_over(
        settings.terms,
        buffer,
        scan_start(settings.resume, buffer),
        scan_end(settings.resume, settings.max_scan, buffer),
    )
}

/// Law: a search begins and ends on character boundaries of the stretch, and covers no more
/// bytes than is asked for.
pub proof fn law_scan_range(resume: Seq<(Seq<char>, u64)>, max_scan: usize, buffer: TextView)
    requires
        text_valid(buffer),
    ensures
        0 <= scan_start(resume, buffer) <= scan_end(resume, max_scan, buffer) <= buffer.text.len(),
        is_char_boundary(buffer.text, scan_start(resume, buffer)),
        is_char_boundary(buffer.text, scan_end(resume, max_scan, buffer)),
        scan_end(resume, max_scan, buffer) - scan_start(resume, buffer) <= max_scan,
{
    is_char_boundary_start_end_of_seq(buffer.text);
    if let Some(offset) = resume_at(resume, buffer) {
        bytes::law_clamped(buffer.text, matching::later(offset - buffer.base, 0), false);
    }
    let start = scan_start(resume, buffer);
    let limit = matching::at_most(start + max_scan, buffer.text.len() as int);
    bytes::law_clamped(buffer.text, limit, false);
}

/// What the search of one buffer gives.
pub struct BufferScanResult {
    pub name: String,
    pub matches: Vec<BufferSearchMatch>,
    pub scan_end: u64,
    pub truncated_by_scan: bool,
    pub fuzzy_skipped_lines: u32,
    pub fuzzy_skipped_bytes: u64,
}

impl View for BufferScanResult {
    type V = ScanView;

    open spec fn view(&self) -> ScanView {
        ScanView {
            name: self.name@,
            matches: types::views(self.matches@),
            scan_end: self.scan_end,
            truncated_by_scan: self.truncated_by_scan,
            fuzzy_skipped_lines: self.fuzzy_skipped_lines,
            fuzzy_skipped_bytes: self.fuzzy_skipped_bytes,
        }
    }
}

/// A buffer, and between which offsets of its stretch to search.
pub struct ScanJob<'a> {
    pub buffer: &'a BufferText,
    pub start: usize,
    pub end: usize,
}

/// Whether a search of a buffer makes sense.
pub open spec fn job_ready(terms: Terms, job: ScanJob<'_>) -> bool {
    &&& text_valid(job.buffer@)
    &&& job.start <= job.end <= job.buffer@.text.len()
    &&& is_char_boundary(job.buffer@.text, job.start as int)
    &&& is_char_boundary(job.buffer@.text, job.end as int)
    &&& terms.query.len() > 0
    &&& terms.mode is Regex ==> outside::regex_error(terms.query) is None
}

/// What a job gives.
pub open spec fn job_done(terms: Terms, job: ScanJob<'_>) -> ScanView {
    scanned_over(terms, job.buffer@, job.start as int, job.end as int)
}

/// Of matches in ascending order those before an offset come first.
proof fn lemma_prefix_kept(whole: Seq<types::MatchView>, kept: int, limit: u64)
    requires
        0 <= kept <= whole.len(),
        forall|i: int, j: int|
            0 <= i < j < whole.len() ==> (#[trigger] whole[i]).offset_bytes <= (
            #[trigger] whole[j]).offset_bytes,
        forall|i: int| kept <= i < whole.len() ==> (#[trigger] whole[i]).offset_bytes >= limit,
        kept > 0 ==> whole[kept - 1].offset_bytes < limit,
    ensures
        whole.filter(|m: types::MatchView| m.offset_bytes < limit) == whole.take(kept),
{
    let head = whole.take(kept);
    let rest = whole.skip(kept);
    assert forall|i: int| 0 <= i < head.len() implies (#[trigger] head[i]).offset_bytes < limit by {
        assert(head[i] == whole[i]);
        assert(whole[i].offset_bytes <= whole[kept - 1].offset_bytes);
    }
    sequences::lemma_filter_split(head, rest, |m: types::MatchView| m.offset_bytes < limit);
    assert(whole == head + rest);
}

/// The matches before an offset, of matches in ascending order.
fn matches_before(matches: Vec<BufferSearchMatch>, limit: u64) -> (r: Vec<BufferSearchMatch>)
    requires
        forall|i: int, j: int|
            0 <= i < j < matches@.len() ==> (#[trigger] matches@[i]).offset_bytes <= (
            #[trigger] matches@[j]).offset_bytes,
    ensures
        types::views(r@) == types::views(matches@).filter(
            |m: types::MatchView| m.offset_bytes < limit,
        ),
{
    let mut matches = matches;
    let ghost all = matches@;
    let mut kept = matches.len();
    while kept > 0 && matches[kept - 1].offset_bytes >= limit
        invariant
            matches@ == all,
            kept <= all.len(),
            forall|i: int| kept <= i < all.len() ==> (#[trigger] all[i]).offset_bytes >= limit,
        decreases kept,
    {
        kept -= 1;
    }
    let ghost whole = types::views(all);
    proof {
        lemma_prefix_kept(whole, kept as int, limit);
    }
    matches.truncate(kept);
    proof {
        assert(types::views(matches@) =~= whole.take(kept as int));
    }
    matches
}

/// The matches that are reported before the end of a search are those of the hits before it.
proof fn lemma_matches_before(scan: matching::Scan, hits: Seq<matching::Hit>)
    requires
        0 <= scan.base,
        scan.base + scan.end <= u64::MAX,
        forall|i: int| 0 <= i < hits.len() ==> 0 <= (#[trigger] hits[i]).at <= scan.end,
    ensures
        matching::matches_of(scan, hits).filter(
            |m: types::MatchView| m.offset_bytes < (scan.base + scan.end) as u64,
        ) == matching::matches_of(scan, hits.filter(|hit: matching::Hit| hit.at < scan.end)),
    decreases hits.len(),
{
    reveal(Seq::filter);
    let keep = |m: types::MatchView| m.offset_bytes < (scan.base + scan.end) as u64;
    let keep_hit = |hit: matching::Hit| hit.at < scan.end;
    let all = matching::matches_of(scan, hits);
    if hits.len() > 0 {
        let init = hits.drop_last();
        lemma_matches_before(scan, init);
        assert(all.drop_last() =~= matching::matches_of(scan, init));
        assert(all.last() == matching::match_of(scan, hits.last()));
        assert(keep(all.last()) == keep_hit(hits.last()));
        if keep_hit(hits.last()) {
            assert(matching::matches_of(scan, init.filter(keep_hit).push(hits.last()))
                =~= matching::matches_of(scan, init.filter(keep_hit)).push(all.last()));
        }
    } else {
        assert(all =~= Seq::<types::MatchView>::empty());
        assert(matching::matches_of(scan, hits.filter(keep_hit)) =~= Seq::<
            types::MatchView,
        >::empty());
    }
}

/// Searches one buffer.
pub fn scan_buffer(terms: &SearchTerms<'_>, job: &ScanJob<'_>) -> (r: BufferScanResult)
    requires
        job_ready(terms@, *job),
    ensures
        r@ == job_done(terms@, *job),
{
    let buffer = job.buffer;
    let ctx = MatchContext {
        buffer: buffer.name.as_str(),
        text: buffer.text.as_str(),
        query: terms.query,
        context_bytes: terms.context_bytes as usize,
        include_similarity: terms.include_similarity,
        base_offset: buffer.base_offset,
        mode: terms.mode,
        fuzzy: terms.fuzzy,
        threshold: terms.threshold,
        scan_start: job.start,
        scan_end: job.end,
    };
    let ghost scan = scan_over(terms@, buffer@, job.start as int, job.end as int);
    proof {
        assert(ctx@ == scan);
    }
    let collection = matching::collect_matches(&ctx);
    let max_offset = (buffer.base_offset + job.end) as u64;
    proof {
        let hits = matching::hits_of(scan);
        let matches = collection.matches@;
        assert(types::views(matches).len() == matches.len());
        assert forall|i: int| 0 <= i < hits.len() implies 0 <= (#[trigger] hits[i]).at
            <= scan.end by {
            assert(matching::hit_inside(scan.text, scan.start, scan.end, hits[i]));
        }
        assert forall|i: int, j: int| 0 <= i < j < matches.len() implies (
        #[trigger] matches[i]).offset_bytes <= (#[trigger] matches[j]).offset_bytes by {
            assert(types::views(matches)[i] == matching::match_of(scan, hits[i]));
            assert(types::views(matches)[j] == matching::match_of(scan, hits[j]));
        }
        lemma_matches_before(scan, hits);
    }
    BufferScanResult {
        name: buffer.name.clone(),
        matches: matches_before(collection.matches, max_offset),
        scan_end: max_offset,
        truncated_by_scan: buffer.base_offset + job.end < buffer.full_len,
        fuzzy_skipped_lines: collection.fuzzy_skipped_lines,
        fuzzy_skipped_bytes: collection.fuzzy_skipped_bytes,
    }
}

/// Whether every job is one that can be done.
pub open spec fn jobs_valid(terms: Terms, jobs: Seq<ScanJob<'_>>) -> bool {
    forall|i: int| 0 <= i < jobs.len() ==> job_ready(terms, #[trigger] jobs[i])
}

/// What the jobs give, in their order.
pub open spec fn jobs_done(terms: Terms, jobs: Seq<ScanJob<'_>>) -> Seq<ScanView> {
    jobs.map_values(|job: ScanJob<'_>| job_done(terms, job))
}

/// Searches buffers, in parallel where there are many.
fn scan_buffers(terms: &SearchTerms<'_>, jobs: &Vec<ScanJob<'_>>) -> (results: Vec<
    BufferScanResult,
>)
    requires
        jobs_valid(terms@, jobs@),
    ensures
        types::views(results@) == jobs_done(terms@, jobs@),
{
    if jobs.len() >= PARALLEL_BUFFER_THRESHOLD {
        let search = |job: &ScanJob<'_>| -> (r: BufferScanResult)
            requires
                job_ready(terms@, *job),
            ensures
                r@ == job_done(terms@, *job),
            { scan_buffer(terms, job) };
        let results = outside::parallel_map(jobs, search);
        proof {
            assert(types::views(results@) =~= jobs_done(terms@, jobs@));
        }
        return results;
    }
    let mut results: Vec<BufferScanResult> = Vec::new();
    let mut i: usize = 0;
    while i < jobs.len()
        invariant
            i <= jobs@.len(),
            jobs_valid(terms@, jobs@),
            types::views(results@) == jobs_done(terms@, jobs@).take(i as int),
        decreases jobs@.len() - i,
    {
        let ghost before = results@;
        let result = scan_buffer(terms, &jobs[i]);
        results.push(result);
        proof {
            assert(types::views(results@) =~= types::views(before).push(result@));
            assert(jobs_done(terms@, jobs@).take(i + 1) =~= jobs_done(terms@, jobs@).take(
                i as int,
            ).push(result@));
        }
        i += 1;
    }
    proof {
        assert(jobs_done(terms@, jobs@).take(jobs@.len() as int) =~= jobs_done(terms@, jobs@));
    }
    results
}

/// Where the search of a buffer begins and ends in its stretch, or why it cannot be done.
fn scan_range(buffer: &BufferText, resume: &Option<OffsetMap>, max_scan: usize) -> (r: Result<
    (usize, usize),
    Error,
>)
    requires
        text_valid(buffer@),
    ensures
        match r {
            Ok(range) => {
                &&& resume_error(resume_entries(*resume), buffer@) is None
                &&& range.0 == scan_start(resume_entries(*resume), buffer@)
                &&& range.1 == scan_end(resume_entries(*resume), max_scan, buffer@)
            },
            Err(error) => match resume_error(resume_entries(*resume), buffer@) {
                Some(message) => error@ == ErrorView::InvalidArgument(message),
                None => false,
            },
        },
{
    let text = buffer.text.as_str();
    let window_len = bytes::byte_len(text);
    let asked = match resume {
        Some(offsets) => offsets.get(buffer.name.as_str()),
        None => None,
    };
    let start: usize = match asked {
        Some(offset) => {
            let offset = offset as usize;
            if offset > buffer.full_len {
                let mut message = "resumeFromOffset ".to_owned();
                message.append(numbers::decimal(offset as u64).as_str());
                message.append(" exceeds buffer '");
                message.append(buffer.name.as_str());
                message.append("' length ");
                message.append(numbers::decimal(buffer.full_len as u64).as_str());
                return Err(Error::InvalidArgument { message });
            }
            let relative = offset.saturating_sub(buffer.base_offset);
            if relative > window_len {
                let mut message = "resumeFromOffset ".to_owned();
                message.append(numbers::decimal(offset as u64).as_str());
                message.append(" is outside the scan window for buffer '");
                message.append(buffer.name.as_str());
                message.append("'");
                return Err(Error::InvalidArgument { message });
            }
            bytes::clamp_char_boundary(text, relative, false)
        },
        None => 0,
    };
    let reach = start.saturating_add(max_scan);
    let limit = if reach > window_len {
        window_len
    } else {
        reach
    };
    Ok((start, bytes::clamp_char_boundary(text, limit, false)))
}

/// What a search of several buffers reports.
#[verifier::ext_equal]
pub struct GatherView {
    pub matches: Seq<types::MatchView>,
    pub truncated: Seq<Seq<char>>,
    pub resume: Map<Seq<char>, u64>,
    pub fuzzy_skipped_lines: u32,
    pub fuzzy_skipped_bytes: u64,
}

/// `names` with `name` at the end, unless it is there already.
pub open spec fn noted(names: Seq<Seq<char>>, name: Seq<char>) -> Seq<Seq<char>> {
    if names.contains(name) {
        names
    } else {
        names.push(name)
    }
}

/// How many matches of one more buffer there is room for.
pub open spec fn room(max_matches: int, reported: int, found: int) -> int {
    matching::at_most(found, max_matches - reported)
}

/// What is reported once one more buffer is searched. Matches are reported as long as there is
/// room. Where matches are left, or a part of the buffer was not searched, the buffer counts as
/// truncated, and the search can go on from the first match that is left, or else from where
/// the search of the buffer ended.
pub open spec fn gathered_with(g: GatherView, max_matches: int, r: ScanView) -> GatherView {
    let k = room(max_matches, g.matches.len() as int, r.matches.len() as int);
    let left = k < r.matches.len();
    let resume = if left {
        offsets::with_offset(g.resume, r.name, r.matches[k].offset_bytes)
    } else {
        g.resume
    };
    GatherView {
        matches: g.matches + r.matches.take(k),
        truncated: if left || r.truncated_by_scan {
            noted(g.truncated, r.name)
        } else {
            g.truncated
        },
        resume: if r.truncated_by_scan {
            offsets::with_offset(resume, r.name, r.scan_end)
        } else {
            resume
        },
        fuzzy_skipped_lines: matching::at_most(
            g.fuzzy_skipped_lines + r.fuzzy_skipped_lines,
            u32::MAX as int,
        ) as u32,
        fuzzy_skipped_bytes: matching::at_most(
            g.fuzzy_skipped_bytes + r.fuzzy_skipped_bytes,
            u64::MAX as int,
        ) as u64,
    }
}

/// What a search of several buffers reports.
pub open spec fn gathered(results: Seq<ScanView>, max_matches: int) -> GatherView
    decreases results.len(),
{
    if results.len() == 0 {
        GatherView {
            matches: Seq::empty(),
            truncated: Seq::empty(),
            resume: Map::empty(),
            fuzzy_skipped_lines: 0,
            fuzzy_skipped_bytes: 0,
        }
    } else {
        gathered_with(gathered(results.drop_last(), max_matches), max_matches, results.last())
    }
}

/// What a search of several buffers reports.
pub struct Gathering {
    pub matches: Vec<BufferSearchMatch>,
    pub truncated: Vec<String>,
    pub resume: OffsetMap,
    pub fuzzy_skipped_lines: u32,
    pub fuzzy_skipped_bytes: u64,
}

impl View for Gathering {
    type V = GatherView;

    open spec fn view(&self) -> GatherView {
        GatherView {
            matches: types::views(self.matches@),
            truncated: text::texts(self.truncated@),
            resume: offsets::offset_map(self.resume@),
            fuzzy_skipped_lines: self.fuzzy_skipped_lines,
            fuzzy_skipped_bytes: self.fuzzy_skipped_bytes,
        }
    }
}

/// A name that was added is there.
proof fn lemma_noted(names: Seq<Seq<char>>, name: Seq<char>)
    ensures
        noted(names, name).contains(name),
        noted(noted(names, name), name) == noted(names, name),
{
    if !names.contains(name) {
        assert(names.push(name)[names.len() as int] == name);
    }
}

/// Adds a name to a list that does not hold it yet.
fn note_name(names: &mut Vec<String>, name: &str)
    ensures
        text::texts(final(names)@) == noted(text::texts(old(names)@), name@),
{
    if !text::contains_text(names, name) {
        let ghost before = names@;
        names.push(name.to_owned());
        proof {
            assert(text::texts(names@) =~= text::texts(before).push(name@));
        }
    }
}

/// Adds the first matches of a list to another.
fn report_matches(
    matches: &mut Vec<BufferSearchMatch>,
    found: &Vec<BufferSearchMatch>,
    count: usize,
)
    requires
        count <= found@.len(),
    ensures
        types::views(final(matches)@) == types::views(old(matches)@) + types::views(found@).take(
            count as int,
        ),
{
    let mut j: usize = 0;
    let ghost before = types::views(matches@);
    let ghost all = types::views(found@);
    proof {
        assert(before + all.take(0) =~= before);
    }
    while j < count
        invariant
            j <= count <= found@.len(),
            all == types::views(found@),
            types::views(matches@) == before + all.take(j as int),
        decreases count - j,
    {
        let ghost prior = matches@;
        let one = found[j].clone();
        matches.push(one);
        proof {
            assert(types::views(matches@) =~= types::views(prior).push(one@));
            assert(before + all.take(j + 1) =~= (before + all.take(j as int)).push(all[j as int]));
        }
        j += 1;
    }
}

/// Gathers what a search of several buffers reports.
pub fn gather(results: &Vec<BufferScanResult>, max_matches: u32) -> (g: Gathering)
    ensures
        g@ == gathered(types::views(results@), max_matches as int),
        offsets::ascending(g.resume@),
{
    let ghost all = types::views(results@);
    let mut matches: Vec<BufferSearchMatch> = Vec::new();
    let mut truncated: Vec<String> = Vec::new();
    let mut resume = OffsetMap::new();
    let mut lines: u32 = 0;
    let mut skipped: u64 = 0;
    let mut remaining: u32 = max_matches;
    let mut i: usize = 0;
    proof {
        assert(types::views(matches@) =~= Seq::<types::MatchView>::empty());
        assert(text::texts(truncated@) =~= Seq::<Seq<char>>::empty());
    }
    while i < results.len()
        invariant
            i <= results@.len(),
            all == types::views(results@),
            gathered(all.take(i as int), max_matches as int) == (GatherView {
                matches: types::views(matches@),
                truncated: text::texts(truncated@),
                resume: offsets::offset_map(resume@),
                fuzzy_skipped_lines: lines,
                fuzzy_skipped_bytes: skipped,
            }),
            remaining == max_matches - types::views(matches@).len(),
            offsets::ascending(resume@),
        decreases results@.len() - i,
    {
        let result = &results[i];
        let name = result.name.as_str();
        let found = result.matches.len();
        let ghost g = gathered(all.take(i as int), max_matches as int);
        proof {
            assert(all.take(i + 1).drop_last() =~= all.take(i as int));
            assert(all.take(i + 1).last() == result@);
            assert(types::views(result.matches@).len() == found);
        }
        let k: usize = if found as u64 > remaining as u64 {
            remaining as usize
        } else {
            found
        };
        report_matches(&mut matches, &result.matches, k);
        remaining = remaining - k as u32;
        if k < found {
            proof {
                assert(result@.matches[k as int] == result.matches@[k as int]@);
            }
            resume.insert_absent(name, result.matches[k].offset_bytes);
            note_name(&mut truncated, name);
        }
        if result.truncated_by_scan {
            resume.insert_absent(name, result.scan_end);
            note_name(&mut truncated, name);
        }
        lines = lines.saturating_add(result.fuzzy_skipped_lines);
        skipped = skipped.saturating_add(result.fuzzy_skipped_bytes);
        proof {
            let now = GatherView {
                matches: types::views(matches@),
                truncated: text::texts(truncated@),
                resume: offsets::offset_map(resume@),
                fuzzy_skipped_lines: lines,
                fuzzy_skipped_bytes: skipped,
            };
            let next = gathered_with(g, max_matches as int, result@);
            lemma_noted(g.truncated, name@);
            assert(now.truncated =~= next.truncated);
            assert(now.resume == next.resume);
            assert(now.matches =~= next.matches);
            assert(now == next);
        }
        i += 1;
    }
    proof {
        assert(all.take(all.len() as int) =~= all);
    }
    Gathering {
        matches,
        truncated,
        resume,
        fuzzy_skipped_lines: lines,
        fuzzy_skipped_bytes: skipped,
    }
}

/// The highest similarity that matches carry.
pub open spec fn best_similarity(matches: Seq<types::MatchView>) -> Option<Score>
    decreases matches.len(),
{
    if matches.len() == 0 {
        None
    } else {
        match (best_similarity(matches.drop_last()), matches.last().similarity) {
            (Some(a), Some(b)) => Some(
                if b.bits > a.bits {
                    b
                } else {
                    a
                },
            ),
            (Some(a), None) => Some(a),
            (None, b) => b,
        }
    }
}

/// Finds the highest similarity that matches carry.
pub fn find_best_similarity(matches: &Vec<BufferSearchMatch>) -> (best: Option<Score>)
    ensures
        best == best_similarity(types::views(matches@)),
{
    let ghost all = types::views(matches@);
    let mut best: Option<Score> = None;
    let mut i: usize = 0;
    while i < matches.len()
        invariant
            i <= matches@.len(),
            all == types::views(matches@),
            best == best_similarity(all.take(i as int)),
        decreases matches@.len() - i,
    {
        proof {
            assert(all.take(i + 1).drop_last() =~= all.take(i as int));
            assert(all.take(i + 1).last() == matches@[i as int]@);
        }
        best = match (best, matches[i].similarity) {
            (Some(a), Some(b)) => Some(
                if b.bits > a.bits {
                    b
                } else {
                    a
                },
            ),
            (Some(a), None) => Some(a),
            (None, b) => b,
        };
        i += 1;
    }
    proof {
        assert(all.take(all.len() as int) =~= all);
    }
    best
}

/// The first name of offsets that is not among the names of the buffers.
pub open spec fn unknown_name(
    resume: Seq<(Seq<char>, u64)>,
    names: Seq<Seq<char>>,
) -> Option<Seq<char>>
    decreases resume.len(),
{
    if resume.len() == 0 {
        None
    } else if !names.contains(resume[0].0) {
        Some(resume[0].0)
    } else {
        unknown_name(resume.skip(1), names)
    }
}

/// Why the first of the buffers that cannot be searched cannot be.
pub open spec fn first_resume_error(
    resume: Seq<(Seq<char>, u64)>,
    buffers: Seq<TextView>,
) -> Option<Seq<char>>
    decreases buffers.len(),
{
    if buffers.len() == 0 {
        None
    } else {
        match resume_error(resume, buffers[0]) {
            Some(message) => Some(message),
            None => first_resume_error(resume, buffers.skip(1)),
        }
    }
}

/// The names of buffers.
pub open spec fn names_of(buffers: Seq<TextView>) -> Seq<Seq<char>> {
    buffers.map_values(|b: TextView| b.name)
}

/// Why a search is refused.
pub open spec fn search_error(settings: Settings, buffers: Seq<TextView>) -> Option<Seq<char>> {
    if settings.terms.query.len() == 0 {
        Some("query must not be empty"@)
    } else if settings.terms.mode is Regex && outside::regex_error(settings.terms.query) is Some {
        Some("invalid regex: "@ + outside::regex_error(settings.terms.query)->0)
    } else {
        match unknown_name(settings.resume, names_of(buffers)) {
            Some(name) => Some(
                "resumeFromOffset references unknown buffer '"@ + name + "'"@,
            ),
            None => first_resume_error(settings.resume, buffers),
        }
    }
}

/// How many bytes of each buffer are searched.
pub open spec fn scan_lens(
    resume: Seq<(Seq<char>, u64)>,
    max_scan: usize,
    buffers: Seq<TextView>,
) -> Seq<nat> {
    buffers.map_values(
        |b: TextView| (scan_end(resume, max_scan, b) - scan_start(resume, b)) as nat,
    )
}

/// What a search gives.
pub open spec fn search_output(settings: Settings, buffers: Seq<TextView>) -> types::OutputView {
    let terms = settings.terms;
    let g = gathered(
        buffers.map_values(|b: TextView| scanned(settings, b)),
        settings.max_matches as int,
    );
    types::OutputView {
        query: terms.query,
        mode: terms.mode,
        context_bytes: terms.context,
        max_matches: settings.max_matches,
        include_similarity: terms.include_similarity,
        fuzzy_match: terms.fuzzy,
        similarity_threshold: if terms.fuzzy {
            Some(terms.threshold)
        } else {
            None
        },
        buffers: names_of(buffers),
        total_matches: g.matches.len() as u32,
        buffers_scanned: (buffers.len() as usize) as u32,
        bytes_scanned_total: matching::at_most(
            matching::total(scan_lens(settings.resume, settings.max_scan, buffers)) as int,
            u64::MAX as int,
        ) as u64,
        truncated_buffers: g.truncated,
        resume_from_offset: g.resume,
        matches: g.matches,
        max_similarity: if terms.include_similarity {
            best_similarity(g.matches)
        } else {
            None
        },
        fuzzy_skipped_lines: g.fuzzy_skipped_lines,
        fuzzy_skipped_bytes: g.fuzzy_skipped_bytes,
    }
}

/// One more length adds to the sum.
proof fn lemma_total_push(lens: Seq<nat>, n: nat)
    ensures
        matching::total(lens.push(n)) == matching::total(lens) + n,
    decreases lens.len(),
{
    reveal_with_fuel(matching::total, 2);
    if lens.len() == 0 {
        assert(lens.push(n).skip(1) =~= Seq::<nat>::empty());
    } else {
        lemma_total_push(lens.skip(1), n);
        assert(lens.push(n).skip(1) =~= lens.skip(1).push(n));
    }
}

/// Checks that every offset to go on from belongs to one of the buffers.
fn check_resume_names(resume: &Option<OffsetMap>, names: &Vec<String>) -> (r: Result<(), Error>)
    ensures
        match r {
            Ok(_) => unknown_name(resume_entries(*resume), text::texts(names@)) is None,
            Err(error) => match unknown_name(resume_entries(*resume), text::texts(names@)) {
                Some(name) => error@ == ErrorView::InvalidArgument(
                    "resumeFromOffset references unknown buffer '"@ + name + "'"@,
                ),
                None => false,
            },
        },
{
    if let Some(offsets) = resume {
        let ghost all = offsets@;
        let ghost known = text::texts(names@);
        let mut i: usize = 0;
        proof {
            assert(all.skip(0) =~= all);
        }
        while i < offsets.len()
            invariant
                i <= all.len(),
                all == offsets@,
                all == resume_entries(*resume),
                known == text::texts(names@),
                unknown_name(all, known) == unknown_name(all.skip(i as int), known),
            decreases all.len() - i,
        {
            let name = offsets.name_at(i);
            proof {
                assert(all.skip(i as int)[0] == all[i as int]);
                assert(all.skip(i as int).skip(1) =~= all.skip(i + 1));
            }
            if !text::contains_text(names, name) {
                let mut message = "resumeFromOffset references unknown buffer '".to_owned();
                message.append(name);
                message.append("'");
                return Err(Error::InvalidArgument { message });
            }
            i += 1;
        }
    }
    Ok(())
}

/// Whether every stretch lies inside its buffer.
pub open spec fn texts_valid(buffers: Seq<TextView>) -> bool {
    forall|i: int| 0 <= i < buffers.len() ==> text_valid(#[trigger] buffers[i])
}

/// The names of some buffers.
fn buffer_names(buffers: &Vec<BufferText>) -> (names: Vec<String>)
    ensures
        text::texts(names@) == names_of(types::views(buffers@)),
{
    let mut names: Vec<String> = Vec::new();
    let mut i: usize = 0;
    while i < buffers.len()
        invariant
            i <= buffers@.len(),
            text::texts(names@) == names_of(types::views(buffers@)).take(i as int),
        decreases buffers@.len() - i,
    {
        let ghost before = names@;
        names.push(buffers[i].name.clone());
        proof {
            assert(text::texts(names@) =~= text::texts(before).push(buffers@[i as int].name@));
            assert(names_of(types::views(buffers@)).take(i + 1) =~= names_of(
                types::views(buffers@),
            ).take(i as int).push(buffers@[i as int].name@));
        }
        i += 1;
    }
    proof {
        let all = names_of(types::views(buffers@));
        assert(all.take(all.len() as int) =~= all);
    }
    names
}

/// Decides where to search each buffer, and how many bytes that is in all.
fn plan_scans<'a>(
    buffers: &'a Vec<BufferText>,
    resume: &Option<OffsetMap>,
    max_scan: usize,
) -> (r: Result<(Vec<ScanJob<'a>>, u64), Error>)
    requires
        texts_valid(types::views(buffers@)),
    ensures
        match r {
            Ok(plan) => {
                let views = types::views(buffers@);
                let entries = resume_entries(*resume);
                &&& first_resume_error(entries, views) is None
                &&& plan.0@.len() == views.len()
                &&& forall|i: int|
                    0 <= i < views.len() ==> {
                        &&& (#[trigger] plan.0@[i]).buffer@ == views[i]
                        &&& plan.0@[i].start == scan_start(entries, views[i])
                        &&& plan.0@[i].end == scan_end(entries, max_scan, views[i])
                    }
                &&& plan.1 == matching::at_most(
                    matching::total(
                        scan_lens(entries, max_scan, views),
                    ) as int,
                    u64::MAX as int,
                )
            },
            Err(error) => match first_resume_error(
                resume_entries(*resume),
                types::views(buffers@),
            ) {
                Some(message) => error@ == ErrorView::InvalidArgument(message),
                None => false,
            },
        },
{
    let ghost views = types::views(buffers@);
    let ghost entries = resume_entries(*resume);
    let ghost lens = scan_lens(entries, max_scan, views);
    let mut jobs: Vec<ScanJob<'a>> = Vec::new();
    let mut scanned_total: u64 = 0;
    let mut i: usize = 0;
    proof {
        assert(views.skip(0) =~= views);
        assert(lens.take(0) =~= Seq::<nat>::empty());
    }
    while i < buffers.len()
        invariant
            i <= buffers@.len(),
            views == types::views(buffers@),
            entries == resume_entries(*resume),
            lens == scan_lens(entries, max_scan, views),
            texts_valid(views),
            first_resume_error(entries, views) == first_resume_error(entries, views.skip(i as int)),
            jobs@.len() == i,
            forall|k: int|
                0 <= k < i ==> {
                    &&& (#[trigger] jobs@[k]).buffer@ == views[k]
                    &&& jobs@[k].start == scan_start(entries, views[k])
                    &&& jobs@[k].end == scan_end(entries, max_scan, views[k])
                },
            scanned_total == matching::at_most(
                matching::total(lens.take(i as int)) as int,
                u64::MAX as int,
            ),
        decreases buffers@.len() - i,
    {
        let buffer = &buffers[i];
        proof {
            assert(views[i as int] == buffer@);
            assert(views.skip(i as int)[0] == buffer@);
            assert(views.skip(i as int).skip(1) =~= views.skip(i + 1));
            law_scan_range(entries, max_scan, buffer@);
        }
        match scan_range(buffer, resume, max_scan) {
            Ok((start, end)) => {
                scanned_total = scanned_total.saturating_add((end - start) as u64);
                jobs.push(ScanJob { buffer, start, end });
                proof {
                    assert(lens.take(i + 1) =~= lens.take(i as int).push((end - start) as nat));
                    lemma_total_push(lens.take(i as int), (end - start) as nat);
                }
            },
            Err(error) => {
                return Err(error);
            },
        }
        i += 1;
    }
    proof {
        assert(lens.take(lens.len() as int) =~= lens);
    }
    Ok((jobs, scanned_total))
}

/// Searches stretches of buffers.
pub fn search_texts(
    buffers: Vec<BufferText>,
    query: &str,
    mode: SearchMode,
    options: SearchOptions,
) -> (r: Result<BufferSearchOutput, Error>)
    requires
        texts_valid(types::views(buffers@)),
    ensures
        match r {
            Ok(output) => {
                let settings = settings_of(query@, mode, options);
                &&& search_error(settings, types::views(buffers@)) is None
                &&& output@ == search_output(settings, types::views(buffers@))
                &&& offsets::ascending(output.resume_from_offset@)
            },
            Err(error) => match search_error(
                settings_of(query@, mode, options),
                types::views(buffers@),
            ) {
                Some(message) => error@ == ErrorView::InvalidArgument(message),
                None => false,
            },
        },
{
    let ghost settings = settings_of(query@, mode, options);
    let ghost views = types::views(buffers@);
    if query.is_empty() {
        return Err(Error::InvalidArgument { message: "query must not be empty".to_owned() });
    }
    let (include_similarity, fuzzy, threshold) = resolve_similarity_flags(
        options.include_similarity,
        options.fuzzy_match,
        options.similarity_threshold,
    );
    let context_bytes: u32 = match options.context_bytes {
        Some(n) => n,
        None => DEFAULT_SEARCH_CONTEXT_BYTES,
    };
    let max_matches: u32 = match options.max_matches {
        Some(n) => n,
        None => DEFAULT_SEARCH_MAX_MATCHES,
    };
    let max_scan: usize = match options.max_scan_bytes {
        Some(n) => n as usize,
        None => DEFAULT_SEARCH_MAX_SCAN_BYTES as usize,
    };
    if let SearchMode::Regex = mode {
        if let Err(reason) = outside::check_regex(query) {
            let mut message = "invalid regex: ".to_owned();
            message.append(reason.as_str());
            return Err(Error::InvalidArgument { message });
        }
    }
    let names = buffer_names(&buffers);
    if let Err(error) = check_resume_names(&options.resume_from_offset, &names) {
        return Err(error);
    }
    let (jobs, bytes_scanned_total) = match plan_scans(
        &buffers,
        &options.resume_from_offset,
        max_scan,
    ) {
        Ok(plan) => plan,
        Err(error) => {
            return Err(error);
        },
    };
    let terms = SearchTerms { query, mode, context_bytes, include_similarity, fuzzy, threshold };
    proof {
        assert(terms@ == settings.terms);
        assert forall|i: int| 0 <= i < jobs@.len() implies job_ready(
            terms@,
            #[trigger] jobs@[i],
        ) by {
            assert(text_valid(views[i]));
            law_scan_range(settings.resume, settings.max_scan, views[i]);
        }
    }
    let results = scan_buffers(&terms, &jobs);
    let g = gather(&results, max_matches);
    proof {
        assert(types::views(results@) =~= views.map_values(|b: TextView| scanned(settings, b)));
    }
    let max_similarity = if include_similarity {
        find_best_similarity(&g.matches)
    } else {
        None
    };
    proof {
        assert(types::views(g.matches@).len() == g.matches@.len());
        assert(views.len() == buffers@.len());
    }
    Ok(
        BufferSearchOutput {
            query: query.to_owned(),
            mode,
            context_bytes,
            max_matches,
            include_similarity,
            fuzzy_match: fuzzy,
            similarity_threshold: if fuzzy {
                Some(threshold)
            } else {
                None
            },
            buffers: names,
            total_matches: g.matches.len() as u32,
            buffers_scanned: buffers.len() as u32,
            bytes_scanned_total,
            truncated_buffers: g.truncated,
            resume_from_offset: g.resume,
            matches: g.matches,
            max_similarity,
            fuzzy_skipped_lines: g.fuzzy_skipped_lines,
            fuzzy_skipped_bytes: g.fuzzy_skipped_bytes,
        },
    )
}

/// The whole text of one buffer.
pub open spec fn whole_text(name: Seq<char>, text: Seq<char>) -> TextView {
    TextView {
        name,
        text: encode_utf8(text),
        base: 0,
        full_len: encode_utf8(text).len() as int,
    }
}

/// A buffer that is all at hand.
pub fn whole_buffer(name: &str, text: &str) -> (r: BufferText)
    ensures
        r@ == whole_text(name@, text@),
        text_valid(r@),
{
    proof {
        bytes::lemma_text_bytes(text@);
    }
    BufferText {
        name: name.to_owned(),
        text: text.to_owned(),
        base_offset: 0,
        full_len: bytes::byte_len(text),
    }
}

/// Searches the whole text of one buffer.
pub fn search_text(
    buffer_name: &str,
    text: &str,
    query: &str,
    mode: SearchMode,
    options: SearchOptions,
) -> (r: Result<BufferSearchOutput, Error>)
    ensures
        match r {
            Ok(output) => {
                let settings = settings_of(query@, mode, options);
                let buffers = seq![whole_text(buffer_name@, text@)];
                &&& search_error(settings, buffers) is None
                &&& output@ == search_output(settings, buffers)
                &&& offsets::ascending(output.resume_from_offset@)
            },
            Err(error) => match search_error(
                settings_of(query@, mode, options),
                seq![whole_text(buffer_name@, text@)],
            ) {
                Some(message) => error@ == ErrorView::InvalidArgument(message),
                None => false,
            },
        },
{
    let mut buffers: Vec<BufferText> = Vec::new();
    buffers.push(whole_buffer(buffer_name, text));
    proof {
        assert(types::views(buffers@) =~= seq![whole_text(buffer_name@, text@)]);
    }
    search_texts(buffers, query, mode, options)
}

} // verus!
