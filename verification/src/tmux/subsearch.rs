//! Searching a buffer around an anchor, such as an earlier match.

use vstd::prelude::*;
use vstd::string::*;
use vstd::utf8::*;

use crate::bytes;
use crate::errors::{Error, ErrorView};
use crate::numbers;
use crate::offsets;
use crate::outside;
use crate::score::Score;
use crate::text;
use crate::tmux::matching;
use crate::tmux::matching::MatchContext;
use crate::tmux::search;
use crate::tmux::search::{BufferScanResult, BufferText};
use crate::types;
use crate::types::{BufferSearchOutput, SearchMode};

verus! {

/// Options for anchor-scoped subsearch.
#[derive(Debug, Clone, PartialEq, Eq)]
pub struct SubsearchOptions {
    pub context_bytes: u32,
    pub max_matches: Option<u32>,
    pub include_similarity: bool,
    pub fuzzy_match: bool,
    pub similarity_threshold: Option<Score>,
    pub resume_from_offset: Option<u64>,
}

/// Where in a buffer a subsearch looks: so many bytes around a stretch.
pub struct Anchor {
    pub offset: int,
    pub len: int,
    pub context: int,
}

/// The anchor that arguments stand for.
pub open spec fn anchor_of(offset: u64, len: u32, options: SubsearchOptions) -> Anchor {
    Anchor {
        offset: (offset as usize) as int,
        len: len as int,
        context: options.context_bytes as int,
    }
}

/// What is searched for, and how.
pub open spec fn subsearch_terms(
    query: Seq<char>,
    mode: SearchMode,
    options: SubsearchOptions,
) -> search::Terms {
    let fuzzy = search::fuzzy_asked(options.fuzzy_match, options.similarity_threshold);
    search::Terms {
        query,
        mode,
        context: options.context_bytes,
        include_similarity: options.include_similarity || fuzzy,
        fuzzy,
        threshold: search::threshold_asked(options.similarity_threshold),
    }
}

/// The offset in the buffer at which the stretch around an anchor begins.
pub open spec fn anchor_start(anchor: Anchor) -> int {
    matching::later(anchor.offset - anchor.context, 0)
}

/// The offset in the buffer at which the stretch around an anchor ends.
pub open spec fn anchor_end(anchor: Anchor, buffer: search::TextView) -> int {
    matching::at_most(anchor.offset + anchor.len + anchor.context, buffer.full_len)
}

/// The offset in the buffer at which a subsearch is asked to go on.
pub open spec fn subsearch_resume(options: SubsearchOptions) -> Option<int> {
    match options.resume_from_offset {
        Some(offset) => Some((offset as usize) as int),
        None => None,
    }
}

/// Why a subsearch is refused.
pub open spec fn subsearch_error(
    terms: search::Terms,
    anchor: Anchor,
    resume: Option<int>,
    buffer: search::TextView,
) -> Option<Seq<char>> {
    let start = anchor_start(anchor);
    let end = anchor_end(anchor, buffer);
    if terms.query.len() == 0 {
        Some("query must not be empty"@)
    } else if anchor.offset > buffer.full_len {
        Some(
            "anchor offset "@ + numbers::decimal_text(anchor.offset as nat)
                + " exceeds buffer length "@ + numbers::decimal_text(buffer.full_len as nat),
        )
    } else if start < buffer.base || end > buffer.base + buffer.text.len() {
        Some("anchor window for buffer '"@ + buffer.name + "' is outside the scan window"@)
    } else if resume is Some && resume->0 > buffer.full_len {
        Some(
            "resumeFromOffset "@ + numbers::decimal_text(resume->0 as nat)
                + " exceeds buffer length "@ + numbers::decimal_text(buffer.full_len as nat),
        )
    } else if resume is Some && !(start <= resume->0 <= end) {
        Some(
            "resumeFromOffset "@ + numbers::decimal_text(resume->0 as nat)
                + " is outside the anchor window"@,
        )
    } else if terms.mode is Regex && outside::regex_error(terms.query) is Some {
        Some("invalid regex: "@ + outside::regex_error(terms.query)->0)
    } else {
        None
    }
}

/// Where in the text that is at hand a subsearch begins.
pub open spec fn subscan_start(
    anchor: Anchor,
    resume: Option<int>,
    buffer: search::TextView,
) -> int {
    let start = match resume {
        Some(offset) => offset,
        None => anchor_start(anchor),
    };
    bytes::clamped(buffer.text, start - buffer.base, false)
}

/// Where in the text that is at hand a subsearch ends.
pub open spec fn subscan_end(anchor: Anchor, buffer: search::TextView) -> int {
    bytes::clamped(buffer.text, anchor_end(anchor, buffer) - buffer.base, true)
}

/// What the stretch around an anchor gives.
pub open spec fn subscanned(
    terms: search::Terms,
    anchor: Anchor,
    resume: Option<int>,
    buffer: search::TextView,
) -> search::ScanView {
    let scan = search::scan_over(
        terms,
        buffer,
        subscan_start(anchor, resume, buffer),
        subscan_end(anchor, buffer),
    );
    search::ScanView {
        name: buffer.name,
        matches: matching::matches_of(scan, matching::hits_of(scan)),
        scan_end: anchor_end(anchor, buffer) as u64,
        truncated_by_scan: anchor_end(anchor, buffer) < buffer.full_len,
        fuzzy_skipped_lines: matching::skipped_lines(scan),
        fuzzy_skipped_bytes: matching::skipped_bytes(scan),
    }
}

/// How many matches a subsearch reports at most.
pub open spec fn subsearch_limit(options: SubsearchOptions) -> u32 {
    match options.max_matches {
        Some(n) => n,
        None => search::DEFAULT_SEARCH_MAX_MATCHES,
    }
}

/// What a subsearch gives.
pub open spec fn subsearch_output(
    terms: search::Terms,
    anchor: Anchor,
    resume: Option<int>,
    max_matches: u32,
    buffer: search::TextView,
) -> types::OutputView {
    let g = search::gathered(
        seq![subscanned(terms, anchor, resume, buffer)],
        max_matches as int,
    );
    types::OutputView {
        query: terms.query,
        mode: terms.mode,
        context_bytes: terms.context,
        max_matches,
        include_similarity: terms.include_similarity,
        fuzzy_match: terms.fuzzy,
        similarity_threshold: if terms.fuzzy {
            Some(terms.threshold)
        } else {
            None
        },
        buffers: seq![buffer.name],
        total_matches: g.matches.len() as u32,
        buffers_scanned: 1,
        bytes_scanned_total: (subscan_end(anchor, buffer) - subscan_start(
            anchor,
            resume,
            buffer,
        )) as u64,
        truncated_buffers: g.truncated,
        resume_from_offset: g.resume,
        matches: g.matches,
        max_similarity: if terms.include_similarity {
            search::best_similarity(g.matches)
        } else {
            None
        },
        fuzzy_skipped_lines: g.fuzzy_skipped_lines,
        fuzzy_skipped_bytes: g.fuzzy_skipped_bytes,
    }
}

/// Law: a subsearch that is not refused begins and ends on character boundaries. It reaches no
/// further before the stretch around the anchor, or after it, than to the end of a character.
pub proof fn law_subscan_range(
    terms: search::Terms,
    anchor: Anchor,
    resume: Option<int>,
    buffer: search::TextView,
)
    requires
        search::text_valid(buffer),
        0 <= anchor.offset,
        0 <= anchor.len,
        0 <= anchor.context,
        subsearch_error(terms, anchor, resume, buffer) is None,
    ensures
        0 <= subscan_start(anchor, resume, buffer) <= subscan_end(anchor, buffer)
            <= buffer.text.len(),
        is_char_boundary(buffer.text, subscan_start(anchor, resume, buffer)),
        is_char_boundary(buffer.text, subscan_end(anchor, buffer)),
        forall|i: int|
            subscan_start(anchor, resume, buffer) < i <= anchor_start(anchor) - buffer.base
                ==> !is_char_boundary(buffer.text, i),
        forall|i: int|
            anchor_end(anchor, buffer) - buffer.base <= i < subscan_end(anchor, buffer)
                ==> !is_char_boundary(buffer.text, i),
{
    let start = match resume {
        Some(offset) => offset,
        None => anchor_start(anchor),
    };
    bytes::law_clamped(buffer.text, start - buffer.base, false);
    bytes::law_clamped(buffer.text, anchor_end(anchor, buffer) - buffer.base, true);
}

/// Decides where in the text that is at hand to search, and where in the buffer the stretch
/// around the anchor ends, or says why that cannot be.
fn subscan_range(
    query: &str,
    mode: SearchMode,
    anchor_offset: u64,
    anchor_len: u32,
    options: &SubsearchOptions,
    buffer: &BufferText,
) -> (r: Result<(usize, usize, usize), Error>)
    requires
        search::text_valid(buffer@),
    ensures
        match r {
            Ok(range) => {
                let anchor = anchor_of(anchor_offset, anchor_len, *options);
                let resume = subsearch_resume(*options);
                &&& subsearch_error(
                    subsearch_terms(query@, mode, *options),
                    anchor,
                    resume,
                    buffer@,
                ) is None
                &&& range.0 == subscan_start(anchor, resume, buffer@)
                &&& range.1 == subscan_end(anchor, buffer@)
                &&& range.2 == anchor_end(anchor, buffer@)
            },
            Err(error) => match subsearch_error(
                subsearch_terms(query@, mode, *options),
                anchor_of(anchor_offset, anchor_len, *options),
                subsearch_resume(*options),
                buffer@,
            ) {
                Some(message) => error@ == ErrorView::InvalidArgument(message),
                None => false,
            },
        },
{
    if query.is_empty() {
        return Err(Error::InvalidArgument { message: "query must not be empty".to_owned() });
    }
    let anchor = anchor_offset as usize;
    if anchor > buffer.full_len {
        let mut message = "anchor offset ".to_owned();
        message.append(numbers::decimal(anchor as u64).as_str());
        message.append(" exceeds buffer length ");
        message.append(numbers::decimal(buffer.full_len as u64).as_str());
        return Err(Error::InvalidArgument { message });
    }
    let text = buffer.text.as_str();
    let context = options.context_bytes as usize;
    let start = anchor.saturating_sub(context);
    let reach = anchor.saturating_add(anchor_len as usize).saturating_add(context);
    let end = if reach > buffer.full_len {
        buffer.full_len
    } else {
        reach
    };
    if start < buffer.base_offset || end > buffer.base_offset + bytes::byte_len(text) {
        let mut message = "anchor window for buffer '".to_owned();
        message.append(buffer.name.as_str());
        message.append("' is outside the scan window");
        return Err(Error::InvalidArgument { message });
    }
    let mut from = start;
    if let Some(offset) = options.resume_from_offset {
        let offset = offset as usize;
        if offset > buffer.full_len {
            let mut message = "resumeFromOffset ".to_owned();
            message.append(numbers::decimal(offset as u64).as_str());
            message.append(" exceeds buffer length ");
            message.append(numbers::decimal(buffer.full_len as u64).as_str());
            return Err(Error::InvalidArgument { message });
        }
        if offset < start || offset > end {
            let mut message = "resumeFromOffset ".to_owned();
            message.append(numbers::decimal(offset as u64).as_str());
            message.append(" is outside the anchor window");
            return Err(Error::InvalidArgument { message });
        }
        from = offset;
    }
    if let SearchMode::Regex = mode {
        if let Err(reason) = outside::check_regex(query) {
            let mut message = "invalid regex: ".to_owned();
            message.append(reason.as_str());
            return Err(Error::InvalidArgument { message });
        }
    }
    let scan_start = bytes::clamp_char_boundary(text, from - buffer.base_offset, false);
    let scan_end = bytes::clamp_char_boundary(text, end - buffer.base_offset, true);
    Ok((scan_start, scan_end, end))
}

/// Searches a stretch of a buffer around an anchor.
pub fn subsearch_text_view(
    buffer: &BufferText,
    anchor_offset: u64,
    anchor_len: u32,
    query: &str,
    mode: SearchMode,
    options: SubsearchOptions,
) -> (r: Result<BufferSearchOutput, Error>)
    requires
        search::text_valid(buffer@),
    ensures
        match r {
            Ok(output) => {
                let terms = subsearch_terms(query@, mode, options);
                let anchor = anchor_of(anchor_offset, anchor_len, options);
                let resume = subsearch_resume(options);
                &&& subsearch_error(terms, anchor, resume, buffer@) is None
                &&& output@ == subsearch_output(
                    terms,
                    anchor,
                    resume,
                    subsearch_limit(options),
                    buffer@,
                )
                &&& offsets::ascending(output.resume_from_offset@)
            },
            Err(error) => match subsearch_error(
                subsearch_terms(query@, mode, options),
                anchor_of(anchor_offset, anchor_len, options),
                subsearch_resume(options),
                buffer@,
            ) {
                Some(message) => error@ == ErrorView::InvalidArgument(message),
                None => false,
            },
        },
{
    let ghost terms = subsearch_terms(query@, mode, options);
    let ghost anchor = anchor_of(anchor_offset, anchor_len, options);
    let ghost resume = subsearch_resume(options);
    let (include_similarity, fuzzy, threshold) = search::resolve_similarity_flags(
        options.include_similarity,
        options.fuzzy_match,
        options.similarity_threshold,
    );
    let (scan_start, scan_end, end) = match subscan_range(
        query,
        mode,
        anchor_offset,
        anchor_len,
        &options,
        buffer,
    ) {
        Ok(range) => range,
        Err(error) => {
            return Err(error);
        },
    };
    proof {
        law_subscan_range(terms, anchor, resume, buffer@);
    }
    let ctx = MatchContext {
        buffer: buffer.name.as_str(),
        text: buffer.text.as_str(),
        query,
        context_bytes: options.context_bytes as usize,
        include_similarity,
        base_offset: buffer.base_offset,
        mode,
        fuzzy,
        threshold,
        scan_start,
        scan_end,
    };
    proof {
        assert(ctx@ == search::scan_over(terms, buffer@, scan_start as int, scan_end as int));
    }
    let collection = matching::collect_matches(&ctx);
    let result = BufferScanResult {
        name: buffer.name.clone(),
        matches: collection.matches,
        scan_end: end as u64,
        truncated_by_scan: end < buffer.full_len,
        fuzzy_skipped_lines: collection.fuzzy_skipped_lines,
        fuzzy_skipped_bytes: collection.fuzzy_skipped_bytes,
    };
    proof {
        assert(result@ == subscanned(terms, anchor, resume, buffer@));
    }
    let mut results: Vec<BufferScanResult> = Vec::new();
    results.push(result);
    let max_matches: u32 = match options.max_matches {
        Some(n) => n,
        None => search::DEFAULT_SEARCH_MAX_MATCHES,
    };
    proof {
        assert(types::views(results@) =~= seq![subscanned(terms, anchor, resume, buffer@)]);
    }
    let g = search::gather(&results, max_matches);
    let max_similarity = if include_similarity {
        search::find_best_similarity(&g.matches)
    } else {
        None
    };
    let mut names: Vec<String> = Vec::new();
    names.push(buffer.name.clone());
    proof {
        assert(types::views(g.matches@).len() == g.matches@.len());
        assert(text::texts(names@) =~= seq![buffer.name@]);
    }
    Ok(
        BufferSearchOutput {
            query: query.to_owned(),
            mode,
            context_bytes: options.context_bytes,
            max_matches,
            include_similarity,
            fuzzy_match: fuzzy,
            similarity_threshold: if fuzzy {
                Some(threshold)
            } else {
                None
            },
            buffers: names,
            total_matches: g.matches.len() as u32,
            buffers_scanned: 1,
            bytes_scanned_total: (scan_end - scan_start) as u64,
            truncated_buffers: g.truncated,
            resume_from_offset: g.resume,
            matches: g.matches,
            max_similarity,
            fuzzy_skipped_lines: g.fuzzy_skipped_lines,
            fuzzy_skipped_bytes: g.fuzzy_skipped_bytes,
        },
    )
}

/// Searches the whole text of one buffer around an anchor.
pub fn subsearch_text(
    buffer: &str,
    text: &str,
    anchor_offset: u64,
    anchor_len: u32,
    query: &str,
    mode: SearchMode,
    options: SubsearchOptions,
) -> (r: Result<BufferSearchOutput, Error>)
    ensures
        match r {
            Ok(output) => {
                let terms = subsearch_terms(query@, mode, options);
                let anchor = anchor_of(anchor_offset, anchor_len, options);
                let resume = subsearch_resume(options);
                let whole = search::whole_text(buffer@, text@);
                &&& subsearch_error(terms, anchor, resume, whole) is None
                &&& output@ == subsearch_output(
                    terms,
                    anchor,
                    resume,
                    subsearch_limit(options),
                    whole,
                )
                &&& offsets::ascending(output.resume_from_offset@)
            },
            Err(error) => match subsearch_error(
                subsearch_terms(query@, mode, options),
                anchor_of(anchor_offset, anchor_len, options),
                subsearch_resume(options),
                search::whole_text(buffer@, text@),
            ) {
                Some(message) => error@ == ErrorView::InvalidArgument(message),
                None => false,
            },
        },
{
    let view = search::whole_buffer(buffer, text);
    subsearch_text_view(&view, anchor_offset, anchor_len, query, mode, options)
}

} // verus!
