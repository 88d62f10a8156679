//! Loading a stretch of a buffer for a search.

use vstd::prelude::*;
use vstd::string::*;
use vstd::utf8::*;

use crate::bytes;
use crate::errors::{Error, ErrorView};
use crate::numbers;
use crate::offsets;
use crate::offsets::OffsetMap;
use crate::outside;
use crate::text;
use crate::tmux::matching;
use crate::tmux::search;
use crate::tmux::search::BufferText;
use crate::types;
use crate::types::BufferInfo;

verus! {

/// Whether a byte stands inside a UTF-8 character, not at its start.
pub fn is_utf8_continuation(byte: u8) -> (r: bool)
    ensures
        r == is_continuation_byte(byte),
{
    0x80 <= byte && byte <= 0xbf
}

/// The first byte at or after `from` that can begin a character.
pub open spec fn leading_end(bytes: Seq<u8>, from: int) -> int
    decreases bytes.len() - from,
{
    if from < bytes.len() && is_continuation_byte(bytes[from]) {
        leading_end(bytes, from + 1)
    } else {
        from
    }
}

/// `to` moved back over the bytes before it that stand inside a character, but not past `from`.
pub open spec fn trailing_start(bytes: Seq<u8>, from: int, to: int) -> int
    decreases to,
{
    if to > from && to > 0 && is_continuation_byte(bytes[to - 1]) {
        trailing_start(bytes, from, to - 1)
    } else {
        to
    }
}

/// Where the part of a window begins that is read as text: what stands inside a character at
/// the start of the window is left out.
pub open spec fn core_start(bytes: Seq<u8>) -> int {
    leading_end(bytes, 0)
}

/// The part of a window that is read as text: what stands inside a character at its two ends is
/// left out. Of a last character of several bytes only the first byte is in this part, even
/// where all of the character lies in the window.
pub open spec fn window_core(bytes: Seq<u8>) -> Seq<u8> {
    let start = core_start(bytes);
    bytes.subrange(start, trailing_start(bytes, start, bytes.len() as int))
}

/// The length of the longest beginning of at most `n` bytes that is valid UTF-8.
pub open spec fn valid_len(bytes: Seq<u8>, n: int) -> int
    decreases n,
{
    if n <= 0 || valid_utf8(bytes.take(n)) {
        n
    } else {
        valid_len(bytes, n - 1)
    }
}

/// The bytes of a window that are its text: all of the part that is read, or, where that ends
/// inside a character, all before this character. A last character of several bytes is thus left
/// out of the text, whether or not all of it lies in the window, and the last character of a
/// buffer is no exception. There is no text where another byte is wrong.
pub open spec fn window_text(bytes: Seq<u8>) -> Option<Seq<u8>> {
    let core = window_core(bytes);
    if valid_utf8(core) {
        Some(core)
    } else if outside::utf8_beginning(core) {
        Some(core.take(valid_len(core, core.len() as int)))
    } else {
        None
    }
}

/// The part that is read as text lies inside the window.
proof fn lemma_core(bytes: Seq<u8>)
    ensures
        0 <= core_start(bytes) <= trailing_start(bytes, core_start(bytes), bytes.len() as int)
            <= bytes.len(),
{
    lemma_leading_end(bytes, 0);
    lemma_trailing_start(bytes, core_start(bytes), bytes.len() as int);
}

/// All bytes up to the first one that can begin a character stand inside a character.
pub proof fn lemma_leading_end(bytes: Seq<u8>, from: int)
    requires
        0 <= from <= bytes.len(),
    ensures
        from <= leading_end(bytes, from) <= bytes.len(),
        forall|i: int|
            from <= i < leading_end(bytes, from) ==> is_continuation_byte(#[trigger] bytes[i]),
        leading_end(bytes, from) < bytes.len() ==> !is_continuation_byte(
            bytes[leading_end(bytes, from)],
        ),
    decreases bytes.len() - from,
{
    if from < bytes.len() && is_continuation_byte(bytes[from]) {
        lemma_leading_end(bytes, from + 1);
    }
}

/// All bytes that `to` is moved back over stand inside a character.
pub proof fn lemma_trailing_start(bytes: Seq<u8>, from: int, to: int)
    requires
        0 <= from <= to,
    ensures
        from <= trailing_start(bytes, from, to) <= to,
        forall|i: int|
            trailing_start(bytes, from, to) <= i < to ==> is_continuation_byte(
                #[trigger] bytes[i],
            ),
        trailing_start(bytes, from, to) > from ==> !is_continuation_byte(
            bytes[trailing_start(bytes, from, to) - 1],
        ),
    decreases to,
{
    if to > from && is_continuation_byte(bytes[to - 1]) {
        lemma_trailing_start(bytes, from, to - 1);
    }
}

/// The longest valid beginning is valid, and none between it and `n` is.
proof fn lemma_valid_len(bytes: Seq<u8>, n: int)
    requires
        0 <= n <= bytes.len(),
    ensures
        0 <= valid_len(bytes, n) <= n,
        valid_utf8(bytes.take(valid_len(bytes, n))),
        forall|m: int| valid_len(bytes, n) < m <= n ==> !#[trigger] valid_utf8(bytes.take(m)),
    decreases n,
{
    if n == 0 {
        assert(bytes.take(0) =~= Seq::<u8>::empty());
        assert(valid_utf8(bytes.take(0)));
    } else if !valid_utf8(bytes.take(n)) {
        lemma_valid_len(bytes, n - 1);
    }
}

/// Law: the text of a window is a stretch of it, at the offset where its core begins, and is
/// valid UTF-8.
pub proof fn law_window_text(bytes: Seq<u8>)
    ensures
        match window_text(bytes) {
            Some(part) => {
                &&& valid_utf8(part)
                &&& 0 <= core_start(bytes)
                &&& core_start(bytes) + part.len() <= bytes.len()
                &&& part == bytes.subrange(core_start(bytes), core_start(bytes) + part.len())
            },
            None => true,
        },
{
    lemma_core(bytes);
    let core = window_core(bytes);
    lemma_valid_len(core, core.len() as int);
    if let Some(part) = window_text(bytes) {
        assert(part =~= bytes.subrange(core_start(bytes), core_start(bytes) + part.len()));
    }
}

/// Law: a window of valid UTF-8 whose last character is of one byte is all text.
pub proof fn law_window_identity(bytes: Seq<u8>)
    requires
        valid_utf8(bytes),
        bytes.len() > 0,
        !is_continuation_byte(bytes.last()),
    ensures
        window_text(bytes) == Some(bytes),
        core_start(bytes) == 0,
{
    is_char_boundary_start_end_of_seq(bytes);
    is_char_boundary_iff_not_is_continuation_byte(bytes, 0);
    assert(window_core(bytes) =~= bytes);
}

/// After a character of one byte the next one begins.
proof fn lemma_after_ascii(whole: Seq<u8>, at: int)
    requires
        valid_utf8(whole),
        0 <= at < whole.len(),
        is_leading_byte_width_1(whole[at]),
    ensures
        is_char_boundary(whole, at + 1),
{
    is_char_boundary_iff_is_leading_byte(whole, at);
    let rest = whole.skip(at);
    bytes::lemma_boundary_in_suffix(whole, at, at + 1);
    assert(rest[0] == whole[at]);
    reveal_with_fuel(is_char_boundary, 2);
    assert(is_char_boundary(rest, 1));
}

/// Law: a window of valid UTF-8, wherever it begins and ends, has a text. This is the stretch of
/// the whole that begins where the first character of the window does and after which at most
/// one character begins: the last one, which is left out where it has several bytes. At most
/// four bytes are thus left out at the end, and none where the last byte is ASCII.
pub proof fn law_window_of_text(whole: Seq<u8>, from: int, to: int)
    requires
        valid_utf8(whole),
        0 <= from <= to <= whole.len(),
    ensures
        ({
            let window = whole.subrange(from, to);
            let start = from + core_start(window);
            let end = start + window_text(window)->0.len();
            &&& window_text(window) == Some(whole.subrange(start, end))
            &&& from <= start <= end <= to
            &&& forall|k: int| from <= k < start ==> !is_char_boundary(whole, k)
            &&& forall|k: int| end < k < to ==> !is_char_boundary(whole, k)
            &&& to - end <= 4
            &&& from < to && is_leading_byte_width_1(whole[to - 1]) ==> end == to
        }),
{
    let window = whole.subrange(from, to);
    let lead = core_start(window);
    let tail = trailing_start(window, lead, window.len() as int);
    let core = window_core(window);
    lemma_leading_end(window, 0);
    lemma_trailing_start(window, lead, window.len() as int);
    assert forall|k: int| from <= k < from + lead implies !is_char_boundary(whole, k) by {
        assert(is_continuation_byte(window[k - from]));
        is_char_boundary_iff_not_is_continuation_byte(whole, k);
    }
    assert forall|k: int| from + tail <= k < to implies !is_char_boundary(whole, k) by {
        assert(is_continuation_byte(window[k - from]));
        is_char_boundary_iff_not_is_continuation_byte(whole, k);
    }
    assert(core =~= whole.subrange(from + lead, from + tail));
    if lead == window.len() {
        assert(core =~= Seq::<u8>::empty());
        assert(valid_utf8(core));
    } else {
        let start = from + lead;
        let last = from + tail - 1;
        assert(whole[start] == window[lead]);
        is_char_boundary_iff_not_is_continuation_byte(whole, start);
        if tail == lead {
            assert(is_continuation_byte(window[lead]));
        }
        assert(whole[last] == window[tail - 1]);
        is_char_boundary_iff_not_is_continuation_byte(whole, last);
        is_char_boundary_iff_is_leading_byte(whole, last);
        assert(core.last() == whole[last]);
        if is_leading_byte_width_1(whole[last]) {
            lemma_after_ascii(whole, last);
            bytes::lemma_stretch(whole, start, last + 1);
            assert(tail == window.len()) by {
                if tail < window.len() {
                    assert(!is_char_boundary(whole, from + tail));
                }
            }
        } else {
            lemma_cut_core(whole, start, last);
            assert(core.take(core.len() - 1) =~= whole.subrange(start, last));
            let next = bytes::lemma_next_boundary(whole, last);
            assert(to <= next) by {
                if next < to {
                    assert(!is_char_boundary(whole, next));
                }
            }
            if tail < window.len() {
                assert(is_continuation_byte(window[window.len() - 1]));
            }
        }
    }
}

/// What ends with the first byte of a character of several bytes begins valid UTF-8 without
/// being such, and its text ends before that byte.
proof fn lemma_cut_core(whole: Seq<u8>, start: int, last: int)
    requires
        valid_utf8(whole),
        0 <= start <= last < whole.len(),
        is_char_boundary(whole, start),
        is_char_boundary(whole, last),
        !is_continuation_byte(whole[last]),
        !is_leading_byte_width_1(whole[last]),
    ensures
        ({
            let core = whole.subrange(start, last + 1);
            &&& !valid_utf8(core)
            &&& outside::utf8_beginning(core)
            &&& valid_len(core, core.len() as int) == core.len() - 1
        }),
{
    let core = whole.subrange(start, last + 1);
    assert(core.last() == whole[last]);
    if valid_utf8(core) {
        valid_utf8_last(core);
    }
    let rest = whole.skip(last + 1);
    bytes::lemma_boundary_in_suffix(whole, start, start);
    assert(core + rest =~= whole.skip(start));
    assert(valid_utf8(core + rest));
    bytes::lemma_stretch(whole, start, last);
    assert(core.take(core.len() - 1) =~= whole.subrange(start, last));
    assert(core.take(core.len() as int) =~= core);
    reveal_with_fuel(valid_len, 2);
}

/// Decodes a window of a buffer: its text, and the offset in the buffer at which that begins. A
/// last character of several bytes is no part of the text.
pub fn decode_window(buffer: &str, bytes: &[u8], base_offset: usize) -> (r: Result<
    (String, usize),
    Error,
>)
    ensures
        match r {
            Ok(decoded) => {
                &&& window_text(bytes@) == Some(encode_utf8(decoded.0@))
                &&& decoded.1 == matching::at_most(
                    base_offset + core_start(bytes@),
                    usize::MAX as int,
                )
            },
            Err(error) => {
                &&& window_text(bytes@) is None
                &&& error@ == ErrorView::InvalidArgument(
                    "buffer '"@ + buffer@ + "' contains non-UTF-8 bytes; search requires UTF-8"@,
                )
            },
        },
{
    let mut start: usize = 0;
    while start < bytes.len() && is_utf8_continuation(bytes[start])
        invariant
            start <= bytes@.len(),
            leading_end(bytes@, start as int) == core_start(bytes@),
        decreases bytes@.len() - start,
    {
        start += 1;
    }
    let mut end: usize = bytes.len();
    while end > start && is_utf8_continuation(bytes[end - 1])
        invariant
            start <= end <= bytes@.len(),
            trailing_start(bytes@, start as int, end as int) == trailing_start(
                bytes@,
                start as int,
                bytes@.len() as int,
            ),
        decreases end,
    {
        end -= 1;
    }
    let core = vstd::slice::slice_subrange(bytes, start, end);
    let offset = base_offset.saturating_add(start);
    proof {
        assert(core@ == window_core(bytes@));
    }
    match outside::decode_bytes(core) {
        Ok(text) => Ok((text, offset)),
        Err((valid, truncated)) => {
            if !truncated {
                let mut message = "buffer '".to_owned();
                message.append(buffer);
                message.append("' contains non-UTF-8 bytes; search requires UTF-8");
                return Err(Error::InvalidArgument { message });
            }
            let part = vstd::slice::slice_subrange(core, 0, valid);
            proof {
                lemma_valid_len(core@, core@.len() as int);
                assert(core@.take(core@.len() as int) =~= core@);
                let n = valid_len(core@, core@.len() as int);
                assert(n == valid) by {
                    if n < valid {
                        assert(!valid_utf8(core@.take(valid as int)));
                    } else if n > valid {
                        assert(!valid_utf8(core@.take(n)));
                    }
                }
                assert(part@ =~= core@.take(valid as int));
            }
            match outside::decode_bytes(part) {
                Ok(text) => Ok((text, offset)),
                Err(_) => {
                    proof {
                        assert(false);
                    }
                    Ok((String::new(), offset))
                },
            }
        },
    }
}

/// The error of a window that begins after the end of its buffer.
pub open spec fn beyond_end(buffer: Seq<char>, start: int, full_len: int) -> ErrorView {
    ErrorView::InvalidArgument(
        "resumeFromOffset "@ + numbers::decimal_text(start as nat) + " exceeds buffer '"@ + buffer
            + "' length "@ + numbers::decimal_text(full_len as nat),
    )
}

/// Where a window ends in its buffer.
pub open spec fn window_end(start: int, len: int, full_len: int) -> int {
    matching::at_most(start + len, full_len)
}

/// The stretch of a buffer that a window of bytes holds, or why it holds no text.
pub open spec fn window_outcome(
    buffer: Seq<char>,
    window: Seq<u8>,
    start: int,
    full_len: int,
) -> Result<search::TextView, ErrorView> {
    match window_text(window) {
        Some(part) => Ok(
            search::TextView {
                name: buffer,
                text: part,
                base: start + core_start(window),
                full_len,
            },
        ),
        None => Err(
            ErrorView::InvalidArgument(
                "buffer '"@ + buffer + "' contains non-UTF-8 bytes; search requires UTF-8"@,
            ),
        ),
    }
}

/// The outcome of a loading, as characters and bytes.
pub open spec fn outcome_view(r: Result<BufferText, Error>) -> Result<search::TextView, ErrorView> {
    match r {
        Ok(text) => Ok(text@),
        Err(error) => Err(error@),
    }
}

/// The error of a window that begins after the end of its buffer.
fn beyond_end_error(buffer: &str, start: u64, full_len: usize) -> (error: Error)
    ensures
        error@ == beyond_end(buffer@, start as int, full_len as int),
{
    let mut message = "resumeFromOffset ".to_owned();
    message.append(numbers::decimal(start).as_str());
    message.append(" exceeds buffer '");
    message.append(buffer);
    message.append("' length ");
    message.append(numbers::decimal(full_len as u64).as_str());
    Error::InvalidArgument { message }
}

/// Makes a stretch of a buffer of the bytes that were read of it from `start` on.
pub fn window_from_bytes(buffer: &str, window: &[u8], start: usize, full_len: usize) -> (r: Result<
    BufferText,
    Error,
>)
    requires
        start + window@.len() <= full_len,
    ensures
        outcome_view(r) == window_outcome(buffer@, window@, start as int, full_len as int),
        r is Ok ==> search::text_valid(r->Ok_0@),
{
    match decode_window(buffer, window, start) {
        Ok((text, base_offset)) => {
            proof {
                law_window_text(window@);
            }
            Ok(BufferText { name: buffer.to_owned(), text, base_offset, full_len })
        },
        Err(error) => Err(error),
    }
}

/// The stretch of a buffer that a window of its content holds, or why there is none.
pub open spec fn content_outcome(
    buffer: Seq<char>,
    content: Seq<u8>,
    start: int,
    len: int,
) -> Result<search::TextView, ErrorView> {
    if start > content.len() {
        Err(beyond_end(buffer, start, content.len() as int))
    } else {
        window_outcome(
            buffer,
            content.subrange(start, window_end(start, len, content.len() as int)),
            start,
            content.len() as int,
        )
    }
}

/// Takes a window out of all the bytes of a buffer.
pub fn window_of_buffer(buffer: &str, content: &[u8], start: u64, len: u64) -> (r: Result<
    BufferText,
    Error,
>)
    requires
        start <= usize::MAX,
    ensures
        outcome_view(r) == content_outcome(buffer@, content@, start as int, len as int),
        r is Ok ==> search::text_valid(r->Ok_0@),
{
    let full_len = content.len();
    if start as usize > full_len {
        return Err(beyond_end_error(buffer, start, full_len));
    }
    let reach = start.saturating_add(len);
    let end: usize = if reach > full_len as u64 {
        full_len
    } else {
        reach as usize
    };
    let window = vstd::slice::slice_subrange(content, start as usize, end);
    window_from_bytes(buffer, window, start as usize, full_len)
}

/// The length that a buffer counts with once it is in a file: the larger of what tmux reported
/// and what the file holds.
pub open spec fn streamed_len(size_hint: Option<u64>, file_len: u64) -> u64 {
    match size_hint {
        Some(size) => if size > file_len {
            size
        } else {
            file_len
        },
        None => file_len,
    }
}

/// How many bytes to read of a buffer that is in a file, and how long the buffer is, or why there
/// is nothing to read.
pub open spec fn file_plan(
    buffer: Seq<char>,
    start: int,
    len: int,
    size_hint: Option<u64>,
    file_len: u64,
) -> Result<(int, int), ErrorView> {
    let full_len = streamed_len(size_hint, file_len) as int;
    if start > full_len {
        Err(beyond_end(buffer, start, full_len))
    } else {
        Ok((window_end(start, len, full_len) - start, full_len))
    }
}

/// Decides how many bytes to read of a buffer that is in a file, and how long the buffer is.
pub fn streaming_window(
    buffer: &str,
    start: u64,
    len: u64,
    size_hint: Option<u64>,
    file_len: u64,
) -> (r: Result<(u64, usize), Error>)
    requires
        start <= usize::MAX,
        streamed_len(size_hint, file_len) <= usize::MAX,
    ensures
        match r {
            Ok(plan) => file_plan(buffer@, start as int, len as int, size_hint, file_len) == Ok::<
                (int, int),
                ErrorView,
            >((plan.0 as int, plan.1 as int)),
            Err(error) => file_plan(buffer@, start as int, len as int, size_hint, file_len) == Err::<
                (int, int),
                ErrorView,
            >(error@),
        },
{
    let longest = match size_hint {
        Some(size) => if size > file_len {
            size
        } else {
            file_len
        },
        None => file_len,
    };
    let full_len = longest as usize;
    if start as usize > full_len {
        return Err(beyond_end_error(buffer, start, full_len));
    }
    let reach = start.saturating_add(len);
    let end = if reach > full_len as u64 {
        full_len as u64
    } else {
        reach
    };
    Ok((end - start, full_len))
}

/// Which stretch of a buffer to load, and how.
#[derive(Debug, Clone, PartialEq, Eq)]
pub struct WindowRequest {
    pub buffer: String,
    pub start: u64,
    pub len: u64,
    /// The size that tmux reports for the buffer.
    pub size_hint: Option<u64>,
    /// Whether the buffer goes through a file, as it is large.
    pub streaming: bool,
}

/// Which stretch of a buffer to load, as characters.
#[verifier::ext_equal]
pub struct RequestView {
    pub buffer: Seq<char>,
    pub start: u64,
    pub len: u64,
    pub size_hint: Option<u64>,
    pub streaming: bool,
}

impl View for WindowRequest {
    type V = RequestView;

    open spec fn view(&self) -> RequestView {
        RequestView {
            buffer: self.buffer@,
            start: self.start,
            len: self.len,
            size_hint: self.size_hint,
            streaming: self.streaming,
        }
    }
}

/// Whether a buffer goes through a file: where it is reported to be longer than the threshold.
pub open spec fn streams(size_hint: Option<u64>, threshold: u64) -> bool {
    match size_hint {
        Some(size) => size > threshold,
        None => false,
    }
}

/// What reading up to `len` bytes from an offset of a file gives: no more than the file holds.
pub open spec fn read_from(content: Seq<u8>, start: int, len: int) -> Seq<u8> {
    if start > content.len() {
        Seq::empty()
    } else {
        content.subrange(start, window_end(start, len, content.len() as int))
    }
}

/// The stretch of a buffer that a request loads, or why there is none: the window is taken out of
/// the whole content, or, where the buffer goes through a file, read from there.
pub open spec fn loaded(request: RequestView, content: Seq<u8>) -> Result<
    search::TextView,
    ErrorView,
> {
    if request.streaming {
        match file_plan(
            request.buffer,
            request.start as int,
            request.len as int,
            request.size_hint,
            content.len() as u64,
        ) {
            Ok((len, full_len)) => window_outcome(
                request.buffer,
                read_from(content, request.start as int, len),
                request.start as int,
                full_len,
            ),
            Err(error) => Err(error),
        }
    } else {
        content_outcome(request.buffer, content, request.start as int, request.len as int)
    }
}

/// Law: where the size that tmux reports is the length of the content, or none is reported, it
/// does not show whether a buffer goes through a file: the same stretch is loaded, or the same
/// error given, whatever the threshold for that is.
pub proof fn law_streaming_unseen(request: RequestView, content: Seq<u8>)
    requires
        content.len() <= u64::MAX,
        request.size_hint is Some ==> request.size_hint->0 == content.len(),
    ensures
        loaded(request, content) == content_outcome(
            request.buffer,
            content,
            request.start as int,
            request.len as int,
        ),
        forall|threshold: u64|
            #![trigger streams(request.size_hint, threshold)]
            loaded(
                RequestView { streaming: streams(request.size_hint, threshold), ..request },
                content,
            ) == loaded(request, content),
{
    assert(streamed_len(request.size_hint, content.len() as u64) == content.len());
}

/// The request for a stretch of a buffer.
pub open spec fn request_for(
    buffer: Seq<char>,
    start: u64,
    len: u64,
    size_hint: Option<u64>,
    threshold: u64,
) -> RequestView {
    RequestView { buffer, start, len, size_hint, streaming: streams(size_hint, threshold) }
}

/// The size that the last entry with a name reports.
pub open spec fn last_size(infos: Seq<types::BufferView>, name: Seq<char>) -> Option<u64>
    decreases infos.len(),
{
    if infos.len() == 0 {
        None
    } else if infos.last().name == name {
        Some(infos.last().size_bytes)
    } else {
        last_size(infos.drop_last(), name)
    }
}

/// The size that the first entry with a name reports.
pub open spec fn first_size(infos: Seq<types::BufferView>, name: Seq<char>) -> Option<u64>
    decreases infos.len(),
{
    if infos.len() == 0 {
        None
    } else if infos[0].name == name {
        Some(infos[0].size_bytes)
    } else {
        first_size(infos.skip(1), name)
    }
}

/// Law: the first size for a name is that of the first entry with the name, and there is none
/// where no entry has it.
pub proof fn law_first_size(infos: Seq<types::BufferView>, name: Seq<char>, k: int)
    requires
        0 <= k <= infos.len(),
        forall|i: int| 0 <= i < k ==> (#[trigger] infos[i]).name != name,
        k < infos.len() ==> infos[k].name == name,
    ensures
        first_size(infos, name) == if k < infos.len() {
            Some(infos[k].size_bytes)
        } else {
            None
        },
    decreases infos.len(),
{
    if k > 0 {
        assert(infos[0].name != name);
        let rest = infos.skip(1);
        assert forall|i: int| 0 <= i < k - 1 implies (#[trigger] rest[i]).name != name by {
            assert(rest[i] == infos[i + 1]);
        }
        law_first_size(rest, name, k - 1);
    }
}

/// Law: the last size for a name is that of the last entry with the name, and there is none where
/// no entry has it.
pub proof fn law_last_size(infos: Seq<types::BufferView>, name: Seq<char>, k: int)
    requires
        -1 <= k < infos.len(),
        forall|i: int| k < i < infos.len() ==> (#[trigger] infos[i]).name != name,
        k >= 0 ==> infos[k].name == name,
    ensures
        last_size(infos, name) == if k >= 0 {
            Some(infos[k].size_bytes)
        } else {
            None
        },
    decreases infos.len(),
{
    if infos.len() > 0 && k < infos.len() - 1 {
        assert(infos[infos.len() - 1].name != name);
        let rest = infos.drop_last();
        assert forall|i: int| k < i < rest.len() implies (#[trigger] rest[i]).name != name by {
            assert(rest[i] == infos[i]);
        }
        law_last_size(rest, name, k);
    }
}

/// The names of listed buffers.
pub open spec fn info_names(infos: Seq<types::BufferView>) -> Seq<Seq<char>> {
    infos.map_values(|info: types::BufferView| info.name)
}

/// The buffers to search: those that are asked for, or else all.
pub open spec fn names_to_search(
    names: Option<Vec<String>>,
    infos: Seq<types::BufferView>,
) -> Seq<Seq<char>> {
    match names {
        Some(names) => text::texts(names@),
        None => info_names(infos),
    }
}

/// How many bytes to load of a buffer: what is searched, and on top of it the context and the
/// length of the query, so that a match at the end can be seen whole.
pub open spec fn search_window(
    context_bytes: Option<u32>,
    max_scan_bytes: Option<u64>,
    query: Seq<char>,
) -> u64 {
    let context = match context_bytes {
        Some(n) => n as int,
        None => search::DEFAULT_SEARCH_CONTEXT_BYTES as int,
    };
    let max_scan = match max_scan_bytes {
        Some(n) => n as int,
        None => search::DEFAULT_SEARCH_MAX_SCAN_BYTES as int,
    };
    matching::at_most(max_scan + context + encode_utf8(query).len(), u64::MAX as int) as u64
}

/// The offset from which to load a buffer: where its search is to go on, or else its start.
pub open spec fn load_start(resume: Seq<(Seq<char>, u64)>, buffer: Seq<char>) -> u64 {
    match offsets::offset_in(resume, buffer) {
        Some(offset) => offset,
        None => 0,
    }
}

/// The requests of a search.
pub open spec fn search_requests(
    infos: Seq<types::BufferView>,
    names: Seq<Seq<char>>,
    resume: Seq<(Seq<char>, u64)>,
    len: u64,
    threshold: u64,
) -> Seq<RequestView> {
    names.map_values(
        |name: Seq<char>|
            request_for(name, load_start(resume, name), len, last_size(infos, name), threshold),
    )
}

/// The size that the last entry with a name reports.
fn find_last_size(infos: &Vec<BufferInfo>, name: &str) -> (size: Option<u64>)
    ensures
        size == last_size(types::views(infos@), name@),
{
    let ghost all = types::views(infos@);
    let mut i: usize = infos.len();
    proof {
        assert(all.take(all.len() as int) =~= all);
    }
    while i > 0
        invariant
            i <= infos@.len(),
            all == types::views(infos@),
            last_size(all, name@) == last_size(all.take(i as int), name@),
        decreases i,
    {
        proof {
            assert(all.take(i as int).last() == infos@[i - 1]@);
            assert(all.take(i as int).drop_last() =~= all.take(i - 1));
        }
        i -= 1;
        if text::same_text(infos[i].name.as_str(), name) {
            return Some(infos[i].size_bytes);
        }
    }
    None
}

/// The size that the first entry with a name reports.
pub fn find_first_size(infos: &Vec<BufferInfo>, name: &str) -> (size: Option<u64>)
    ensures
        size == first_size(types::views(infos@), name@),
{
    let ghost all = types::views(infos@);
    let mut i: usize = 0;
    proof {
        assert(all.skip(0) =~= all);
    }
    while i < infos.len()
        invariant
            i <= infos@.len(),
            all == types::views(infos@),
            first_size(all, name@) == first_size(all.skip(i as int), name@),
        decreases infos@.len() - i,
    {
        proof {
            assert(all.skip(i as int)[0] == infos@[i as int]@);
            assert(all.skip(i as int).skip(1) =~= all.skip(i + 1));
        }
        if text::same_text(infos[i].name.as_str(), name) {
            return Some(infos[i].size_bytes);
        }
        i += 1;
    }
    None
}

/// The buffers to search: those that are asked for, or else all.
fn choose_names(names: Option<Vec<String>>, infos: &Vec<BufferInfo>) -> (r: Vec<String>)
    ensures
        text::texts(r@) == names_to_search(names, types::views(infos@)),
{
    if let Some(names) = names {
        return names;
    }
    let ghost all = info_names(types::views(infos@));
    let mut r: Vec<String> = Vec::new();
    let mut i: usize = 0;
    while i < infos.len()
        invariant
            i <= infos@.len(),
            all == info_names(types::views(infos@)),
            text::texts(r@) == all.take(i as int),
        decreases infos@.len() - i,
    {
        let ghost before = r@;
        r.push(infos[i].name.clone());
        proof {
            assert(text::texts(r@) =~= text::texts(before).push(infos@[i as int].name@));
            assert(all.take(i + 1) =~= all.take(i as int).push(all[i as int]));
        }
        i += 1;
    }
    proof {
        assert(all.take(all.len() as int) =~= all);
    }
    r
}

/// How many bytes to load of a buffer that is searched.
pub fn search_window_len(
    context_bytes: Option<u32>,
    max_scan_bytes: Option<u64>,
    query: &str,
) -> (r: u64)
    ensures
        r == search_window(context_bytes, max_scan_bytes, query@),
{
    let context: u64 = match context_bytes {
        Some(n) => n as u64,
        None => search::DEFAULT_SEARCH_CONTEXT_BYTES as u64,
    };
    let max_scan: u64 = match max_scan_bytes {
        Some(n) => n,
        None => search::DEFAULT_SEARCH_MAX_SCAN_BYTES,
    };
    let overlap = context.saturating_add(bytes::byte_len(query) as u64);
    max_scan.saturating_add(overlap)
}

/// Decides which stretch of which buffer a search needs.
pub fn plan_search(
    infos: &Vec<BufferInfo>,
    names: Option<Vec<String>>,
    query: &str,
    context_bytes: Option<u32>,
    max_scan_bytes: Option<u64>,
    resume_from_offset: &Option<OffsetMap>,
    streaming_threshold_bytes: u64,
) -> (requests: Vec<WindowRequest>)
    ensures
        types::views(requests@) == search_requests(
            types::views(infos@),
            names_to_search(names, types::views(infos@)),
            search::resume_entries(*resume_from_offset),
            search_window(context_bytes, max_scan_bytes, query@),
            streaming_threshold_bytes,
        ),
{
    let len = search_window_len(context_bytes, max_scan_bytes, query);
    let buffers = choose_names(names, infos);
    let ghost resume = search::resume_entries(*resume_from_offset);
    let ghost all = search_requests(
        types::views(infos@),
        text::texts(buffers@),
        resume,
        len,
        streaming_threshold_bytes,
    );
    let mut requests: Vec<WindowRequest> = Vec::new();
    let mut i: usize = 0;
    while i < buffers.len()
        invariant
            i <= buffers@.len(),
            resume == search::resume_entries(*resume_from_offset),
            all == search_requests(
                types::views(infos@),
                text::texts(buffers@),
                resume,
                len,
                streaming_threshold_bytes,
            ),
            types::views(requests@) == all.take(i as int),
        decreases buffers@.len() - i,
    {
        let buffer = buffers[i].as_str();
        let asked = match resume_from_offset {
            Some(offsets) => offsets.get(buffer),
            None => None,
        };
        let start: u64 = match asked {
            Some(offset) => offset,
            None => 0,
        };
        let size_hint = find_last_size(infos, buffer);
        let streaming = match size_hint {
            Some(size) => size > streaming_threshold_bytes,
            None => false,
        };
        let request = WindowRequest {
            buffer: buffer.to_owned(),
            start,
            len,
            size_hint,
            streaming,
        };
        let ghost before = requests@;
        requests.push(request);
        proof {
            assert(text::texts(buffers@)[i as int] == buffer@);
            assert(all[i as int] == request@);
            assert(types::views(requests@) =~= types::views(before).push(request@));
            assert(all.take(i + 1) =~= all.take(i as int).push(request@));
        }
        i += 1;
    }
    proof {
        assert(all.take(all.len() as int) =~= all);
    }
    requests
}

/// The request of a subsearch, or why there is none: the stretch around the anchor, which must
/// not lie after the end of a buffer whose size is known.
pub open spec fn subsearch_request(
    infos: Seq<types::BufferView>,
    buffer: Seq<char>,
    anchor_offset: u64,
    anchor_len: u32,
    context_bytes: u32,
    threshold: u64,
) -> Result<RequestView, ErrorView> {
    let size_hint = first_size(infos, buffer);
    let start = matching::later(anchor_offset - context_bytes, 0);
    let end = matching::at_most(anchor_offset + anchor_len + context_bytes, u64::MAX as int);
    if size_hint is Some && (anchor_offset as usize) > (size_hint->0 as usize) {
        Err(
            ErrorView::InvalidArgument(
                "anchor offset "@ + numbers::decimal_text(anchor_offset as nat)
                    + " exceeds buffer length "@ + numbers::decimal_text(
                    (size_hint->0 as usize) as nat,
                ),
            ),
        )
    } else {
        Ok(request_for(buffer, start as u64, (end - start) as u64, size_hint, threshold))
    }
}

/// Decides which stretch of a buffer a subsearch needs.
pub fn plan_subsearch(
    infos: &Vec<BufferInfo>,
    buffer: &str,
    anchor_offset: u64,
    anchor_len: u32,
    context_bytes: u32,
    streaming_threshold_bytes: u64,
) -> (r: Result<WindowRequest, Error>)
    ensures
        (match r {
            Ok(request) => Ok(request@),
            Err(error) => Err(error@),
        }) == subsearch_request(
            types::views(infos@),
            buffer@,
            anchor_offset,
            anchor_len,
            context_bytes,
            streaming_threshold_bytes,
        ),
{
    let size_hint = find_first_size(infos, buffer);
    if let Some(size) = size_hint {
        let buffer_len = size as usize;
        if anchor_offset as usize > buffer_len {
            let mut message = "anchor offset ".to_owned();
            message.append(numbers::decimal(anchor_offset).as_str());
            message.append(" exceeds buffer length ");
            message.append(numbers::decimal(buffer_len as u64).as_str());
            return Err(Error::InvalidArgument { message });
        }
    }
    let context = context_bytes as u64;
    let start = anchor_offset.saturating_sub(context);
    let end = anchor_offset.saturating_add(anchor_len as u64).saturating_add(context);
    let streaming = match size_hint {
        Some(size) => size > streaming_threshold_bytes,
        None => false,
    };
    Ok(
        WindowRequest {
            buffer: buffer.to_owned(),
            start,
            len: end - start,
            size_hint,
            streaming,
        },
    )
}

} // verus!
