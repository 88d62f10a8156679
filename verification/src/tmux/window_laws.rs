//! What holds of the stretches of buffers that are loaded for searches.

use vstd::prelude::*;
use vstd::string::*;
use vstd::utf8::*;

use crate::errors::ErrorView;
use crate::numbers;
use crate::offsets;
use crate::text;
use crate::tmux::search;
use crate::tmux::window;
use crate::types;

verus! {

/// Law: what is loaded of a buffer is a stretch of its content, in its place there. It lies in the
/// window that was asked for, and it is known how long the buffer is and what its name is. Where
/// the window begins after the end of the buffer, or holds bytes that are no text, there is an
/// error.
pub proof fn law_loaded_stretch(name: Seq<char>, content: Seq<u8>, start: int, len: int)
    requires
        0 <= start,
        0 <= len,
    ensures
        match window::content_outcome(name, content, start, len) {
            Ok(view) => {
                &&& start <= content.len()
                &&& view.name == name
                &&& view.full_len == content.len()
                &&& start <= view.base
                &&& view.base + view.text.len() <= content.len()
                &&& view.base + view.text.len() <= start + len
                &&& view.text == content.subrange(view.base, view.base + view.text.len())
                &&& valid_utf8(view.text)
            },
            Err(_) => start > content.len() || !valid_utf8(content),
        },
        start > content.len() ==> window::content_outcome(name, content, start, len) == Err::<
            search::TextView,
            ErrorView,
        >(
            ErrorView::InvalidArgument(
                "resumeFromOffset "@ + numbers::decimal_text(start as nat) + " exceeds buffer '"@
                    + name + "' length "@ + numbers::decimal_text(content.len()),
            ),
        ),
{
    if start <= content.len() {
        let end = if start + len > content.len() {
            content.len() as int
        } else {
            start + len
        };
        let part = content.subrange(start, end);
        assert(window::window_end(start, len, content.len() as int) == end);
        window::law_window_text(part);
        if valid_utf8(content) {
            window::law_window_of_text(content, start, end);
        }
        if let Some(view) = window::window_text(part) {
            let base = start + window::core_start(part);
            assert(view =~= content.subrange(base, base + view.len()));
        }
    }
}

/// Law: of a window of valid text all is loaded but a character that is cut at the start of the
/// window, and at its end a last character of several bytes.
pub proof fn law_loaded_whole(name: Seq<char>, content: Seq<u8>, start: int, len: int)
    requires
        valid_utf8(content),
        0 <= start <= content.len(),
        0 <= len,
    ensures
        ({
            let end = if start + len < content.len() {
                start + len
            } else {
                content.len() as int
            };
            match window::content_outcome(name, content, start, len) {
                Ok(view) => {
                    let stop = view.base + view.text.len();
                    &&& forall|k: int| start <= k < view.base ==> !is_char_boundary(content, k)
                    &&& forall|k: int| stop < k < end ==> !is_char_boundary(content, k)
                    &&& end - stop <= 4
                    &&& start < end && is_leading_byte_width_1(content[end - 1]) ==> stop == end
                },
                Err(_) => false,
            }
        }),
{
    let end = if start + len < content.len() {
        start + len
    } else {
        content.len() as int
    };
    assert(window::window_end(start, len, content.len() as int) == end);
    window::law_window_of_text(content, start, end);
}

/// Law: what a search loads. It loads the buffers that are asked for, in their order, or else all
/// that are listed. Of each it loads from the offset where its search goes on, or else from the
/// start, as many bytes as may be searched and those of the context and the query on top. A buffer
/// goes through a file exactly where the size that is listed for it is above the threshold.
pub proof fn law_requests(
    infos: Seq<types::BufferView>,
    names: Option<Vec<String>>,
    resume: Seq<(Seq<char>, u64)>,
    context_bytes: Option<u32>,
    max_scan_bytes: Option<u64>,
    query: Seq<char>,
    threshold: u64,
)
    ensures
        ({
            let buffers = window::names_to_search(names, infos);
            let requests = window::search_requests(
                infos,
                buffers,
                resume,
                window::search_window(context_bytes, max_scan_bytes, query),
                threshold,
            );
            let scan = if max_scan_bytes is Some {
                max_scan_bytes->0 as int
            } else {
                65_536
            };
            let context = if context_bytes is Some {
                context_bytes->0 as int
            } else {
                40
            };
            let wanted = scan + context + encode_utf8(query).len();
            &&& names is Some ==> buffers.len() == names->0@.len()
            &&& names is Some ==> forall|i: int|
                0 <= i < buffers.len() ==> #[trigger] buffers[i] == names->0@[i]@
            &&& names is None ==> buffers.len() == infos.len()
            &&& names is None ==> forall|i: int|
                0 <= i < buffers.len() ==> #[trigger] buffers[i] == infos[i].name
            &&& requests.len() == buffers.len()
            &&& forall|i: int|
                0 <= i < requests.len() ==> {
                    let r = #[trigger] requests[i];
                    let offset = offsets::offset_in(resume, buffers[i]);
                    &&& r.buffer == buffers[i]
                    &&& offset is Some ==> r.start == offset->0
                    &&& offset is None ==> r.start == 0
                    &&& wanted <= u64::MAX ==> r.len == wanted
                    &&& wanted > u64::MAX ==> r.len == u64::MAX
                    &&& r.size_hint == window::last_size(infos, buffers[i])
                    &&& r.streaming <==> r.size_hint is Some && r.size_hint->0 > threshold
                }
        }),
{
}

/// Law: what a subsearch loads: so many bytes around the anchor as the context has on either side,
/// as far as the buffer reaches at its start. It is refused exactly where the anchor lies after
/// the end of a buffer whose size is listed.
pub proof fn law_subsearch_loads(
    infos: Seq<types::BufferView>,
    buffer: Seq<char>,
    anchor_offset: u64,
    anchor_len: u32,
    context_bytes: u32,
    threshold: u64,
)
    requires
        anchor_offset <= usize::MAX,
        window::first_size(infos, buffer) is Some ==> window::first_size(infos, buffer)->0
            <= usize::MAX,
    ensures
        ({
            let size = window::first_size(infos, buffer);
            let last = anchor_offset + anchor_len + context_bytes;
            match window::subsearch_request(
                infos,
                buffer,
                anchor_offset,
                anchor_len,
                context_bytes,
                threshold,
            ) {
                Ok(r) => {
                    &&& size is Some ==> anchor_offset <= size->0
                    &&& r.buffer == buffer
                    &&& anchor_offset >= context_bytes ==> r.start == anchor_offset - context_bytes
                    &&& anchor_offset < context_bytes ==> r.start == 0
                    &&& last <= u64::MAX ==> r.start + r.len == last
                    &&& last > u64::MAX ==> r.start + r.len == u64::MAX
                    &&& r.size_hint == size
                    &&& r.streaming <==> size is Some && size->0 > threshold
                },
                Err(error) => {
                    &&& size is Some && anchor_offset > size->0
                    &&& error == ErrorView::InvalidArgument(
                        "anchor offset "@ + numbers::decimal_text(anchor_offset as nat)
                            + " exceeds buffer length "@ + numbers::decimal_text(size->0 as nat),
                    )
                },
            }
        }),
{
}

/// Law: a buffer that goes through a file counts as long as the file is, or as the size that is
/// listed where that is more. From it as many bytes are read as the window has, as far as the
/// buffer reaches.
pub proof fn law_file_plan(
    buffer: Seq<char>,
    start: int,
    len: int,
    size_hint: Option<u64>,
    file_len: u64,
)
    requires
        0 <= start,
        0 <= len,
    ensures
        ({
            let longest = if size_hint is Some && size_hint->0 > file_len {
                size_hint->0 as int
            } else {
                file_len as int
            };
            match window::file_plan(buffer, start, len, size_hint, file_len) {
                Ok((n, full)) => {
                    &&& start <= longest
                    &&& full == longest
                    &&& start + len <= longest ==> n == len
                    &&& start + len > longest ==> n == longest - start
                },
                Err(error) => start > longest && error == ErrorView::InvalidArgument(
                    "resumeFromOffset "@ + numbers::decimal_text(start as nat)
                        + " exceeds buffer '"@ + buffer + "' length "@ + numbers::decimal_text(
                        longest as nat,
                    ),
                ),
            }
        }),
{
}

/// Law: a window that holds a byte which no text can hold is refused.
pub proof fn law_wrong_byte(bytes: Seq<u8>, at: int)
    requires
        0 <= at < bytes.len(),
        !is_continuation_byte(bytes[at]),
        !is_leading_byte_width_1(bytes[at]),
        !is_leading_byte_width_2(bytes[at]),
        !is_leading_byte_width_3(bytes[at]),
        !is_leading_byte_width_4(bytes[at]),
    ensures
        window::window_text(bytes) is None,
{
    let start = window::core_start(bytes);
    let stop = window::trailing_start(bytes, start, bytes.len() as int);
    let core = window::window_core(bytes);
    window::lemma_leading_end(bytes, 0);
    window::lemma_trailing_start(bytes, start, bytes.len() as int);
    assert(start <= at < stop);
    assert(core[at - start] == bytes[at]);
    if valid_utf8(core) {
        is_char_boundary_iff_not_is_continuation_byte(core, at - start);
        is_char_boundary_iff_is_leading_byte(core, at - start);
    }
    assert forall|rest: Seq<u8>| !#[trigger] valid_utf8(core + rest) by {
        if valid_utf8(core + rest) {
            assert((core + rest)[at - start] == bytes[at]);
            is_char_boundary_iff_not_is_continuation_byte(core + rest, at - start);
            is_char_boundary_iff_is_leading_byte(core + rest, at - start);
        }
    }
}

} // verus!
