//! Reading and writing paste buffers.

use vstd::prelude::*;
use vstd::string::*;
use vstd::utf8::*;

use crate::errors::{Error, ErrorView};
use crate::outside;
use crate::text;
use crate::tmux::args;
use crate::tmux::invoke;
use crate::tmux::matching;
use crate::tmux::window;
use crate::types;
use crate::types::BufferInfo;

verus! {

/// How many bytes of a buffer are shown where nothing else is asked for.
pub const DEFAULT_SHOW_MAX_BYTES: u64 = 65_536;

/// Up to which size a buffer is read and written back to append to it.
pub const APPEND_INLINE_MAX_BYTES: u64 = 262_144;

/// The bytes of a buffer from an offset on, and no more than a number of them.
pub open spec fn slice_of(content: Seq<u8>, offset: int, max: int) -> Seq<u8> {
    if offset >= content.len() {
        Seq::empty()
    } else {
        content.subrange(offset, matching::at_most(offset + max, content.len() as int))
    }
}

/// The offset that a slice of a buffer begins at.
pub open spec fn slice_offset(offset_bytes: Option<u64>) -> usize {
    match offset_bytes {
        Some(n) => n as usize,
        None => 0,
    }
}

/// How many bytes a slice of a buffer has at most.
pub open spec fn slice_max(max_bytes: Option<u64>) -> usize {
    match max_bytes {
        Some(n) => n as usize,
        None => DEFAULT_SHOW_MAX_BYTES as usize,
    }
}

/// The text of a slice of a buffer. Bytes that are no text are replaced.
pub fn buffer_slice(content: &[u8], offset_bytes: Option<u64>, max_bytes: Option<u64>) -> (r:
    String)
    ensures
        ({
            let part = slice_of(
                content@,
                slice_offset(offset_bytes) as int,
                slice_max(max_bytes) as int,
            );
            r@ == if part.len() == 0 {
                Seq::<char>::empty()
            } else {
                outside::lossy_text(part)
            }
        }),
        offset_bytes is None && max_bytes is Some && 0 < content@.len() <= max_bytes->0
            <= usize::MAX ==> r@ == outside::lossy_text(content@),
{
    let offset: usize = match offset_bytes {
        Some(n) => n as usize,
        None => 0,
    };
    let max: usize = match max_bytes {
        Some(n) => n as usize,
        None => DEFAULT_SHOW_MAX_BYTES as usize,
    };
    if max == 0 || offset >= content.len() {
        return String::new();
    }
    let reach = offset.saturating_add(max);
    let end = if reach > content.len() {
        content.len()
    } else {
        reach
    };
    proof {
        if offset == 0 && end == content@.len() {
            assert(content@.subrange(0, end as int) =~= content@);
        }
    }
    outside::decode_lossy(vstd::slice::slice_subrange(content, offset, end))
}

/// Law: a slice of a buffer is no longer than is asked for, and what follows it begins where it
/// ends.
pub proof fn law_slices_follow(content: Seq<u8>, offset: int, first: int, second: int)
    requires
        0 <= offset,
        0 <= first,
        0 <= second,
    ensures
        slice_of(content, offset, first).len() <= first,
        slice_of(content, offset, first) + slice_of(content, offset + first, second) == slice_of(
            content,
            offset,
            first + second,
        ),
{
    assert(slice_of(content, offset, first) + slice_of(content, offset + first, second)
        =~= slice_of(content, offset, first + second));
}

/// Law: a slice for which a number of bytes is asked has just that many of them, from its offset
/// on, or all up to the end of the buffer where there are fewer, however many that are. Where no
/// number is given, it is 65536; where no offset is given, the slice begins at the start.
pub proof fn law_slice_asked(content: Seq<u8>, offset_bytes: Option<u64>, max_bytes: Option<u64>)
    requires
        offset_bytes is Some ==> offset_bytes->0 <= usize::MAX,
        max_bytes is Some ==> max_bytes->0 <= usize::MAX,
    ensures
        ({
            let from = match offset_bytes {
                Some(n) => n as int,
                None => 0,
            };
            let asked = match max_bytes {
                Some(n) => n as int,
                None => 65_536,
            };
            let part = slice_of(
                content,
                slice_offset(offset_bytes) as int,
                slice_max(max_bytes) as int,
            );
            &&& from >= content.len() ==> part.len() == 0
            &&& from < content.len() && from + asked <= content.len() ==> part.len() == asked
            &&& from < content.len() && from + asked > content.len() ==> part.len()
                == content.len() - from
            &&& forall|i: int| 0 <= i < part.len() ==> part[i] == content[from + i]
        }),
{
}

/// Law: reading a buffer slice by slice, each beginning where the one before ended and with any
/// number of bytes asked for, gives all of it.
pub proof fn law_slices_cover(content: Seq<u8>, first: u64)
    requires
        first <= usize::MAX,
        content.len() <= usize::MAX,
    ensures
        slice_of(content, slice_offset(None) as int, slice_max(Some(first)) as int) + slice_of(
            content,
            slice_offset(Some(first)) as int,
            slice_max(Some(content.len() as u64)) as int,
        ) == content,
{
    assert(slice_of(content, slice_offset(None) as int, slice_max(Some(first)) as int) + slice_of(
        content,
        slice_offset(Some(first)) as int,
        slice_max(Some(content.len() as u64)) as int,
    ) =~= content);
}

/// How to append to a buffer.
#[derive(Debug, Clone, Copy, PartialEq, Eq, Structural)]
pub enum AppendPlan {
    /// There is no such buffer: it is made with the new content alone.
    Create,
    /// The buffer is large, and tmux runs on this machine: it goes through a file.
    ThroughFile,
    /// The buffer is read and written back with the new content behind it.
    Inline,
}

/// How to append to a buffer, or why that cannot be decided.
pub open spec fn append_plan_for(
    infos: Seq<types::BufferView>,
    name: Seq<char>,
    ssh: Option<Seq<char>>,
) -> Result<AppendPlan, ErrorView> {
    match window::first_size(infos, name) {
        None => Ok(AppendPlan::Create),
        Some(size) => if size <= APPEND_INLINE_MAX_BYTES {
            Ok(AppendPlan::Inline)
        } else {
            match invoke::ssh_words(ssh) {
                Ok(Some(_)) => Ok(AppendPlan::Inline),
                Ok(None) => Ok(AppendPlan::ThroughFile),
                Err(error) => Err(error),
            }
        },
    }
}

/// Law: a buffer that is not listed is made; one that is listed is read and written back where it
/// is no larger than 262144 bytes or where tmux runs on another machine, and otherwise goes
/// through a file. The first entry of the list with the name counts.
pub proof fn law_append_plan(
    infos: Seq<types::BufferView>,
    name: Seq<char>,
    ssh: Option<Seq<char>>,
    k: int,
)
    requires
        0 <= k <= infos.len(),
        forall|i: int| 0 <= i < k ==> (#[trigger] infos[i]).name != name,
        k < infos.len() ==> infos[k].name == name,
    ensures
        k == infos.len() ==> append_plan_for(infos, name, ssh) == Ok::<AppendPlan, ErrorView>(
            AppendPlan::Create,
        ),
        k < infos.len() && infos[k].size_bytes <= 262_144 ==> append_plan_for(infos, name, ssh)
            == Ok::<AppendPlan, ErrorView>(AppendPlan::Inline),
        k < infos.len() && infos[k].size_bytes > 262_144 ==> match invoke::ssh_words(ssh) {
            Ok(Some(_)) => append_plan_for(infos, name, ssh) == Ok::<AppendPlan, ErrorView>(
                AppendPlan::Inline,
            ),
            Ok(None) => append_plan_for(infos, name, ssh) == Ok::<AppendPlan, ErrorView>(
                AppendPlan::ThroughFile,
            ),
            Err(error) => append_plan_for(infos, name, ssh) == Err::<AppendPlan, ErrorView>(error),
        },
{
    window::law_first_size(infos, name, k);
}

/// Decides how to append to a buffer, by the list of buffers and the connection string for
/// `ssh`.
pub fn append_plan(infos: &Vec<BufferInfo>, name: &str, env_ssh: Option<&str>) -> (r: Result<
    AppendPlan,
    Error,
>)
    ensures
        match r {
            Ok(plan) => append_plan_for(
                types::views(infos@),
                name@,
                text::opt_str(env_ssh),
            ) == Ok::<AppendPlan, ErrorView>(plan),
            Err(error) => append_plan_for(
                types::views(infos@),
                name@,
                text::opt_str(env_ssh),
            ) == Err::<AppendPlan, ErrorView>(error@),
        },
{
    match window::find_first_size(infos, name) {
        None => Ok(AppendPlan::Create),
        Some(size) => {
            if size <= APPEND_INLINE_MAX_BYTES {
                return Ok(AppendPlan::Inline);
            }
            match invoke::ssh_enabled(env_ssh) {
                Ok(remote) => if remote {
                    Ok(AppendPlan::Inline)
                } else {
                    Ok(AppendPlan::ThroughFile)
                },
                Err(error) => Err(error),
            }
        },
    }
}

/// The content of a buffer with a text behind it.
pub fn appended(existing: Vec<u8>, content: &str) -> (r: Vec<u8>)
    ensures
        r@ == existing@ + encode_utf8(content@),
{
    let mut r = existing;
    let more = content.as_bytes();
    let ghost before = r@;
    let mut i: usize = 0;
    while i < more.len()
        invariant
            i <= more@.len(),
            more@ == encode_utf8(content@),
            r@ == before + more@.take(i as int),
        decreases more@.len() - i,
    {
        r.push(more[i]);
        proof {
            assert(more@.take(i + 1) =~= more@.take(i as int).push(more@[i as int]));
        }
        i += 1;
    }
    proof {
        assert(more@.take(more@.len() as int) =~= more@);
    }
    r
}

/// What is still to be done to set a buffer once its content was handed to tmux: nothing where that
/// went well, and otherwise to set the buffer to the content as text.
pub open spec fn set_buffer_again(name: Seq<char>, content: Seq<u8>, loaded: bool) -> Option<
    Seq<Seq<char>>,
> {
    if loaded {
        None
    } else {
        Some(args::guarded(seq!["set-buffer"@, "-b"@, name], outside::lossy_text(content)))
    }
}

/// Decides what is still to be done to set a buffer once its content was handed to tmux.
pub fn set_buffer_fallback(name: &str, content: &[u8], loaded: bool) -> (r: Option<Vec<String>>)
    ensures
        match r {
            Some(call) => set_buffer_again(name@, content@, loaded) == Some(text::texts(call@)),
            None => set_buffer_again(name@, content@, loaded) is None,
        },
{
    if loaded {
        return None;
    }
    Some(args::set_buffer_args(name, invoke::buffer_text(content).as_str()))
}

/// Law: a buffer that was loaded is left as it is; one that was not is set to the text of its
/// content, which may begin with a dash.
pub proof fn law_set_buffer_again(name: Seq<char>, content: Seq<u8>)
    ensures
        set_buffer_again(name, content, true) is None,
        set_buffer_again(name, content, false) == Some(
            seq!["set-buffer"@, "-b"@, name, "--"@, outside::lossy_text(content)],
        ),
{
    assert(args::guarded(seq!["set-buffer"@, "-b"@, name], outside::lossy_text(content)) =~= seq![
        "set-buffer"@,
        "-b"@,
        name,
        "--"@,
        outside::lossy_text(content),
    ]);
}

} // verus!
