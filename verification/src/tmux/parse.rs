//! Reading the tab-delimited listings that tmux prints.

use vstd::prelude::*;
use vstd::string::*;

use crate::errors::{Error, ErrorView};
use crate::numbers;
use crate::text;
use crate::types::{BufferInfo, ClientInfo, Pane, PaneInfo, Session, Window, WindowInfo};
use crate::types;

verus! {

/// The rows that `read` makes of the lines, in order; a line of which it makes nothing is
/// left out.
pub open spec fn rows<V>(
    lines: Seq<Seq<char>>,
    read: spec_fn(int, Seq<Seq<char>>) -> Option<V>,
) -> Seq<V>
    decreases lines.len(),
{
    if lines.len() == 0 {
        Seq::empty()
    } else {
        let before = rows(lines.drop_last(), read);
        match read(lines.len() - 1, text::fields(lines.last(), '\t')) {
            Some(row) => before.push(row),
            None => before,
        }
    }
}

/// Whether a field says yes.
pub open spec fn flag(field: Seq<char>) -> bool {
    field == seq!['1']
}

/// A count, or zero where the field is not one.
pub open spec fn count(field: Seq<char>) -> u32 {
    match numbers::unsigned_value(field, u32::MAX as nat) {
        Some(n) => n as u32,
        None => 0,
    }
}

/// A 32-bit number, where the field is one.
pub open spec fn small_number(field: Seq<char>) -> Option<u32> {
    match numbers::unsigned_value(field, u32::MAX as nat) {
        Some(n) => Some(n as u32),
        None => None,
    }
}

/// A 64-bit number, where the field is one.
pub open spec fn large_number(field: Seq<char>) -> Option<u64> {
    match numbers::unsigned_value(field, u64::MAX as nat) {
        Some(n) => Some(n as u64),
        None => None,
    }
}

/// The session that the fields of a line describe.
pub open spec fn session_row(parts: Seq<Seq<char>>) -> Option<types::SessionView> {
    if parts.len() >= 4 {
        Some(
            types::SessionView {
                id: parts[0],
                name: parts[1],
                attached: flag(parts[2]),
                windows: count(parts[3]),
            },
        )
    } else {
        None
    }
}

/// The window that the fields of a line describe.
pub open spec fn window_row(parts: Seq<Seq<char>>, session_id: Seq<char>) -> Option<
    types::WindowView,
> {
    if parts.len() >= 3 {
        Some(
            types::WindowView {
                id: parts[0],
                name: parts[1],
                active: flag(parts[2]),
                session_id,
            },
        )
    } else {
        None
    }
}

/// The pane that the fields of a line describe.
pub open spec fn pane_row(parts: Seq<Seq<char>>, window_id: Seq<char>) -> Option<types::PaneView> {
    if parts.len() >= 3 {
        Some(
            types::PaneView {
                id: parts[0],
                title: parts[1],
                active: flag(parts[2]),
                window_id,
            },
        )
    } else {
        None
    }
}

/// The client that the fields of a line describe.
pub open spec fn client_row(parts: Seq<Seq<char>>) -> Option<types::ClientView> {
    if parts.len() >= 5 {
        Some(
            types::ClientView {
                tty: parts[0],
                name: parts[1],
                session_name: parts[2],
                pid: small_number(parts[3]),
                attached: flag(parts[4]),
            },
        )
    } else {
        None
    }
}

/// The paste buffer that the fields of the line with number `index` describe.
pub open spec fn buffer_row(index: int, parts: Seq<Seq<char>>) -> Option<types::BufferView> {
    if parts.len() >= 3 {
        let size_bytes = match large_number(parts[1]) {
            Some(n) => n,
            None => 0,
        };
        Some(
            types::BufferView {
                name: parts[0],
                size: if size_bytes > u32::MAX {
                    u32::MAX
                } else {
                    size_bytes as u32
                },
                size_bytes,
                order_index: (index as usize) as u32,
                created: large_number(parts[2]),
            },
        )
    } else {
        None
    }
}

/// The sessions that a listing shows.
pub open spec fn sessions_in(output: Seq<char>) -> Seq<types::SessionView> {
    rows(text::lines_of(output), |i: int, parts: Seq<Seq<char>>| session_row(parts))
}

/// The windows that a listing shows.
pub open spec fn windows_in(output: Seq<char>, session_id: Seq<char>) -> Seq<types::WindowView> {
    rows(text::lines_of(output), |i: int, parts: Seq<Seq<char>>| window_row(parts, session_id))
}

/// The panes that a listing shows.
pub open spec fn panes_in(output: Seq<char>, window_id: Seq<char>) -> Seq<types::PaneView> {
    rows(text::lines_of(output), |i: int, parts: Seq<Seq<char>>| pane_row(parts, window_id))
}

/// The clients that a listing shows.
pub open spec fn clients_in(output: Seq<char>) -> Seq<types::ClientView> {
    rows(text::lines_of(output), |i: int, parts: Seq<Seq<char>>| client_row(parts))
}

/// The paste buffers that a listing shows.
pub open spec fn buffers_in(output: Seq<char>) -> Seq<types::BufferView> {
    rows(text::lines_of(output), |i: int, parts: Seq<Seq<char>>| buffer_row(i, parts))
}

/// Whether a field says yes.
fn is_yes(field: &String) -> (r: bool)
    ensures
        r == flag(field@),
{
    let r = text::same_text(field.as_str(), "1");
    proof {
        reveal_strlit("1");
        assert("1"@ =~= seq!['1']);
    }
    r
}

/// A count, or zero where the field is not one.
fn read_count(field: &String) -> (r: u32)
    ensures
        r == count(field@),
{
    match numbers::parse_unsigned(field.as_str(), u32::MAX as u64) {
        Some(n) => n as u32,
        None => 0,
    }
}

/// A 32-bit number, where the field is one.
fn read_small(field: &String) -> (r: Option<u32>)
    ensures
        r == small_number(field@),
{
    match numbers::parse_unsigned(field.as_str(), u32::MAX as u64) {
        Some(n) => Some(n as u32),
        None => None,
    }
}

/// A 64-bit number, where the field is one.
fn read_large(field: &String) -> (r: Option<u64>)
    ensures
        r == large_number(field@),
{
    numbers::parse_unsigned(field.as_str(), u64::MAX)
}

/// Parses the listing that `list-sessions` gives with the fields session id, name, whether it
/// is attached, and number of windows. Lines with fewer fields are skipped.
pub fn parse_sessions(output: &str) -> (sessions: Vec<Session>)
    ensures
        types::views(sessions@) == sessions_in(output@),
{
    let lines = text::lines(output);
    let ghost all = text::lines_of(output@);
    let ghost read = |i: int, parts: Seq<Seq<char>>| session_row(parts);
    let mut sessions: Vec<Session> = Vec::new();
    let mut i: usize = 0;
    proof {
        assert(types::views(sessions@) =~= rows(all.take(0), read));
    }
    while i < lines.len()
        invariant
            i <= lines@.len(),
            all == text::texts(lines@),
            forall|k: int, parts: Seq<Seq<char>>| #[trigger] read(k, parts) == session_row(parts),
            types::views(sessions@) == rows(all.take(i as int), read),
        decreases lines@.len() - i,
    {
        let parts = text::split_on(lines[i].as_str(), '\t');
        proof {
            assert(all.take(i + 1).drop_last() =~= all.take(i as int));
            assert(all.take(i + 1).last() == lines@[i as int]@);
            assert(text::texts(parts@).len() == parts@.len());
        }
        if parts.len() >= 4 {
            let row = Session {
                id: parts[0].clone(),
                name: parts[1].clone(),
                attached: is_yes(&parts[2]),
                windows: read_count(&parts[3]),
            };
            let ghost before = sessions@;
            sessions.push(row);
            proof {
                assert(types::views(sessions@) =~= types::views(before).push(row@));
            }
        }
        i += 1;
    }
    proof {
        assert(all.take(lines@.len() as int) =~= all);
    }
    sessions
}

/// Parses the listing that `list-windows` gives with the fields window id, name, and whether it
/// is active. Lines with fewer fields are skipped.
pub fn parse_windows(output: &str, session_id: &str) -> (windows: Vec<Window>)
    ensures
        types::views(windows@) == windows_in(output@, session_id@),
{
    let lines = text::lines(output);
    let ghost all = text::lines_of(output@);
    let ghost read = |i: int, parts: Seq<Seq<char>>| window_row(parts, session_id@);
    let mut windows: Vec<Window> = Vec::new();
    let mut i: usize = 0;
    proof {
        assert(types::views(windows@) =~= rows(all.take(0), read));
    }
    while i < lines.len()
        invariant
            i <= lines@.len(),
            all == text::texts(lines@),
            forall|k: int, parts: Seq<Seq<char>>| #[trigger]
                read(k, parts) == window_row(parts, session_id@),
            types::views(windows@) == rows(all.take(i as int), read),
        decreases lines@.len() - i,
    {
        let parts = text::split_on(lines[i].as_str(), '\t');
        proof {
            assert(all.take(i + 1).drop_last() =~= all.take(i as int));
            assert(all.take(i + 1).last() == lines@[i as int]@);
            assert(text::texts(parts@).len() == parts@.len());
        }
        if parts.len() >= 3 {
            let row = Window {
                id: parts[0].clone(),
                name: parts[1].clone(),
                active: is_yes(&parts[2]),
                session_id: session_id.to_owned(),
            };
            let ghost before = windows@;
            windows.push(row);
            proof {
                assert(types::views(windows@) =~= types::views(before).push(row@));
            }
        }
        i += 1;
    }
    proof {
        assert(all.take(lines@.len() as int) =~= all);
    }
    windows
}

/// Parses the listing that `list-panes` gives with the fields pane id, title, and whether it is
/// active. Lines with fewer fields are skipped.
pub fn parse_panes(output: &str, window_id: &str) -> (panes: Vec<Pane>)
    ensures
        types::views(panes@) == panes_in(output@, window_id@),
{
    let lines = text::lines(output);
    let ghost all = text::lines_of(output@);
    let ghost read = |i: int, parts: Seq<Seq<char>>| pane_row(parts, window_id@);
    let mut panes: Vec<Pane> = Vec::new();
    let mut i: usize = 0;
    proof {
        assert(types::views(panes@) =~= rows(all.take(0), read));
    }
    while i < lines.len()
        invariant
            i <= lines@.len(),
            all == text::texts(lines@),
            forall|k: int, parts: Seq<Seq<char>>| #[trigger]
                read(k, parts) == pane_row(parts, window_id@),
            types::views(panes@) == rows(all.take(i as int), read),
        decreases lines@.len() - i,
    {
        let parts = text::split_on(lines[i].as_str(), '\t');
        proof {
            assert(all.take(i + 1).drop_last() =~= all.take(i as int));
            assert(all.take(i + 1).last() == lines@[i as int]@);
            assert(text::texts(parts@).len() == parts@.len());
        }
        if parts.len() >= 3 {
            let row = Pane {
                id: parts[0].clone(),
                title: parts[1].clone(),
                active: is_yes(&parts[2]),
                window_id: window_id.to_owned(),
            };
            let ghost before = panes@;
            panes.push(row);
            proof {
                assert(types::views(panes@) =~= types::views(before).push(row@));
            }
        }
        i += 1;
    }
    proof {
        assert(all.take(lines@.len() as int) =~= all);
    }
    panes
}

/// Parses the listing that `list-clients` gives with the fields tty, name, session, process id,
/// and whether it is attached. Lines with fewer fields are skipped.
pub fn parse_clients(output: &str) -> (clients: Vec<ClientInfo>)
    ensures
        types::views(clients@) == clients_in(output@),
{
    let lines = text::lines(output);
    let ghost all = text::lines_of(output@);
    let ghost read = |i: int, parts: Seq<Seq<char>>| client_row(parts);
    let mut clients: Vec<ClientInfo> = Vec::new();
    let mut i: usize = 0;
    proof {
        assert(types::views(clients@) =~= rows(all.take(0), read));
    }
    while i < lines.len()
        invariant
            i <= lines@.len(),
            all == text::texts(lines@),
            forall|k: int, parts: Seq<Seq<char>>| #[trigger] read(k, parts) == client_row(parts),
            types::views(clients@) == rows(all.take(i as int), read),
        decreases lines@.len() - i,
    {
        let parts = text::split_on(lines[i].as_str(), '\t');
        proof {
            assert(all.take(i + 1).drop_last() =~= all.take(i as int));
            assert(all.take(i + 1).last() == lines@[i as int]@);
            assert(text::texts(parts@).len() == parts@.len());
        }
        if parts.len() >= 5 {
            let row = ClientInfo {
                tty: parts[0].clone(),
                name: parts[1].clone(),
                session_name: parts[2].clone(),
                pid: read_small(&parts[3]),
                attached: is_yes(&parts[4]),
            };
            let ghost before = clients@;
            clients.push(row);
            proof {
                assert(types::views(clients@) =~= types::views(before).push(row@));
            }
        }
        i += 1;
    }
    proof {
        assert(all.take(lines@.len() as int) =~= all);
    }
    clients
}

/// Parses the listing that `list-buffers` gives with the fields buffer name, size and time of
/// creation. Lines with fewer fields are skipped, but count for the order index.
pub fn parse_buffers(output: &str) -> (buffers: Vec<BufferInfo>)
    ensures
        types::views(buffers@) == buffers_in(output@),
{
    let lines = text::lines(output);
    let ghost all = text::lines_of(output@);
    let ghost read = |i: int, parts: Seq<Seq<char>>| buffer_row(i, parts);
    let mut buffers: Vec<BufferInfo> = Vec::new();
    let mut i: usize = 0;
    proof {
        assert(types::views(buffers@) =~= rows(all.take(0), read));
    }
    while i < lines.len()
        invariant
            i <= lines@.len(),
            all == text::texts(lines@),
            forall|k: int, parts: Seq<Seq<char>>| #[trigger] read(k, parts) == buffer_row(k, parts),
            types::views(buffers@) == rows(all.take(i as int), read),
        decreases lines@.len() - i,
    {
        let parts = text::split_on(lines[i].as_str(), '\t');
        proof {
            assert(all.take(i + 1).drop_last() =~= all.take(i as int));
            assert(all.take(i + 1).last() == lines@[i as int]@);
            assert(text::texts(parts@).len() == parts@.len());
        }
        if parts.len() >= 3 {
            let size_bytes: u64 = match read_large(&parts[1]) {
                Some(n) => n,
                None => 0,
            };
            let size: u32 = if size_bytes > u32::MAX as u64 {
                u32::MAX
            } else {
                size_bytes as u32
            };
            let row = BufferInfo {
                name: parts[0].clone(),
                size,
                size_bytes,
                order_index: i as u32,
                created: read_large(&parts[2]),
            };
            let ghost before = buffers@;
            buffers.push(row);
            proof {
                assert(types::views(buffers@) =~= types::views(before).push(row@));
            }
        }
        i += 1;
    }
    proof {
        assert(all.take(lines@.len() as int) =~= all);
    }
    buffers
}

/// Details of the pane that the fields describe.
pub open spec fn pane_details(parts: Seq<Seq<char>>) -> types::PaneInfoView {
    types::PaneInfoView {
        id: parts[0],
        window_id: parts[1],
        session_id: parts[2],
        active: flag(parts[3]),
        title: parts[4],
        current_path: parts[5],
        current_command: parts[6],
        width: count(parts[7]),
        height: count(parts[8]),
        pid: small_number(parts[9]),
        in_mode: flag(parts[10]),
    }
}

/// Details of the window that the fields describe.
pub open spec fn window_details(parts: Seq<Seq<char>>) -> types::WindowInfoView {
    types::WindowInfoView {
        id: parts[0],
        name: parts[1],
        session_id: parts[2],
        active: flag(parts[3]),
        layout: parts[4],
        panes: count(parts[5]),
        width: count(parts[6]),
        height: count(parts[7]),
        zoomed: flag(parts[8]),
        active_pane_id: parts[9],
    }
}

/// Parses the line of eleven fields that describes a pane.
pub fn parse_pane_info(output: &str) -> (r: Result<PaneInfo, Error>)
    ensures
        match r {
            Ok(info) => {
                &&& text::fields(output@, '\t').len() >= 11
                &&& info@ == pane_details(text::fields(output@, '\t'))
            },
            Err(error) => {
                &&& text::fields(output@, '\t').len() < 11
                &&& error@ == ErrorView::Parse("failed to parse pane info: "@ + output@)
            },
        },
{
    let parts = text::split_on(output, '\t');
    proof {
        assert(text::texts(parts@).len() == parts@.len());
    }
    if parts.len() >= 11 {
        Ok(
            PaneInfo {
                id: parts[0].clone(),
                window_id: parts[1].clone(),
                session_id: parts[2].clone(),
                active: is_yes(&parts[3]),
                title: parts[4].clone(),
                current_path: parts[5].clone(),
                current_command: parts[6].clone(),
                width: read_count(&parts[7]),
                height: read_count(&parts[8]),
                pid: read_small(&parts[9]),
                in_mode: is_yes(&parts[10]),
            },
        )
    } else {
        let mut message = "failed to parse pane info: ".to_owned();
        message.append(output);
        Err(Error::Parse { message })
    }
}

/// Parses the line of ten fields that describes a window.
pub fn parse_window_info(output: &str) -> (r: Result<WindowInfo, Error>)
    ensures
        match r {
            Ok(info) => {
                &&& text::fields(output@, '\t').len() >= 10
                &&& info@ == window_details(text::fields(output@, '\t'))
            },
            Err(error) => {
                &&& text::fields(output@, '\t').len() < 10
                &&& error@ == ErrorView::Parse("failed to parse window info: "@ + output@)
            },
        },
{
    let parts = text::split_on(output, '\t');
    proof {
        assert(text::texts(parts@).len() == parts@.len());
    }
    if parts.len() >= 10 {
        Ok(
            WindowInfo {
                id: parts[0].clone(),
                name: parts[1].clone(),
                session_id: parts[2].clone(),
                active: is_yes(&parts[3]),
                layout: parts[4].clone(),
                panes: read_count(&parts[5]),
                width: read_count(&parts[6]),
                height: read_count(&parts[7]),
                zoomed: is_yes(&parts[8]),
                active_pane_id: parts[9].clone(),
            },
        )
    } else {
        let mut message = "failed to parse window info: ".to_owned();
        message.append(output);
        Err(Error::Parse { message })
    }
}

} // verus!
