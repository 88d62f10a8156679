//! The arguments of the tmux commands.

use vstd::prelude::*;
use vstd::string::*;

use crate::errors::{Error, ErrorView};
use crate::numbers;
use crate::text;

verus! {

/// The fields of a session.
pub const SESSION_FORMAT: &'static str =
    "#{session_id}\t#{session_name}\t#{?session_attached,1,0}\t#{session_windows}";

/// The fields of a window.
pub const WINDOW_FORMAT: &'static str =
    "#{window_id}\t#{window_name}\t#{?window_active,1,0}";

/// The fields of a pane.
pub const PANE_FORMAT: &'static str =
    "#{pane_id}\t#{pane_title}\t#{?pane_active,1,0}";

/// The fields of a client.
pub const CLIENT_FORMAT: &'static str =
    "#{client_tty}\t#{client_name}\t#{client_session}\t#{client_pid}\t#{?client_attached,1,0}";

/// The fields of a paste buffer.
pub const BUFFER_FORMAT: &'static str =
    "#{buffer_name}\t#{buffer_size}\t#{buffer_created}";

/// The details of a pane.
pub const PANE_INFO_FORMAT: &'static str =
    "#{pane_id}\t#{window_id}\t#{session_id}\t#{?pane_active,1,0}\t#{pane_title}\t#{pane_current_path}\t#{pane_current_command}\t#{pane_width}\t#{pane_height}\t#{pane_pid}\t#{?pane_in_mode,1,0}";

/// The details of a window.
pub const WINDOW_INFO_FORMAT: &'static str =
    "#{window_id}\t#{window_name}\t#{session_id}\t#{?window_active,1,0}\t#{window_layout}\t#{window_panes}\t#{window_width}\t#{window_height}\t#{window_zoomed_flag}\t#{pane_id}";

/// The fields of a pane that a split makes.
pub const SPLIT_FORMAT: &'static str =
    "#{pane_id}\t#{pane_title}\t#{?pane_active,1,0}\t#{window_id}";

/// The fields of a window that a pane is broken out into.
pub const BREAK_FORMAT: &'static str =
    "#{window_id}\t#{window_name}\t#{?window_active,1,0}\t#{session_id}";

/// The texts of a list.
pub open spec fn strs(parts: Seq<&str>) -> Seq<Seq<char>> {
    parts.map_values(|part: &str| part@)
}

/// Arguments of a command, and then one that may begin with a dash: two dashes before it keep
/// tmux from reading it as a flag.
pub open spec fn guarded(args: Seq<Seq<char>>, operand: Seq<char>) -> Seq<Seq<char>> {
    args + seq!["--"@, operand]
}

/// Law: an operand that may begin with a dash is the last argument, after two dashes.
pub proof fn law_guarded(args: Seq<Seq<char>>, operand: Seq<char>)
    ensures
        guarded(args, operand).last() == operand,
        guarded(args, operand)[args.len() as int] == "--"@,
        guarded(args, operand).len() == args.len() + 2,
{
}

/// Owned copies of some texts.
pub fn owned(parts: Vec<&str>) -> (r: Vec<String>)
    ensures
        text::texts(r@) == strs(parts@),
{
    let ghost all = strs(parts@);
    let mut r: Vec<String> = Vec::new();
    let mut i: usize = 0;
    while i < parts.len()
        invariant
            i <= parts@.len(),
            all == strs(parts@),
            text::texts(r@) == all.take(i as int),
        decreases parts@.len() - i,
    {
        text::push_text(&mut r, parts[i]);
        proof {
            assert(all.take(i + 1) =~= all.take(i as int).push(all[i as int]));
        }
        i += 1;
    }
    proof {
        assert(all.take(all.len() as int) =~= all);
    }
    r
}

/// Lists the sessions.
pub fn list_sessions_args() -> (args: Vec<String>)
    ensures
        text::texts(args@) == seq!["list-sessions"@, "-F"@, SESSION_FORMAT@],
{
    let parts = vec!["list-sessions", "-F", SESSION_FORMAT];
    proof {
        assert(strs(parts@) =~= seq!["list-sessions"@, "-F"@, SESSION_FORMAT@]);
    }
    owned(parts)
}

/// Asks whether a server is running.
pub fn running_args() -> (args: Vec<String>)
    ensures
        text::texts(args@) == seq!["list-sessions"@, "-F"@, "#{session_name}"@],
{
    let parts = vec!["list-sessions", "-F", "#{session_name}"];
    proof {
        assert(strs(parts@) =~= seq!["list-sessions"@, "-F"@, "#{session_name}"@]);
    }
    owned(parts)
}

/// Lists the windows of a session.
pub fn list_windows_args(session_id: &str) -> (args: Vec<String>)
    ensures
        text::texts(args@) == seq!["list-windows"@, "-t"@, session_id@, "-F"@, WINDOW_FORMAT@],
{
    let parts = vec!["list-windows", "-t", session_id, "-F", WINDOW_FORMAT];
    proof {
        assert(strs(parts@) =~= seq!["list-windows"@, "-t"@, session_id@, "-F"@, WINDOW_FORMAT@]);
    }
    owned(parts)
}

/// Lists the panes of a window.
pub fn list_panes_args(window_id: &str) -> (args: Vec<String>)
    ensures
        text::texts(args@) == seq!["list-panes"@, "-t"@, window_id@, "-F"@, PANE_FORMAT@],
{
    let parts = vec!["list-panes", "-t", window_id, "-F", PANE_FORMAT];
    proof {
        assert(strs(parts@) =~= seq!["list-panes"@, "-t"@, window_id@, "-F"@, PANE_FORMAT@]);
    }
    owned(parts)
}

/// Lists the clients.
pub fn list_clients_args() -> (args: Vec<String>)
    ensures
        text::texts(args@) == seq!["list-clients"@, "-F"@, CLIENT_FORMAT@],
{
    let parts = vec!["list-clients", "-F", CLIENT_FORMAT];
    proof {
        assert(strs(parts@) =~= seq!["list-clients"@, "-F"@, CLIENT_FORMAT@]);
    }
    owned(parts)
}

/// Detaches a client.
pub fn detach_client_args(client_tty: &str) -> (args: Vec<String>)
    ensures
        text::texts(args@) == seq!["detach-client"@, "-t"@, client_tty@],
{
    let parts = vec!["detach-client", "-t", client_tty];
    proof {
        assert(strs(parts@) =~= seq!["detach-client"@, "-t"@, client_tty@]);
    }
    owned(parts)
}

/// Lists the paste buffers.
pub fn list_buffers_args() -> (args: Vec<String>)
    ensures
        text::texts(args@) == seq!["list-buffers"@, "-F"@, BUFFER_FORMAT@],
{
    let parts = vec!["list-buffers", "-F", BUFFER_FORMAT];
    proof {
        assert(strs(parts@) =~= seq!["list-buffers"@, "-F"@, BUFFER_FORMAT@]);
    }
    owned(parts)
}

/// Saves a buffer to a file.
pub fn save_buffer_args(name: &str, path: &str) -> (args: Vec<String>)
    ensures
        text::texts(args@) == guarded(seq!["save-buffer"@, "-b"@, name@], path@),
{
    let parts = vec!["save-buffer", "-b", name, "--", path];
    proof {
        assert(strs(parts@) =~= guarded(seq!["save-buffer"@, "-b"@, name@], path@));
    }
    owned(parts)
}

/// Loads a buffer from a file.
pub fn load_buffer_args(name: &str, path: &str) -> (args: Vec<String>)
    ensures
        text::texts(args@) == guarded(seq!["load-buffer"@, "-b"@, name@], path@),
{
    let parts = vec!["load-buffer", "-b", name, "--", path];
    proof {
        assert(strs(parts@) =~= guarded(seq!["load-buffer"@, "-b"@, name@], path@));
    }
    owned(parts)
}

/// Loads a buffer from the standard input.
pub fn load_buffer_input_args(name: &str) -> (args: Vec<String>)
    ensures
        text::texts(args@) == seq!["load-buffer"@, "-b"@, name@, "-"@],
{
    let parts = vec!["load-buffer", "-b", name, "-"];
    proof {
        assert(strs(parts@) =~= seq!["load-buffer"@, "-b"@, name@, "-"@]);
    }
    owned(parts)
}

/// Sets a buffer to a text.
pub fn set_buffer_args(name: &str, content: &str) -> (args: Vec<String>)
    ensures
        text::texts(args@) == guarded(seq!["set-buffer"@, "-b"@, name@], content@),
{
    let parts = vec!["set-buffer", "-b", name, "--", content];
    proof {
        assert(strs(parts@) =~= guarded(seq!["set-buffer"@, "-b"@, name@], content@));
    }
    owned(parts)
}

/// Deletes a buffer.
pub fn delete_buffer_args(name: &str) -> (args: Vec<String>)
    ensures
        text::texts(args@) == seq!["delete-buffer"@, "-b"@, name@],
{
    let parts = vec!["delete-buffer", "-b", name];
    proof {
        assert(strs(parts@) =~= seq!["delete-buffer"@, "-b"@, name@]);
    }
    owned(parts)
}

/// Asks for the details of a pane.
pub fn pane_info_args(pane_id: &str) -> (args: Vec<String>)
    ensures
        text::texts(args@) == seq!["display-message"@, "-p"@, "-t"@, pane_id@, PANE_INFO_FORMAT@],
{
    let parts = vec!["display-message", "-p", "-t", pane_id, PANE_INFO_FORMAT];
    proof {
        assert(strs(parts@) =~= seq![
            "display-message"@,
            "-p"@,
            "-t"@,
            pane_id@,
            PANE_INFO_FORMAT@,
        ]);
    }
    owned(parts)
}

/// Asks for the details of a window.
pub fn window_info_args(window_id: &str) -> (args: Vec<String>)
    ensures
        text::texts(args@) == seq![
            "display-message"@,
            "-p"@,
            "-t"@,
            window_id@,
            WINDOW_INFO_FORMAT@,
        ],
{
    let parts = vec!["display-message", "-p", "-t", window_id, WINDOW_INFO_FORMAT];
    proof {
        assert(strs(parts@) =~= seq![
            "display-message"@,
            "-p"@,
            "-t"@,
            window_id@,
            WINDOW_INFO_FORMAT@,
        ]);
    }
    owned(parts)
}

/// Makes a session.
pub fn create_session_args(name: &str) -> (args: Vec<String>)
    ensures
        text::texts(args@) == seq![
            "new-session"@,
            "-d"@,
            "-P"@,
            "-F"@,
            SESSION_FORMAT@,
            "-s"@,
            name@,
        ],
{
    let parts = vec!["new-session", "-d", "-P", "-F", SESSION_FORMAT, "-s", name];
    proof {
        assert(strs(parts@) =~= seq![
            "new-session"@,
            "-d"@,
            "-P"@,
            "-F"@,
            SESSION_FORMAT@,
            "-s"@,
            name@,
        ]);
    }
    owned(parts)
}

/// Makes a window in a session.
pub fn create_window_args(session_id: &str, name: &str) -> (args: Vec<String>)
    ensures
        text::texts(args@) == seq![
            "new-window"@,
            "-P"@,
            "-F"@,
            WINDOW_FORMAT@,
            "-t"@,
            session_id@,
            "-n"@,
            name@,
        ],
{
    let parts = vec!["new-window", "-P", "-F", WINDOW_FORMAT, "-t", session_id, "-n", name];
    proof {
        assert(strs(parts@) =~= seq![
            "new-window"@,
            "-P"@,
            "-F"@,
            WINDOW_FORMAT@,
            "-t"@,
            session_id@,
            "-n"@,
            name@,
        ]);
    }
    owned(parts)
}

/// Ends a session.
pub fn kill_session_args(session_id: &str) -> (args: Vec<String>)
    ensures
        text::texts(args@) == seq!["kill-session"@, "-t"@, session_id@],
{
    let parts = vec!["kill-session", "-t", session_id];
    proof {
        assert(strs(parts@) =~= seq!["kill-session"@, "-t"@, session_id@]);
    }
    owned(parts)
}

/// Ends a window.
pub fn kill_window_args(window_id: &str) -> (args: Vec<String>)
    ensures
        text::texts(args@) == seq!["kill-window"@, "-t"@, window_id@],
{
    let parts = vec!["kill-window", "-t", window_id];
    proof {
        assert(strs(parts@) =~= seq!["kill-window"@, "-t"@, window_id@]);
    }
    owned(parts)
}

/// Ends a pane.
pub fn kill_pane_args(pane_id: &str) -> (args: Vec<String>)
    ensures
        text::texts(args@) == seq!["kill-pane"@, "-t"@, pane_id@],
{
    let parts = vec!["kill-pane", "-t", pane_id];
    proof {
        assert(strs(parts@) =~= seq!["kill-pane"@, "-t"@, pane_id@]);
    }
    owned(parts)
}

/// Pastes a buffer into a pane, bracketed where the program there knows that, and deletes it.
pub fn paste_buffer_args(buffer: &str, pane_id: &str) -> (args: Vec<String>)
    ensures
        text::texts(args@) == seq!["paste-buffer"@, "-p"@, "-d"@, "-b"@, buffer@, "-t"@, pane_id@],
{
    let parts = vec!["paste-buffer", "-p", "-d", "-b", buffer, "-t", pane_id];
    proof {
        assert(strs(parts@) =~= seq![
            "paste-buffer"@,
            "-p"@,
            "-d"@,
            "-b"@,
            buffer@,
            "-t"@,
            pane_id@,
        ]);
    }
    owned(parts)
}

/// Asks for the session that the client is attached to.
pub fn current_session_args() -> (args: Vec<String>)
    ensures
        text::texts(args@) == seq!["display-message"@, "-p"@, SESSION_FORMAT@],
{
    let parts = vec!["display-message", "-p", SESSION_FORMAT];
    proof {
        assert(strs(parts@) =~= seq!["display-message"@, "-p"@, SESSION_FORMAT@]);
    }
    owned(parts)
}

/// Renames a session.
pub fn rename_session_args(session_id: &str, name: &str) -> (args: Vec<String>)
    ensures
        text::texts(args@) == guarded(seq!["rename-session"@, "-t"@, session_id@], name@),
{
    let parts = vec!["rename-session", "-t", session_id, "--", name];
    proof {
        assert(strs(parts@) =~= guarded(seq!["rename-session"@, "-t"@, session_id@], name@));
    }
    owned(parts)
}

/// Selects a window.
pub fn select_window_args(window_id: &str) -> (args: Vec<String>)
    ensures
        text::texts(args@) == seq!["select-window"@, "-t"@, window_id@],
{
    let parts = vec!["select-window", "-t", window_id];
    proof {
        assert(strs(parts@) =~= seq!["select-window"@, "-t"@, window_id@]);
    }
    owned(parts)
}

/// Selects a pane.
pub fn select_pane_args(pane_id: &str) -> (args: Vec<String>)
    ensures
        text::texts(args@) == seq!["select-pane"@, "-t"@, pane_id@],
{
    let parts = vec!["select-pane", "-t", pane_id];
    proof {
        assert(strs(parts@) =~= seq!["select-pane"@, "-t"@, pane_id@]);
    }
    owned(parts)
}

/// Toggles the zoom of a pane.
pub fn zoom_pane_args(pane_id: &str) -> (args: Vec<String>)
    ensures
        text::texts(args@) == seq!["resize-pane"@, "-Z"@, "-t"@, pane_id@],
{
    let parts = vec!["resize-pane", "-Z", "-t", pane_id];
    proof {
        assert(strs(parts@) =~= seq!["resize-pane"@, "-Z"@, "-t"@, pane_id@]);
    }
    owned(parts)
}

/// Selects the layout of a window.
pub fn select_layout_args(window_id: &str, layout: &str) -> (args: Vec<String>)
    ensures
        text::texts(args@) == guarded(seq!["select-layout"@, "-t"@, window_id@], layout@),
{
    let parts = vec!["select-layout", "-t", window_id, "--", layout];
    proof {
        assert(strs(parts@) =~= guarded(seq!["select-layout"@, "-t"@, window_id@], layout@));
    }
    owned(parts)
}

/// Joins a pane into the window of another.
pub fn join_pane_args(source_pane_id: &str, target_pane_id: &str) -> (args: Vec<String>)
    ensures
        text::texts(args@) == seq!["join-pane"@, "-s"@, source_pane_id@, "-t"@, target_pane_id@],
{
    let parts = vec!["join-pane", "-s", source_pane_id, "-t", target_pane_id];
    proof {
        assert(strs(parts@) =~= seq!["join-pane"@, "-s"@, source_pane_id@, "-t"@, target_pane_id@]);
    }
    owned(parts)
}

/// Swaps two panes.
pub fn swap_pane_args(source_pane_id: &str, target_pane_id: &str) -> (args: Vec<String>)
    ensures
        text::texts(args@) == seq!["swap-pane"@, "-s"@, source_pane_id@, "-t"@, target_pane_id@],
{
    let parts = vec!["swap-pane", "-s", source_pane_id, "-t", target_pane_id];
    proof {
        assert(strs(parts@) =~= seq!["swap-pane"@, "-s"@, source_pane_id@, "-t"@, target_pane_id@]);
    }
    owned(parts)
}

/// Renames a window.
pub fn rename_window_args(window_id: &str, name: &str) -> (args: Vec<String>)
    ensures
        text::texts(args@) == guarded(seq!["rename-window"@, "-t"@, window_id@], name@),
{
    let parts = vec!["rename-window", "-t", window_id, "--", name];
    proof {
        assert(strs(parts@) =~= guarded(seq!["rename-window"@, "-t"@, window_id@], name@));
    }
    owned(parts)
}

/// Sets the title of a pane.
pub fn rename_pane_args(pane_id: &str, title: &str) -> (args: Vec<String>)
    ensures
        text::texts(args@) == seq!["select-pane"@, "-t"@, pane_id@, "-T"@, title@],
{
    let parts = vec!["select-pane", "-t", pane_id, "-T", title];
    proof {
        assert(strs(parts@) =~= seq!["select-pane"@, "-t"@, pane_id@, "-T"@, title@]);
    }
    owned(parts)
}

/// Enables or disables that the panes of a window get the same keys.
pub fn synchronize_panes_args(window_id: &str, enabled: bool) -> (args: Vec<String>)
    ensures
        text::texts(args@) == seq![
            "set-option"@,
            "-t"@,
            window_id@,
            "synchronize-panes"@,
            if enabled {
                "on"@
            } else {
                "off"@
            },
        ],
{
    let value = if enabled {
        "on"
    } else {
        "off"
    };
    let parts = vec!["set-option", "-t", window_id, "synchronize-panes", value];
    proof {
        assert(strs(parts@) =~= seq![
            "set-option"@,
            "-t"@,
            window_id@,
            "synchronize-panes"@,
            value@,
        ]);
    }
    owned(parts)
}

/// The place that a window is moved to: a session, or an index in it.
pub open spec fn move_target(session_id: Seq<char>, index: Option<u32>) -> Seq<char> {
    match index {
        Some(n) => session_id + ":"@ + numbers::decimal_text(n as nat),
        None => session_id,
    }
}

/// Moves a window to another session.
pub fn move_window_args(window_id: &str, target_session_id: &str, target_index: Option<u32>) -> (
    args: Vec<String>)
    ensures
        text::texts(args@) == seq![
            "move-window"@,
            "-s"@,
            window_id@,
            "-t"@,
            move_target(target_session_id@, target_index),
        ],
{
    let mut target = target_session_id.to_owned();
    if let Some(n) = target_index {
        target.append(":");
        target.append(numbers::decimal(n as u64).as_str());
    }
    let parts = vec!["move-window", "-s", window_id, "-t", target.as_str()];
    proof {
        assert(strs(parts@) =~= seq![
            "move-window"@,
            "-s"@,
            window_id@,
            "-t"@,
            move_target(target_session_id@, target_index),
        ]);
    }
    owned(parts)
}

/// An optional argument with its flag before it.
pub open spec fn flagged(flag: Seq<char>, value: Option<Seq<char>>) -> Seq<Seq<char>> {
    match value {
        Some(value) => seq![flag, value],
        None => Seq::empty(),
    }
}

/// Adds an optional argument with its flag before it.
fn push_flagged(args: &mut Vec<String>, flag: &str, value: Option<&str>)
    ensures
        text::texts(final(args)@) == text::texts(old(args)@) + flagged(
            flag@,
            text::opt_str(value),
        ),
{
    let ghost before = text::texts(args@);
    if let Some(value) = value {
        text::push_text(args, flag);
        text::push_text(args, value);
        proof {
            assert(text::texts(args@) =~= before + seq![flag@, value@]);
        }
    } else {
        proof {
            assert(text::texts(args@) =~= before + Seq::<Seq<char>>::empty());
        }
    }
}

/// Shows a buffer, or the latest one.
pub fn show_buffer_args(name: Option<&str>) -> (args: Vec<String>)
    ensures
        text::texts(args@) == seq!["show-buffer"@] + flagged("-b"@, text::opt_str(name)),
{
    let parts = vec!["show-buffer"];
    proof {
        assert(strs(parts@) =~= seq!["show-buffer"@]);
    }
    let mut args = owned(parts);
    push_flagged(&mut args, "-b", name);
    args
}

/// Breaks a pane out into its own window.
pub fn break_pane_args(pane_id: &str, name: Option<&str>) -> (args: Vec<String>)
    ensures
        text::texts(args@) == seq![
            "break-pane"@,
            "-P"@,
            "-F"@,
            BREAK_FORMAT@,
            "-s"@,
            pane_id@,
        ] + flagged("-n"@, text::opt_str(name)),
{
    let parts = vec!["break-pane", "-P", "-F", BREAK_FORMAT, "-s", pane_id];
    proof {
        assert(strs(parts@) =~= seq![
            "break-pane"@,
            "-P"@,
            "-F"@,
            BREAK_FORMAT@,
            "-s"@,
            pane_id@,
        ]);
    }
    let mut args = owned(parts);
    push_flagged(&mut args, "-n", name);
    args
}

/// The flag of a split: side by side where that is asked for, else one above the other.
pub open spec fn split_flag(direction: Option<Seq<char>>) -> Seq<char> {
    if direction == Some("horizontal"@) || direction == Some("h"@) {
        "-h"@
    } else {
        "-v"@
    }
}

/// The size of a new pane in percent; other numbers than one to ninety-nine count as none.
pub open spec fn split_size(size: Option<u32>) -> Option<Seq<char>> {
    match size {
        Some(n) => if 0 < n < 100 {
            Some(numbers::decimal_text(n as nat) + "%"@)
        } else {
            None
        },
        None => None,
    }
}

/// Whether an optional text is a given one.
fn is_text(item: Option<&str>, other: &str) -> (r: bool)
    ensures
        r == (text::opt_str(item) == Some(other@)),
{
    match item {
        Some(s) => text::same_text(s, other),
        None => false,
    }
}

/// Splits a pane.
pub fn split_pane_args(pane_id: &str, direction: Option<&str>, size: Option<u32>) -> (args: Vec<
    String,
>)
    ensures
        text::texts(args@) == seq![
            "split-window"@,
            "-P"@,
            "-F"@,
            SPLIT_FORMAT@,
            split_flag(text::opt_str(direction)),
            "-t"@,
            pane_id@,
        ] + flagged("-l"@, split_size(size)),
{
    let flag = if is_text(direction, "horizontal") || is_text(direction, "h") {
        "-h"
    } else {
        "-v"
    };
    let parts = vec!["split-window", "-P", "-F", SPLIT_FORMAT, flag, "-t", pane_id];
    proof {
        assert(strs(parts@) =~= seq![
            "split-window"@,
            "-P"@,
            "-F"@,
            SPLIT_FORMAT@,
            flag@,
            "-t"@,
            pane_id@,
        ]);
    }
    let mut args = owned(parts);
    let mut percent = String::new();
    let mut sized = false;
    if let Some(n) = size {
        if n > 0 && n < 100 {
            percent = numbers::decimal(n as u64);
            percent.append("%");
            sized = true;
        }
    }
    if sized {
        push_flagged(&mut args, "-l", Some(percent.as_str()));
    } else {
        push_flagged(&mut args, "-l", None);
    }
    args
}

/// The lines that a capture begins and ends with. Where neither is given, it is the last
/// `lines` lines of the history and all that is shown.
pub open spec fn capture_range(lines: Option<u32>, start: Option<i32>, end: Option<i32>) -> (
    Seq<char>,
    Seq<char>,
) {
    if start is Some || end is Some {
        (
            numbers::signed_text(
                match start {
                    Some(n) => n as int,
                    None => 0,
                },
            ),
            match end {
                Some(n) => numbers::signed_text(n as int),
                None => "-"@,
            },
        )
    } else {
        (
            "-"@ + numbers::decimal_text(
                match lines {
                    Some(n) => n as nat,
                    None => 200,
                },
            ),
            "-"@,
        )
    }
}

/// A flag, where it is asked for.
pub open spec fn switch(flag: Seq<char>, on: bool) -> Seq<Seq<char>> {
    if on {
        seq![flag]
    } else {
        Seq::empty()
    }
}

/// Adds a flag, where it is asked for.
fn push_switch(args: &mut Vec<String>, flag: &str, on: bool)
    ensures
        text::texts(final(args)@) == text::texts(old(args)@) + switch(flag@, on),
{
    let ghost before = text::texts(args@);
    if on {
        text::push_text(args, flag);
    }
    proof {
        assert(text::texts(args@) =~= before + switch(flag@, on));
    }
}

/// Captures the content of a pane.
pub fn capture_pane_args(
    pane_id: &str,
    lines: Option<u32>,
    colors: bool,
    start: Option<i32>,
    end: Option<i32>,
    join: bool,
) -> (args: Vec<String>)
    ensures
        text::texts(args@) == seq!["capture-pane"@, "-p"@, "-t"@, pane_id@] + switch(
            "-e"@,
            colors,
        ) + switch("-J"@, join) + seq![
            "-S"@,
            capture_range(lines, start, end).0,
            "-E"@,
            capture_range(lines, start, end).1,
        ],
{
    let parts = vec!["capture-pane", "-p", "-t", pane_id];
    proof {
        assert(strs(parts@) =~= seq!["capture-pane"@, "-p"@, "-t"@, pane_id@]);
    }
    let mut args = owned(parts);
    push_switch(&mut args, "-e", colors);
    push_switch(&mut args, "-J", join);
    let ghost before = text::texts(args@);
    let first;
    let last;
    if start.is_some() || end.is_some() {
        let from: i32 = match start {
            Some(n) => n,
            None => 0,
        };
        first = numbers::signed_decimal(from);
        last = match end {
            Some(n) => numbers::signed_decimal(n),
            None => "-".to_owned(),
        };
    } else {
        let count: u32 = match lines {
            Some(n) => n,
            None => 200,
        };
        let mut text = "-".to_owned();
        text.append(numbers::decimal(count as u64).as_str());
        first = text;
        last = "-".to_owned();
    }
    text::push_text(&mut args, "-S");
    text::push_text(&mut args, first.as_str());
    text::push_text(&mut args, "-E");
    text::push_text(&mut args, last.as_str());
    proof {
        assert(text::texts(args@) =~= before + seq!["-S"@, first@, "-E"@, last@]);
    }
    args
}

/// The flag of a direction.
pub open spec fn resize_flag(direction: Seq<char>) -> Option<Seq<char>> {
    if direction == "left"@ || direction == "l"@ {
        Some("-L"@)
    } else if direction == "right"@ || direction == "r"@ {
        Some("-R"@)
    } else if direction == "up"@ || direction == "u"@ {
        Some("-U"@)
    } else if direction == "down"@ || direction == "d"@ {
        Some("-D"@)
    } else {
        None
    }
}

/// An optional number in decimal.
pub open spec fn opt_decimal(n: Option<u32>) -> Option<Seq<char>> {
    match n {
        Some(n) => Some(numbers::decimal_text(n as nat)),
        None => None,
    }
}

/// The arguments that resize a pane, or why there are none. A width or a height goes before a
/// direction.
pub open spec fn resize_args(
    pane_id: Seq<char>,
    direction: Option<Seq<char>>,
    amount: Option<u32>,
    width: Option<u32>,
    height: Option<u32>,
) -> Result<Seq<Seq<char>>, ErrorView> {
    let head = seq!["resize-pane"@, "-t"@, pane_id];
    if width is Some || height is Some {
        Ok(head + flagged("-x"@, opt_decimal(width)) + flagged("-y"@, opt_decimal(height)))
    } else {
        match direction {
            Some(dir) => match resize_flag(dir) {
                Some(flag) => Ok(
                    match opt_decimal(amount) {
                        Some(n) => head + seq![flag, n],
                        None => head + seq![flag],
                    },
                ),
                None => Err(ErrorView::InvalidArgument("unknown resize direction: "@ + dir)),
            },
            None => Err(
                ErrorView::InvalidArgument(
                    "resize-pane requires direction/amount or width/height"@,
                ),
            ),
        }
    }
}

/// Adds an optional number with its flag before it.
fn push_number(args: &mut Vec<String>, flag: &str, n: Option<u32>)
    ensures
        text::texts(final(args)@) == text::texts(old(args)@) + flagged(flag@, opt_decimal(n)),
{
    match n {
        Some(n) => {
            let digits = numbers::decimal(n as u64);
            push_flagged(args, flag, Some(digits.as_str()));
        },
        None => {
            push_flagged(args, flag, None);
        },
    }
}

/// Resizes a pane.
pub fn resize_pane_args(
    pane_id: &str,
    direction: Option<&str>,
    amount: Option<u32>,
    width: Option<u32>,
    height: Option<u32>,
) -> (r: Result<Vec<String>, Error>)
    ensures
        match r {
            Ok(args) => resize_args(
                pane_id@,
                text::opt_str(direction),
                amount,
                width,
                height,
            ) == Ok::<Seq<Seq<char>>, ErrorView>(text::texts(args@)),
            Err(error) => resize_args(
                pane_id@,
                text::opt_str(direction),
                amount,
                width,
                height,
            ) == Err::<Seq<Seq<char>>, ErrorView>(error@),
        },
{
    let parts = vec!["resize-pane", "-t", pane_id];
    let ghost head = seq!["resize-pane"@, "-t"@, pane_id@];
    proof {
        assert(strs(parts@) =~= head);
    }
    let mut args = owned(parts);
    if width.is_some() || height.is_some() {
        push_number(&mut args, "-x", width);
        push_number(&mut args, "-y", height);
        return Ok(args);
    }
    match direction {
        Some(dir) => {
            let flag = if text::same_text(dir, "left") || text::same_text(dir, "l") {
                "-L"
            } else if text::same_text(dir, "right") || text::same_text(dir, "r") {
                "-R"
            } else if text::same_text(dir, "up") || text::same_text(dir, "u") {
                "-U"
            } else if text::same_text(dir, "down") || text::same_text(dir, "d") {
                "-D"
            } else {
                let mut message = "unknown resize direction: ".to_owned();
                message.append(dir);
                return Err(Error::InvalidArgument { message });
            };
            text::push_text(&mut args, flag);
            proof {
                assert(head.push(flag@) =~= head + seq![flag@]);
            }
            if let Some(n) = amount {
                let digits = numbers::decimal(n as u64);
                text::push_text(&mut args, digits.as_str());
                proof {
                    assert(head.push(flag@).push(digits@) =~= head + seq![flag@, digits@]);
                }
            }
            Ok(args)
        },
        None => Err(
            Error::InvalidArgument {
                message: "resize-pane requires direction/amount or width/height".to_owned(),
            },
        ),
    }
}

/// Law: where a window is moved: to the session where no index is given, and otherwise to that
/// index, after a colon.
pub proof fn law_move_target(session_id: Seq<char>, index: u32)
    ensures
        move_target(session_id, None) == session_id,
        move_target(session_id, Some(index)) == session_id + seq![':'] + numbers::decimal_text(
            index as nat,
        ),
{
    reveal_strlit(":");
    assert(":"@ =~= seq![':']);
}

/// Law: how a pane is split. It is split side by side exactly where the direction is `horizontal`
/// or `h`. The size is given in percent exactly where it is from one to ninety-nine.
pub proof fn law_split(direction: Option<Seq<char>>, size: Option<u32>)
    ensures
        direction == Some("horizontal"@) || direction == Some("h"@) ==> split_flag(direction)
            == "-h"@,
        direction != Some("horizontal"@) && direction != Some("h"@) ==> split_flag(direction)
            == "-v"@,
        match size {
            Some(n) => {
                &&& 1 <= n <= 99 ==> split_size(size) == Some(
                    numbers::decimal_text(n as nat) + seq!['%'],
                )
                &&& n == 0 || n >= 100 ==> split_size(size) is None
            },
            None => split_size(size) is None,
        },
{
    reveal_strlit("%");
    assert("%"@ =~= seq!['%']);
}

/// Law: optional arguments stand with their flags where they are given, and leave no trace where
/// they are not.
pub proof fn law_flagged(flag: Seq<char>, value: Seq<char>, on: bool)
    ensures
        flagged(flag, Some(value)) == seq![flag, value],
        flagged(flag, None).len() == 0,
        on ==> switch(flag, on) == seq![flag],
        !on ==> switch(flag, on).len() == 0,
{
}

/// Law: which lines of a pane are captured. A first and a last line that are given are kept as they
/// are; where only the last one is given, the first is line zero, and where only the first one is,
/// the capture goes to the end. Where neither is given, as many lines before the visible ones are
/// captured as are asked for, or 200.
pub proof fn law_capture_range(lines: Option<u32>, first: i32, last: i32)
    ensures
        capture_range(lines, Some(first), Some(last)) == (
            numbers::signed_text(first as int),
            numbers::signed_text(last as int),
        ),
        capture_range(lines, Some(first), None) == (numbers::signed_text(first as int), seq!['-']),
        capture_range(lines, None, Some(last)) == (seq!['0'], numbers::signed_text(last as int)),
        lines is Some ==> capture_range(lines, None, None) == (
            seq!['-'] + numbers::decimal_text(lines->0 as nat),
            seq!['-'],
        ),
        capture_range(None, None, None) == (
            seq!['-'] + numbers::decimal_text(200),
            seq!['-'],
        ),
{
    reveal_strlit("-");
    assert("-"@ =~= seq!['-']);
    assert(numbers::signed_text(0) =~= seq!['0']);
}

/// Law: how a pane is resized. A width and a height that are given are set, each with its own flag.
/// Only where there is neither, a direction counts, by its name or its first letter, with the
/// amount after it where there is one. Anything else is refused.
pub proof fn law_resize(
    pane_id: Seq<char>,
    direction: Option<Seq<char>>,
    amount: Option<u32>,
    width: u32,
    height: u32,
)
    ensures
        ({
            let head = seq!["resize-pane"@, "-t"@, pane_id];
            let x = seq!["-x"@, numbers::decimal_text(width as nat)];
            let y = seq!["-y"@, numbers::decimal_text(height as nat)];
            &&& resize_args(pane_id, direction, amount, Some(width), Some(height)) == Ok::<
                Seq<Seq<char>>,
                ErrorView,
            >(head + x + y)
            &&& resize_args(pane_id, direction, amount, Some(width), None) == Ok::<
                Seq<Seq<char>>,
                ErrorView,
            >(head + x)
            &&& resize_args(pane_id, direction, amount, None, Some(height)) == Ok::<
                Seq<Seq<char>>,
                ErrorView,
            >(head + y)
            &&& resize_args(pane_id, None, amount, None, None) is Err
            &&& direction is Some && resize_flag(direction->0) is None ==> resize_args(
                pane_id,
                direction,
                amount,
                None,
                None,
            ) == Err::<Seq<Seq<char>>, ErrorView>(
                ErrorView::InvalidArgument("unknown resize direction: "@ + direction->0),
            )
            &&& direction is Some && resize_flag(direction->0) is Some ==> resize_args(
                pane_id,
                direction,
                amount,
                None,
                None,
            ) == Ok::<Seq<Seq<char>>, ErrorView>(
                head + seq![resize_flag(direction->0)->0] + if amount is Some {
                    seq![numbers::decimal_text(amount->0 as nat)]
                } else {
                    Seq::empty()
                },
            )
        }),
{
    let head = seq!["resize-pane"@, "-t"@, pane_id];
    let none = Seq::<Seq<char>>::empty();
    let x = seq!["-x"@, numbers::decimal_text(width as nat)];
    let y = seq!["-y"@, numbers::decimal_text(height as nat)];
    assert(head + x + none =~= head + x);
    assert(head + none + y =~= head + y);
    if let Some(dir) = direction {
        if let Some(flag) = resize_flag(dir) {
            assert(head + seq![flag] + none =~= head + seq![flag]);
            if let Some(n) = amount {
                let digits = numbers::decimal_text(n as nat);
                assert(head + seq![flag] + seq![digits] =~= head + seq![flag, digits]);
            }
        }
    }
}

/// Law: the directions in which a pane can be resized.
pub proof fn law_resize_flag()
    ensures
        resize_flag("left"@) == Some("-L"@),
        resize_flag("l"@) == Some("-L"@),
        resize_flag("right"@) == Some("-R"@),
        resize_flag("r"@) == Some("-R"@),
        resize_flag("up"@) == Some("-U"@),
        resize_flag("u"@) == Some("-U"@),
        resize_flag("down"@) == Some("-D"@),
        resize_flag("d"@) == Some("-D"@),
        forall|dir: Seq<char>|
            dir != "left"@ && dir != "l"@ && dir != "right"@ && dir != "r"@ && dir != "up"@ && dir
                != "u"@ && dir != "down"@ && dir != "d"@ ==> #[trigger] resize_flag(dir) is None,
{
    reveal_strlit("left");
    reveal_strlit("l");
    reveal_strlit("right");
    reveal_strlit("r");
    reveal_strlit("up");
    reveal_strlit("u");
    reveal_strlit("down");
    reveal_strlit("d");
    assert("l"@[0] == 'l' && "left"@[0] == 'l' && "left"@.len() == 4 && "l"@.len() == 1);
    assert("r"@[0] == 'r' && "right"@[0] == 'r');
    assert("u"@[0] == 'u' && "up"@[0] == 'u');
    assert("d"@[0] == 'd' && "down"@[0] == 'd');
}

} // verus!
