//! The data that tmux reports and that the tools return.

use vstd::prelude::*;

use crate::offsets;
use crate::offsets::OffsetMap;
use crate::score::Score;
use crate::text;

verus! {

/// A tmux session.
#[derive(Debug, Clone, PartialEq, Eq)]
pub struct Session {
    pub id: String,
    pub name: String,
    pub attached: bool,
    pub windows: u32,
}

/// A window of a session.
#[derive(Debug, Clone, PartialEq, Eq)]
pub struct Window {
    pub id: String,
    pub name: String,
    pub active: bool,
    pub session_id: String,
}

/// A pane of a window.
#[derive(Debug, Clone, PartialEq, Eq)]
pub struct Pane {
    pub id: String,
    pub title: String,
    pub active: bool,
    pub window_id: String,
}

/// A client that is connected to the tmux server.
#[derive(Debug, Clone, PartialEq, Eq)]
pub struct ClientInfo {
    pub tty: String,
    pub name: String,
    pub session_name: String,
    pub pid: Option<u32>,
    pub attached: bool,
}

/// A paste buffer. `size` is `size_bytes`, or the largest `u32` where that is larger.
#[derive(Debug, Clone, PartialEq, Eq)]
pub struct BufferInfo {
    pub name: String,
    pub size: u32,
    pub size_bytes: u64,
    pub order_index: u32,
    pub created: Option<u64>,
}

/// Details of a pane.
#[derive(Debug, Clone, PartialEq, Eq)]
pub struct PaneInfo {
    pub id: String,
    pub window_id: String,
    pub session_id: String,
    pub active: bool,
    pub title: String,
    pub current_path: String,
    pub current_command: String,
    pub width: u32,
    pub height: u32,
    pub pid: Option<u32>,
    pub in_mode: bool,
}

/// Details of a window.
#[derive(Debug, Clone, PartialEq, Eq)]
pub struct WindowInfo {
    pub id: String,
    pub name: String,
    pub session_id: String,
    pub active: bool,
    pub layout: String,
    pub panes: u32,
    pub width: u32,
    pub height: u32,
    pub zoomed: bool,
    pub active_pane_id: String,
}

/// The shell that runs in the panes.
#[derive(Debug, Clone, Copy, PartialEq, Eq, Structural)]
pub enum ShellType {
    Bash,
    Zsh,
    Fish,
    Unknown,
}

/// How a buffer is searched.
#[derive(Debug, Clone, Copy, PartialEq, Eq, Structural)]
pub enum SearchMode {
    Literal,
    Regex,
}

/// One match of a search, with the text around it. Offsets count bytes from the start of the
/// buffer.
#[derive(Debug, PartialEq, Eq)]
pub struct BufferSearchMatch {
    pub match_id: String,
    pub buffer: String,
    pub offset_bytes: u64,
    pub match_len: u32,
    pub context_start: u64,
    pub context_end: u64,
    pub snippet: String,
    pub similarity: Option<Score>,
}

/// The outcome of a search.
#[derive(Debug, Clone, PartialEq, Eq)]
pub struct BufferSearchOutput {
    pub query: String,
    pub mode: SearchMode,
    pub context_bytes: u32,
    pub max_matches: u32,
    pub include_similarity: bool,
    pub fuzzy_match: bool,
    pub similarity_threshold: Option<Score>,
    pub buffers: Vec<String>,
    pub total_matches: u32,
    pub buffers_scanned: u32,
    pub bytes_scanned_total: u64,
    pub truncated_buffers: Vec<String>,
    pub resume_from_offset: OffsetMap,
    pub matches: Vec<BufferSearchMatch>,
    pub max_similarity: Option<Score>,
    pub fuzzy_skipped_lines: u32,
    pub fuzzy_skipped_bytes: u64,
}

/// How far a command has got.
#[derive(Debug, Clone, Copy, PartialEq, Eq, Structural)]
pub enum CommandStatus {
    /// No end has been noticed.
    Pending,
    /// It has ended with exit code zero.
    Completed,
    /// It has ended with another exit code, or was lost track of.
    Error,
}

/// A command that was sent to a pane. Times are in nanoseconds from some fixed moment on.
#[derive(Debug, PartialEq, Eq)]
pub struct CommandExecution {
    pub id: String,
    pub pane_id: String,
    pub socket: Option<String>,
    pub command: String,
    pub status: CommandStatus,
    pub exit_code: Option<i32>,
    pub output: Option<String>,
    pub started_at: u128,
    pub completed_at: Option<u128>,
    pub raw_mode: bool,
    pub tracking_disabled: bool,
}

/// A command, as characters.
#[verifier::ext_equal]
pub struct ExecutionView {
    pub id: Seq<char>,
    pub pane_id: Seq<char>,
    pub socket: Option<Seq<char>>,
    pub command: Seq<char>,
    pub status: CommandStatus,
    pub exit_code: Option<i32>,
    pub output: Option<Seq<char>>,
    pub started_at: u128,
    pub completed_at: Option<u128>,
    pub raw_mode: bool,
    pub tracking_disabled: bool,
}

impl View for CommandExecution {
    type V = ExecutionView;

    open spec fn view(&self) -> ExecutionView {
        ExecutionView {
            id: self.id@,
            pane_id: self.pane_id@,
            socket: text::opt_text(self.socket),
            command: self.command@,
            status: self.status,
            exit_code: self.exit_code,
            output: text::opt_text(self.output),
            started_at: self.started_at,
            completed_at: self.completed_at,
            raw_mode: self.raw_mode,
            tracking_disabled: self.tracking_disabled,
        }
    }
}

impl Clone for CommandExecution {
    fn clone(&self) -> (r: Self)
        ensures
            r@ == self@,
    {
        CommandExecution {
            id: self.id.clone(),
            pane_id: self.pane_id.clone(),
            socket: text::copy_text(&self.socket),
            command: self.command.clone(),
            status: self.status,
            exit_code: self.exit_code,
            output: text::copy_text(&self.output),
            started_at: self.started_at,
            completed_at: self.completed_at,
            raw_mode: self.raw_mode,
            tracking_disabled: self.tracking_disabled,
        }
    }
}

/// A session, as characters.
#[verifier::ext_equal]
pub struct SessionView {
    pub id: Seq<char>,
    pub name: Seq<char>,
    pub attached: bool,
    pub windows: u32,
}

/// A window, as characters.
#[verifier::ext_equal]
pub struct WindowView {
    pub id: Seq<char>,
    pub name: Seq<char>,
    pub active: bool,
    pub session_id: Seq<char>,
}

/// A pane, as characters.
#[verifier::ext_equal]
pub struct PaneView {
    pub id: Seq<char>,
    pub title: Seq<char>,
    pub active: bool,
    pub window_id: Seq<char>,
}

/// A client, as characters.
#[verifier::ext_equal]
pub struct ClientView {
    pub tty: Seq<char>,
    pub name: Seq<char>,
    pub session_name: Seq<char>,
    pub pid: Option<u32>,
    pub attached: bool,
}

/// A paste buffer, as characters.
#[verifier::ext_equal]
pub struct BufferView {
    pub name: Seq<char>,
    pub size: u32,
    pub size_bytes: u64,
    pub order_index: u32,
    pub created: Option<u64>,
}

/// Details of a pane, as characters.
#[verifier::ext_equal]
pub struct PaneInfoView {
    pub id: Seq<char>,
    pub window_id: Seq<char>,
    pub session_id: Seq<char>,
    pub active: bool,
    pub title: Seq<char>,
    pub current_path: Seq<char>,
    pub current_command: Seq<char>,
    pub width: u32,
    pub height: u32,
    pub pid: Option<u32>,
    pub in_mode: bool,
}

/// Details of a window, as characters.
#[verifier::ext_equal]
pub struct WindowInfoView {
    pub id: Seq<char>,
    pub name: Seq<char>,
    pub session_id: Seq<char>,
    pub active: bool,
    pub layout: Seq<char>,
    pub panes: u32,
    pub width: u32,
    pub height: u32,
    pub zoomed: bool,
    pub active_pane_id: Seq<char>,
}

/// A match, as characters.
#[verifier::ext_equal]
pub struct MatchView {
    pub match_id: Seq<char>,
    pub buffer: Seq<char>,
    pub offset_bytes: u64,
    pub match_len: u32,
    pub context_start: u64,
    pub context_end: u64,
    pub snippet: Seq<char>,
    pub similarity: Option<Score>,
}

/// The outcome of a search, as characters.
#[verifier::ext_equal]
pub struct OutputView {
    pub query: Seq<char>,
    pub mode: SearchMode,
    pub context_bytes: u32,
    pub max_matches: u32,
    pub include_similarity: bool,
    pub fuzzy_match: bool,
    pub similarity_threshold: Option<Score>,
    pub buffers: Seq<Seq<char>>,
    pub total_matches: u32,
    pub buffers_scanned: u32,
    pub bytes_scanned_total: u64,
    pub truncated_buffers: Seq<Seq<char>>,
    pub resume_from_offset: Map<Seq<char>, u64>,
    pub matches: Seq<MatchView>,
    pub max_similarity: Option<Score>,
    pub fuzzy_skipped_lines: u32,
    pub fuzzy_skipped_bytes: u64,
}

impl View for BufferSearchMatch {
    type V = MatchView;

    open spec fn view(&self) -> MatchView {
        MatchView {
            match_id: self.match_id@,
            buffer: self.buffer@,
            offset_bytes: self.offset_bytes,
            match_len: self.match_len,
            context_start: self.context_start,
            context_end: self.context_end,
            snippet: self.snippet@,
            similarity: self.similarity,
        }
    }
}

impl Clone for BufferSearchMatch {
    fn clone(&self) -> (r: Self)
        ensures
            r@ == self@,
    {
        BufferSearchMatch {
            match_id: self.match_id.clone(),
            buffer: self.buffer.clone(),
            offset_bytes: self.offset_bytes,
            match_len: self.match_len,
            context_start: self.context_start,
            context_end: self.context_end,
            snippet: self.snippet.clone(),
            similarity: self.similarity,
        }
    }
}

impl View for BufferSearchOutput {
    type V = OutputView;

    open spec fn view(&self) -> OutputView {
        OutputView {
            query: self.query@,
            mode: self.mode,
            context_bytes: self.context_bytes,
            max_matches: self.max_matches,
            include_similarity: self.include_similarity,
            fuzzy_match: self.fuzzy_match,
            similarity_threshold: self.similarity_threshold,
            buffers: text::texts(self.buffers@),
            total_matches: self.total_matches,
            buffers_scanned: self.buffers_scanned,
            bytes_scanned_total: self.bytes_scanned_total,
            truncated_buffers: text::texts(self.truncated_buffers@),
            resume_from_offset: offsets::offset_map(self.resume_from_offset@),
            matches: views(self.matches@),
            max_similarity: self.max_similarity,
            fuzzy_skipped_lines: self.fuzzy_skipped_lines,
            fuzzy_skipped_bytes: self.fuzzy_skipped_bytes,
        }
    }
}

impl View for Session {
    type V = SessionView;

    open spec fn view(&self) -> SessionView {
        SessionView {
            id: self.id@,
            name: self.name@,
            attached: self.attached,
            windows: self.windows,
        }
    }
}

impl View for Window {
    type V = WindowView;

    open spec fn view(&self) -> WindowView {
        WindowView {
            id: self.id@,
            name: self.name@,
            active: self.active,
            session_id: self.session_id@,
        }
    }
}

impl View for Pane {
    type V = PaneView;

    open spec fn view(&self) -> PaneView {
        PaneView {
            id: self.id@,
            title: self.title@,
            active: self.active,
            window_id: self.window_id@,
        }
    }
}

impl View for ClientInfo {
    type V = ClientView;

    open spec fn view(&self) -> ClientView {
        ClientView {
            tty: self.tty@,
            name: self.name@,
            session_name: self.session_name@,
            pid: self.pid,
            attached: self.attached,
        }
    }
}

impl View for BufferInfo {
    type V = BufferView;

    open spec fn view(&self) -> BufferView {
        BufferView {
            name: self.name@,
            size: self.size,
            size_bytes: self.size_bytes,
            order_index: self.order_index,
            created: self.created,
        }
    }
}

impl View for PaneInfo {
    type V = PaneInfoView;

    open spec fn view(&self) -> PaneInfoView {
        PaneInfoView {
            id: self.id@,
            window_id: self.window_id@,
            session_id: self.session_id@,
            active: self.active,
            title: self.title@,
            current_path: self.current_path@,
            current_command: self.current_command@,
            width: self.width,
            height: self.height,
            pid: self.pid,
            in_mode: self.in_mode,
        }
    }
}

impl View for WindowInfo {
    type V = WindowInfoView;

    open spec fn view(&self) -> WindowInfoView {
        WindowInfoView {
            id: self.id@,
            name: self.name@,
            session_id: self.session_id@,
            active: self.active,
            layout: self.layout@,
            panes: self.panes,
            width: self.width,
            height: self.height,
            zoomed: self.zoomed,
            active_pane_id: self.active_pane_id@,
        }
    }
}

/// The contents of a list of values.
pub open spec fn views<T: View>(items: Seq<T>) -> Seq<T::V> {
    items.map_values(|item: T| item@)
}

} // verus!
