//! Asking how far a command has got.
//!
//! The question alternates between looking at what a pane shows and deciding what that means.
//! `begin_check` says whether to look at all; after every look `continue_check` says whether
//! that was enough.

use vstd::prelude::*;
use vstd::string::*;

use crate::commands::markers;
use crate::commands::retention;
use crate::commands::retention::TrackingConfig;
use crate::commands::tracker;
use crate::commands::tracker::CommandTracker;
use crate::text;
use crate::types;
use crate::types::{CommandExecution, CommandStatus};

verus! {

/// The larger of two numbers.
pub open spec fn larger(a: u32, b: u32) -> u32 {
    if a > b {
        a
    } else {
        b
    }
}

/// How many lines are captured at first: at least one.
pub open spec fn first_lines(tracking: TrackingConfig) -> u32 {
    larger(tracking.capture_initial_lines, 1)
}

/// How many lines are captured at most: at least as many as at first.
pub open spec fn most_lines(tracking: TrackingConfig) -> u32 {
    larger(tracking.capture_max_lines, first_lines(tracking))
}

/// By which factor the number of lines grows: at least one.
pub open spec fn growth(tracking: TrackingConfig) -> u32 {
    larger(tracking.capture_backoff_factor, 1)
}

/// How many lines to capture after `lines` were not enough.
pub open spec fn widened(tracking: TrackingConfig, lines: u32) -> int {
    if lines * growth(tracking) > most_lines(tracking) {
        most_lines(tracking) as int
    } else {
        lines * growth(tracking)
    }
}

/// Whether a command needs no look at its pane: it has ended, or is not tracked.
pub open spec fn settled(e: types::ExecutionView) -> bool {
    !(e.status is Pending) || e.raw_mode || e.tracking_disabled
}

/// A command whose pane is being looked at, and how many lines to capture next.
#[derive(Debug, Clone)]
pub struct Watch {
    pub execution: CommandExecution,
    pub capture_lines: u32,
}

/// What is known of a command before its pane is looked at.
#[derive(Debug, Clone)]
pub enum CheckStart {
    /// There is no command with the id.
    Unknown,
    /// There is no need to look.
    Settled(CommandExecution),
    /// The pane is to be looked at.
    Watching(Watch),
}

/// What a look at a pane has led to.
#[derive(Debug, Clone)]
pub enum CheckStep {
    /// More lines are to be captured.
    Again(Watch),
    /// This is how far the command has got.
    Finished(CommandExecution),
}

/// What a look at a pane means.
pub enum Verdict {
    /// The end marker is there: the output and the exit code.
    Ended(Seq<char>, i32),
    /// The start marker is there without an end marker: the command still runs.
    Running,
    /// Neither marker is there, and so many lines may show more.
    Widen(u32),
    /// Neither marker is there however many lines are shown, but it is too early to give up.
    Waiting,
    /// Neither marker is there, and it is time to give up.
    Lost,
}

/// What a look at a pane means. The end marker decides wherever it is seen.
pub open spec fn verdict(
    e: types::ExecutionView,
    tracking: TrackingConfig,
    lines: u32,
    captured: Seq<char>,
    now: u128,
) -> Verdict {
    match markers::command_output(captured, e.id) {
        Some(found) => Verdict::Ended(found.0, found.1),
        None => if text::occurs_in(captured, markers::start_marker(e.id)) {
            Verdict::Running
        } else if widened(tracking, lines) > lines {
            Verdict::Widen(widened(tracking, lines) as u32)
        } else if retention::elapsed(now, e.started_at) <= retention::seconds(
            tracking.tracking_deadline_seconds as int,
        ) {
            Verdict::Waiting
        } else {
            Verdict::Lost
        },
    }
}

/// A command that has ended.
pub open spec fn ended(e: types::ExecutionView, output: Seq<char>, code: i32, now: u128) ->
    types::ExecutionView {
    types::ExecutionView {
        exit_code: Some(code),
        output: Some(output),
        completed_at: Some(now),
        status: if code == 0 {
            CommandStatus::Completed
        } else {
            CommandStatus::Error
        },
        ..e
    }
}

/// A command that was lost track of.
pub open spec fn lost(e: types::ExecutionView, now: u128) -> types::ExecutionView {
    types::ExecutionView {
        status: CommandStatus::Error,
        output: Some("tracking expired; markers not found in pane history"@),
        completed_at: Some(now),
        ..e
    }
}

/// The socket of the server on which the pane of a command is: the one that was recorded with
/// it, or else an override.
pub open spec fn watch_socket(e: types::ExecutionView, socket_override: Option<Seq<char>>) ->
    Option<Seq<char>> {
    match e.socket {
        Some(socket) => Some(socket),
        None => socket_override,
    }
}

impl Watch {
    /// The socket of the server on which to look.
    pub fn socket<'a>(&'a self, socket_override: Option<&'a str>) -> (r: Option<&'a str>)
        ensures
            text::opt_str(r) == watch_socket(self.execution@, text::opt_str(socket_override)),
    {
        match &self.execution.socket {
            Some(socket) => Some(socket.as_str()),
            None => socket_override,
        }
    }
}

impl CommandTracker {
    /// Begins to ask how far the command with an id has got.
    pub fn begin_check(&mut self, command_id: &str, now: u128) -> (r: CheckStart)
        requires
            retention::config_valid(old(self)@.tracking),
        ensures
            final(self)@ == tracker::tidied(old(self)@, now),
            tracker::ids_unique(final(self)@.commands),
            match tracker::command_with(final(self)@.commands, command_id@) {
                None => r is Unknown,
                Some(e) => if settled(e) {
                    r is Settled && r->Settled_0@ == e
                } else {
                    &&& r is Watching
                    &&& r->Watching_0.execution@ == e
                    &&& r->Watching_0.capture_lines == first_lines(old(self)@.tracking)
                },
            },
    {
        self.cleanup_completed(now);
        match self.get_command(command_id) {
            Some(execution) => {
                let pending = match execution.status {
                    CommandStatus::Pending => true,
                    _ => false,
                };
                if !pending || execution.raw_mode || execution.tracking_disabled {
                    return CheckStart::Settled(execution);
                }
                let tracking = self.tracking();
                let capture_lines = if tracking.capture_initial_lines > 1 {
                    tracking.capture_initial_lines
                } else {
                    1
                };
                CheckStart::Watching(Watch { execution, capture_lines })
            },
            None => CheckStart::Unknown,
        }
    }

    /// Decides what the captured lines of a pane mean. A command that has ended, or was lost
    /// track of, goes on record as such.
    pub fn continue_check(&mut self, watch: Watch, captured: &str, now: u128) -> (r: CheckStep)
        requires
            retention::config_valid(old(self)@.tracking),
        ensures
            tracker::ids_unique(final(self)@.commands),
            match verdict(
                watch.execution@,
                old(self)@.tracking,
                watch.capture_lines,
                captured@,
                now,
            ) {
                Verdict::Ended(output, code) => {
                    let e = ended(watch.execution@, output, code, now);
                    &&& r is Finished
                    &&& r->Finished_0@ == e
                    &&& final(self)@ == tracker::tidied(tracker::with_command(old(self)@, e), now)
                },
                Verdict::Running | Verdict::Waiting => {
                    &&& r is Finished
                    &&& r->Finished_0@ == watch.execution@
                    &&& final(self)@ == tracker::tidied(old(self)@, now)
                },
                Verdict::Widen(lines) => {
                    &&& r is Again
                    &&& r->Again_0.execution@ == watch.execution@
                    &&& r->Again_0.capture_lines == lines
                    &&& final(self)@ == old(self)@
                },
                Verdict::Lost => {
                    let e = lost(watch.execution@, now);
                    &&& r is Finished
                    &&& r->Finished_0@ == e
                    &&& final(self)@ == tracker::tidied(tracker::with_command(old(self)@, e), now)
                },
            },
            match markers::command_output(captured@, watch.execution@.id) {
                Some(found) => {
                    &&& r is Finished
                    &&& text::opt_text(r->Finished_0.output) == Some(found.0)
                    &&& r->Finished_0.exit_code == Some(found.1)
                    &&& r->Finished_0.status is Completed <==> found.1 == 0
                    &&& r->Finished_0.id@ == watch.execution.id@
                    &&& r->Finished_0.pane_id@ == watch.execution.pane_id@
                },
                None => true,
            },
    {
        proof {
            use_type_invariant(&*self);
        }
        let mut execution = watch.execution;
        if let Some((output, exit_code)) = markers::parse_command_output(
            captured,
            execution.id.as_str(),
        ) {
            execution.exit_code = Some(exit_code);
            execution.output = Some(output);
            execution.completed_at = Some(now);
            execution.status = if exit_code == 0 {
                CommandStatus::Completed
            } else {
                CommandStatus::Error
            };
            self.record(execution.clone());
            self.cleanup_completed(now);
            return CheckStep::Finished(execution);
        }
        let start = markers::get_start_marker(execution.id.as_str());
        if text::contains(captured, start.as_str()) {
            self.cleanup_completed(now);
            return CheckStep::Finished(execution);
        }
        let tracking = self.tracking();
        let wider = widen(&tracking, watch.capture_lines);
        if wider > watch.capture_lines {
            return CheckStep::Again(Watch { execution, capture_lines: wider });
        }
        let age = retention::time_since(now, execution.started_at);
        if age <= tracking.tracking_deadline_seconds as u128 * 1_000_000_000 {
            self.cleanup_completed(now);
            return CheckStep::Finished(execution);
        }
        execution.status = CommandStatus::Error;
        execution.output = Some("tracking expired; markers not found in pane history".to_owned());
        execution.completed_at = Some(now);
        self.record(execution.clone());
        self.cleanup_completed(now);
        CheckStep::Finished(execution)
    }
}

/// How many lines to capture after `lines` were not enough.
fn widen(tracking: &TrackingConfig, lines: u32) -> (r: u32)
    ensures
        r == widened(*tracking, lines),
{
    let first = if tracking.capture_initial_lines > 1 {
        tracking.capture_initial_lines
    } else {
        1
    };
    let most = if tracking.capture_max_lines > first {
        tracking.capture_max_lines
    } else {
        first
    };
    let factor = if tracking.capture_backoff_factor > 1 {
        tracking.capture_backoff_factor
    } else {
        1
    };
    proof {
        assert(lines * factor <= u32::MAX * u32::MAX) by (nonlinear_arith)
            requires
                lines <= u32::MAX,
                factor <= u32::MAX,
        ;
        assert(0 <= lines * factor) by (nonlinear_arith);
    }
    let product = lines as u64 * factor as u64;
    if product > most as u64 {
        most
    } else {
        product as u32
    }
}

/// Law: the end marker decides, whatever else is shown, however many lines were captured, and
/// however old the command is.
pub proof fn law_end_marker_first(
    e: types::ExecutionView,
    tracking: TrackingConfig,
    lines: u32,
    captured: Seq<char>,
    now: u128,
)
    requires
        markers::command_output(captured, e.id) is Some,
    ensures
        verdict(e, tracking, lines, captured, now) is Ended,
{
}

/// Law: a command whose start marker is shown, without an end marker, stays pending, however
/// old it is.
pub proof fn law_running_stays_pending(
    e: types::ExecutionView,
    tracking: TrackingConfig,
    lines: u32,
    captured: Seq<char>,
    now: u128,
)
    requires
        markers::command_output(captured, e.id) is None,
        text::occurs_in(captured, markers::start_marker(e.id)),
    ensures
        verdict(e, tracking, lines, captured, now) is Running,
{
}

/// Law: no command is given up before the deadline has passed.
pub proof fn law_not_lost_early(
    e: types::ExecutionView,
    tracking: TrackingConfig,
    lines: u32,
    captured: Seq<char>,
    now: u128,
)
    requires
        retention::elapsed(now, e.started_at) <= retention::seconds(
            tracking.tracking_deadline_seconds as int,
        ),
    ensures
        !(verdict(e, tracking, lines, captured, now) is Lost),
{
}

/// Law: every further look captures more lines than the one before, and no more than the
/// largest number, so that the looks come to an end.
pub proof fn law_widening_ends(
    e: types::ExecutionView,
    tracking: TrackingConfig,
    lines: u32,
    captured: Seq<char>,
    now: u128,
)
    ensures
        match verdict(e, tracking, lines, captured, now) {
            Verdict::Widen(more) => lines < more <= most_lines(tracking),
            _ => true,
        },
{
}

/// Law: a command that has ended, or was lost, needs no further look. It is completed just
/// where its exit code is zero.
pub proof fn law_end_is_final(
    e: types::ExecutionView,
    output: Seq<char>,
    code: i32,
    now: u128,
)
    ensures
        settled(ended(e, output, code, now)),
        settled(lost(e, now)),
        ended(e, output, code, now).id == e.id,
        lost(e, now).id == e.id,
        (ended(e, output, code, now).status is Completed) == (code == 0),
{
}

/// Law: the socket that was recorded with a command goes before any override.
pub proof fn law_recorded_socket_first(
    e: types::ExecutionView,
    socket_override: Option<Seq<char>>,
)
    requires
        e.socket is Some,
    ensures
        watch_socket(e, socket_override) == e.socket,
{
}

} // verus!
