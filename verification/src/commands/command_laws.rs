//! What holds of tracked commands as a whole: what is typed, what is put on record, how the end
//! of a command is read, and how long it is remembered.

use vstd::prelude::*;
use vstd::string::*;

use crate::commands::markers;
use crate::commands::retention;
use crate::commands::retention::TrackingConfig;
use crate::commands::status;
use crate::commands::tracker;
use crate::numbers;
use crate::outside;
use crate::sequences;
use crate::text;
use crate::types;
use crate::types::{CommandStatus, ShellType};

verus! {

/// Law: the record of a command that was sent names the pane, the command and the socket that
/// were given, under the id and with the time of the sending. It is pending, and it is tracked
/// unless it was sent raw or without Enter.
pub proof fn law_sending_is_on_record(
    t: tracker::TrackerView,
    order: tracker::Order,
    id: Seq<char>,
    now: u128,
)
    requires
        tracker::ids_unique(t.commands),
        t.tracking.tracking_deadline_seconds > 0 || t.tracking.completed_retention_minutes > 0,
    ensures
        exists|i: int|
            0 <= i < tracker::launched(t, order, id, now).commands.len() && {
                let e = #[trigger] tracker::launched(t, order, id, now).commands[i];
                &&& e.id == id
                &&& e.pane_id == order.pane_id
                &&& e.command == order.command
                &&& e.socket == order.socket
                &&& e.started_at == now
                &&& e.status is Pending
                &&& e.exit_code is None
                &&& e.completed_at is None
                &&& e.raw_mode == order.raw_mode
                &&& e.tracking_disabled == (order.raw_mode || order.no_enter)
                &&& e.output is Some == (order.raw_mode || order.no_enter)
            },
        forall|i: int|
            0 <= i < tracker::launched(t, order, id, now).commands.len() && (
            #[trigger] tracker::launched(t, order, id, now).commands[i]).id == id
                ==> tracker::launched(t, order, id, now).commands[i].pane_id == order.pane_id
                && tracker::launched(t, order, id, now).commands[i].command == order.command
                && tracker::launched(t, order, id, now).commands[i].socket == order.socket,
        tracker::launched(t, order, id, now).shell == t.shell,
        tracker::launched(t, order, id, now).tracking == t.tracking,
{
    let after = tracker::launched(t, order, id, now);
    let e = tracker::started(order, id, now);
    tracker::law_sent_is_known(t, order, id, now);
    tracker::law_recorded(t.commands, e);
    tracker::law_remembered_unique(tracker::recorded(t.commands, e), t.tracking, now);
    tracker::lemma_place_of(after.commands, id);
    let k = tracker::place_of(after.commands, id)->0;
    assert(after.commands[k] == e);
    assert forall|i: int| 0 <= i < after.commands.len() && (#[trigger] after.commands[i]).id
        == id implies after.commands[i] == e by {
        if i < k {
            assert(after.commands[i].id != after.commands[k].id);
        } else if k < i {
            assert(after.commands[k].id != after.commands[i].id);
        }
    }
}

/// Law: looking an id up finds a command exactly where one with the id is on record, and gives
/// one with that id.
pub proof fn law_lookup(store: Seq<types::ExecutionView>, id: Seq<char>)
    ensures
        match tracker::command_with(store, id) {
            Some(e) => store.contains(e) && e.id == id,
            None => forall|i: int| 0 <= i < store.len() ==> (#[trigger] store[i]).id != id,
        },
{
    tracker::lemma_place_of(store, id);
}

/// Law: what is typed for a tracked command has the shell print the start marker, run the
/// command, and print the end marker with the exit code. What is typed for another one is the
/// command alone.
pub proof fn law_typed(order: tracker::Order, id: Seq<char>, shell: ShellType)
    ensures
        order.raw_mode || order.no_enter ==> tracker::typed_for(order, id, shell) == order.command,
        !order.raw_mode && !order.no_enter ==> tracker::typed_for(order, id, shell)
            == "echo \""@ + "TMUX_MCP_START_"@ + id + "\"; "@ + order.command + "; echo \""@
            + "TMUX_MCP_DONE_"@ + id + "_"@ + (if shell is Fish {
            "$status"@
        } else {
            "$?"@
        }) + "\""@,
{
    let code = if shell is Fish {
        "$status"@
    } else {
        "$?"@
    };
    assert("echo \""@ + "TMUX_MCP_START_"@ + id + "\"; "@ + order.command + "; echo \""@
        + "TMUX_MCP_DONE_"@ + id + "_"@ + code + "\""@ =~= tracker::wrapped(
        order.command,
        id,
        shell,
    ));
}

/// Law: what is typed is sent unchanged. Without a delay it goes at once, as keys; with one it
/// goes character by character, each literally and with the pause after it. Enter follows unless
/// it is to be left out, and nothing else is sent.
pub proof fn law_strokes(typed: Seq<char>, no_enter: bool, delay_ms: Option<u64>)
    ensures
        ({
            let sent = tracker::strokes(typed, no_enter, delay_ms);
            let count = match delay_ms {
                Some(_) => typed.len(),
                None => 1,
            };
            &&& sent.len() == count + if no_enter {
                0nat
            } else {
                1nat
            }
            &&& delay_ms is None ==> sent[0].keys == typed && !sent[0].literal && sent[0].pause_ms
                is None
            &&& delay_ms is Some ==> forall|i: int|
                0 <= i < typed.len() ==> {
                    &&& (#[trigger] sent[i]).keys == seq![typed[i]]
                    &&& sent[i].literal
                    &&& sent[i].pause_ms == delay_ms
                }
            &&& !no_enter ==> sent.last().keys == "Enter"@ && !sent.last().literal
                && sent.last().pause_ms is None
        }),
{
}

/// Law: how many lines of a pane are looked at. At first it is the configured number, but at
/// least one; each time it is not enough, it grows by the configured factor, but never beyond the
/// configured limit, nor below what it was at first.
pub proof fn law_lines(tracking: TrackingConfig, lines: u32)
    ensures
        ({
            let first = if tracking.capture_initial_lines == 0 {
                1
            } else {
                tracking.capture_initial_lines as int
            };
            let most = if tracking.capture_max_lines < first {
                first
            } else {
                tracking.capture_max_lines as int
            };
            let grown = if tracking.capture_backoff_factor == 0 {
                lines as int
            } else {
                lines * tracking.capture_backoff_factor
            };
            &&& status::first_lines(tracking) == first
            &&& status::widened(tracking, lines) <= most
            &&& grown <= most ==> status::widened(tracking, lines) == grown
            &&& grown > most ==> status::widened(tracking, lines) == most
        }),
{
    assert(lines * 1 == lines);
}

/// Law: what a look at a pane means, where no end marker with an exit code is to be seen. With
/// the start marker there, the command runs. Otherwise more lines are looked at as long as there
/// can be more, and then the command is waited for until its age is beyond the deadline, and
/// given up after that.
pub proof fn law_without_end_marker(
    e: types::ExecutionView,
    tracking: TrackingConfig,
    lines: u32,
    captured: Seq<char>,
    now: u128,
)
    requires
        markers::command_output(captured, e.id) is None,
    ensures
        ({
            let seen = exists|at: int| #[trigger]
                text::occurs_at(captured, "TMUX_MCP_START_"@ + e.id, at);
            let verdict = status::verdict(e, tracking, lines, captured, now);
            let more = status::widened(tracking, lines);
            let late = now > e.started_at && now - e.started_at
                > tracking.tracking_deadline_seconds * 1_000_000_000;
            &&& verdict is Running <==> seen
            &&& verdict is Widen <==> !seen && more > lines
            &&& verdict is Widen ==> verdict == status::Verdict::Widen(more as u32)
            &&& verdict is Waiting <==> !seen && more <= lines && !late
            &&& verdict is Lost <==> !seen && more <= lines && late
            &&& !(verdict is Ended)
        }),
{
    if exists|at: int| #[trigger] text::occurs_at(captured, "TMUX_MCP_START_"@ + e.id, at) {
        let at = choose|at: int| #[trigger]
            text::occurs_at(captured, "TMUX_MCP_START_"@ + e.id, at);
        assert(text::occurs_at(captured, markers::start_marker(e.id), at));
        assert(text::occurs_in(captured, markers::start_marker(e.id)));
    } else if text::occurs_in(captured, markers::start_marker(e.id)) {
        let at = choose|at: int| #[trigger]
            text::occurs_at(captured, markers::start_marker(e.id), at);
        assert(text::occurs_at(captured, "TMUX_MCP_START_"@ + e.id, at));
    }
}

/// What follows a mark that does not stand again later.
proof fn lemma_after_last(s: Seq<char>, mark: Seq<char>, at: int, from: int)
    requires
        text::occurs_at(s, mark, at),
        forall|i: int| i > at ==> !text::occurs_at(s, mark, i),
        at <= from,
    ensures
        text::after_last_before(s, mark, from) == s.skip(at + mark.len()),
    decreases from - at,
{
    if from > at {
        assert(!text::occurs_at(s, mark, from));
        lemma_after_last(s, mark, at, from - 1);
    }
}

/// Law: the result of a command is what its pane shows. Where that is the start marker, some
/// output, and the end marker with a number, and neither marker stands again after that, the
/// command has ended: the exit code that is reported, and that goes on record, is that number,
/// whatever it is, and the output is what stands between the markers, without white space at its
/// ends. The command has completed where the number is zero, and failed otherwise. Nothing else
/// of its record changes.
pub proof fn law_result_is_what_is_shown(
    e: types::ExecutionView,
    tracking: TrackingConfig,
    lines: u32,
    head: Seq<char>,
    body: Seq<char>,
    code: nat,
    rest: Seq<char>,
    now: u128,
)
    requires
        outside::regex_error(markers::end_pattern(e.id)) is None,
        !e.id.contains('T'),
        code <= i32::MAX,
        rest.len() == 0 || !outside::pattern_digit(rest[0]),
        forall|i: int|
            i > head.len() ==> !text::occurs_at(
                head + ("TMUX_MCP_START_"@ + e.id) + (body + ("TMUX_MCP_DONE_"@ + e.id + "_"@)
                    + numbers::decimal_text(code) + rest),
                "TMUX_MCP_START_"@ + e.id,
                i,
            ),
        forall|i: int|
            i > body.len() ==> !outside::numbered_at(
                body + ("TMUX_MCP_DONE_"@ + e.id + "_"@) + numbers::decimal_text(code) + rest,
                "TMUX_MCP_DONE_"@ + e.id + "_"@,
                i,
            ),
    ensures
        ({
            let shown = head + ("TMUX_MCP_START_"@ + e.id) + (body + ("TMUX_MCP_DONE_"@ + e.id
                + "_"@) + numbers::decimal_text(code) + rest);
            let verdict = status::verdict(e, tracking, lines, shown, now);
            let result = status::ended(e, verdict->Ended_0, verdict->Ended_1, now);
            &&& verdict is Ended
            &&& result.exit_code == Some(code as i32)
            &&& result.output == Some(text::trimmed(body))
            &&& result.status == if code == 0 {
                CommandStatus::Completed
            } else {
                CommandStatus::Error
            }
            &&& result.completed_at == Some(now)
            &&& result.id == e.id
            &&& result.pane_id == e.pane_id
            &&& result.socket == e.socket
            &&& result.command == e.command
            &&& result.started_at == e.started_at
            &&& result.raw_mode == e.raw_mode
            &&& result.tracking_disabled == e.tracking_disabled
        }),
{
    let start = markers::start_marker(e.id);
    let mark = markers::end_prefix(e.id);
    let tail = body + mark + numbers::decimal_text(code) + rest;
    let shown = head + start + tail;
    let at = head.len() as int;
    assert(shown.subrange(at, at + start.len()) =~= start);
    assert(text::occurs_at(shown, start, at));
    lemma_after_last(shown, start, at, shown.len() - start.len());
    assert(shown.skip(at + start.len()) =~= tail);
    markers::law_end_marker_decides(shown, e.id, body, code, rest);
}

/// Law: a result that goes on record is found there under the id of the command, with the exit
/// code, the output and the status that were reported, as long as results are remembered at all
/// and no other is as late.
pub proof fn law_result_is_on_record(
    t: tracker::TrackerView,
    e: types::ExecutionView,
    output: Seq<char>,
    code: i32,
    now: u128,
)
    requires
        tracker::ids_unique(t.commands),
        t.tracking.completed_retention_minutes > 0,
        t.tracking.completed_max_entries > 0,
        forall|i: int|
            0 <= i < t.commands.len() && !((#[trigger] t.commands[i]).status is Pending)
                && t.commands[i].completed_at is Some ==> t.commands[i].completed_at->0 < now,
    ensures
        ({
            let after = tracker::tidied(
                tracker::with_command(t, status::ended(e, output, code, now)),
                now,
            );
            let found = tracker::command_with(after.commands, e.id);
            &&& found is Some
            &&& found->0.exit_code == Some(code)
            &&& found->0.output == Some(output)
            &&& found->0.status is Completed <==> code == 0
            &&& found->0.status is Error <==> code != 0
            &&& found->0.pane_id == e.pane_id
            &&& found->0.command == e.command
        }),
{
    tracker::law_ended_is_known(t, status::ended(e, output, code, now), now);
}

/// Law: a command that is given up has failed, without an exit code of its own, and says why.
/// Nothing else of its record changes.
pub proof fn law_lost(e: types::ExecutionView, now: u128)
    ensures
        ({
            let result = status::lost(e, now);
            &&& result.status is Error
            &&& result.exit_code == e.exit_code
            &&& result.output == Some("tracking expired; markers not found in pane history"@)
            &&& result.completed_at == Some(now)
            &&& result.id == e.id
            &&& result.pane_id == e.pane_id
            &&& result.socket == e.socket
            &&& result.command == e.command
            &&& result.started_at == e.started_at
            &&& result.raw_mode == e.raw_mode
            &&& result.tracking_disabled == e.tracking_disabled
        }),
{
}

/// Law: the pane of a command is looked at exactly where the command is pending and tracked.
pub proof fn law_settled(e: types::ExecutionView)
    ensures
        status::settled(e) <==> e.status is Completed || e.status is Error || e.raw_mode
            || e.tracking_disabled,
        forall|given: Option<Seq<char>>| #[trigger]
            status::watch_socket(e, given) == if e.socket is Some {
                e.socket
            } else {
                given
            },
{
}

/// Law: the first end marker in a line that has a number gives the exit code.
pub proof fn law_code_in_line(command_id: Seq<char>, before: Seq<char>, code: nat, rest: Seq<char>)
    requires
        outside::regex_error(markers::end_pattern(command_id)) is None,
        code <= i32::MAX,
        rest.len() == 0 || !outside::pattern_digit(rest[0]),
        forall|i: int|
            0 <= i < before.len() ==> !outside::numbered_at(
                before + ("TMUX_MCP_DONE_"@ + command_id + "_"@) + numbers::decimal_text(code)
                    + rest,
                "TMUX_MCP_DONE_"@ + command_id + "_"@,
                i,
            ),
    ensures
        markers::exit_code_in(
            before + ("TMUX_MCP_DONE_"@ + command_id + "_"@) + numbers::decimal_text(code) + rest,
            command_id,
        ) == Some(code as i32),
{
    let mark = markers::end_prefix(command_id);
    let digits = numbers::decimal_text(code);
    let line = before + mark + digits + rest;
    let at = before.len() as int;
    numbers::lemma_decimal_text(code);
    assert(line.subrange(at, at + mark.len()) =~= mark);
    assert(line.subrange(at + mark.len(), at + mark.len() + digits.len()) =~= digits);
    if rest.len() > 0 {
        assert(line[at + mark.len() + digits.len()] == rest[0]);
    }
    markers::lemma_decimal_run(line, at + mark.len(), code);
    outside::lemma_first_mark(line, mark, 0, at);
    assert(outside::number_after(line, mark, at) =~= digits);
    numbers::law_decimal_round_trip(code, i32::MAX as nat);
}

/// Law: a line without an end marker that has a number gives no exit code, and neither does what
/// a pane shows.
pub proof fn law_no_code(command_id: Seq<char>, line: Seq<char>)
    requires
        forall|i: int|
            !outside::numbered_at(line, "TMUX_MCP_DONE_"@ + command_id + "_"@, i),
    ensures
        markers::exit_code_in(line, command_id) is None,
        forall|captured: Seq<char>|
            text::after_last(captured, "TMUX_MCP_START_"@ + command_id) == line
                ==> #[trigger] markers::command_output(captured, command_id) is None,
{
    outside::lemma_first_numbered(line, markers::end_prefix(command_id), 0);
}

/// Law: a pending command is remembered as long as its age is below the deadline and the
/// retention together, and no longer.
pub proof fn law_pending_age(
    store: Seq<types::ExecutionView>,
    tracking: TrackingConfig,
    now: u128,
    e: types::ExecutionView,
)
    requires
        store.contains(e),
        e.status is Pending,
        tracking.tracking_deadline_seconds + tracking.completed_retention_minutes * 60 <= u64::MAX,
    ensures
        retention::remembered(store, tracking, now).contains(e) <==> (if now >= e.started_at {
            now - e.started_at
        } else {
            0
        }) < (tracking.tracking_deadline_seconds + tracking.completed_retention_minutes * 60)
            * 1_000_000_000,
{
    retention::law_pending_kept(store, tracking, now, e);
}

/// Law: a command that has ended is not remembered once its end is as long ago as the retention.
/// Until then it is, unless there are more than may be remembered. One whose end has no time is
/// always remembered.
pub proof fn law_ended_age(
    store: Seq<types::ExecutionView>,
    tracking: TrackingConfig,
    now: u128,
    e: types::ExecutionView,
)
    requires
        store.contains(e),
        !(e.status is Pending),
        tracking.completed_retention_minutes * 60 <= u64::MAX,
    ensures
        e.completed_at is None ==> retention::remembered(store, tracking, now).contains(e),
        e.completed_at is Some ==> {
            let age = if now >= e.completed_at->0 {
                now - e.completed_at->0
            } else {
                0
            };
            let kept = retention::remembered(store, tracking, now);
            let limit = tracking.completed_retention_minutes * 60 * 1_000_000_000;
            &&& age >= limit ==> !kept.contains(e)
            &&& age < limit && store.len() <= tracking.completed_max_entries ==> kept.contains(e)
        },
{
    let kept = retention::remembered(store, tracking, now);
    retention::lemma_remembered_members(store, tracking, now);
    if e.completed_at is Some && kept.contains(e) {
        retention::law_only_known(store, tracking, now, e);
    }
    retention::lemma_few_kept(store, tracking, now);
}

/// Whether a command has ended at a known time.
pub open spec fn has_ended(e: types::ExecutionView) -> bool {
    !(e.status is Pending) && e.completed_at is Some
}

/// Law: of the commands that have ended no more than the configured number are remembered. Where
/// one that is not too old is forgotten, just that number is left, and each of them ended at the
/// same time or later.
pub proof fn law_newest_kept(
    store: Seq<types::ExecutionView>,
    tracking: TrackingConfig,
    now: u128,
    e: types::ExecutionView,
)
    requires
        store.contains(e),
        tracking.completed_retention_minutes * 60 <= u64::MAX,
    ensures
        ({
            let kept = retention::remembered(store, tracking, now);
            let ends = kept.filter(|x: types::ExecutionView| has_ended(x));
            &&& ends.len() <= tracking.completed_max_entries
            &&& has_ended(e) && !kept.contains(e) && (now < e.completed_at->0 || now
                - e.completed_at->0 < tracking.completed_retention_minutes * 60 * 1_000_000_000)
                && tracking.completed_retention_minutes > 0 ==> {
                &&& ends.len() == tracking.completed_max_entries
                &&& forall|i: int|
                    0 <= i < ends.len() ==> (#[trigger] ends[i]).completed_at->0
                        >= e.completed_at->0
            }
        }),
{
    let kept = retention::remembered(store, tracking, now);
    let test = |x: types::ExecutionView| has_ended(x);
    let ends = kept.filter(test);
    retention::law_limit(store, tracking, now);
    lemma_count(kept);
    retention::lemma_full_where_forgotten(store, tracking, now);
    if has_ended(e) && !kept.contains(e) && (now < e.completed_at->0 || now - e.completed_at->0
        < tracking.completed_retention_minutes * 60 * 1_000_000_000)
        && tracking.completed_retention_minutes > 0 {
        assert(retention::fresh(e, tracking, now));
        sequences::lemma_filter_members(kept, test);
        assert forall|i: int| 0 <= i < ends.len() implies (#[trigger] ends[i]).completed_at->0
            >= e.completed_at->0 by {
            assert(ends.contains(ends[i]));
            retention::law_oldest_first(store, tracking, now, e, ends[i]);
        }
    }
}

/// Counting those that have ended is picking them out.
proof fn lemma_count(store: Seq<types::ExecutionView>)
    ensures
        retention::done_count(store) == store.filter(
            |x: types::ExecutionView| has_ended(x),
        ).len(),
    decreases store.len(),
{
    reveal(Seq::filter);
    if store.len() > 0 {
        lemma_count(store.drop_last());
    }
}

/// Law: which configurations can be used: those whose deadline and retention together are in reach of
/// a number of seconds in 64 bits, where a retention that is not in reach itself counts as the
/// longest that is.
pub proof fn law_usable(tracking: TrackingConfig)
    ensures
        tracking.completed_retention_minutes * 60 <= u64::MAX ==> (retention::config_valid(tracking)
            <==> tracking.tracking_deadline_seconds + tracking.completed_retention_minutes * 60
            <= u64::MAX),
        tracking.completed_retention_minutes * 60 > u64::MAX ==> (retention::config_valid(tracking)
            <==> tracking.tracking_deadline_seconds == 0),
{
}

} // verus!
