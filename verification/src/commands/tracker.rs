//! Keeping track of the commands that were sent to panes.

use vstd::prelude::*;
use vstd::string::*;

use crate::commands::markers;
use crate::commands::retention;
use crate::commands::retention::TrackingConfig;
use crate::outside;
use crate::sequences;
use crate::text;
use crate::tmux::invoke;
use crate::types;
use crate::types::{CommandExecution, CommandStatus, ShellType};

verus! {

/// Tracks active and recently completed commands across tmux panes.
#[derive(Debug)]
pub struct CommandTracker {
    commands: Vec<CommandExecution>,
    shell_type: ShellType,
    tracking: TrackingConfig,
}

/// The commands that are remembered, for which shell they are written, and the configuration.
#[verifier::ext_equal]
pub struct TrackerView {
    pub commands: Seq<types::ExecutionView>,
    pub shell: ShellType,
    pub tracking: TrackingConfig,
}

impl View for CommandTracker {
    type V = TrackerView;

    closed spec fn view(&self) -> TrackerView {
        TrackerView {
            commands: types::views(self.commands@),
            shell: self.shell_type,
            tracking: self.tracking,
        }
    }
}

/// Whether no id occurs twice.
pub open spec fn ids_unique(store: Seq<types::ExecutionView>) -> bool {
    forall|i: int, j: int|
        0 <= i < j < store.len() ==> (#[trigger] store[i]).id != (#[trigger] store[j]).id
}

impl CommandTracker {
    /// No two commands on record have the same id.
    #[verifier::type_invariant]
    pub open spec fn well_formed(self) -> bool {
        ids_unique(self@.commands)
    }
}

/// The place of the command with an id.
pub open spec fn place_of(store: Seq<types::ExecutionView>, id: Seq<char>) -> Option<int>
    decreases store.len(),
{
    if store.len() == 0 {
        None
    } else {
        match place_of(store.drop_last(), id) {
            Some(i) => Some(i),
            None => if store.last().id == id {
                Some(store.len() - 1)
            } else {
                None
            },
        }
    }
}

/// The command with an id.
pub open spec fn command_with(store: Seq<types::ExecutionView>, id: Seq<char>) -> Option<
    types::ExecutionView,
> {
    match place_of(store, id) {
        Some(i) => Some(store[i]),
        None => None,
    }
}

/// `store` with a command in place of the one with its id, or at the end.
pub open spec fn recorded(store: Seq<types::ExecutionView>, e: types::ExecutionView) -> Seq<
    types::ExecutionView,
> {
    match place_of(store, e.id) {
        Some(i) => store.update(i, e),
        None => store.push(e),
    }
}

/// The place of an id is the first one that holds it.
pub proof fn lemma_place_of(store: Seq<types::ExecutionView>, id: Seq<char>)
    ensures
        match place_of(store, id) {
            Some(i) => {
                &&& 0 <= i < store.len()
                &&& store[i].id == id
                &&& forall|j: int| 0 <= j < i ==> (#[trigger] store[j]).id != id
            },
            None => forall|j: int| 0 <= j < store.len() ==> (#[trigger] store[j]).id != id,
        },
    decreases store.len(),
{
    if store.len() > 0 {
        let init = store.drop_last();
        lemma_place_of(init, id);
        assert forall|j: int| 0 <= j < init.len() implies init[j] == #[trigger] store[j] by {}
    }
}

/// Law: recording a command keeps ids unique, gives the command under its id, and leaves every
/// other command as it was.
pub proof fn law_recorded(store: Seq<types::ExecutionView>, e: types::ExecutionView)
    requires
        ids_unique(store),
    ensures
        ids_unique(recorded(store, e)),
        command_with(recorded(store, e), e.id) == Some(e),
        forall|id: Seq<char>|
            id != e.id ==> #[trigger] command_with(recorded(store, e), id) == command_with(
                store,
                id,
            ),
{
    let after = recorded(store, e);
    lemma_place_of(store, e.id);
    assert forall|i: int, j: int| 0 <= i < j < after.len() implies (#[trigger] after[i]).id != (
    #[trigger] after[j]).id by {
        match place_of(store, e.id) {
            Some(k) => {
                assert(after[i].id == store[i].id);
                assert(after[j].id == store[j].id);
            },
            None => {
                assert(after[i] == store[i]);
                if j < store.len() {
                    assert(after[j] == store[j]);
                }
            },
        }
    }
    lemma_place_of(after, e.id);
    let k = match place_of(store, e.id) {
        Some(k) => k,
        None => store.len() as int,
    };
    assert(after[k] == e);
    assert(place_of(after, e.id) == Some(k)) by {
        match place_of(after, e.id) {
            Some(m) => {
                if m < k {
                    assert(after[m].id != after[k].id);
                }
            },
            None => {},
        }
    }
    assert forall|id: Seq<char>| id != e.id implies #[trigger] command_with(after, id)
        == command_with(store, id) by {
        lemma_place_of(after, id);
        lemma_place_of(store, id);
        if let Some(i) = place_of(store, id) {
            assert(after[i] == store[i]);
        }
        if let Some(i) = place_of(after, id) {
            assert(after[i] == store[i]);
        }
        match (place_of(store, id), place_of(after, id)) {
            (Some(i), Some(j)) => {
                if i < j {
                    assert(after[i].id != after[j].id);
                } else if j < i {
                    assert(store[j].id != store[i].id);
                }
            },
            _ => {},
        }
    }
}

/// Taking commands away keeps ids unique.
proof fn lemma_unique_remove(store: Seq<types::ExecutionView>, i: int)
    requires
        ids_unique(store),
        0 <= i < store.len(),
    ensures
        ids_unique(store.remove(i)),
{
    let rest = store.remove(i);
    assert forall|a: int, b: int| 0 <= a < b < rest.len() implies (#[trigger] rest[a]).id != (
    #[trigger] rest[b]).id by {
        let x = if a < i {
            a
        } else {
            a + 1
        };
        let y = if b < i {
            b
        } else {
            b + 1
        };
        assert(rest[a] == store[x] && rest[b] == store[y]);
    }
}

proof fn lemma_unique_newest(store: Seq<types::ExecutionView>, max: int)
    requires
        ids_unique(store),
    ensures
        ids_unique(retention::newest(store, max)),
    decreases store.len(),
{
    if retention::done_count(store) > max {
        retention::lemma_oldest(store);
        if let Some(i) = retention::oldest(store) {
            lemma_unique_remove(store, i);
            lemma_unique_newest(store.remove(i), max);
        }
    }
}

proof fn lemma_unique_filter(
    store: Seq<types::ExecutionView>,
    keep: spec_fn(types::ExecutionView) -> bool,
)
    requires
        ids_unique(store),
    ensures
        ids_unique(store.filter(keep)),
    decreases store.len(),
{
    reveal(Seq::filter);
    if store.len() > 0 {
        let init = store.drop_last();
        assert forall|i: int, j: int| 0 <= i < j < init.len() implies (#[trigger] init[i]).id != (
        #[trigger] init[j]).id by {
            assert(init[i] == store[i] && init[j] == store[j]);
        }
        lemma_unique_filter(init, keep);
        sequences::lemma_filter_members(init, keep);
        let before = init.filter(keep);
        let after = store.filter(keep);
        assert forall|i: int, j: int| 0 <= i < j < after.len() implies (#[trigger] after[i]).id
            != (#[trigger] after[j]).id by {
            assert(after[i] == before[i]);
            if j < before.len() {
                assert(after[j] == before[j]);
            } else {
                assert(before.contains(before[i]));
                let k = choose|k: int| 0 <= k < init.len() && init[k] == before[i];
                assert(store[k].id != store[store.len() - 1].id);
            }
        }
    }
}

/// Law: forgetting commands keeps ids unique.
pub proof fn law_remembered_unique(
    store: Seq<types::ExecutionView>,
    tracking: TrackingConfig,
    now: u128,
)
    requires
        ids_unique(store),
    ensures
        ids_unique(retention::remembered(store, tracking, now)),
{
    lemma_unique_filter(store, |e: types::ExecutionView| retention::fresh(e, tracking, now));
    lemma_unique_newest(
        retention::fresh_ones(store, tracking, now),
        tracking.completed_max_entries as int,
    );
}

/// Law: forgetting commands changes none of those that are kept.
pub proof fn law_kept_unchanged(
    store: Seq<types::ExecutionView>,
    tracking: TrackingConfig,
    now: u128,
    id: Seq<char>,
)
    requires
        ids_unique(store),
        command_with(retention::remembered(store, tracking, now), id) is Some,
    ensures
        command_with(retention::remembered(store, tracking, now), id) == command_with(store, id),
{
    let kept = retention::remembered(store, tracking, now);
    lemma_place_of(kept, id);
    lemma_place_of(store, id);
    let i = place_of(kept, id)->0;
    assert(kept.contains(kept[i]));
    retention::law_only_known(store, tracking, now, kept[i]);
    let j = choose|j: int| 0 <= j < store.len() && store[j] == kept[i];
    match place_of(store, id) {
        Some(k) => {
            if k < j {
                assert(store[k].id != store[j].id);
            } else if j < k {
                assert(store[j].id != store[k].id);
            }
        },
        None => {},
    }
}

/// What a list of unique ids holds is what it gives for the id.
proof fn lemma_command_with(store: Seq<types::ExecutionView>, e: types::ExecutionView)
    requires
        ids_unique(store),
    ensures
        store.contains(e) == (command_with(store, e.id) == Some(e)),
{
    lemma_place_of(store, e.id);
    if store.contains(e) {
        let j = choose|j: int| 0 <= j < store.len() && store[j] == e;
        match place_of(store, e.id) {
            Some(k) => {
                if k < j {
                    assert(store[k].id != store[j].id);
                } else if j < k {
                    assert(store[j].id != store[k].id);
                }
            },
            None => {},
        }
    }
    if command_with(store, e.id) == Some(e) {
        assert(store[place_of(store, e.id)->0] == e);
    }
}

/// Law: a command that was just sent is known under its id, unless the times of the
/// configuration are all zero.
pub proof fn law_sent_is_known(t: TrackerView, order: Order, id: Seq<char>, now: u128)
    requires
        ids_unique(t.commands),
        retention::abandon_seconds(t.tracking) > 0,
    ensures
        command_with(launched(t, order, id, now).commands, id) == Some(started(order, id, now)),
        launched(t, order, id, now).commands.contains(started(order, id, now)),
{
    let e = started(order, id, now);
    let store = recorded(t.commands, e);
    law_recorded(t.commands, e);
    lemma_command_with(store, e);
    retention::law_pending_kept(store, t.tracking, now, e);
    law_remembered_unique(store, t.tracking, now);
    lemma_command_with(retention::remembered(store, t.tracking, now), e);
}

/// Law: sending a command loses no other one: every pending command with another id that is not
/// too old by then stays on record as it was.
pub proof fn law_sent_keeps_pending(
    t: TrackerView,
    order: Order,
    id: Seq<char>,
    now: u128,
    e: types::ExecutionView,
)
    requires
        ids_unique(t.commands),
        command_with(t.commands, e.id) == Some(e),
        e.status is Pending,
        e.id != id,
        retention::elapsed(now, e.started_at) < retention::seconds(
            retention::abandon_seconds(t.tracking),
        ),
    ensures
        command_with(launched(t, order, id, now).commands, e.id) == Some(e),
        ids_unique(launched(t, order, id, now).commands),
{
    let store = recorded(t.commands, started(order, id, now));
    law_recorded(t.commands, started(order, id, now));
    lemma_command_with(store, e);
    retention::law_pending_kept(store, t.tracking, now, e);
    law_remembered_unique(store, t.tracking, now);
    lemma_command_with(retention::remembered(store, t.tracking, now), e);
}

/// A command that is sent: what is asked for, under which id, and when.
pub struct Sending {
    pub order: Order,
    pub id: Seq<char>,
    pub now: u128,
}

/// A tracker after commands were sent, one after the other.
pub open spec fn launched_all(t: TrackerView, sent: Seq<Sending>) -> TrackerView
    decreases sent.len(),
{
    if sent.len() == 0 {
        t
    } else {
        let last = sent.last();
        launched(launched_all(t, sent.drop_last()), last.order, last.id, last.now)
    }
}

/// Whether no command is too old to be remembered when another one is sent after it.
pub open spec fn sent_recently(sent: Seq<Sending>, tracking: TrackingConfig) -> bool {
    forall|i: int, j: int|
        0 <= i <= j < sent.len() ==> retention::elapsed(
            (#[trigger] sent[j]).now,
            (#[trigger] sent[i]).now,
        ) < retention::seconds(retention::abandon_seconds(tracking))
}

/// Law: commands that are sent one after the other, in whatever order, under ids of their own,
/// are all on record afterwards, each under its id as it was sent, as long as none of them is
/// too old by then: no one of them overwrites or loses another.
pub proof fn law_all_sent_are_known(t: TrackerView, sent: Seq<Sending>)
    requires
        ids_unique(t.commands),
        forall|i: int, j: int|
            0 <= i < j < sent.len() ==> (#[trigger] sent[i]).id != (#[trigger] sent[j]).id,
        sent_recently(sent, t.tracking),
    ensures
        ids_unique(launched_all(t, sent).commands),
        launched_all(t, sent).tracking == t.tracking,
        forall|i: int|
            0 <= i < sent.len() ==> command_with(
                launched_all(t, sent).commands,
                (#[trigger] sent[i]).id,
            ) == Some(started(sent[i].order, sent[i].id, sent[i].now)),
        forall|i: int|
            0 <= i < sent.len() ==> launched_all(t, sent).commands.map_values(
                |e: types::ExecutionView| e.id,
            ).contains((#[trigger] sent[i]).id),
    decreases sent.len(),
{
    if sent.len() > 0 {
        let init = sent.drop_last();
        let last = sent.last();
        assert forall|i: int| 0 <= i < init.len() implies init[i] == #[trigger] sent[i] by {}
        assert forall|i: int, j: int| 0 <= i < j < init.len() implies (#[trigger] init[i]).id != (
        #[trigger] init[j]).id by {
            assert(sent[i].id != sent[j].id);
        }
        assert(sent_recently(init, t.tracking)) by {
            assert forall|i: int, j: int| 0 <= i <= j < init.len() implies retention::elapsed(
                (#[trigger] init[j]).now,
                (#[trigger] init[i]).now,
            ) < retention::seconds(retention::abandon_seconds(t.tracking)) by {
                assert(sent[i] == init[i] && sent[j] == init[j]);
            }
        }
        law_all_sent_are_known(t, init);
        let before = launched_all(t, init);
        let after = launched_all(t, sent);
        assert(sent[sent.len() - 1] == last);
        assert(retention::elapsed(last.now, last.now) == 0);
        law_sent_is_known(before, last.order, last.id, last.now);
        law_recorded(before.commands, started(last.order, last.id, last.now));
        law_remembered_unique(
            recorded(before.commands, started(last.order, last.id, last.now)),
            before.tracking,
            last.now,
        );
        assert forall|i: int| 0 <= i < sent.len() implies command_with(
            after.commands,
            (#[trigger] sent[i]).id,
        ) == Some(started(sent[i].order, sent[i].id, sent[i].now)) by {
            if i < init.len() {
                let e = started(sent[i].order, sent[i].id, sent[i].now);
                assert(init[i] == sent[i]);
                assert(sent[i].id != sent[sent.len() - 1].id);
                law_sent_keeps_pending(before, last.order, last.id, last.now, e);
            }
        }
        let ids = after.commands.map_values(|e: types::ExecutionView| e.id);
        assert forall|i: int| 0 <= i < sent.len() implies ids.contains(
            (#[trigger] sent[i]).id,
        ) by {
            lemma_place_of(after.commands, sent[i].id);
            let k = place_of(after.commands, sent[i].id)->0;
            assert(command_with(after.commands, sent[i].id) is Some);
            assert(ids[k] == sent[i].id);
        }
    }
}

/// Law: a command that goes on record as having ended, after all others on record, is known
/// under its id as such, unless commands that have ended are not to be remembered.
pub proof fn law_ended_is_known(t: TrackerView, e: types::ExecutionView, now: u128)
    requires
        ids_unique(t.commands),
        retention::done(e),
        e.completed_at == Some(now),
        retention::retention_seconds(t.tracking) > 0,
        t.tracking.completed_max_entries > 0,
        forall|i: int|
            0 <= i < t.commands.len() && retention::done(#[trigger] t.commands[i])
                ==> t.commands[i].completed_at->0 < now,
    ensures
        command_with(tidied(with_command(t, e), now).commands, e.id) == Some(e),
{
    let store = recorded(t.commands, e);
    law_recorded(t.commands, e);
    lemma_command_with(store, e);
    assert forall|x: types::ExecutionView| #[trigger] store.contains(x) && x != e
        && retention::done(x) implies x.completed_at->0 < e.completed_at->0 by {
        let i = choose|i: int| 0 <= i < store.len() && store[i] == x;
        lemma_place_of(t.commands, e.id);
        assert(t.commands[i] == x);
    }
    retention::law_latest_kept(store, t.tracking, now, e);
    law_remembered_unique(store, t.tracking, now);
    lemma_command_with(retention::remembered(store, t.tracking, now), e);
}

/// What is typed for a tracked command: it stands between commands that print its markers.
pub open spec fn wrapped(command: Seq<char>, id: Seq<char>, shell: ShellType) -> Seq<char> {
    "echo \""@ + markers::start_marker(id) + "\"; "@ + command + "; echo \""@ + (
    markers::end_prefix(id) + markers::exit_code_variable(shell)) + "\""@
}

/// Keys to send, whether they are taken as they stand, and how long to wait after them.
#[derive(Debug, Clone, PartialEq, Eq)]
pub struct KeyStroke {
    pub keys: String,
    pub literal: bool,
    pub pause_ms: Option<u64>,
}

/// Keys to send, as characters.
#[verifier::ext_equal]
pub struct StrokeView {
    pub keys: Seq<char>,
    pub literal: bool,
    pub pause_ms: Option<u64>,
}

impl View for KeyStroke {
    type V = StrokeView;

    open spec fn view(&self) -> StrokeView {
        StrokeView { keys: self.keys@, literal: self.literal, pause_ms: self.pause_ms }
    }
}

/// How a text is typed: all at once, or, with a delay, one character after the other.
pub open spec fn typing(typed: Seq<char>, delay_ms: Option<u64>) -> Seq<StrokeView> {
    match delay_ms {
        Some(delay) => typed.map_values(
            |c: char| StrokeView { keys: seq![c], literal: true, pause_ms: Some(delay) },
        ),
        None => seq![StrokeView { keys: typed, literal: false, pause_ms: None }],
    }
}

/// The keys that run a command: what is typed, and then Enter unless that is to be left out.
pub open spec fn strokes(typed: Seq<char>, no_enter: bool, delay_ms: Option<u64>) -> Seq<
    StrokeView,
> {
    if no_enter {
        typing(typed, delay_ms)
    } else {
        typing(typed, delay_ms).push(
            StrokeView { keys: "Enter"@, literal: false, pause_ms: None },
        )
    }
}

/// What is asked for when a command is sent.
pub struct Order {
    pub pane_id: Seq<char>,
    pub command: Seq<char>,
    pub raw_mode: bool,
    pub no_enter: bool,
    pub socket: Option<Seq<char>>,
}

/// The record of a command that was just sent. One that is sent raw, or without Enter, is not
/// tracked.
pub open spec fn started(order: Order, id: Seq<char>, now: u128) -> types::ExecutionView {
    let untracked = order.raw_mode || order.no_enter;
    types::ExecutionView {
        id,
        pane_id: order.pane_id,
        socket: order.socket,
        command: order.command,
        status: CommandStatus::Pending,
        exit_code: None,
        output: if untracked {
            Some("Tracking disabled for raw_mode or no_enter commands"@)
        } else {
            None
        },
        started_at: now,
        completed_at: None,
        raw_mode: order.raw_mode,
        tracking_disabled: untracked,
    }
}

/// What is typed for a command.
pub open spec fn typed_for(order: Order, id: Seq<char>, shell: ShellType) -> Seq<char> {
    if order.raw_mode || order.no_enter {
        order.command
    } else {
        wrapped(order.command, id, shell)
    }
}

/// A tracker that forgets what is not to be remembered.
pub open spec fn tidied(t: TrackerView, now: u128) -> TrackerView {
    TrackerView { commands: retention::remembered(t.commands, t.tracking, now), ..t }
}

/// A tracker with a command on record.
pub open spec fn with_command(t: TrackerView, e: types::ExecutionView) -> TrackerView {
    TrackerView { commands: recorded(t.commands, e), ..t }
}

/// A tracker after a command was sent: the command is on record, and what is not to be
/// remembered is forgotten.
pub open spec fn launched(t: TrackerView, order: Order, id: Seq<char>, now: u128) -> TrackerView {
    tidied(with_command(t, started(order, id, now)), now)
}

/// A command that was put on record, and how to send it.
#[derive(Debug, Clone, PartialEq, Eq)]
pub struct Launch {
    pub id: String,
    pub pane_id: String,
    pub socket: Option<String>,
    pub strokes: Vec<KeyStroke>,
}

/// Lists the keys that run a command.
pub fn plan_strokes(typed: &str, no_enter: bool, delay_ms: Option<u64>) -> (r: Vec<KeyStroke>)
    ensures
        types::views(r@) == strokes(typed@, no_enter, delay_ms),
{
    let mut r: Vec<KeyStroke> = Vec::new();
    match delay_ms {
        Some(delay) => {
            let chars = text::chars_of(typed);
            let mut i: usize = 0;
            while i < chars.len()
                invariant
                    chars@ == typed@,
                    delay_ms == Some(delay),
                    i <= chars@.len(),
                    types::views(r@) == typing(typed@, delay_ms).take(i as int),
                decreases chars@.len() - i,
            {
                let mut keys = String::new();
                keys.push(chars[i]);
                let stroke = KeyStroke { keys, literal: true, pause_ms: Some(delay) };
                let ghost before = r@;
                r.push(stroke);
                proof {
                    assert(stroke@.keys =~= seq![typed@[i as int]]);
                    assert(types::views(r@) =~= types::views(before).push(stroke@));
                    assert(typing(typed@, delay_ms).take(i + 1) =~= typing(typed@, delay_ms).take(
                        i as int,
                    ).push(stroke@));
                }
                i += 1;
            }
            proof {
                assert(typing(typed@, delay_ms).take(typed@.len() as int) =~= typing(
                    typed@,
                    delay_ms,
                ));
            }
        },
        None => {
            r.push(KeyStroke { keys: typed.to_owned(), literal: false, pause_ms: None });
            proof {
                assert(types::views(r@) =~= typing(typed@, delay_ms));
            }
        },
    }
    if !no_enter {
        let stroke = KeyStroke { keys: "Enter".to_owned(), literal: false, pause_ms: None };
        let ghost before = r@;
        r.push(stroke);
        proof {
            assert(types::views(r@) =~= types::views(before).push(stroke@));
        }
    }
    r
}

/// Writes what is typed for a tracked command.
fn wrap_command(command: &str, id: &str, shell: &ShellType) -> (r: String)
    ensures
        r@ == wrapped(command@, id@, *shell),
{
    let mut r = "echo \"".to_owned();
    r.append(markers::get_start_marker(id).as_str());
    r.append("\"; ");
    r.append(command);
    r.append("; echo \"");
    r.append(markers::get_end_marker(shell, id).as_str());
    r.append("\"");
    r
}

impl CommandTracker {
    /// A tracker for a shell, with the usual configuration.
    pub fn new(shell_type: ShellType) -> (r: Self)
        ensures
            r@.commands == Seq::<types::ExecutionView>::empty(),
            r@.shell == shell_type,
            r@.tracking.capture_initial_lines == 1000,
            r@.tracking.capture_max_lines == 16_000,
            r@.tracking.capture_backoff_factor == 2,
            r@.tracking.completed_retention_minutes == 240,
            r@.tracking.completed_max_entries == 1000,
            r@.tracking.tracking_deadline_seconds == 600,
    {
        Self::with_tracking(shell_type, TrackingConfig::default())
    }

    /// A tracker for a shell, with a configuration.
    pub fn with_tracking(shell_type: ShellType, tracking: TrackingConfig) -> (r: Self)
        ensures
            r@ == (TrackerView {
                commands: Seq::<types::ExecutionView>::empty(),
                shell: shell_type,
                tracking,
            }),
            ids_unique(r@.commands),
    {
        let r = CommandTracker { commands: Vec::new(), shell_type, tracking };
        proof {
            assert(r@.commands =~= Seq::<types::ExecutionView>::empty());
        }
        r
    }

    /// Whether the times of the configuration are in reach of a duration.
    pub fn times_fit(&self) -> (r: bool)
        ensures
            r == retention::config_valid(self@.tracking),
    {
        retention::times_fit(&self.tracking)
    }

    /// The shell that commands are written for.
    pub fn shell_type(&self) -> (r: ShellType)
        ensures
            r == self@.shell,
    {
        self.shell_type
    }

    /// The configuration.
    pub fn tracking(&self) -> (r: TrackingConfig)
        ensures
            r == self@.tracking,
    {
        self.tracking
    }

    /// The place of the command with an id.
    fn find(&self, id: &str) -> (r: Option<usize>)
        ensures
            match r {
                Some(i) => i < self.commands@.len() && place_of(self@.commands, id@) == Some(
                    i as int,
                ),
                None => place_of(self@.commands, id@) is None,
            },
    {
        let ghost all = self@.commands;
        let mut i: usize = 0;
        proof {
            lemma_place_of(all, id@);
        }
        while i < self.commands.len()
            invariant
                i <= self.commands@.len(),
                all == types::views(self.commands@),
                all == self@.commands,
                forall|j: int| 0 <= j < i ==> (#[trigger] all[j]).id != id@,
            decreases self.commands@.len() - i,
        {
            proof {
                assert(all[i as int] == self.commands@[i as int]@);
                lemma_place_of(all, id@);
            }
            if text::same_text(self.commands[i].id.as_str(), id) {
                return Some(i);
            }
            i += 1;
        }
        None
    }

    /// Puts a command on record.
    pub fn record(&mut self, execution: CommandExecution)
        ensures
            final(self)@ == with_command(old(self)@, execution@),
            ids_unique(final(self)@.commands),
    {
        let ghost before = self@.commands;
        proof {
            use_type_invariant(&*self);
            law_recorded(before, execution@);
        }
        let place = self.find(execution.id.as_str());
        let mut commands: Vec<CommandExecution> = Vec::new();
        std::mem::swap(&mut commands, &mut self.commands);
        match place {
            Some(i) => {
                commands.set(i, execution);
                proof {
                    assert(types::views(commands@) =~= before.update(i as int, execution@));
                }
            },
            None => {
                commands.push(execution);
                proof {
                    assert(types::views(commands@) =~= before.push(execution@));
                }
            },
        }
        self.commands = commands;
    }

    /// Forgets commands that are not to be remembered any longer.
    pub fn cleanup_completed(&mut self, now: u128)
        requires
            retention::config_valid(old(self)@.tracking),
        ensures
            final(self)@ == tidied(old(self)@, now),
            ids_unique(final(self)@.commands),
    {
        proof {
            use_type_invariant(&*self);
            law_remembered_unique(self@.commands, self@.tracking, now);
        }
        let tracking = self.tracking;
        let mut commands: Vec<CommandExecution> = Vec::new();
        std::mem::swap(&mut commands, &mut self.commands);
        retention::forget(&mut commands, &tracking, now);
        self.commands = commands;
    }

    /// The command with an id, as it is on record.
    pub fn get_command(&self, id: &str) -> (r: Option<CommandExecution>)
        ensures
            match r {
                Some(e) => command_with(self@.commands, id@) == Some(e@),
                None => command_with(self@.commands, id@) is None,
            },
    {
        match self.find(id) {
            Some(i) => {
                proof {
                    assert(self@.commands[i as int] == self.commands@[i as int]@);
                }
                Some(self.commands[i].clone())
            },
            None => None,
        }
    }

    /// The ids of all commands on record.
    pub fn get_active_ids(&self) -> (ids: Vec<String>)
        ensures
            text::texts(ids@) == self@.commands.map_values(|e: types::ExecutionView| e.id),
            text::texts(ids@).no_duplicates(),
    {
        proof {
            use_type_invariant(self);
        }
        let ghost all = self@.commands.map_values(|e: types::ExecutionView| e.id);
        let mut ids: Vec<String> = Vec::new();
        let mut i: usize = 0;
        while i < self.commands.len()
            invariant
                i <= self.commands@.len(),
                all == types::views(self.commands@).map_values(|e: types::ExecutionView| e.id),
                text::texts(ids@) == all.take(i as int),
            decreases self.commands@.len() - i,
        {
            let ghost before = ids@;
            ids.push(self.commands[i].id.clone());
            proof {
                assert(text::texts(ids@) =~= text::texts(before).push(
                    self.commands@[i as int].id@,
                ));
                assert(all.take(i + 1) =~= all.take(i as int).push(all[i as int]));
            }
            i += 1;
        }
        proof {
            assert(all.take(all.len() as int) =~= all);
            assert forall|i: int, j: int| 0 <= i < all.len() && 0 <= j < all.len() && i
                != j implies all[i] != all[j] by {
                assert(self@.commands[i].id != self@.commands[j].id);
            }
        }
        ids
    }

    /// Puts a command with a given id on record, and plans the keys that run it.
    pub fn launch(
        &mut self,
        id: String,
        pane_id: &str,
        command: &str,
        raw_mode: bool,
        no_enter: bool,
        delay_ms: Option<u64>,
        socket: Option<String>,
        now: u128,
    ) -> (r: Launch)
        requires
            retention::config_valid(old(self)@.tracking),
        ensures
            ({
                let order = Order {
                    pane_id: pane_id@,
                    command: command@,
                    raw_mode,
                    no_enter,
                    socket: text::opt_text(socket),
                };
                &&& final(self)@ == launched(old(self)@, order, id@, now)
                &&& types::views(r.strokes@) == strokes(
                    typed_for(order, id@, old(self)@.shell),
                    no_enter,
                    delay_ms,
                )
            }),
            ids_unique(final(self)@.commands),
            r.id@ == id@,
            r.pane_id@ == pane_id@,
            text::opt_text(r.socket) == text::opt_text(socket),
            old(self)@.tracking.tracking_deadline_seconds > 0 || old(
                self,
            )@.tracking.completed_retention_minutes > 0 ==> match command_with(
                final(self)@.commands,
                id@,
            ) {
                Some(e) => {
                    &&& e.pane_id == pane_id@
                    &&& e.command == command@
                    &&& e.socket == text::opt_text(socket)
                    &&& e.started_at == now
                },
                None => false,
            },
    {
        proof {
            use_type_invariant(&*self);
            let order = Order {
                pane_id: pane_id@,
                command: command@,
                raw_mode,
                no_enter,
                socket: text::opt_text(socket),
            };
            if self@.tracking.tracking_deadline_seconds > 0
                || self@.tracking.completed_retention_minutes > 0 {
                law_sent_is_known(self@, order, id@, now);
            }
        }
        let untracked = raw_mode || no_enter;
        let typed = if untracked {
            command.to_owned()
        } else {
            wrap_command(command, id.as_str(), &self.shell_type)
        };
        let strokes = plan_strokes(typed.as_str(), no_enter, delay_ms);
        let execution = CommandExecution {
            id: id.clone(),
            pane_id: pane_id.to_owned(),
            socket: text::copy_text(&socket),
            command: command.to_owned(),
            status: CommandStatus::Pending,
            exit_code: None,
            output: if untracked {
                Some("Tracking disabled for raw_mode or no_enter commands".to_owned())
            } else {
                None
            },
            started_at: now,
            completed_at: None,
            raw_mode,
            tracking_disabled: untracked,
        };
        self.record(execution);
        self.cleanup_completed(now);
        Launch { id, pane_id: pane_id.to_owned(), socket, strokes }
    }

    /// Puts a command on record under a new random id, with the socket that an override, or
    /// else the environment, gives, and plans the keys that run it.
    pub fn execute_command(
        &mut self,
        pane_id: &str,
        command: &str,
        raw_mode: bool,
        no_enter: bool,
        delay_ms: Option<u64>,
        socket: Option<&str>,
        env_socket: Option<&str>,
        now: u128,
    ) -> (r: Launch)
        requires
            retention::config_valid(old(self)@.tracking),
        ensures
            outside::uuid_shape(r.id@),
            ({
                let order = Order {
                    pane_id: pane_id@,
                    command: command@,
                    raw_mode,
                    no_enter,
                    socket: invoke::resolved_socket(
                        text::opt_str(socket),
                        text::opt_str(env_socket),
                    ),
                };
                &&& final(self)@ == launched(old(self)@, order, r.id@, now)
                &&& types::views(r.strokes@) == strokes(
                    typed_for(order, r.id@, old(self)@.shell),
                    no_enter,
                    delay_ms,
                )
                &&& text::opt_text(r.socket) == order.socket
            }),
            ids_unique(final(self)@.commands),
            r.pane_id@ == pane_id@,
            old(self)@.tracking.tracking_deadline_seconds > 0 || old(
                self,
            )@.tracking.completed_retention_minutes > 0 ==> match command_with(
                final(self)@.commands,
                r.id@,
            ) {
                Some(e) => {
                    &&& e.pane_id == pane_id@
                    &&& e.command == command@
                    &&& e.socket == invoke::resolved_socket(
                        text::opt_str(socket),
                        text::opt_str(env_socket),
                    )
                    &&& e.started_at == now
                },
                None => false,
            },
    {
        let id = outside::random_uuid();
        let resolved = invoke::resolve_socket(socket, env_socket);
        self.launch(id, pane_id, command, raw_mode, no_enter, delay_ms, resolved, now)
    }
}

} // verus!
