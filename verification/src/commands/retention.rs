//! How long commands are remembered.

use vstd::prelude::*;

use crate::sequences;
use crate::types;
use crate::types::{CommandExecution, CommandStatus};

verus! {

/// Tracking configuration for command capture retries and for how long commands are remembered.
#[derive(Debug, Clone, Copy, PartialEq, Eq, Structural)]
pub struct TrackingConfig {
    /// How many lines of a pane are captured at first.
    pub capture_initial_lines: u32,
    /// How many lines of a pane are captured at most.
    pub capture_max_lines: u32,
    /// By which factor the number of lines grows.
    pub capture_backoff_factor: u32,
    /// How long a command that has ended is remembered.
    pub completed_retention_minutes: u64,
    /// How many commands that have ended are remembered.
    pub completed_max_entries: u32,
    /// How long a command whose markers are nowhere to be seen stays pending before it counts as
    /// lost. While its start marker is out of reach a command that still runs cannot be told
    /// from one that is gone, so this is generous.
    pub tracking_deadline_seconds: u64,
}

impl Default for TrackingConfig {
    fn default() -> (r: Self)
        ensures
            r.capture_initial_lines == 1000,
            r.capture_max_lines == 16_000,
            r.capture_backoff_factor == 2,
            r.completed_retention_minutes == 240,
            r.completed_max_entries == 1000,
            r.tracking_deadline_seconds == 600,
    {
        TrackingConfig {
            capture_initial_lines: 1000,
            capture_max_lines: 16_000,
            capture_backoff_factor: 2,
            completed_retention_minutes: 240,
            completed_max_entries: 1000,
            tracking_deadline_seconds: 600,
        }
    }
}

/// How long ago a moment was; no time for one that is still to come.
pub open spec fn elapsed(now: u128, then: u128) -> int {
    if now >= then {
        now - then
    } else {
        0
    }
}

/// Seconds in nanoseconds.
pub open spec fn seconds(n: int) -> int {
    n * 1_000_000_000
}

/// For how many seconds a command that has ended is remembered.
pub open spec fn retention_seconds(tracking: TrackingConfig) -> int {
    if tracking.completed_retention_minutes * 60 > u64::MAX {
        u64::MAX as int
    } else {
        tracking.completed_retention_minutes * 60
    }
}

/// For how many seconds a pending command that is not asked for is remembered.
pub open spec fn abandon_seconds(tracking: TrackingConfig) -> int {
    tracking.tracking_deadline_seconds + retention_seconds(tracking)
}

/// Whether the times of a configuration are in reach of a duration.
pub open spec fn config_valid(tracking: TrackingConfig) -> bool {
    abandon_seconds(tracking) <= u64::MAX
}

/// Whether a command is still to be remembered, by its age.
pub open spec fn fresh(e: types::ExecutionView, tracking: TrackingConfig, now: u128) -> bool {
    match e.status {
        CommandStatus::Pending => elapsed(now, e.started_at) < seconds(abandon_seconds(tracking)),
        _ => match e.completed_at {
            Some(then) => elapsed(now, then) < seconds(retention_seconds(tracking)),
            None => true,
        },
    }
}

/// Whether a command has ended at a known moment.
pub open spec fn done(e: types::ExecutionView) -> bool {
    !(e.status is Pending) && e.completed_at is Some
}

/// How many commands have ended.
pub open spec fn done_count(store: Seq<types::ExecutionView>) -> nat
    decreases store.len(),
{
    if store.len() == 0 {
        0
    } else {
        done_count(store.drop_last()) + if done(store.last()) {
            1nat
        } else {
            0nat
        }
    }
}

/// The place of the command that ended first; of several that ended together, the first one.
pub open spec fn oldest(store: Seq<types::ExecutionView>) -> Option<int>
    decreases store.len(),
{
    if store.len() == 0 {
        None
    } else {
        let before = oldest(store.drop_last());
        let e = store.last();
        if !done(e) {
            before
        } else {
            match before {
                Some(i) => if e.completed_at->0 < store[i].completed_at->0 {
                    Some(store.len() - 1)
                } else {
                    Some(i)
                },
                None => Some(store.len() - 1),
            }
        }
    }
}

/// The oldest command has ended, and none has ended before it.
pub proof fn lemma_oldest(store: Seq<types::ExecutionView>)
    ensures
        match oldest(store) {
            Some(i) => {
                &&& 0 <= i < store.len()
                &&& done(store[i])
                &&& forall|j: int|
                    0 <= j < store.len() && done(#[trigger] store[j])
                        ==> store[i].completed_at->0 <= store[j].completed_at->0
                &&& forall|j: int|
                    0 <= j < i && done(#[trigger] store[j]) ==> store[i].completed_at->0
                        < store[j].completed_at->0
                &&& done_count(store) > 0
            },
            None => {
                &&& done_count(store) == 0
                &&& forall|j: int| 0 <= j < store.len() ==> !done(#[trigger] store[j])
            },
        },
    decreases store.len(),
{
    if store.len() > 0 {
        let init = store.drop_last();
        lemma_oldest(init);
        assert forall|j: int| 0 <= j < init.len() implies init[j] == #[trigger] store[j] by {}
    }
}

/// `store` without the commands that ended first, so that no more than `max` that have ended
/// are left.
pub open spec fn newest(store: Seq<types::ExecutionView>, max: int) -> Seq<types::ExecutionView>
    decreases store.len(),
{
    if done_count(store) <= max {
        store
    } else {
        proof {
            lemma_oldest(store);
        }
        match oldest(store) {
            Some(i) => newest(store.remove(i), max),
            None => store,
        }
    }
}

/// The commands that are to be remembered by their age.
pub open spec fn fresh_ones(
    store: Seq<types::ExecutionView>,
    tracking: TrackingConfig,
    now: u128,
) -> Seq<types::ExecutionView> {
    store.filter(|e: types::ExecutionView| fresh(e, tracking, now))
}

/// The commands that are to be remembered.
pub open spec fn remembered(
    store: Seq<types::ExecutionView>,
    tracking: TrackingConfig,
    now: u128,
) -> Seq<types::ExecutionView> {
    newest(fresh_ones(store, tracking, now), tracking.completed_max_entries as int)
}

/// How long ago a moment was.
pub fn time_since(now: u128, then: u128) -> (r: u128)
    ensures
        r == elapsed(now, then),
{
    if now >= then {
        now - then
    } else {
        0
    }
}

/// For how many seconds a command that has ended is remembered.
fn retention_window(tracking: &TrackingConfig) -> (r: u64)
    ensures
        r == retention_seconds(*tracking),
{
    let minutes = tracking.completed_retention_minutes;
    if minutes > u64::MAX / 60 {
        u64::MAX
    } else {
        minutes * 60
    }
}

/// Whether the times of a configuration are in reach of a duration. One for which they are not
/// cannot be used for tracking.
pub fn times_fit(tracking: &TrackingConfig) -> (r: bool)
    ensures
        r == config_valid(*tracking),
{
    retention_window(tracking) <= u64::MAX - tracking.tracking_deadline_seconds
}

/// Whether a command is still to be remembered, by its age.
fn is_fresh(e: &CommandExecution, tracking: &TrackingConfig, now: u128) -> (r: bool)
    requires
        config_valid(*tracking),
    ensures
        r == fresh(e@, *tracking, now),
{
    let retention = retention_window(tracking);
    match e.status {
        CommandStatus::Pending => {
            let abandon = tracking.tracking_deadline_seconds + retention;
            time_since(now, e.started_at) < abandon as u128 * 1_000_000_000
        },
        _ => match e.completed_at {
            Some(then) => time_since(now, then) < retention as u128 * 1_000_000_000,
            None => true,
        },
    }
}

/// Forgets the commands that are too old.
fn drop_stale(commands: &mut Vec<CommandExecution>, tracking: &TrackingConfig, now: u128)
    requires
        config_valid(*tracking),
    ensures
        types::views(final(commands)@) == fresh_ones(types::views(old(commands)@), *tracking, now),
{
    let ghost all = types::views(commands@);
    let ghost keep = |e: types::ExecutionView| fresh(e, *tracking, now);
    let ghost mut seen: int = 0;
    let mut i: usize = 0;
    proof {
        reveal(Seq::filter);
        assert(all.take(0).filter(keep) =~= Seq::<types::ExecutionView>::empty());
        assert(types::views(commands@) =~= all.take(0).filter(keep) + all.skip(0));
    }
    while i < commands.len()
        invariant
            config_valid(*tracking),
            keep == (|e: types::ExecutionView| fresh(e, *tracking, now)),
            0 <= seen <= all.len(),
            i <= commands@.len(),
            i == all.take(seen).filter(keep).len(),
            commands@.len() - i == all.len() - seen,
            types::views(commands@) == all.take(seen).filter(keep) + all.skip(seen),
        decreases commands@.len() - i,
    {
        let ghost before = types::views(commands@);
        proof {
            reveal(Seq::filter);
            assert(before[i as int] == commands@[i as int]@);
            assert(before[i as int] == all.skip(seen)[0]);
            assert(all.take(seen + 1).drop_last() =~= all.take(seen));
            assert(all.take(seen + 1).last() == all[seen]);
        }
        if is_fresh(&commands[i], tracking, now) {
            i += 1;
            proof {
                assert(keep(all[seen]));
                assert(all.take(seen + 1).filter(keep) + all.skip(seen + 1) =~= before);
            }
        } else {
            let _ = commands.remove(i);
            proof {
                assert(!keep(all[seen]));
                assert(types::views(commands@) =~= before.remove(i as int));
                assert(all.take(seen + 1).filter(keep) + all.skip(seen + 1) =~= before.remove(
                    i as int,
                ));
            }
        }
        proof {
            seen = seen + 1;
        }
    }
    proof {
        assert(all.take(seen) =~= all);
        assert(types::views(commands@) =~= all.filter(keep));
    }
}

/// The place of the command that ended first, and how many have ended.
fn find_oldest(commands: &Vec<CommandExecution>) -> (r: (Option<usize>, usize))
    ensures
        match r.0 {
            Some(i) => oldest(types::views(commands@)) == Some(i as int),
            None => oldest(types::views(commands@)) is None,
        },
        r.1 == done_count(types::views(commands@)),
{
    let ghost all = types::views(commands@);
    let mut best: Option<usize> = None;
    let mut count: usize = 0;
    let mut i: usize = 0;
    while i < commands.len()
        invariant
            i <= commands@.len(),
            all == types::views(commands@),
            match best {
                Some(k) => k < i && oldest(all.take(i as int)) == Some(k as int),
                None => oldest(all.take(i as int)) is None,
            },
            count == done_count(all.take(i as int)),
            count <= i,
        decreases commands@.len() - i,
    {
        let ghost head = all.take(i + 1);
        proof {
            assert(head.drop_last() =~= all.take(i as int));
            assert(head.last() == commands@[i as int]@);
            lemma_oldest(all.take(i as int));
            if let Some(k) = best {
                assert(head[k as int] == commands@[k as int]@);
            }
        }
        let ended = match commands[i].status {
            CommandStatus::Pending => false,
            _ => true,
        };
        if ended {
            if let Some(then) = commands[i].completed_at {
                count += 1;
                best = match best {
                    Some(k) => match commands[k].completed_at {
                        Some(first) => if then < first {
                            Some(i)
                        } else {
                            Some(k)
                        },
                        None => Some(k),
                    },
                    None => Some(i),
                };
            }
        }
        i += 1;
    }
    proof {
        assert(all.take(all.len() as int) =~= all);
    }
    (best, count)
}

/// Without the oldest command one fewer has ended.
proof fn lemma_remove_done(store: Seq<types::ExecutionView>, i: int)
    requires
        0 <= i < store.len(),
    ensures
        done_count(store.remove(i)) == done_count(store) - if done(store[i]) {
            1int
        } else {
            0int
        },
    decreases store.len(),
{
    let rest = store.remove(i);
    if i == store.len() - 1 {
        assert(rest =~= store.drop_last());
    } else {
        lemma_remove_done(store.drop_last(), i);
        assert(rest.drop_last() =~= store.drop_last().remove(i));
        assert(rest.last() == store.last());
    }
}

/// Forgets the commands that ended first, so that no more than `max` that have ended are left.
fn drop_oldest(commands: &mut Vec<CommandExecution>, max: u32)
    ensures
        types::views(final(commands)@) == newest(types::views(old(commands)@), max as int),
{
    let ghost all = types::views(commands@);
    let (mut first, mut count) = find_oldest(commands);
    while count as u64 > max as u64
        invariant
            newest(types::views(commands@), max as int) == newest(all, max as int),
            match first {
                Some(i) => oldest(types::views(commands@)) == Some(i as int),
                None => oldest(types::views(commands@)) is None,
            },
            count == done_count(types::views(commands@)),
        decreases count,
    {
        let ghost before = types::views(commands@);
        proof {
            lemma_oldest(before);
        }
        if let Some(i) = first {
            let _ = commands.remove(i);
            proof {
                assert(types::views(commands@) =~= before.remove(i as int));
                lemma_remove_done(before, i as int);
            }
        }
        let (next, left) = find_oldest(commands);
        first = next;
        count = left;
    }
}

/// Forgets commands that are too old, and those that ended first where too many have ended.
pub fn forget(commands: &mut Vec<CommandExecution>, tracking: &TrackingConfig, now: u128)
    requires
        config_valid(*tracking),
    ensures
        types::views(final(commands)@) == remembered(types::views(old(commands)@), *tracking, now),
{
    drop_stale(commands, tracking, now);
    drop_oldest(commands, tracking.completed_max_entries);
}

/// Law: of the commands that have ended no more are remembered than are asked for.
pub proof fn law_limit(store: Seq<types::ExecutionView>, tracking: TrackingConfig, now: u128)
    ensures
        done_count(remembered(store, tracking, now)) <= tracking.completed_max_entries,
{
    lemma_newest_limit(fresh_ones(store, tracking, now), tracking.completed_max_entries as int);
}

proof fn lemma_newest_limit(store: Seq<types::ExecutionView>, max: int)
    requires
        0 <= max,
    ensures
        done_count(newest(store, max)) <= max,
    decreases store.len(),
{
    if done_count(store) > max {
        lemma_oldest(store);
        if let Some(i) = oldest(store) {
            lemma_newest_limit(store.remove(i), max);
        }
    }
}

/// Trimming forgets only commands that have ended, and none that ended after one that stays.
proof fn lemma_newest_members(store: Seq<types::ExecutionView>, max: int)
    ensures
        forall|x: types::ExecutionView|
            #[trigger] newest(store, max).contains(x) ==> store.contains(x),
        forall|x: types::ExecutionView|
            store.contains(x) && !done(x) ==> #[trigger] newest(store, max).contains(x),
        forall|x: types::ExecutionView, y: types::ExecutionView|
            store.contains(x) && !(#[trigger] newest(store, max).contains(x)) && (
            #[trigger] newest(store, max).contains(y)) && done(y) ==> done(x)
                && x.completed_at->0 <= y.completed_at->0,
    decreases store.len(),
{
    if done_count(store) > max {
        lemma_oldest(store);
        if let Some(i) = oldest(store) {
            let rest = store.remove(i);
            let kept = newest(store, max);
            assert(kept == newest(rest, max));
            lemma_newest_members(rest, max);
            assert forall|x: types::ExecutionView| #[trigger] kept.contains(
                x,
            ) implies store.contains(x) by {
                sequences::lemma_remove_members(store, i, x);
            }
            assert forall|x: types::ExecutionView| store.contains(x) && !done(
                x,
            ) implies #[trigger] kept.contains(x) by {
                sequences::lemma_remove_members(store, i, x);
            }
            assert forall|x: types::ExecutionView, y: types::ExecutionView|
                store.contains(x) && !(#[trigger] kept.contains(x)) && (#[trigger] kept.contains(
                    y,
                )) && done(y) implies done(x) && x.completed_at->0 <= y.completed_at->0 by {
                sequences::lemma_remove_members(store, i, x);
                sequences::lemma_remove_members(store, i, y);
                if x == store[i] {
                    let j = choose|j: int| 0 <= j < store.len() && store[j] == y;
                    assert(store[i].completed_at->0 <= store[j].completed_at->0);
                } else {
                    assert(rest.contains(x));
                }
            }
        }
    }
}

/// Law: only commands that were remembered before are remembered, and only fresh ones.
pub proof fn law_only_known(
    store: Seq<types::ExecutionView>,
    tracking: TrackingConfig,
    now: u128,
    e: types::ExecutionView,
)
    requires
        remembered(store, tracking, now).contains(e),
    ensures
        store.contains(e),
        fresh(e, tracking, now),
{
    lemma_newest_members(
        fresh_ones(store, tracking, now),
        tracking.completed_max_entries as int,
    );
    sequences::lemma_filter_members(store, |e: types::ExecutionView| fresh(e, tracking, now));
}

/// Law: a pending command is forgotten only once it is older than the deadline and the
/// retention together.
pub proof fn law_pending_kept(
    store: Seq<types::ExecutionView>,
    tracking: TrackingConfig,
    now: u128,
    e: types::ExecutionView,
)
    requires
        store.contains(e),
        e.status is Pending,
    ensures
        remembered(store, tracking, now).contains(e) == (elapsed(now, e.started_at) < seconds(
            abandon_seconds(tracking),
        )),
{
    lemma_newest_members(
        fresh_ones(store, tracking, now),
        tracking.completed_max_entries as int,
    );
    sequences::lemma_filter_members(store, |e: types::ExecutionView| fresh(e, tracking, now));
}

/// Law: of fresh commands that have ended, one is forgotten only where all that are kept ended
/// at the same time or later.
pub proof fn law_oldest_first(
    store: Seq<types::ExecutionView>,
    tracking: TrackingConfig,
    now: u128,
    gone: types::ExecutionView,
    kept: types::ExecutionView,
)
    requires
        store.contains(gone),
        fresh(gone, tracking, now),
        !remembered(store, tracking, now).contains(gone),
        remembered(store, tracking, now).contains(kept),
        done(kept),
    ensures
        done(gone),
        gone.completed_at->0 <= kept.completed_at->0,
{
    lemma_newest_members(
        fresh_ones(store, tracking, now),
        tracking.completed_max_entries as int,
    );
    sequences::lemma_filter_members(store, |e: types::ExecutionView| fresh(e, tracking, now));
}

/// Law: forgetting twice at the same moment is forgetting once.
pub proof fn law_forget_once(store: Seq<types::ExecutionView>, tracking: TrackingConfig, now: u128)
    ensures
        remembered(remembered(store, tracking, now), tracking, now) == remembered(
            store,
            tracking,
            now,
        ),
{
    let keep = |e: types::ExecutionView| fresh(e, tracking, now);
    let once = remembered(store, tracking, now);
    law_limit(store, tracking, now);
    assert forall|i: int| 0 <= i < once.len() implies keep(#[trigger] once[i]) by {
        assert(once.contains(once[i]));
        law_only_known(store, tracking, now, once[i]);
    }
    sequences::lemma_filter_all(once, keep);
}

/// Where trimming forgets anything, just as many commands that have ended are left as may be.
proof fn lemma_newest_full(store: Seq<types::ExecutionView>, max: int)
    requires
        0 <= max,
    ensures
        done_count(store) > max ==> done_count(newest(store, max)) == max,
    decreases store.len(),
{
    if done_count(store) > max {
        lemma_oldest(store);
        if let Some(i) = oldest(store) {
            lemma_remove_done(store, i);
            lemma_newest_full(store.remove(i), max);
            assert(newest(store, max) == newest(store.remove(i), max));
        }
    }
}

/// Law: a fresh command that ended after all the others stays, unless none may stay.
pub proof fn law_latest_kept(
    store: Seq<types::ExecutionView>,
    tracking: TrackingConfig,
    now: u128,
    e: types::ExecutionView,
)
    requires
        store.contains(e),
        done(e),
        fresh(e, tracking, now),
        tracking.completed_max_entries > 0,
        forall|x: types::ExecutionView| #[trigger]
            store.contains(x) && x != e && done(x) ==> x.completed_at->0 < e.completed_at->0,
    ensures
        remembered(store, tracking, now).contains(e),
{
    let max = tracking.completed_max_entries as int;
    let young = fresh_ones(store, tracking, now);
    let kept = remembered(store, tracking, now);
    sequences::lemma_filter_members(store, |e: types::ExecutionView| fresh(e, tracking, now));
    if !kept.contains(e) {
        assert(young.contains(e));
        if done_count(young) > max {
            lemma_newest_full(young, max);
            lemma_oldest(kept);
            if let Some(i) = oldest(kept) {
                assert(kept.contains(kept[i]));
                law_oldest_first(store, tracking, now, e, kept[i]);
                law_only_known(store, tracking, now, kept[i]);
            }
        }
    }
}

/// Commands that are fresh, and have not ended at a known time, are remembered.
pub proof fn lemma_remembered_members(
    store: Seq<types::ExecutionView>,
    tracking: TrackingConfig,
    now: u128,
)
    ensures
        forall|x: types::ExecutionView|
            store.contains(x) && fresh(x, tracking, now) && !done(x) ==> #[trigger] remembered(
                store,
                tracking,
                now,
            ).contains(x),
{
    lemma_newest_members(
        fresh_ones(store, tracking, now),
        tracking.completed_max_entries as int,
    );
    sequences::lemma_filter_members(store, |e: types::ExecutionView| fresh(e, tracking, now));
}

/// No more commands have ended than there are.
proof fn lemma_done_count(store: Seq<types::ExecutionView>)
    ensures
        done_count(store) <= store.len(),
    decreases store.len(),
{
    if store.len() > 0 {
        lemma_done_count(store.drop_last());
    }
}

/// A filter makes nothing longer.
proof fn lemma_fresh_len(
    store: Seq<types::ExecutionView>,
    keep: spec_fn(types::ExecutionView) -> bool,
)
    ensures
        store.filter(keep).len() <= store.len(),
    decreases store.len(),
{
    reveal(Seq::filter);
    if store.len() > 0 {
        lemma_fresh_len(store.drop_last(), keep);
    }
}

/// Where there are no more commands than may be remembered, every fresh one is.
pub proof fn lemma_few_kept(
    store: Seq<types::ExecutionView>,
    tracking: TrackingConfig,
    now: u128,
)
    ensures
        store.len() <= tracking.completed_max_entries ==> forall|x: types::ExecutionView|
            store.contains(x) && fresh(x, tracking, now) ==> #[trigger] remembered(
                store,
                tracking,
                now,
            ).contains(x),
{
    let keep = |e: types::ExecutionView| fresh(e, tracking, now);
    lemma_fresh_len(store, keep);
    lemma_done_count(fresh_ones(store, tracking, now));
    sequences::lemma_filter_members(store, keep);
}

/// Where a fresh command is forgotten, as many that have ended are left as may be.
pub proof fn lemma_full_where_forgotten(
    store: Seq<types::ExecutionView>,
    tracking: TrackingConfig,
    now: u128,
)
    ensures
        forall|x: types::ExecutionView|
            store.contains(x) && fresh(x, tracking, now) && !(#[trigger] remembered(
                store,
                tracking,
                now,
            ).contains(x)) ==> done_count(remembered(store, tracking, now))
                == tracking.completed_max_entries,
{
    sequences::lemma_filter_members(store, |e: types::ExecutionView| fresh(e, tracking, now));
    lemma_newest_full(
        fresh_ones(store, tracking, now),
        tracking.completed_max_entries as int,
    );
}

} // verus!
