//! Finding what a command has made, also where tmux does not say.

use vstd::prelude::*;
use vstd::string::*;

use crate::errors::{Error, ErrorView};
use crate::text;
use crate::tmux::invoke;
use crate::tmux::parse;
use crate::types;
use crate::types::{BufferInfo, ClientInfo, Pane, Session, Window};

verus! {

/// The first item that a test accepts.
pub open spec fn first_where<V>(items: Seq<V>, test: spec_fn(V) -> bool) -> Option<V>
    decreases items.len(),
{
    if items.len() == 0 {
        None
    } else if test(items[0]) {
        Some(items[0])
    } else {
        first_where(items.skip(1), test)
    }
}

/// The first item.
pub open spec fn first_of<V>(items: Seq<V>) -> Option<V> {
    if items.len() == 0 {
        None
    } else {
        Some(items[0])
    }
}

/// Items before one that a test accepts do not count where the test accepts none of them.
proof fn lemma_first_where<V>(items: Seq<V>, test: spec_fn(V) -> bool, k: int)
    requires
        0 <= k <= items.len(),
        forall|i: int| 0 <= i < k ==> !test(#[trigger] items[i]),
    ensures
        first_where(items, test) == first_where(items.skip(k), test),
    decreases k,
{
    if k == 0 {
        assert(items.skip(0) =~= items);
    } else {
        assert(!test(items[0]));
        let rest = items.skip(1);
        assert forall|i: int| 0 <= i < k - 1 implies !test(#[trigger] rest[i]) by {
            assert(rest[i] == items[i + 1]);
        }
        lemma_first_where(rest, test, k - 1);
        assert(rest.skip(k - 1) =~= items.skip(k));
    }
}

/// An optional item, as characters.
pub open spec fn opt_view<T: View>(item: Option<T>) -> Option<T::V> {
    match item {
        Some(item) => Some(item@),
        None => None,
    }
}

/// The first item of a list.
fn take_first<T: View>(items: Vec<T>) -> (r: Option<T>)
    ensures
        opt_view(r) == first_of(types::views(items@)),
{
    let mut items = items;
    if items.len() == 0 {
        None
    } else {
        proof {
            assert(types::views(items@)[0] == items@[0]@);
        }
        Some(items.remove(0))
    }
}

/// The first session with a name.
pub open spec fn session_named(sessions: Seq<types::SessionView>, name: Seq<char>) -> Option<
    types::SessionView,
> {
    first_where(sessions, |s: types::SessionView| s.name == name)
}

/// The first window with a name.
pub open spec fn window_named(windows: Seq<types::WindowView>, name: Seq<char>) -> Option<
    types::WindowView,
> {
    first_where(windows, |w: types::WindowView| w.name == name)
}

/// The first window whose id is not known yet.
pub open spec fn window_new(windows: Seq<types::WindowView>, known: Seq<Seq<char>>) -> Option<
    types::WindowView,
> {
    first_where(windows, |w: types::WindowView| !known.contains(w.id))
}

/// The first pane whose id is not known yet.
pub open spec fn pane_new(panes: Seq<types::PaneView>, known: Seq<Seq<char>>) -> Option<
    types::PaneView,
> {
    first_where(panes, |p: types::PaneView| !known.contains(p.id))
}

/// The first active pane other than a given one.
pub open spec fn pane_active(panes: Seq<types::PaneView>, but: Seq<char>) -> Option<
    types::PaneView,
> {
    first_where(panes, |p: types::PaneView| p.active && p.id != but)
}

/// Finds a session by name.
pub fn find_session_by_name(sessions: Vec<Session>, name: &str) -> (r: Option<Session>)
    ensures
        opt_view(r) == session_named(types::views(sessions@), name@),
{
    let mut items = sessions;
    let ghost all = types::views(items@);
    let ghost wanted = name@;
    let ghost test = |s: types::SessionView| s.name == wanted;
    let mut i: usize = 0;
    while i < items.len()
        invariant
            i <= items@.len(),
            wanted == name@,
            all == types::views(items@),
            all == types::views(sessions@),
            test == (|s: types::SessionView| s.name == wanted),
            forall|k: int| 0 <= k < i ==> !test(#[trigger] all[k]),
        decreases items@.len() - i,
    {
        proof {
            assert(all[i as int] == items@[i as int]@);
        }
        if text::same_text(items[i].name.as_str(), name) {
            proof {
                lemma_first_where(all, test, i as int);
                assert(all.skip(i as int)[0] == all[i as int]);
            }
            return Some(items.remove(i));
        }
        i += 1;
    }
    proof {
        lemma_first_where(all, test, i as int);
    }
    None
}

/// Finds a window by name.
fn find_window_by_name(windows: Vec<Window>, name: &str) -> (r: Option<Window>)
    ensures
        opt_view(r) == window_named(types::views(windows@), name@),
{
    let mut items = windows;
    let ghost all = types::views(items@);
    let ghost wanted = name@;
    let ghost test = |w: types::WindowView| w.name == wanted;
    let mut i: usize = 0;
    while i < items.len()
        invariant
            i <= items@.len(),
            wanted == name@,
            all == types::views(items@),
            all == types::views(windows@),
            test == (|w: types::WindowView| w.name == wanted),
            forall|k: int| 0 <= k < i ==> !test(#[trigger] all[k]),
        decreases items@.len() - i,
    {
        proof {
            assert(all[i as int] == items@[i as int]@);
        }
        if text::same_text(items[i].name.as_str(), name) {
            proof {
                lemma_first_where(all, test, i as int);
                assert(all.skip(i as int)[0] == all[i as int]);
            }
            return Some(items.remove(i));
        }
        i += 1;
    }
    proof {
        lemma_first_where(all, test, i as int);
    }
    None
}

/// The place of the first window whose id is not known yet.
fn find_new_window(windows: &Vec<Window>, known: &Vec<String>) -> (r: Option<usize>)
    ensures
        match r {
            Some(i) => {
                &&& i < windows@.len()
                &&& window_new(types::views(windows@), text::texts(known@)) == Some(
                    windows@[i as int]@,
                )
            },
            None => window_new(types::views(windows@), text::texts(known@)) is None,
        },
{
    let ghost all = types::views(windows@);
    let ghost ids = text::texts(known@);
    let ghost test = |w: types::WindowView| !ids.contains(w.id);
    let mut i: usize = 0;
    while i < windows.len()
        invariant
            i <= windows@.len(),
            all == types::views(windows@),
            ids == text::texts(known@),
            test == (|w: types::WindowView| !ids.contains(w.id)),
            forall|k: int| 0 <= k < i ==> !test(#[trigger] all[k]),
        decreases windows@.len() - i,
    {
        proof {
            assert(all[i as int] == windows@[i as int]@);
        }
        if !text::contains_text(known, windows[i].id.as_str()) {
            proof {
                lemma_first_where(all, test, i as int);
                assert(all.skip(i as int)[0] == all[i as int]);
            }
            return Some(i);
        }
        i += 1;
    }
    proof {
        lemma_first_where(all, test, i as int);
    }
    None
}

/// The place of the first pane whose id is not known yet.
fn find_new_pane(panes: &Vec<Pane>, known: &Vec<String>) -> (r: Option<usize>)
    ensures
        match r {
            Some(i) => {
                &&& i < panes@.len()
                &&& pane_new(types::views(panes@), text::texts(known@)) == Some(panes@[i as int]@)
            },
            None => pane_new(types::views(panes@), text::texts(known@)) is None,
        },
{
    let ghost all = types::views(panes@);
    let ghost ids = text::texts(known@);
    let ghost test = |p: types::PaneView| !ids.contains(p.id);
    let mut i: usize = 0;
    while i < panes.len()
        invariant
            i <= panes@.len(),
            all == types::views(panes@),
            ids == text::texts(known@),
            test == (|p: types::PaneView| !ids.contains(p.id)),
            forall|k: int| 0 <= k < i ==> !test(#[trigger] all[k]),
        decreases panes@.len() - i,
    {
        proof {
            assert(all[i as int] == panes@[i as int]@);
        }
        if !text::contains_text(known, panes[i].id.as_str()) {
            proof {
                lemma_first_where(all, test, i as int);
                assert(all.skip(i as int)[0] == all[i as int]);
            }
            return Some(i);
        }
        i += 1;
    }
    proof {
        lemma_first_where(all, test, i as int);
    }
    None
}

/// The place of the first active pane other than a given one.
fn find_active_pane(panes: &Vec<Pane>, but: &str) -> (r: Option<usize>)
    ensures
        match r {
            Some(i) => {
                &&& i < panes@.len()
                &&& pane_active(types::views(panes@), but@) == Some(panes@[i as int]@)
            },
            None => pane_active(types::views(panes@), but@) is None,
        },
{
    let ghost all = types::views(panes@);
    let ghost other = but@;
    let ghost test = |p: types::PaneView| p.active && p.id != other;
    let mut i: usize = 0;
    while i < panes.len()
        invariant
            i <= panes@.len(),
            all == types::views(panes@),
            other == but@,
            test == (|p: types::PaneView| p.active && p.id != other),
            forall|k: int| 0 <= k < i ==> !test(#[trigger] all[k]),
        decreases panes@.len() - i,
    {
        proof {
            assert(all[i as int] == panes@[i as int]@);
        }
        if panes[i].active && !text::same_text(panes[i].id.as_str(), but) {
            proof {
                lemma_first_where(all, test, i as int);
                assert(all.skip(i as int)[0] == all[i as int]);
            }
            return Some(i);
        }
        i += 1;
    }
    proof {
        lemma_first_where(all, test, i as int);
    }
    None
}

/// The session that the reply to its making describes.
pub fn session_in_reply(output: &str) -> (r: Option<Session>)
    ensures
        opt_view(r) == first_of(parse::sessions_in(output@)),
{
    take_first(parse::parse_sessions(output))
}

/// The window that the reply to its making describes.
pub fn window_in_reply(output: &str, session_id: &str) -> (r: Option<Window>)
    ensures
        opt_view(r) == first_of(parse::windows_in(output@, session_id@)),
{
    take_first(parse::parse_windows(output, session_id))
}

/// The pane that the reply to its making describes.
pub fn pane_in_reply(output: &str, window_id: &str) -> (r: Option<Pane>)
    ensures
        opt_view(r) == first_of(parse::panes_in(output@, window_id@)),
{
    take_first(parse::parse_panes(output, window_id))
}

/// A failure of tmux with a reply that could not be read.
fn unread(what: &str, output: &str) -> (error: Error)
    ensures
        error@ == ErrorView::Tmux(what@ + output@),
{
    let mut message = what.to_owned();
    message.append(output);
    Error::Tmux { message }
}

/// What was found, or else an error.
pub open spec fn found_or<V>(found: Option<V>, error: ErrorView) -> Result<V, ErrorView> {
    match found {
        Some(item) => Ok(item),
        None => Err(error),
    }
}

/// An outcome, as characters.
pub open spec fn outcome<T: View>(r: Result<T, Error>) -> Result<T::V, ErrorView> {
    match r {
        Ok(item) => Ok(item@),
        Err(error) => Err(error@),
    }
}

/// Finds a session that was just made, and that the reply did not describe, by its name among
/// all sessions.
pub fn recover_session(output: &str, name: &str, sessions: Vec<Session>) -> (r: Result<
    Session,
    Error,
>)
    ensures
        outcome(r) == found_or(
            session_named(types::views(sessions@), name@),
            ErrorView::Tmux("failed to parse new session output: "@ + output@),
        ),
{
    match find_session_by_name(sessions, name) {
        Some(session) => Ok(session),
        None => Err(unread("failed to parse new session output: ", output)),
    }
}

/// Finds a window that was just made, and that the reply did not describe, by its name among
/// the windows of its session.
pub fn recover_window(output: &str, name: &str, windows: Vec<Window>) -> (r: Result<Window, Error>)
    ensures
        outcome(r) == found_or(
            window_named(types::views(windows@), name@),
            ErrorView::Tmux("failed to parse new window output: "@ + output@),
        ),
{
    match find_window_by_name(windows, name) {
        Some(window) => Ok(window),
        None => Err(unread("failed to parse new window output: ", output)),
    }
}

/// The pane that a split has made: one that was not there before, or else the active one where
/// that is not the pane that was split.
pub open spec fn split_made(
    panes: Seq<types::PaneView>,
    known: Seq<Seq<char>>,
    pane_id: Seq<char>,
) -> Option<types::PaneView> {
    match pane_new(panes, known) {
        Some(pane) => Some(pane),
        None => pane_active(panes, pane_id),
    }
}

/// Finds the pane that a split has made, and that the reply did not describe, among the panes of
/// the window.
pub fn recover_pane(
    output: &str,
    pane_id: &str,
    known: &Vec<String>,
    panes: Vec<Pane>,
) -> (r: Result<Pane, Error>)
    ensures
        outcome(r) == found_or(
            split_made(types::views(panes@), text::texts(known@), pane_id@),
            ErrorView::Tmux("failed to parse new pane output: "@ + output@),
        ),
{
    let mut panes = panes;
    if let Some(i) = find_new_pane(&panes, known) {
        return Ok(panes.remove(i));
    }
    if let Some(i) = find_active_pane(&panes, pane_id) {
        return Ok(panes.remove(i));
    }
    Err(unread("failed to parse new pane output: ", output))
}

/// The window that a pane was broken out into: one that was not there before, or else one with
/// the name that was asked for.
pub open spec fn break_made(
    windows: Seq<types::WindowView>,
    known: Seq<Seq<char>>,
    name: Option<Seq<char>>,
) -> Option<types::WindowView> {
    match window_new(windows, known) {
        Some(window) => Some(window),
        None => match name {
            Some(name) => window_named(windows, name),
            None => None,
        },
    }
}

/// Finds the window that a pane was broken out into, and that the reply did not describe, among
/// the windows of the session.
pub fn recover_broken_out(
    output: &str,
    name: Option<&str>,
    known: &Vec<String>,
    windows: Vec<Window>,
) -> (r: Result<Window, Error>)
    ensures
        outcome(r) == found_or(
            break_made(types::views(windows@), text::texts(known@), text::opt_str(name)),
            ErrorView::Tmux("failed to parse break-pane output: "@ + output@),
        ),
{
    let mut windows = windows;
    if let Some(i) = find_new_window(&windows, known) {
        return Ok(windows.remove(i));
    }
    if let Some(name) = name {
        if let Some(window) = find_window_by_name(windows, name) {
            return Ok(window);
        }
    }
    Err(unread("failed to parse break-pane output: ", output))
}

/// The session that the client is attached to, as the reply describes it.
pub fn current_session(output: &str) -> (r: Result<Session, Error>)
    ensures
        outcome(r) == found_or(
            first_of(parse::sessions_in(output@)),
            ErrorView::Tmux("current session not found"@),
        ),
{
    match session_in_reply(output) {
        Some(session) => Ok(session),
        None => Err(Error::Tmux { message: "current session not found".to_owned() }),
    }
}

/// The ids of windows.
pub fn window_ids(windows: &Vec<Window>) -> (ids: Vec<String>)
    ensures
        text::texts(ids@) == types::views(windows@).map_values(|w: types::WindowView| w.id),
{
    let ghost all = types::views(windows@).map_values(|w: types::WindowView| w.id);
    let mut ids: Vec<String> = Vec::new();
    let mut i: usize = 0;
    while i < windows.len()
        invariant
            i <= windows@.len(),
            all == types::views(windows@).map_values(|w: types::WindowView| w.id),
            text::texts(ids@) == all.take(i as int),
        decreases windows@.len() - i,
    {
        text::push_text(&mut ids, windows[i].id.as_str());
        proof {
            assert(all.take(i + 1) =~= all.take(i as int).push(all[i as int]));
        }
        i += 1;
    }
    proof {
        assert(all.take(all.len() as int) =~= all);
    }
    ids
}

/// The ids of panes.
pub fn pane_ids(panes: &Vec<Pane>) -> (ids: Vec<String>)
    ensures
        text::texts(ids@) == types::views(panes@).map_values(|p: types::PaneView| p.id),
{
    let ghost all = types::views(panes@).map_values(|p: types::PaneView| p.id);
    let mut ids: Vec<String> = Vec::new();
    let mut i: usize = 0;
    while i < panes.len()
        invariant
            i <= panes@.len(),
            all == types::views(panes@).map_values(|p: types::PaneView| p.id),
            text::texts(ids@) == all.take(i as int),
        decreases panes@.len() - i,
    {
        text::push_text(&mut ids, panes[i].id.as_str());
        proof {
            assert(all.take(i + 1) =~= all.take(i as int).push(all[i as int]));
        }
        i += 1;
    }
    proof {
        assert(all.take(all.len() as int) =~= all);
    }
    ids
}

/// The clients that a reply lists; a server without clients has none.
pub fn clients_from_reply(reply: Result<String, Error>) -> (r: Result<Vec<ClientInfo>, Error>)
    ensures
        match reply {
            Ok(output) => r is Ok && types::views(r->Ok_0@) == parse::clients_in(output@),
            Err(error) => if invoke::failed_with(error@, "no clients"@) {
                r is Ok && r->Ok_0@.len() == 0
            } else {
                r == Err::<Vec<ClientInfo>, Error>(error)
            },
        },
{
    match reply {
        Ok(output) => Ok(parse::parse_clients(output.as_str())),
        Err(error) => if invoke::error_says(&error, "no clients") {
            Ok(Vec::new())
        } else {
            Err(error)
        },
    }
}

/// The paste buffers that a reply lists; a server without buffers has none.
pub fn buffers_from_reply(reply: Result<String, Error>) -> (r: Result<Vec<BufferInfo>, Error>)
    ensures
        match reply {
            Ok(output) => r is Ok && types::views(r->Ok_0@) == parse::buffers_in(output@),
            Err(error) => if invoke::failed_with(error@, "no buffers"@) {
                r is Ok && r->Ok_0@.len() == 0
            } else {
                r == Err::<Vec<BufferInfo>, Error>(error)
            },
        },
{
    match reply {
        Ok(output) => Ok(parse::parse_buffers(output.as_str())),
        Err(error) => if invoke::error_says(&error, "no buffers") {
            Ok(Vec::new())
        } else {
            Err(error)
        },
    }
}

/// Law: a pane that was not there before the split is recognised as the new one, wherever the
/// other panes were there.
pub proof fn law_split_finds_new(
    panes: Seq<types::PaneView>,
    known: Seq<Seq<char>>,
    pane_id: Seq<char>,
    k: int,
)
    requires
        0 <= k < panes.len(),
        !known.contains(panes[k].id),
        forall|i: int| 0 <= i < panes.len() && i != k ==> known.contains((#[trigger] panes[i]).id),
    ensures
        split_made(panes, known, pane_id) == Some(panes[k]),
{
    let test = |p: types::PaneView| !known.contains(p.id);
    assert forall|i: int| 0 <= i < k implies !test(#[trigger] panes[i]) by {
        assert(known.contains(panes[i].id));
    }
    lemma_first_where(panes, test, k);
    assert(panes.skip(k)[0] == panes[k]);
}

/// Law: the first item that a test accepts is accepted, and none before it is.
pub proof fn law_first_where<V>(items: Seq<V>, test: spec_fn(V) -> bool)
    ensures
        match first_where(items, test) {
            Some(item) => exists|k: int|
                {
                    &&& 0 <= k < items.len()
                    &&& #[trigger] items[k] == item
                    &&& test(items[k])
                    &&& forall|i: int| 0 <= i < k ==> !test(#[trigger] items[i])
                },
            None => forall|i: int| 0 <= i < items.len() ==> !test(#[trigger] items[i]),
        },
    decreases items.len(),
{
    if items.len() > 0 && !test(items[0]) {
        let rest = items.skip(1);
        law_first_where(rest, test);
        assert forall|i: int| 1 <= i < items.len() implies #[trigger] items[i] == rest[i - 1] by {}
        if let Some(item) = first_where(rest, test) {
            let k = choose|k: int|
                {
                    &&& 0 <= k < rest.len()
                    &&& #[trigger] rest[k] == item
                    &&& test(rest[k])
                    &&& forall|i: int| 0 <= i < k ==> !test(#[trigger] rest[i])
                };
            assert(items[k + 1] == item);
            assert forall|i: int| 0 <= i < k + 1 implies !test(#[trigger] items[i]) by {
                if i > 0 {
                    assert(rest[i - 1] == items[i]);
                }
            }
        }
    }
}

/// Law: a session that was just made is found by its name: the first one that has just this name,
/// and none where there is no such session.
pub proof fn law_session_by_name(sessions: Seq<types::SessionView>, name: Seq<char>, k: int)
    requires
        0 <= k <= sessions.len(),
        forall|i: int| 0 <= i < k ==> (#[trigger] sessions[i]).name != name,
        k < sessions.len() ==> sessions[k].name == name,
    ensures
        session_named(sessions, name) == if k < sessions.len() {
            Some(sessions[k])
        } else {
            None
        },
{
    let test = |s: types::SessionView| s.name == name;
    lemma_first_where(sessions, test, k);
    if k < sessions.len() {
        assert(sessions.skip(k)[0] == sessions[k]);
    }
}

/// Law: a window that was just made is found by its name: the first one that has just this name,
/// and none where there is no such window.
pub proof fn law_window_by_name(windows: Seq<types::WindowView>, name: Seq<char>, k: int)
    requires
        0 <= k <= windows.len(),
        forall|i: int| 0 <= i < k ==> (#[trigger] windows[i]).name != name,
        k < windows.len() ==> windows[k].name == name,
    ensures
        window_named(windows, name) == if k < windows.len() {
            Some(windows[k])
        } else {
            None
        },
{
    let test = |w: types::WindowView| w.name == name;
    lemma_first_where(windows, test, k);
    if k < windows.len() {
        assert(windows.skip(k)[0] == windows[k]);
    }
}

/// Law: where a split has added no pane that was not known, the first active pane other than the
/// one that was split counts as the new one, and where there is none, nothing does.
pub proof fn law_split_falls_back(
    panes: Seq<types::PaneView>,
    known: Seq<Seq<char>>,
    pane_id: Seq<char>,
    k: int,
)
    requires
        forall|i: int| 0 <= i < panes.len() ==> known.contains((#[trigger] panes[i]).id),
        0 <= k <= panes.len(),
        forall|i: int|
            0 <= i < k ==> !(#[trigger] panes[i]).active || panes[i].id == pane_id,
        k < panes.len() ==> panes[k].active && panes[k].id != pane_id,
    ensures
        split_made(panes, known, pane_id) == if k < panes.len() {
            Some(panes[k])
        } else {
            None
        },
{
    let new = |p: types::PaneView| !known.contains(p.id);
    let active = |p: types::PaneView| p.active && p.id != pane_id;
    lemma_first_where(panes, new, panes.len() as int);
    lemma_first_where(panes, active, k);
    if k < panes.len() {
        assert(panes.skip(k)[0] == panes[k]);
    }
}

/// Law: a window that was not there before is the one that a pane was broken out into. Where there
/// is none, the first with the name that was asked for is, and nothing where no name was.
pub proof fn law_break_finds_new(
    windows: Seq<types::WindowView>,
    known: Seq<Seq<char>>,
    name: Option<Seq<char>>,
    k: int,
)
    requires
        0 <= k <= windows.len(),
        forall|i: int| 0 <= i < k ==> known.contains((#[trigger] windows[i]).id),
        k < windows.len() ==> !known.contains(windows[k].id),
    ensures
        k < windows.len() ==> break_made(windows, known, name) == Some(windows[k]),
        k == windows.len() && name is None ==> break_made(windows, known, name) is None,
        k == windows.len() && name is Some ==> match break_made(windows, known, name) {
            Some(w) => windows.contains(w) && Some(w.name) == name,
            None => forall|i: int|
                0 <= i < windows.len() ==> Some((#[trigger] windows[i]).name) != name,
        },
{
    let new = |w: types::WindowView| !known.contains(w.id);
    lemma_first_where(windows, new, k);
    if k < windows.len() {
        assert(windows.skip(k)[0] == windows[k]);
    } else if let Some(name) = name {
        let test = |w: types::WindowView| w.name == name;
        law_first_where(windows, test);
        assert forall|i: int| 0 <= i < windows.len() implies test(#[trigger] windows[i]) == (
        windows[i].name == name) by {}
    }
}

/// Law: what a reply describes is its first row, and nothing where it has none.
pub proof fn law_first_of<V>(items: Seq<V>, error: ErrorView)
    ensures
        items.len() == 0 ==> first_of(items) is None,
        items.len() > 0 ==> first_of(items) == Some(items[0]),
        items.len() == 0 ==> found_or(first_of(items), error) == Err::<V, ErrorView>(error),
        items.len() > 0 ==> found_or(first_of(items), error) == Ok::<V, ErrorView>(items[0]),
{
}

} // verus!
