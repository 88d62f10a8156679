//! What listings are read back as.

use vstd::prelude::*;

use crate::numbers;
use crate::text;
use crate::tmux::parse;
use crate::types;

verus! {

/// Pieces with a separator between them.
pub open spec fn joined_by(parts: Seq<Seq<char>>, sep: char) -> Seq<char>
    decreases parts.len(),
{
    if parts.len() == 0 {
        Seq::empty()
    } else if parts.len() == 1 {
        parts[0]
    } else {
        joined_by(parts.drop_last(), sep) + seq![sep] + parts.last()
    }
}

/// Whether a text holds neither a tab nor a line feed.
pub open spec fn clean(s: Seq<char>) -> bool {
    forall|i: int| 0 <= i < s.len() ==> #[trigger] s[i] != '\t' && s[i] != '\n'
}

/// Whether a text holds no separator.
pub open spec fn free_of(s: Seq<char>, sep: char) -> bool {
    forall|i: int| 0 <= i < s.len() ==> #[trigger] s[i] != sep
}

/// Text without a separator goes into the last field.
proof fn lemma_fields_append(s: Seq<char>, t: Seq<char>, is_sep: spec_fn(char) -> bool)
    requires
        forall|i: int| 0 <= i < t.len() ==> !is_sep(#[trigger] t[i]),
    ensures
        text::fields_where(s, is_sep).len() > 0,
        text::fields_where(s + t, is_sep) == text::fields_where(s, is_sep).drop_last().push(
            text::fields_where(s, is_sep).last() + t,
        ),
    decreases t.len(),
{
    lemma_fields_some(s, is_sep);
    let before = text::fields_where(s, is_sep);
    if t.len() == 0 {
        assert(s + t =~= s);
        assert(before.last() + t =~= before.last());
        assert(before.drop_last().push(before.last()) =~= before);
    } else {
        let init = t.drop_last();
        lemma_fields_append(s, init, is_sep);
        assert((s + t).drop_last() =~= s + init);
        assert((s + t).last() == t[t.len() - 1]);
        let inner = text::fields_where(s + init, is_sep);
        assert(inner.drop_last() =~= before.drop_last());
        assert(inner.last().push(t.last()) =~= before.last() + t);
    }
}

/// There is at least one field.
proof fn lemma_fields_some(s: Seq<char>, is_sep: spec_fn(char) -> bool)
    ensures
        text::fields_where(s, is_sep).len() > 0,
    decreases s.len(),
{
    if s.len() > 0 {
        lemma_fields_some(s.drop_last(), is_sep);
    }
}

/// Splitting at the separator undoes the joining of pieces that do not hold it.
proof fn lemma_fields_of_joined(parts: Seq<Seq<char>>, sep: char)
    requires
        parts.len() > 0,
        forall|i: int| 0 <= i < parts.len() ==> free_of(#[trigger] parts[i], sep),
    ensures
        text::fields(joined_by(parts, sep), sep) == parts,
    decreases parts.len(),
{
    let is_sep = text::is_char(sep);
    let last = parts.last();
    assert(free_of(parts[parts.len() - 1], sep));
    if parts.len() == 1 {
        let none = Seq::<char>::empty();
        lemma_fields_append(none, last, is_sep);
        assert(none + last =~= last);
        assert(text::fields_where(none, is_sep) =~= seq![none]);
        assert(text::fields(joined_by(parts, sep), sep) =~= parts);
    } else {
        let init = parts.drop_last();
        assert forall|i: int| 0 <= i < init.len() implies free_of(#[trigger] init[i], sep) by {
            assert(init[i] == parts[i]);
        }
        lemma_fields_of_joined(init, sep);
        let head = joined_by(init, sep);
        let more = head + seq![sep];
        assert(more.drop_last() =~= head);
        assert(more.last() == sep);
        let fields = text::fields_where(more, is_sep);
        assert(text::fields_where(head, is_sep) == init);
        assert(fields == init.push(Seq::<char>::empty()));
        lemma_fields_append(more, last, is_sep);
        assert(fields.drop_last() =~= init);
        assert(Seq::<char>::empty() + last =~= last);
        assert(init.push(last) =~= parts);
    }
}

/// Whether a text can stand on a line of its own and be read back as it is.
pub open spec fn is_line(s: Seq<char>) -> bool {
    &&& free_of(s, '\n')
    &&& s.len() > 0
    &&& s.last() != '\r'
}

/// Reading lines undoes putting lines one under the other.
proof fn lemma_lines_of_joined(lines: Seq<Seq<char>>)
    requires
        forall|i: int| 0 <= i < lines.len() ==> is_line(#[trigger] lines[i]),
    ensures
        text::lines_of(joined_by(lines, '\n')) == lines,
{
    let whole = joined_by(lines, '\n');
    if lines.len() == 0 {
        assert(text::fields(whole, '\n') =~= seq![Seq::<char>::empty()]);
        assert(text::lines_of(whole) =~= lines);
    } else {
        assert forall|i: int| 0 <= i < lines.len() implies free_of(#[trigger] lines[i], '\n') by {
            assert(is_line(lines[i]));
        }
        lemma_fields_of_joined(lines, '\n');
        assert(is_line(lines[lines.len() - 1]));
        let ended = lines.drop_last().map_values(|line: Seq<char>| text::without_cr(line));
        assert(ended =~= lines.drop_last()) by {
            assert forall|i: int| 0 <= i < ended.len() implies ended[i] == lines[i] by {
                assert(is_line(lines[i]));
            }
        }
        assert(lines.drop_last().push(lines.last()) =~= lines);
    }
}

/// Lines that are each read as an item are read as the items.
proof fn lemma_rows<V>(
    lines: Seq<Seq<char>>,
    read: spec_fn(int, Seq<Seq<char>>) -> Option<V>,
    items: Seq<V>,
)
    requires
        lines.len() == items.len(),
        forall|i: int|
            0 <= i < lines.len() ==> read(i, text::fields(#[trigger] lines[i], '\t')) == Some(
                items[i],
            ),
    ensures
        parse::rows(lines, read) == items,
    decreases lines.len(),
{
    if lines.len() == 0 {
        assert(parse::rows(lines, read) =~= items);
    } else {
        let k = lines.len() - 1;
        assert(read(k, text::fields(lines[k], '\t')) == Some(items[k]));
        assert forall|i: int| 0 <= i < lines.drop_last().len() implies read(
            i,
            text::fields(#[trigger] lines.drop_last()[i], '\t'),
        ) == Some(items.drop_last()[i]) by {
            assert(lines.drop_last()[i] == lines[i]);
        }
        lemma_rows(lines.drop_last(), read, items.drop_last());
        assert(items.drop_last().push(items.last()) =~= items);
    }
}

/// A flag as a field.
pub open spec fn flag_text(on: bool) -> Seq<char> {
    if on {
        seq!['1']
    } else {
        seq!['0']
    }
}

/// An optional number as a field: empty where there is none.
pub open spec fn number_text(n: Option<nat>) -> Seq<char> {
    match n {
        Some(n) => numbers::decimal_text(n),
        None => Seq::empty(),
    }
}

/// Digits are neither separators nor carriage returns.
proof fn lemma_digits_clean(n: nat)
    ensures
        clean(numbers::decimal_text(n)),
        numbers::decimal_text(n).len() > 0,
        numbers::decimal_text(n).last() != '\r',
{
    numbers::lemma_decimal_text(n);
    let digits = numbers::decimal_text(n);
    assert forall|i: int| 0 <= i < digits.len() implies #[trigger] digits[i] != '\t' && digits[i]
        != '\n' by {
        assert(numbers::decimal_digit(digits[i]));
    }
    assert(numbers::decimal_digit(digits[digits.len() - 1]));
}

/// Clean fields make a line that is read back as the fields.
proof fn lemma_clean_line(parts: Seq<Seq<char>>)
    requires
        parts.len() > 1,
        forall|i: int| 0 <= i < parts.len() ==> clean(#[trigger] parts[i]),
        parts.last().len() == 0 || parts.last().last() != '\r',
    ensures
        is_line(joined_by(parts, '\t')),
        text::fields(joined_by(parts, '\t'), '\t') == parts,
{
    assert forall|i: int| 0 <= i < parts.len() implies free_of(#[trigger] parts[i], '\t') by {
        assert(clean(parts[i]));
    }
    lemma_fields_of_joined(parts, '\t');
    lemma_joined_free(parts);
    let line = joined_by(parts, '\t');
    if parts.last().len() == 0 {
        assert(line.last() == '\t');
    } else {
        assert(line.last() == parts.last().last());
    }
}

/// Joining clean fields makes no line feed.
proof fn lemma_joined_free(parts: Seq<Seq<char>>)
    requires
        forall|i: int| 0 <= i < parts.len() ==> clean(#[trigger] parts[i]),
    ensures
        free_of(joined_by(parts, '\t'), '\n'),
    decreases parts.len(),
{
    if parts.len() == 1 {
        assert(clean(parts[0]));
    } else if parts.len() > 1 {
        let init = parts.drop_last();
        assert forall|i: int| 0 <= i < init.len() implies clean(#[trigger] init[i]) by {
            assert(init[i] == parts[i]);
        }
        lemma_joined_free(init);
        assert(clean(parts[parts.len() - 1]));
        let head = joined_by(init, '\t');
        let line = joined_by(parts, '\t');
        assert forall|i: int| 0 <= i < line.len() implies #[trigger] line[i] != '\n' by {
            if i < head.len() {
                assert(line[i] == head[i]);
            } else if i > head.len() {
                assert(line[i] == parts.last()[i - head.len() - 1]);
            }
        }
    }
}

/// The fields of a session.
pub open spec fn session_fields(s: types::SessionView) -> Seq<Seq<char>> {
    seq![s.id, s.name, flag_text(s.attached), numbers::decimal_text(s.windows as nat)]
}

/// The fields of a window.
pub open spec fn window_fields(w: types::WindowView) -> Seq<Seq<char>> {
    seq![w.id, w.name, flag_text(w.active)]
}

/// The fields of a pane.
pub open spec fn pane_fields(p: types::PaneView) -> Seq<Seq<char>> {
    seq![p.id, p.title, flag_text(p.active)]
}

/// The fields of a client.
pub open spec fn client_fields(c: types::ClientView) -> Seq<Seq<char>> {
    let pid = match c.pid {
        Some(n) => Some(n as nat),
        None => None,
    };
    seq![c.tty, c.name, c.session_name, number_text(pid), flag_text(c.attached)]
}

/// The fields of a paste buffer.
pub open spec fn buffer_fields(b: types::BufferView) -> Seq<Seq<char>> {
    let created = match b.created {
        Some(n) => Some(n as nat),
        None => None,
    };
    seq![b.name, numbers::decimal_text(b.size_bytes as nat), number_text(created)]
}

/// A listing of items, one a line, their fields with tabs between them.
pub open spec fn listing<V>(items: Seq<V>, fields: spec_fn(V) -> Seq<Seq<char>>) -> Seq<char> {
    joined_by(items.map_values(|item: V| joined_by(fields(item), '\t')), '\n')
}

/// A listing whose lines are each read back as the item that they show is read back as the
/// items.
proof fn lemma_listing<V>(
    items: Seq<V>,
    fields: spec_fn(V) -> Seq<Seq<char>>,
    read: spec_fn(int, Seq<Seq<char>>) -> Option<V>,
)
    requires
        forall|i: int|
            0 <= i < items.len() ==> {
                let line = joined_by(fields(#[trigger] items[i]), '\t');
                &&& is_line(line)
                &&& read(i, text::fields(line, '\t')) == Some(items[i])
            },
    ensures
        parse::rows(text::lines_of(listing(items, fields)), read) == items,
{
    let lines = items.map_values(|item: V| joined_by(fields(item), '\t'));
    assert forall|i: int| 0 <= i < lines.len() implies is_line(#[trigger] lines[i]) by {
        assert(lines[i] == joined_by(fields(items[i]), '\t'));
    }
    lemma_lines_of_joined(lines);
    assert forall|i: int| 0 <= i < lines.len() implies read(
        i,
        text::fields(#[trigger] lines[i], '\t'),
    ) == Some(items[i]) by {
        assert(lines[i] == joined_by(fields(items[i]), '\t'));
    }
    lemma_rows(lines, read, items);
}

/// A flag is read back.
proof fn lemma_flag(on: bool)
    ensures
        parse::flag(flag_text(on)) == on,
        clean(flag_text(on)),
{
    if !on {
        assert(seq!['0'][0] != seq!['1'][0]);
    }
}

/// A number is read back, and so is none.
proof fn lemma_number(n: Option<nat>, max: nat)
    requires
        n is Some ==> n->0 <= max,
    ensures
        numbers::unsigned_value(number_text(n), max) == n,
        clean(number_text(n)),
        number_text(n).len() == 0 || number_text(n).last() != '\r',
{
    match n {
        Some(n) => {
            numbers::law_decimal_round_trip(n, max);
            lemma_digits_clean(n);
        },
        None => {},
    }
}

/// Law: a listing of sessions whose ids and names hold neither tabs nor line feeds is read back
/// as the sessions.
pub proof fn law_sessions_read_back(sessions: Seq<types::SessionView>)
    requires
        forall|i: int|
            0 <= i < sessions.len() ==> clean((#[trigger] sessions[i]).id) && clean(
                sessions[i].name,
            ),
    ensures
        parse::sessions_in(listing(sessions, |s: types::SessionView| session_fields(s)))
            == sessions,
{
    let fields = |s: types::SessionView| session_fields(s);
    let read = |i: int, parts: Seq<Seq<char>>| parse::session_row(parts);
    assert forall|i: int| 0 <= i < sessions.len() implies {
        let line = joined_by(fields(#[trigger] sessions[i]), '\t');
        &&& is_line(line)
        &&& read(i, text::fields(line, '\t')) == Some(sessions[i])
    } by {
        let s = sessions[i];
        lemma_flag(s.attached);
        lemma_digits_clean(s.windows as nat);
        numbers::law_decimal_round_trip(s.windows as nat, u32::MAX as nat);
        lemma_clean_line(session_fields(s));
    }
    lemma_listing(sessions, fields, read);
}

/// Law: a listing of the windows of a session whose ids and names hold neither tabs nor line
/// feeds is read back as the windows.
pub proof fn law_windows_read_back(windows: Seq<types::WindowView>, session_id: Seq<char>)
    requires
        forall|i: int|
            0 <= i < windows.len() ==> clean((#[trigger] windows[i]).id) && clean(windows[i].name)
                && windows[i].session_id == session_id,
    ensures
        parse::windows_in(listing(windows, |w: types::WindowView| window_fields(w)), session_id)
            == windows,
{
    let fields = |w: types::WindowView| window_fields(w);
    let read = |i: int, parts: Seq<Seq<char>>| parse::window_row(parts, session_id);
    assert forall|i: int| 0 <= i < windows.len() implies {
        let line = joined_by(fields(#[trigger] windows[i]), '\t');
        &&& is_line(line)
        &&& read(i, text::fields(line, '\t')) == Some(windows[i])
    } by {
        lemma_flag(windows[i].active);
        lemma_clean_line(window_fields(windows[i]));
    }
    lemma_listing(windows, fields, read);
}

/// Law: a listing of the panes of a window whose ids and titles hold neither tabs nor line feeds
/// is read back as the panes.
pub proof fn law_panes_read_back(panes: Seq<types::PaneView>, window_id: Seq<char>)
    requires
        forall|i: int|
            0 <= i < panes.len() ==> clean((#[trigger] panes[i]).id) && clean(panes[i].title)
                && panes[i].window_id == window_id,
    ensures
        parse::panes_in(listing(panes, |p: types::PaneView| pane_fields(p)), window_id) == panes,
{
    let fields = |p: types::PaneView| pane_fields(p);
    let read = |i: int, parts: Seq<Seq<char>>| parse::pane_row(parts, window_id);
    assert forall|i: int| 0 <= i < panes.len() implies {
        let line = joined_by(fields(#[trigger] panes[i]), '\t');
        &&& is_line(line)
        &&& read(i, text::fields(line, '\t')) == Some(panes[i])
    } by {
        lemma_flag(panes[i].active);
        lemma_clean_line(pane_fields(panes[i]));
    }
    lemma_listing(panes, fields, read);
}

/// Law: a listing of clients whose texts hold neither tabs nor line feeds is read back as the
/// clients.
pub proof fn law_clients_read_back(clients: Seq<types::ClientView>)
    requires
        forall|i: int|
            0 <= i < clients.len() ==> clean((#[trigger] clients[i]).tty) && clean(clients[i].name)
                && clean(clients[i].session_name),
    ensures
        parse::clients_in(listing(clients, |c: types::ClientView| client_fields(c))) == clients,
{
    let fields = |c: types::ClientView| client_fields(c);
    let read = |i: int, parts: Seq<Seq<char>>| parse::client_row(parts);
    assert forall|i: int| 0 <= i < clients.len() implies {
        let line = joined_by(fields(#[trigger] clients[i]), '\t');
        &&& is_line(line)
        &&& read(i, text::fields(line, '\t')) == Some(clients[i])
    } by {
        let c = clients[i];
        let pid = match c.pid {
            Some(n) => Some(n as nat),
            None => None,
        };
        lemma_flag(c.attached);
        lemma_number(pid, u32::MAX as nat);
        lemma_clean_line(client_fields(c));
    }
    lemma_listing(clients, fields, read);
}

/// Law: a listing of paste buffers whose names hold neither tabs nor line feeds is read back as
/// the buffers, numbered from the top.
pub proof fn law_buffers_read_back(buffers: Seq<types::BufferView>)
    requires
        forall|i: int|
            0 <= i < buffers.len() ==> {
                let b = #[trigger] buffers[i];
                &&& clean(b.name)
                &&& b.size == if b.size_bytes > u32::MAX {
                    u32::MAX
                } else {
                    b.size_bytes as u32
                }
                &&& b.order_index == (i as usize) as u32
            },
    ensures
        parse::buffers_in(listing(buffers, |b: types::BufferView| buffer_fields(b))) == buffers,
{
    let fields = |b: types::BufferView| buffer_fields(b);
    let read = |i: int, parts: Seq<Seq<char>>| parse::buffer_row(i, parts);
    assert forall|i: int| 0 <= i < buffers.len() implies {
        let line = joined_by(fields(#[trigger] buffers[i]), '\t');
        &&& is_line(line)
        &&& read(i, text::fields(line, '\t')) == Some(buffers[i])
    } by {
        let b = buffers[i];
        let created = match b.created {
            Some(n) => Some(n as nat),
            None => None,
        };
        lemma_digits_clean(b.size_bytes as nat);
        numbers::law_decimal_round_trip(b.size_bytes as nat, u64::MAX as nat);
        lemma_number(created, u64::MAX as nat);
        lemma_clean_line(buffer_fields(b));
    }
    lemma_listing(buffers, fields, read);
}

/// Splitting two texts with a separator between them is splitting each of them.
proof fn lemma_fields_concat(a: Seq<char>, b: Seq<char>, sep: char)
    ensures
        text::fields(a + seq![sep] + b, sep) == text::fields(a, sep) + text::fields(b, sep),
{
    text::law_fields(a, b, sep);
}

/// How many lines a text takes up: one more than it holds line feeds.
pub open spec fn height(s: Seq<char>) -> nat {
    text::fields(s, '\n').len()
}

/// A carriage return at the end of a text is at the end of its last field.
proof fn lemma_cr_field(s: Seq<char>)
    ensures
        ({
            let x = text::fields(s, '\n');
            let y = text::fields(text::without_cr(s), '\n');
            &&& x.len() > 0
            &&& x.len() == y.len()
            &&& x.drop_last() == y.drop_last()
            &&& text::without_cr(x.last()) == y.last()
        }),
{
    lemma_fields_some(s, text::is_char('\n'));
    if s.len() > 0 {
        lemma_fields_some(s.drop_last(), text::is_char('\n'));
        let x = text::fields(s, '\n');
        let y = text::fields(s.drop_last(), '\n');
        if s.last() == '\r' {
            assert(x.drop_last() =~= y.drop_last());
            assert(x.last().drop_last() =~= y.last());
        }
    }
}

/// The lines of two texts with a line feed between them are the lines of the first, an empty one
/// where that ends with a line feed, and the lines of the second. A carriage return before the
/// line feed is a part of the end of the line.
proof fn lemma_lines_concat(a: Seq<char>, b: Seq<char>)
    ensures
        ({
            let first = text::lines_of(text::without_cr(a));
            let gap = if first.len() < height(a) {
                seq![Seq::<char>::empty()]
            } else {
                Seq::<Seq<char>>::empty()
            };
            &&& text::lines_of(a + seq!['\n'] + b) == first + gap + text::lines_of(b)
            &&& (first + gap).len() == height(a)
        }),
{
    let x = text::fields(a, '\n');
    let y = text::fields(b, '\n');
    let whole = text::fields(a + seq!['\n'] + b, '\n');
    let first = text::lines_of(text::without_cr(a));
    lemma_fields_concat(a, b, '\n');
    lemma_cr_field(a);
    lemma_fields_some(b, text::is_char('\n'));
    let strip = |line: Seq<char>| text::without_cr(line);
    let gap = if first.len() < height(a) {
        seq![Seq::<char>::empty()]
    } else {
        Seq::<Seq<char>>::empty()
    };
    assert(whole.drop_last() =~= x + y.drop_last());
    assert(whole.last() == y.last());
    assert(whole.drop_last().map_values(strip) =~= x.map_values(strip)
        + y.drop_last().map_values(strip));
    assert(x.drop_last().map_values(strip).push(strip(x.last())) =~= x.map_values(strip));
    assert(first + gap =~= x.map_values(strip));
    assert(text::lines_of(a + seq!['\n'] + b) =~= first + gap + text::lines_of(b));
}

/// The rows of lines and more lines are the rows of the first and those of the others, which are
/// counted on.
proof fn lemma_rows_concat<V>(
    a: Seq<Seq<char>>,
    b: Seq<Seq<char>>,
    read: spec_fn(int, Seq<Seq<char>>) -> Option<V>,
    later: spec_fn(int, Seq<Seq<char>>) -> Option<V>,
)
    requires
        forall|i: int, parts: Seq<Seq<char>>| #[trigger]
            later(i, parts) == read(i + a.len(), parts),
    ensures
        parse::rows(a + b, read) == parse::rows(a, read) + parse::rows(b, later),
    decreases b.len(),
{
    if b.len() == 0 {
        assert(a + b =~= a);
        assert(parse::rows(a, read) + parse::rows(b, later) =~= parse::rows(a, read));
    } else {
        lemma_rows_concat(a, b.drop_last(), read, later);
        assert((a + b).drop_last() =~= a + b.drop_last());
        assert((a + b).last() == b.last());
        let parts = text::fields(b.last(), '\t');
        assert(later(b.len() - 1, parts) == read(b.len() - 1 + a.len(), parts));
        assert(parse::rows(a + b, read) =~= parse::rows(a, read) + parse::rows(b, later));
    }
}

/// The rows of two listings with a line feed between them, where an empty line makes no row.
proof fn lemma_listing_concat<V>(
    a: Seq<char>,
    b: Seq<char>,
    read: spec_fn(int, Seq<Seq<char>>) -> Option<V>,
    later: spec_fn(int, Seq<Seq<char>>) -> Option<V>,
)
    requires
        forall|i: int, parts: Seq<Seq<char>>| #[trigger]
            later(i, parts) == read(i + height(a), parts),
        forall|i: int, parts: Seq<Seq<char>>|
            parts.len() == 1 ==> #[trigger] read(i, parts) is None,
    ensures
        parse::rows(text::lines_of(a + seq!['\n'] + b), read) == parse::rows(
            text::lines_of(text::without_cr(a)),
            read,
        ) + parse::rows(text::lines_of(b), later),
{
    let x = text::lines_of(text::without_cr(a));
    let none = Seq::<char>::empty();
    lemma_lines_concat(a, b);
    if x.len() < height(a) {
        let longer = x + seq![none];
        assert(longer.drop_last() =~= x);
        assert(longer.last() == none);
        assert(text::fields(none, '\t').len() == 1);
        assert(read(longer.len() - 1, text::fields(none, '\t')) is None);
        assert(parse::rows(longer, read) == parse::rows(x, read));
        lemma_rows_concat(longer, text::lines_of(b), read, later);
    } else {
        assert(x + Seq::<Seq<char>>::empty() =~= x);
        lemma_rows_concat(x, text::lines_of(b), read, later);
    }
}

/// Law: the rows of two listings with a line feed between them are the rows of the first, then
/// those of the second. A carriage return at the end of the first goes with the line feed.
pub proof fn law_listings_joined(a: Seq<char>, b: Seq<char>, owner: Seq<char>)
    ensures
        parse::sessions_in(a + seq!['\n'] + b) == parse::sessions_in(text::without_cr(a))
            + parse::sessions_in(b),
        parse::windows_in(a + seq!['\n'] + b, owner) == parse::windows_in(
            text::without_cr(a),
            owner,
        ) + parse::windows_in(b, owner),
        parse::panes_in(a + seq!['\n'] + b, owner) == parse::panes_in(text::without_cr(a), owner)
            + parse::panes_in(b, owner),
        parse::clients_in(a + seq!['\n'] + b) == parse::clients_in(text::without_cr(a))
            + parse::clients_in(b),
{
    let session = |i: int, parts: Seq<Seq<char>>| parse::session_row(parts);
    let window = |i: int, parts: Seq<Seq<char>>| parse::window_row(parts, owner);
    let pane = |i: int, parts: Seq<Seq<char>>| parse::pane_row(parts, owner);
    let client = |i: int, parts: Seq<Seq<char>>| parse::client_row(parts);
    lemma_listing_concat(a, b, session, session);
    lemma_listing_concat(a, b, window, window);
    lemma_listing_concat(a, b, pane, pane);
    lemma_listing_concat(a, b, client, client);
}

/// Law: the same holds of listings of paste buffers, which are numbered by their lines: those of
/// the second listing are counted on from the lines of the first.
pub proof fn law_buffer_listings_joined(a: Seq<char>, b: Seq<char>)
    ensures
        parse::buffers_in(a + seq!['\n'] + b) == parse::buffers_in(text::without_cr(a))
            + parse::rows(
            text::lines_of(b),
            |i: int, parts: Seq<Seq<char>>| parse::buffer_row(i + height(a), parts),
        ),
{
    let read = |i: int, parts: Seq<Seq<char>>| parse::buffer_row(i, parts);
    let later = |i: int, parts: Seq<Seq<char>>| parse::buffer_row(i + height(a), parts);
    lemma_listing_concat(a, b, read, later);
}

/// The number that a field writes, or zero where it writes none that fits.
pub open spec fn number_or_zero(field: Seq<char>) -> u32 {
    match numbers::unsigned_value(field, 0xffff_ffff) {
        Some(n) => n as u32,
        None => 0,
    }
}

/// A single line is read as its fields.
proof fn lemma_single_line<V>(
    parts: Seq<Seq<char>>,
    read: spec_fn(int, Seq<Seq<char>>) -> Option<V>,
)
    requires
        parts.len() > 1,
        forall|i: int| 0 <= i < parts.len() ==> clean(#[trigger] parts[i]),
        parts.last().len() == 0 || parts.last().last() != '\r',
    ensures
        parse::rows(text::lines_of(joined_by(parts, '\t')), read) == match read(0, parts) {
            Some(row) => seq![row],
            None => Seq::empty(),
        },
{
    let line = joined_by(parts, '\t');
    lemma_clean_line(parts);
    let one = seq![line];
    assert(joined_by(one, '\n') == line);
    assert forall|i: int| 0 <= i < one.len() implies is_line(#[trigger] one[i]) by {}
    lemma_lines_of_joined(one);
    assert(one.drop_last() =~= Seq::<Seq<char>>::empty());
    assert(one.last() == line);
    assert(parse::rows(one.drop_last(), read) =~= Seq::<V>::empty());
    match read(0, parts) {
        Some(row) => {
            assert(parse::rows(one, read) =~= seq![row]);
        },
        None => {},
    }
}

/// Law: what a line of a listing of sessions, windows, panes or clients is read as. Its fields stand
/// in a fixed order; a flag is set exactly where its field is a one; a number that cannot be read
/// counts as zero, or as none. More fields than are needed do no harm; a line with fewer is left
/// out.
pub proof fn law_one_row(parts: Seq<Seq<char>>, owner: Seq<char>)
    requires
        parts.len() > 1,
        forall|i: int| 0 <= i < parts.len() ==> clean(#[trigger] parts[i]),
        parts.last().len() == 0 || parts.last().last() != '\r',
    ensures
        ({
            let line = joined_by(parts, '\t');
            let sessions = parse::sessions_in(line);
            let windows = parse::windows_in(line, owner);
            let panes = parse::panes_in(line, owner);
            let clients = parse::clients_in(line);
            &&& parts.len() < 4 ==> sessions.len() == 0
            &&& parts.len() >= 4 ==> sessions.len() == 1 && sessions[0].id == parts[0]
                && sessions[0].name == parts[1] && sessions[0].attached == (parts[2] == seq!['1'])
                && sessions[0].windows == number_or_zero(parts[3])
            &&& parts.len() < 3 ==> windows.len() == 0
            &&& parts.len() >= 3 ==> windows.len() == 1 && windows[0].id == parts[0]
                && windows[0].name == parts[1] && windows[0].active == (parts[2] == seq!['1'])
                && windows[0].session_id == owner
            &&& parts.len() < 3 ==> panes.len() == 0
            &&& parts.len() >= 3 ==> panes.len() == 1 && panes[0].id == parts[0] && panes[0].title
                == parts[1] && panes[0].active == (parts[2] == seq!['1']) && panes[0].window_id
                == owner
            &&& parts.len() < 5 ==> clients.len() == 0
            &&& parts.len() >= 5 ==> clients.len() == 1 && clients[0].tty == parts[0]
                && clients[0].name == parts[1] && clients[0].session_name == parts[2]
                && clients[0].attached == (parts[4] == seq!['1']) && (clients[0].pid is Some
                <==> numbers::unsigned_value(parts[3], 0xffff_ffff) is Some) && (
            clients[0].pid is Some ==> clients[0].pid->0 == number_or_zero(parts[3]))
        }),
{
    lemma_single_line(parts, |i: int, parts: Seq<Seq<char>>| parse::session_row(parts));
    lemma_single_line(parts, |i: int, parts: Seq<Seq<char>>| parse::window_row(parts, owner));
    lemma_single_line(parts, |i: int, parts: Seq<Seq<char>>| parse::pane_row(parts, owner));
    lemma_single_line(parts, |i: int, parts: Seq<Seq<char>>| parse::client_row(parts));
}

/// Law: what a line of a listing of paste buffers is read as: the name, the size, which counts as
/// zero where it cannot be read and is also given as far as it fits 32 bits, and the time of the
/// making, where it can be read. The first line has number zero.
pub proof fn law_one_buffer_row(parts: Seq<Seq<char>>)
    requires
        parts.len() > 1,
        forall|i: int| 0 <= i < parts.len() ==> clean(#[trigger] parts[i]),
        parts.last().len() == 0 || parts.last().last() != '\r',
    ensures
        ({
            let buffers = parse::buffers_in(joined_by(parts, '\t'));
            let size = numbers::unsigned_value(parts[1], 0xffff_ffff_ffff_ffff);
            let created = numbers::unsigned_value(parts[2], 0xffff_ffff_ffff_ffff);
            &&& parts.len() < 3 ==> buffers.len() == 0
            &&& parts.len() >= 3 ==> {
                let b = buffers[0];
                &&& buffers.len() == 1
                &&& b.name == parts[0]
                &&& size is Some ==> b.size_bytes == size->0
                &&& size is None ==> b.size_bytes == 0
                &&& b.size_bytes <= 0xffff_ffff ==> b.size == b.size_bytes
                &&& b.size_bytes > 0xffff_ffff ==> b.size == 0xffff_ffff
                &&& b.order_index == 0
                &&& b.created is Some <==> created is Some
                &&& created is Some ==> b.created->0 == created->0
            }
        }),
{
    lemma_single_line(parts, |i: int, parts: Seq<Seq<char>>| parse::buffer_row(i, parts));
}

/// Law: what the fields that describe a pane or a window in detail are read as, in their order.
pub proof fn law_details(parts: Seq<Seq<char>>)
    ensures
        ({
            let p = parse::pane_details(parts);
            let w = parse::window_details(parts);
            let yes = seq!['1'];
            let pid = numbers::unsigned_value(parts[9], 0xffff_ffff);
            &&& p.id == parts[0]
            &&& p.window_id == parts[1]
            &&& p.session_id == parts[2]
            &&& p.active == (parts[3] == yes)
            &&& p.title == parts[4]
            &&& p.current_path == parts[5]
            &&& p.current_command == parts[6]
            &&& p.width == number_or_zero(parts[7])
            &&& p.height == number_or_zero(parts[8])
            &&& p.pid is Some <==> pid is Some
            &&& pid is Some ==> p.pid->0 == pid->0
            &&& p.in_mode == (parts[10] == yes)
            &&& w.id == parts[0]
            &&& w.name == parts[1]
            &&& w.session_id == parts[2]
            &&& w.active == (parts[3] == yes)
            &&& w.layout == parts[4]
            &&& w.panes == number_or_zero(parts[5])
            &&& w.width == number_or_zero(parts[6])
            &&& w.height == number_or_zero(parts[7])
            &&& w.zoomed == (parts[8] == yes)
            &&& w.active_pane_id == parts[9]
        }),
{
}

} // verus!
