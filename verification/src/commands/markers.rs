//! The markers that enclose the output of a command.

use vstd::prelude::*;
use vstd::string::*;
use vstd::utf8::*;

use crate::bytes;
use crate::numbers;
use crate::outside;
use crate::text;
use crate::types::ShellType;

verus! {

/// Prefix for the start marker, followed by command id.
pub const START_MARKER_PREFIX: &'static str = "TMUX_MCP_START_";

/// Prefix for the end marker, followed by command id and exit code.
pub const END_MARKER_PREFIX: &'static str = "TMUX_MCP_DONE_";

/// The start marker of a command.
pub open spec fn start_marker(command_id: Seq<char>) -> Seq<char> {
    START_MARKER_PREFIX@ + command_id
}

/// The end marker of a command, up to the exit code.
pub open spec fn end_prefix(command_id: Seq<char>) -> Seq<char> {
    END_MARKER_PREFIX@ + command_id + "_"@
}

/// How a shell writes the exit code of the last command.
pub open spec fn exit_code_variable(shell: ShellType) -> Seq<char> {
    match shell {
        ShellType::Fish => "$status"@,
        _ => "$?"@,
    }
}

/// The start marker of a command.
pub fn get_start_marker(command_id: &str) -> (r: String)
    ensures
        r@ == start_marker(command_id@),
{
    let mut r = START_MARKER_PREFIX.to_owned();
    r.append(command_id);
    r
}

/// The end marker of a command, up to the exit code.
pub fn end_marker_prefix(command_id: &str) -> (r: String)
    ensures
        r@ == end_prefix(command_id@),
{
    let mut r = END_MARKER_PREFIX.to_owned();
    r.append(command_id);
    r.append("_");
    r
}

/// The end marker of a command, as it is typed: the shell puts in the exit code.
///
/// Fish shell uses `$status` for exit codes, while bash/zsh use `$?`.
pub fn get_end_marker(shell: &ShellType, command_id: &str) -> (r: String)
    ensures
        r@ == end_prefix(command_id@) + exit_code_variable(*shell),
{
    let mut r = end_marker_prefix(command_id);
    match shell {
        ShellType::Fish => r.append("$status"),
        ShellType::Bash | ShellType::Zsh | ShellType::Unknown => r.append("$?"),
    }
    r
}

/// The pattern of an end marker with its exit code.
pub open spec fn end_pattern(command_id: Seq<char>) -> Seq<char> {
    outside::numbered_pattern(end_prefix(command_id))
}

/// The exit code that a row of digits writes.
pub open spec fn exit_code_of(digits: Seq<char>) -> Option<i32> {
    match numbers::unsigned_value(digits, i32::MAX as nat) {
        Some(n) => Some(n as i32),
        None => None,
    }
}

/// The output of a command and its exit code, by what a pane shows. The last end marker with
/// an exit code decides. The output is what stands before it and after the last start marker,
/// or after the beginning where there is no start marker, without white space at its ends.
pub open spec fn command_output(captured: Seq<char>, command_id: Seq<char>) -> Option<
    (Seq<char>, i32),
> {
    let after = text::after_last(captured, start_marker(command_id));
    let mark = end_prefix(command_id);
    if outside::regex_error(end_pattern(command_id)) is Some {
        None
    } else {
        match outside::last_numbered(after, mark) {
            Some(at) => match exit_code_of(outside::number_after(after, mark, at)) {
                Some(code) => Some((text::trimmed(after.take(at)), code)),
                None => None,
            },
            None => None,
        }
    }
}

/// The exit code in a line: that of the first end marker that has one.
pub open spec fn exit_code_in(line: Seq<char>, command_id: Seq<char>) -> Option<i32> {
    let mark = end_prefix(command_id);
    if outside::regex_error(end_pattern(command_id)) is Some {
        None
    } else {
        match outside::first_numbered(line, mark, 0) {
            Some(at) => exit_code_of(outside::number_after(line, mark, at)),
            None => None,
        }
    }
}

/// The pattern of an end marker with its exit code.
fn end_regex(command_id: &str) -> (r: String)
    ensures
        r@ == end_pattern(command_id@),
{
    let mut r = outside::escape_regex(end_marker_prefix(command_id).as_str());
    r.append("(\\d+)");
    r
}

/// Reads an exit code.
fn parse_exit_code(digits: &str) -> (r: Option<i32>)
    ensures
        r == exit_code_of(digits@),
{
    match numbers::parse_unsigned(digits, i32::MAX as u64) {
        Some(n) => Some(n as i32),
        None => None,
    }
}

/// Parses what a pane shows for the output of a command and its exit code.
///
/// The end marker carries the exit code and is authoritative for completion. The start marker
/// only delimits where the output begins, so it may be missing: it can have scrolled out of
/// what was captured. There is nothing where no end marker with a numeric exit code is shown.
pub fn parse_command_output(captured: &str, command_id: &str) -> (r: Option<(String, i32)>)
    ensures
        match r {
            Some(found) => command_output(captured@, command_id@) == Some((found.0@, found.1)),
            None => command_output(captured@, command_id@) is None,
        },
{
    let start = get_start_marker(command_id);
    let after = text::text_after_last(captured, start.as_str());
    let pattern = end_regex(command_id);
    if outside::check_regex(pattern.as_str()).is_err() {
        return None;
    }
    let groups = outside::regex_groups(pattern.as_str(), after.as_str());
    let ghost mark = end_prefix(command_id@);
    let ghost marks = outside::numbered_marks(after@, mark, 0);
    proof {
        assert(outside::groups_of(after@, mark, groups@));
    }
    if groups.len() == 0 {
        return None;
    }
    let last = groups.len() - 1;
    let found = groups[last].0;
    proof {
        let at = marks.last();
        outside::lemma_numbered_marks(after@, mark, 0);
        assert(0 <= marks[last as int] < after@.len());
        bytes::lemma_char_offset(after@, 0, at);
        assert(after@.subrange(0, at) =~= after@.take(at));
        encode_utf8_decode_utf8(after@.take(at));
        bytes::lemma_text_bytes(after@);
        assert(groups@[last as int].0 == bytes::char_offset(after@, at));
    }
    let before = bytes::slice(after.as_str(), 0, found);
    match &groups[last].1 {
        Some(digits) => match parse_exit_code(digits.as_str()) {
            Some(code) => Some((text::trim(before), code)),
            None => None,
        },
        None => None,
    }
}

/// Extracts the exit code from a line with an end marker.
pub fn extract_exit_code(line: &str, command_id: &str) -> (r: Option<i32>)
    ensures
        r == exit_code_in(line@, command_id@),
{
    let prefix = end_marker_prefix(command_id);
    if !text::contains(line, prefix.as_str()) {
        proof {
            outside::lemma_first_numbered(line@, prefix@, 0);
        }
        return None;
    }
    let pattern = end_regex(command_id);
    if outside::check_regex(pattern.as_str()).is_err() {
        return None;
    }
    match outside::first_regex_group(pattern.as_str(), line) {
        Some(digits) => parse_exit_code(digits.as_str()),
        None => None,
    }
}

/// The digits of a number are digits of a pattern, too.
pub proof fn lemma_decimal_run(s: Seq<char>, at: int, n: nat)
    requires
        text::occurs_at(s, numbers::decimal_text(n), at),
        at + numbers::decimal_text(n).len() == s.len() || !outside::pattern_digit(
            s[at + numbers::decimal_text(n).len()],
        ),
    ensures
        outside::digit_run(s, at) == numbers::decimal_text(n).len(),
{
    let digits = numbers::decimal_text(n);
    numbers::lemma_decimal_text(n);
    assert forall|i: int| at <= i < at + digits.len() implies outside::pattern_digit(
        #[trigger] s[i],
    ) by {
        assert(s.subrange(at, at + digits.len())[i - at] == s[i]);
        assert(numbers::decimal_digit(digits[i - at]));
    }
    lemma_run_length(s, at, at + digits.len());
}

/// A run of digits ends where the digits end.
proof fn lemma_run_length(s: Seq<char>, from: int, to: int)
    requires
        0 <= from <= to <= s.len(),
        forall|i: int| from <= i < to ==> outside::pattern_digit(#[trigger] s[i]),
        to == s.len() || !outside::pattern_digit(s[to]),
    ensures
        outside::digit_run(s, from) == to - from,
    decreases to - from,
{
    if from < to {
        assert(outside::pattern_digit(s[from]));
        lemma_run_length(s, from + 1, to);
    }
}

/// In an id without the letter that begins an end marker no end marker begins, so no marker runs
/// into the next one.
proof fn lemma_markers_apart(s: Seq<char>, command_id: Seq<char>, i: int, at: int)
    requires
        !command_id.contains('T'),
        outside::numbered_at(s, end_prefix(command_id), i),
        outside::numbered_at(s, end_prefix(command_id), at),
        0 <= i < at,
    ensures
        outside::numbered_end(s, end_prefix(command_id), i) <= at,
{
    let mark = end_prefix(command_id);
    let end = outside::numbered_end(s, mark, i);
    reveal_strlit("TMUX_MCP_DONE_");
    reveal_strlit("_");
    assert(mark[0] == 'T');
    outside::lemma_digit_run(s, i + mark.len());
    assert(s.subrange(at, at + mark.len())[0] == s[at]);
    if at < i + mark.len() {
        let k = at - i;
        assert(s.subrange(i, i + mark.len())[k] == s[at]);
        assert(mark[k] == 'T');
        let n = END_MARKER_PREFIX@.len() as int;
        if n <= k < n + command_id.len() {
            assert(command_id[k - n] == 'T');
        }
    } else if at < end {
        assert(outside::pattern_digit(s[at]));
    }
}

/// Law: the last end marker with an exit code after the last start marker decides: the command
/// has ended with this code, and its output is what stands before that marker, other end markers
/// included. No end marker before it may run into it, and none can where the id holds no letter
/// T.
pub proof fn law_end_marker_decides(
    captured: Seq<char>,
    command_id: Seq<char>,
    before: Seq<char>,
    code: nat,
    rest: Seq<char>,
)
    requires
        outside::regex_error(end_pattern(command_id)) is None,
        code <= i32::MAX,
        text::after_last(captured, start_marker(command_id)) == before + end_prefix(command_id)
            + numbers::decimal_text(code) + rest,
        rest.len() == 0 || !outside::pattern_digit(rest[0]),
        forall|i: int|
            i > before.len() ==> !outside::numbered_at(
                before + end_prefix(command_id) + numbers::decimal_text(code) + rest,
                end_prefix(command_id),
                i,
            ),
        !command_id.contains('T') || forall|i: int|
            0 <= i < before.len() && outside::numbered_at(
                before + end_prefix(command_id) + numbers::decimal_text(code) + rest,
                end_prefix(command_id),
                i,
            ) ==> #[trigger] outside::numbered_end(
                before + end_prefix(command_id) + numbers::decimal_text(code) + rest,
                end_prefix(command_id),
                i,
            ) <= before.len(),
    ensures
        command_output(captured, command_id) == Some((text::trimmed(before), code as i32)),
{
    let mark = end_prefix(command_id);
    let digits = numbers::decimal_text(code);
    let after = before + mark + digits + rest;
    let at = before.len() as int;
    numbers::lemma_decimal_text(code);
    assert(after.subrange(at, at + mark.len()) =~= mark);
    assert(after.subrange(at + mark.len(), at + mark.len() + digits.len()) =~= digits);
    if rest.len() > 0 {
        assert(after[at + mark.len() + digits.len()] == rest[0]);
    }
    lemma_decimal_run(after, at + mark.len(), code);
    assert(outside::numbered_at(after, mark, at));
    assert forall|i: int| 0 <= i < at && outside::numbered_at(after, mark, i) implies
        #[trigger] outside::numbered_end(after, mark, i) <= at by {
        if !command_id.contains('T') {
            lemma_markers_apart(after, command_id, i, at);
        }
    }
    outside::lemma_last_mark(after, mark, 0, at);
    assert(outside::number_after(after, mark, at) =~= digits);
    numbers::law_decimal_round_trip(code, i32::MAX as nat);
    assert(after.take(at) =~= before);
}

/// Law: the random ids that commands are given hold no letter T, so of their end markers none
/// runs into another.
pub proof fn law_random_id_apart(command_id: Seq<char>)
    requires
        outside::uuid_shape(command_id),
    ensures
        !command_id.contains('T'),
{
    if command_id.contains('T') {
        let i = choose|i: int| 0 <= i < command_id.len() && command_id[i] == 'T';
        assert(command_id[i] == 'T');
    }
}

/// Law: the end marker as it is typed, before the shell puts in the exit code, is not taken for
/// one with an exit code.
pub proof fn law_typed_marker_has_no_code(
    s: Seq<char>,
    command_id: Seq<char>,
    shell: ShellType,
    at: int,
)
    requires
        text::occurs_at(s, end_prefix(command_id) + exit_code_variable(shell), at),
    ensures
        !outside::numbered_at(s, end_prefix(command_id), at),
{
    reveal_strlit("$status");
    reveal_strlit("$?");
    let mark = end_prefix(command_id);
    let typed = mark + exit_code_variable(shell);
    assert(s.subrange(at, at + typed.len())[mark.len() as int] == s[at + mark.len()]);
    assert(typed[mark.len() as int] == '$');
}

} // verus!
