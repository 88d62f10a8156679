//! Which shell the commands are written for, and which tmux will do.

use vstd::prelude::*;
use vstd::string::*;

use crate::numbers;
use crate::text;
use crate::types::ShellType;

verus! {

/// An ASCII letter in lower case; other characters stay as they are.
pub open spec fn lower(c: char) -> char {
    if 'A' <= c <= 'Z' {
        ((c as u32 + 32) as u32) as char
    } else {
        c
    }
}

/// Whether a text is a word in lower case, but for the case of its letters.
pub open spec fn same_letters(s: Seq<char>, word: Seq<char>) -> bool {
    s.map_values(|c: char| lower(c)) == word
}

/// The shell that a name stands for, in whatever case; names that are not known stand for bash.
pub open spec fn shell_named(name: Seq<char>) -> ShellType {
    if same_letters(name, "zsh"@) {
        ShellType::Zsh
    } else if same_letters(name, "fish"@) {
        ShellType::Fish
    } else {
        ShellType::Bash
    }
}

/// An ASCII letter in lower case.
fn lower_letter(c: char) -> (r: char)
    ensures
        r == lower(c),
{
    match c {
        'A' => 'a',
        'B' => 'b',
        'C' => 'c',
        'D' => 'd',
        'E' => 'e',
        'F' => 'f',
        'G' => 'g',
        'H' => 'h',
        'I' => 'i',
        'J' => 'j',
        'K' => 'k',
        'L' => 'l',
        'M' => 'm',
        'N' => 'n',
        'O' => 'o',
        'P' => 'p',
        'Q' => 'q',
        'R' => 'r',
        'S' => 's',
        'T' => 't',
        'U' => 'u',
        'V' => 'v',
        'W' => 'w',
        'X' => 'x',
        'Y' => 'y',
        'Z' => 'z',
        _ => c,
    }
}

/// A text with its ASCII letters in lower case.
fn lower_text(s: &str) -> (r: String)
    ensures
        r@ == s@.map_values(|c: char| lower(c)),
{
    let chars = text::chars_of(s);
    let ghost all = s@.map_values(|c: char| lower(c));
    let mut r = String::new();
    let mut i: usize = 0;
    while i < chars.len()
        invariant
            chars@ == s@,
            all == s@.map_values(|c: char| lower(c)),
            i <= chars@.len(),
            r@ == all.take(i as int),
        decreases chars@.len() - i,
    {
        r.push(lower_letter(chars[i]));
        proof {
            assert(all.take(i + 1) =~= all.take(i as int).push(all[i as int]));
        }
        i += 1;
    }
    proof {
        assert(all.take(all.len() as int) =~= all);
    }
    r
}

/// The shell that a name stands for.
pub fn parse_shell_type(s: &str) -> (r: ShellType)
    ensures
        r == shell_named(s@),
{
    let name = lower_text(s);
    if text::same_text(name.as_str(), "zsh") {
        ShellType::Zsh
    } else if text::same_text(name.as_str(), "fish") {
        ShellType::Fish
    } else {
        ShellType::Bash
    }
}

/// The shell of the configuration, or else that of the command line.
pub fn choose_shell_type(configured: Option<&str>, asked: &str) -> (r: ShellType)
    ensures
        r == match configured {
            Some(name) => shell_named(name@),
            None => shell_named(asked@),
        },
{
    match configured {
        Some(name) => parse_shell_type(name),
        None => parse_shell_type(asked),
    }
}

/// The first position at or after `at` that holds a digit, or the end of the text.
pub open spec fn digits_begin(s: Seq<char>, at: int) -> int
    decreases s.len() - at,
{
    if 0 <= at < s.len() && !numbers::decimal_digit(s[at]) {
        digits_begin(s, at + 1)
    } else {
        at
    }
}

/// The first position at or after `at` that holds no digit, or the end of the text.
pub open spec fn digits_end(s: Seq<char>, at: int) -> int
    decreases s.len() - at,
{
    if 0 <= at < s.len() && numbers::decimal_digit(s[at]) {
        digits_end(s, at + 1)
    } else {
        at
    }
}

/// The two numbers of the release that tmux says it is. The first begins with the first digit
/// and ends at the next dot; the second is all the digits that follow the dot. There is no
/// release where one of the two is missing, too large or not a number.
pub open spec fn release_in(reply: Seq<char>) -> Option<(nat, nat)> {
    let parts = text::fields(reply.skip(digits_begin(reply, 0)), '.');
    if parts.len() < 2 {
        None
    } else {
        let minor = parts[1].take(digits_end(parts[1], 0));
        match (
            numbers::unsigned_value(parts[0], u32::MAX as nat),
            numbers::unsigned_value(minor, u32::MAX as nat),
        ) {
            (Some(a), Some(b)) => Some((a, b)),
            _ => None,
        }
    }
}

/// Reads the release of tmux from what `tmux -V` replies, such as `tmux 3.4a`.
pub fn parse_version(reply: &str) -> (r: Option<(u32, u32)>)
    ensures
        match r {
            Some((major, minor)) => release_in(reply@) == Some((major as nat, minor as nat)),
            None => release_in(reply@) is None,
        },
{
    let chars = text::chars_of(reply);
    let mut from: usize = 0;
    while from < chars.len() && !('0' <= chars[from] && chars[from] <= '9')
        invariant
            chars@ == reply@,
            from <= chars@.len(),
            digits_begin(reply@, 0) == digits_begin(reply@, from as int),
        decreases chars@.len() - from,
    {
        from += 1;
    }
    let tail = text::string_of(&chars, from, chars.len());
    proof {
        assert(tail@ =~= reply@.skip(from as int));
    }
    let parts = text::split_on(tail.as_str(), '.');
    proof {
        assert(text::texts(parts@).len() == parts@.len());
    }
    if parts.len() < 2 {
        return None;
    }
    proof {
        assert(text::texts(parts@)[0] == parts@[0]@);
        assert(text::texts(parts@)[1] == parts@[1]@);
    }
    let rest = text::chars_of(parts[1].as_str());
    let mut to: usize = 0;
    while to < rest.len() && '0' <= rest[to] && rest[to] <= '9'
        invariant
            to <= rest@.len(),
            digits_end(rest@, 0) == digits_end(rest@, to as int),
        decreases rest@.len() - to,
    {
        to += 1;
    }
    let minor = text::string_of(&rest, 0, to);
    proof {
        assert(minor@ =~= rest@.take(to as int));
    }
    match (
        numbers::parse_unsigned(parts[0].as_str(), u32::MAX as u64),
        numbers::parse_unsigned(minor.as_str(), u32::MAX as u64),
    ) {
        (Some(a), Some(b)) => Some((a as u32, b as u32)),
        _ => None,
    }
}

/// Why a release of tmux will not do: it is older than the third.
pub fn version_refusal(major: u32, minor: u32) -> (r: Option<String>)
    ensures
        match r {
            Some(message) => major < 3 && message@
                == "Error: tmux-mcp-rs requires tmux 3.0 or newer; found tmux "@
                + numbers::decimal_text(major as nat) + "."@ + numbers::decimal_text(
                minor as nat,
            ),
            None => major >= 3,
        },
{
    if major >= 3 {
        return None;
    }
    let mut message = "Error: tmux-mcp-rs requires tmux 3.0 or newer; found tmux ".to_owned();
    message.append(numbers::decimal(major as u64).as_str());
    message.append(".");
    message.append(numbers::decimal(minor as u64).as_str());
    Some(message)
}

/// Law: a shell is known by its name, in whatever case, and any other name stands for bash.
pub proof fn law_shell_named(name: Seq<char>)
    ensures
        shell_named(name) is Zsh <==> {
            &&& name.len() == 3
            &&& name[0] == 'z' || name[0] == 'Z'
            &&& name[1] == 's' || name[1] == 'S'
            &&& name[2] == 'h' || name[2] == 'H'
        },
        shell_named(name) is Fish <==> {
            &&& name.len() == 4
            &&& name[0] == 'f' || name[0] == 'F'
            &&& name[1] == 'i' || name[1] == 'I'
            &&& name[2] == 's' || name[2] == 'S'
            &&& name[3] == 'h' || name[3] == 'H'
        },
        shell_named(name) is Bash <==> !(shell_named(name) is Zsh) && !(shell_named(name) is Fish),
{
    reveal_strlit("zsh");
    reveal_strlit("fish");
    let zsh = "zsh"@;
    let fish = "fish"@;
    assert(zsh.len() == 3 && zsh[0] == 'z' && zsh[1] == 's' && zsh[2] == 'h');
    assert(fish.len() == 4 && fish[0] == 'f' && fish[1] == 'i' && fish[2] == 's' && fish[3]
        == 'h');
    let lowered = name.map_values(|c: char| lower(c));
    assert(same_letters(name, zsh) == (lowered == zsh));
    assert(same_letters(name, fish) == (lowered == fish));
    assert(lowered.len() == name.len());
    if name.len() == 3 {
        assert(lowered[0] == lower(name[0]));
        assert(lowered[1] == lower(name[1]));
        assert(lowered[2] == lower(name[2]));
        if lower(name[0]) == 'z' && lower(name[1]) == 's' && lower(name[2]) == 'h' {
            assert(lowered =~= zsh);
        }
        lemma_lower(name[0]);
        lemma_lower(name[1]);
        lemma_lower(name[2]);
    }
    if name.len() == 4 {
        assert(lowered[0] == lower(name[0]));
        assert(lowered[1] == lower(name[1]));
        assert(lowered[2] == lower(name[2]));
        assert(lowered[3] == lower(name[3]));
        if lower(name[0]) == 'f' && lower(name[1]) == 'i' && lower(name[2]) == 's' && lower(
            name[3],
        ) == 'h' {
            assert(lowered =~= fish);
        }
        lemma_lower(name[0]);
        lemma_lower(name[1]);
        lemma_lower(name[2]);
        lemma_lower(name[3]);
    }
}

/// The letters that are some letter in lower case.
proof fn lemma_lower(c: char)
    ensures
        lower(c) == 'z' <==> c == 'z' || c == 'Z',
        lower(c) == 's' <==> c == 's' || c == 'S',
        lower(c) == 'h' <==> c == 'h' || c == 'H',
        lower(c) == 'f' <==> c == 'f' || c == 'F',
        lower(c) == 'i' <==> c == 'i' || c == 'I',
{
    if 'A' <= c <= 'Z' {
        let n = (c as u32 + 32) as u32;
        assert(97 <= n <= 122);
        assert(n as char as u32 == n);
    }
}

proof fn lemma_digits_begin(s: Seq<char>, at: int, stop: int)
    requires
        0 <= at <= stop <= s.len(),
        forall|i: int| at <= i < stop ==> !numbers::decimal_digit(#[trigger] s[i]),
        stop == s.len() || numbers::decimal_digit(s[stop]),
    ensures
        digits_begin(s, at) == stop,
    decreases stop - at,
{
    if at < stop {
        assert(!numbers::decimal_digit(s[at]));
        lemma_digits_begin(s, at + 1, stop);
    }
}

proof fn lemma_digits_end(s: Seq<char>, at: int, stop: int)
    requires
        0 <= at <= stop <= s.len(),
        forall|i: int| at <= i < stop ==> numbers::decimal_digit(#[trigger] s[i]),
        stop == s.len() || !numbers::decimal_digit(s[stop]),
    ensures
        digits_end(s, at) == stop,
    decreases stop - at,
{
    if at < stop {
        assert(numbers::decimal_digit(s[at]));
        lemma_digits_end(s, at + 1, stop);
    }
}

/// Law: where tmux says that it is a release of two numbers with a dot between them, after words
/// without a digit, and whatever comes after the second number, those are the numbers that are
/// read.
pub proof fn law_release(
    head: Seq<char>,
    major: u32,
    minor: u32,
    tail: Seq<char>,
    more: Seq<char>,
)
    requires
        forall|i: int| 0 <= i < head.len() ==> !numbers::decimal_digit(#[trigger] head[i]),
        forall|i: int| 0 <= i < tail.len() ==> #[trigger] tail[i] != '.',
        tail.len() == 0 || !numbers::decimal_digit(tail[0]),
    ensures
        release_in(
            head + (numbers::decimal_text(major as nat) + seq!['.'] + (numbers::decimal_text(
                minor as nat,
            ) + tail)),
        ) == Some((major as nat, minor as nat)),
        release_in(
            head + (numbers::decimal_text(major as nat) + seq!['.'] + (numbers::decimal_text(
                minor as nat,
            ) + tail + seq!['.'] + more)),
        ) == Some((major as nat, minor as nat)),
{
    let part = numbers::decimal_text(minor as nat) + tail;
    lemma_no_dot(minor as nat, tail);
    text::law_fields(part, tail, '.');
    lemma_release(head, major, minor, tail, part);
    text::law_fields(part, more, '.');
    lemma_release(head, major, minor, tail, part + seq!['.'] + more);
}

/// Digits and what holds no dot hold no dot.
proof fn lemma_no_dot(n: nat, tail: Seq<char>)
    requires
        forall|i: int| 0 <= i < tail.len() ==> #[trigger] tail[i] != '.',
    ensures
        forall|i: int|
            0 <= i < (numbers::decimal_text(n) + tail).len() ==> #[trigger] (numbers::decimal_text(
                n,
            ) + tail)[i] != '.',
{
    numbers::lemma_decimal_text(n);
    let part = numbers::decimal_text(n) + tail;
    assert forall|i: int| 0 <= i < part.len() implies #[trigger] part[i] != '.' by {
        if i < numbers::decimal_text(n).len() {
            assert(numbers::decimal_digit(numbers::decimal_text(n)[i]));
        } else {
            assert(tail[i - numbers::decimal_text(n).len()] != '.');
        }
    }
}

proof fn lemma_release(head: Seq<char>, major: u32, minor: u32, tail: Seq<char>, rest: Seq<char>)
    requires
        forall|i: int| 0 <= i < head.len() ==> !numbers::decimal_digit(#[trigger] head[i]),
        forall|i: int| 0 <= i < tail.len() ==> #[trigger] tail[i] != '.',
        tail.len() == 0 || !numbers::decimal_digit(tail[0]),
        text::fields(rest, '.').len() > 0,
        text::fields(rest, '.')[0] == numbers::decimal_text(minor as nat) + tail,
    ensures
        release_in(
            head + (numbers::decimal_text(major as nat) + seq!['.'] + rest),
        ) == Some((major as nat, minor as nat)),
{
    let a = numbers::decimal_text(major as nat);
    let b = numbers::decimal_text(minor as nat);
    let part = b + tail;
    let reply = head + (a + seq!['.'] + rest);
    numbers::lemma_decimal_text(major as nat);
    numbers::lemma_decimal_text(minor as nat);
    assert forall|i: int| 0 <= i < head.len() implies !numbers::decimal_digit(
        #[trigger] reply[i],
    ) by {
        assert(reply[i] == head[i]);
    }
    assert(reply[head.len() as int] == a[0]);
    assert(numbers::decimal_digit(a[0]));
    lemma_digits_begin(reply, 0, head.len() as int);
    assert(reply.skip(head.len() as int) =~= a + seq!['.'] + rest);
    lemma_no_dot(major as nat, Seq::empty());
    assert(a + Seq::<char>::empty() =~= a);
    assert forall|i: int| 0 <= i < a.len() implies #[trigger] a[i] != '.' by {
        assert(numbers::decimal_digit(a[i]));
    }
    text::law_fields(a, rest, '.');
    let parts = text::fields(a + seq!['.'] + rest, '.');
    assert(parts[0] == a);
    assert(parts[1] == part);
    assert forall|i: int| 0 <= i < b.len() implies numbers::decimal_digit(#[trigger] part[i]) by {
        assert(part[i] == b[i]);
        assert(numbers::decimal_digit(b[i]));
    }
    if tail.len() > 0 {
        assert(part[b.len() as int] == tail[0]);
    }
    lemma_digits_end(part, 0, b.len() as int);
    assert(part.take(b.len() as int) =~= b);
    numbers::law_decimal_round_trip(major as nat, u32::MAX as nat);
    numbers::law_decimal_round_trip(minor as nat, u32::MAX as nat);
}

} // verus!
