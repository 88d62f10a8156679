//! Numbers written in decimal and in hexadecimal.

use vstd::prelude::*;
use vstd::string::*;

use crate::text;

verus! {

/// Whether a character is one of `0` to `9`.
pub open spec fn decimal_digit(c: char) -> bool {
    '0' <= c <= '9'
}

/// Whether every character is one of `0` to `9`.
pub open spec fn all_decimal(s: Seq<char>) -> bool {
    forall|i: int| 0 <= i < s.len() ==> decimal_digit(#[trigger] s[i])
}

/// The number that a row of decimal digits writes.
pub open spec fn decimal_value(s: Seq<char>) -> nat
    decreases s.len(),
{
    if s.len() == 0 {
        0
    } else {
        decimal_value(s.drop_last()) * 10 + ((s.last() as u32 - '0' as u32) as nat)
    }
}

/// The decimal digit of a number below ten.
pub open spec fn digit_char(d: nat) -> char {
    (('0' as u32 + d) as u32) as char
}

/// The shortest row of decimal digits that writes `n`.
pub open spec fn decimal_text(n: nat) -> Seq<char>
    decreases n,
{
    if n < 10 {
        seq![digit_char(n)]
    } else {
        decimal_text(n / 10).push(digit_char(n % 10))
    }
}

/// A signed number in decimal, with a minus sign where it is negative.
pub open spec fn signed_text(n: int) -> Seq<char> {
    if n < 0 {
        seq!['-'] + decimal_text((-n) as nat)
    } else {
        decimal_text(n as nat)
    }
}

/// `s` without a plus sign in front.
pub open spec fn without_plus(s: Seq<char>) -> Seq<char> {
    if s.len() > 0 && s[0] == '+' {
        s.skip(1)
    } else {
        s
    }
}

/// The unsigned number, no larger than `max`, that `s` writes: an optional plus sign and
/// then decimal digits only, at least one of them.
pub open spec fn unsigned_value(s: Seq<char>, max: nat) -> Option<nat> {
    let digits = without_plus(s);
    if digits.len() > 0 && all_decimal(digits) && decimal_value(digits) <= max {
        Some(decimal_value(digits))
    } else {
        None
    }
}

/// The value of a hexadecimal digit of either case.
pub open spec fn hex_digit_value(c: char) -> Option<nat> {
    if '0' <= c <= '9' {
        Some((c as u32 - '0' as u32) as nat)
    } else if 'a' <= c <= 'f' {
        Some((c as u32 - 'a' as u32 + 10) as nat)
    } else if 'A' <= c <= 'F' {
        Some((c as u32 - 'A' as u32 + 10) as nat)
    } else {
        None
    }
}

/// The byte that one or two hexadecimal digits write. Nothing else writes a byte: a sign is no
/// digit.
pub open spec fn hex_byte(s: Seq<char>) -> Option<nat> {
    if s.len() == 1 {
        hex_digit_value(s[0])
    } else if s.len() == 2 {
        match (hex_digit_value(s[0]), hex_digit_value(s[1])) {
            (Some(hi), Some(lo)) => Some(hi * 16 + lo),
            _ => None,
        }
    } else {
        None
    }
}

/// The lower-case hexadecimal digit of a number below sixteen.
pub open spec fn hex_char(d: nat) -> char {
    if d < 10 {
        digit_char(d)
    } else {
        (('a' as u32 + (d - 10)) as u32) as char
    }
}

/// A byte as two lower-case hexadecimal digits.
pub open spec fn hex_text(b: nat) -> Seq<char> {
    seq![hex_char(b / 16), hex_char(b % 16)]
}

/// A prefix of a row of digits writes no larger a number.
proof fn lemma_decimal_prefix(s: Seq<char>, k: int)
    requires
        0 <= k <= s.len(),
        all_decimal(s),
    ensures
        decimal_value(s.take(k)) <= decimal_value(s),
    decreases s.len(),
{
    if k == s.len() {
        assert(s.take(k) =~= s);
    } else {
        assert(s.drop_last().take(k) =~= s.take(k));
        lemma_decimal_prefix(s.drop_last(), k);
    }
}

/// The digits of a number write that number, and every one of them is decimal.
pub proof fn lemma_decimal_text(n: nat)
    ensures
        decimal_text(n).len() > 0,
        all_decimal(decimal_text(n)),
        decimal_value(decimal_text(n)) == n,
    decreases n,
{
    reveal_with_fuel(decimal_value, 2);
    if n < 10 {
        assert(decimal_text(n).drop_last() =~= Seq::<char>::empty());
        assert(decimal_text(n).last() as u32 == '0' as u32 + n);
    } else {
        lemma_decimal_text(n / 10);
        let head = decimal_text(n / 10);
        assert(decimal_text(n).drop_last() =~= head);
        assert(digit_char(n % 10) as u32 == '0' as u32 + n % 10);
        assert forall|i: int| 0 <= i < decimal_text(n).len() implies decimal_digit(
            #[trigger] decimal_text(n)[i],
        ) by {
            if i < head.len() {
                assert(decimal_text(n)[i] == head[i]);
            }
        }
    }
}

/// Law: reading back the decimal text of a number that is not too large gives the number.
pub proof fn law_decimal_round_trip(n: nat, max: nat)
    requires
        n <= max,
    ensures
        unsigned_value(decimal_text(n), max) == Some(n),
{
    lemma_decimal_text(n);
    let s = decimal_text(n);
    assert(decimal_digit(s[0]));
    assert(without_plus(s) == s);
}

/// The digit character of a number below ten.
fn digit_of(d: u64) -> (c: char)
    requires
        d < 10,
    ensures
        c == digit_char(d as nat),
{
    match d {
        0 => '0',
        1 => '1',
        2 => '2',
        3 => '3',
        4 => '4',
        5 => '5',
        6 => '6',
        7 => '7',
        8 => '8',
        _ => '9',
    }
}

/// Writes a number in decimal.
pub fn decimal(n: u64) -> (s: String)
    ensures
        s@ == decimal_text(n as nat),
    decreases n,
{
    if n < 10 {
        let mut s = String::new();
        s.push(digit_of(n));
        proof {
            assert(s@ =~= decimal_text(n as nat));
        }
        s
    } else {
        let mut s = decimal(n / 10);
        s.push(digit_of(n % 10));
        s
    }
}

/// Writes a signed number in decimal.
pub fn signed_decimal(n: i32) -> (s: String)
    ensures
        s@ == signed_text(n as int),
{
    if n < 0 {
        let mut s = String::new();
        s.push('-');
        let m: i64 = n as i64;
        let digits = decimal((-m) as u64);
        s.append(digits.as_str());
        proof {
            assert(s@ =~= signed_text(n as int));
        }
        s
    } else {
        decimal(n as u64)
    }
}

/// Reads an unsigned decimal number that is no larger than `max`.
pub fn parse_unsigned(s: &str, max: u64) -> (r: Option<u64>)
    ensures
        match r {
            Some(n) => unsigned_value(s@, max as nat) == Some(n as nat),
            None => unsigned_value(s@, max as nat) is None,
        },
{
    let chars = text::chars_of(s);
    let from: usize = if chars.len() > 0 && chars[0] == '+' {
        1
    } else {
        0
    };
    let ghost digits = without_plus(s@);
    proof {
        assert(digits =~= s@.skip(from as int));
    }
    if from == chars.len() {
        return None;
    }
    let mut value: u64 = 0;
    let mut i: usize = from;
    while i < chars.len()
        invariant
            chars@ == s@,
            digits == without_plus(s@),
            digits == s@.skip(from as int),
            from <= i <= chars@.len(),
            all_decimal(digits.take(i - from)),
            value == decimal_value(digits.take(i - from)),
            value <= max,
        decreases chars@.len() - i,
    {
        let c = chars[i];
        let ghost k = i - from;
        proof {
            assert(digits[k] == c);
            assert(digits.take(k + 1).drop_last() =~= digits.take(k));
            assert(digits.take(k + 1).last() == c);
        }
        if c < '0' || c > '9' {
            return None;
        }
        let d: u64 = (c as u32 - '0' as u32) as u64;
        proof {
            assert forall|j: int| 0 <= j < digits.take(k + 1).len() implies decimal_digit(
                #[trigger] digits.take(k + 1)[j],
            ) by {
                if j < k {
                    assert(digits.take(k + 1)[j] == digits.take(k)[j]);
                }
            }
            if all_decimal(digits) {
                lemma_decimal_prefix(digits, k + 1);
            }
        }
        if d > max || value > max / 10 || value * 10 > max - d {
            return None;
        }
        value = value * 10 + d;
        i += 1;
    }
    proof {
        assert(digits.take(digits.len() as int) =~= digits);
    }
    Some(value)
}

/// The value of a hexadecimal digit of either case.
fn hex_value(c: char) -> (r: Option<u8>)
    ensures
        match r {
            Some(v) => hex_digit_value(c) == Some(v as nat) && v < 16,
            None => hex_digit_value(c) is None,
        },
{
    if '0' <= c && c <= '9' {
        Some((c as u32 - '0' as u32) as u8)
    } else if 'a' <= c && c <= 'f' {
        Some((c as u32 - 'a' as u32 + 10) as u8)
    } else if 'A' <= c && c <= 'F' {
        Some((c as u32 - 'A' as u32 + 10) as u8)
    } else {
        None
    }
}

/// Reads a byte written in one or two hexadecimal digits.
pub fn parse_hex_byte(s: &str) -> (r: Option<u8>)
    ensures
        match r {
            Some(b) => hex_byte(s@) == Some(b as nat),
            None => hex_byte(s@) is None,
        },
{
    let chars = text::chars_of(s);
    if chars.len() == 1 {
        hex_value(chars[0])
    } else if chars.len() == 2 {
        match (hex_value(chars[0]), hex_value(chars[1])) {
            (Some(hi), Some(lo)) => Some(hi * 16 + lo),
            _ => None,
        }
    } else {
        None
    }
}

/// The lower-case hexadecimal digit of a number below sixteen.
fn hex_digit_of(d: u8) -> (c: char)
    requires
        d < 16,
    ensures
        c == hex_char(d as nat),
{
    match d {
        10 => 'a',
        11 => 'b',
        12 => 'c',
        13 => 'd',
        14 => 'e',
        15 => 'f',
        _ => digit_of(d as u64),
    }
}

/// Writes a byte as two lower-case hexadecimal digits.
pub fn hex_pair(b: u8) -> (s: String)
    ensures
        s@ == hex_text(b as nat),
{
    let mut s = String::new();
    s.push(hex_digit_of(b / 16));
    s.push(hex_digit_of(b % 16));
    proof {
        assert(s@ =~= hex_text(b as nat));
    }
    s
}

/// Law: reading back the two digits of a byte gives the byte.
pub proof fn law_hex_round_trip(b: nat)
    requires
        b < 256,
    ensures
        hex_byte(hex_text(b)) == Some(b),
{
    let hi = b / 16;
    let lo = b % 16;
    assert(hex_digit_value(hex_char(hi)) == Some(hi));
    assert(hex_digit_value(hex_char(lo)) == Some(lo));
}

/// Law: a signed number is written with its digits, and with a minus sign before them exactly where
/// it is negative.
pub proof fn law_signed_text(n: nat)
    ensures
        signed_text(n as int) == decimal_text(n),
        n > 0 ==> signed_text(-(n as int)) == seq!['-'] + decimal_text(n),
{
}

/// Law: a number in decimal is read back from digits alone, with a plus sign before them or none;
/// an empty text, a text with anything else in it, and a number that is too large are not read.
pub proof fn law_unsigned_value(s: Seq<char>, max: nat)
    ensures
        s.len() == 0 ==> unsigned_value(s, max) is None,
        unsigned_value(s, max) is Some ==> unsigned_value(s, max)->0 <= max,
        forall|i: int|
            0 < i < s.len() && !decimal_digit(#[trigger] s[i]) ==> unsigned_value(s, max) is None,
        s.len() > 0 && !decimal_digit(s[0]) && s[0] != '+' ==> unsigned_value(s, max) is None,
        s.len() > 0 && decimal_digit(s[0]) ==> unsigned_value(seq!['+'] + s, max) == unsigned_value(
            s,
            max,
        ),
{
    let digits = without_plus(s);
    if s.len() > 0 && decimal_digit(s[0]) {
        assert((seq!['+'] + s).skip(1) =~= s);
    }
    assert forall|i: int| 0 < i < s.len() && !decimal_digit(#[trigger] s[i]) implies unsigned_value(
        s,
        max,
    ) is None by {
        if s[0] == '+' {
            assert(digits[i - 1] == s[i]);
        } else {
            assert(digits[i] == s[i]);
        }
    }
    if s.len() > 0 && !decimal_digit(s[0]) && s[0] != '+' {
        assert(digits[0] == s[0]);
    }
}

} // verus!
