//! The calls into other crates, and what is relied on of each.

use vstd::prelude::*;
use vstd::string::*;
use vstd::utf8::*;

use rayon::iter::{IntoParallelRefIterator, ParallelIterator};

use crate::text;

verus! {

/// Why `regex::Regex::new` rejects a pattern; nothing where it accepts it.
pub uninterp spec fn regex_error(pattern: Seq<char>) -> Option<Seq<char>>;

/// The byte ranges that `regex::Regex::find_iter` yields for a pattern on a text.
pub uninterp spec fn regex_spans(pattern: Seq<char>, text: Seq<char>) -> Seq<(int, int)>;

/// Whether the class `\d` of the `regex` crate holds a character outside ASCII.
pub uninterp spec fn regex_digit(c: char) -> bool;

/// The words into which `shell_words::split` splits a command line.
pub uninterp spec fn shell_words_of(line: Seq<char>) -> Option<Seq<Seq<char>>>;

/// The bit pattern of the number that `rapidfuzz::fuzz::ratio` returns for two texts.
pub uninterp spec fn ratio_bits(a: Seq<char>, b: Seq<char>) -> u64;

/// The text that `String::from_utf8_lossy` makes of bytes.
pub uninterp spec fn lossy_text(bytes: Seq<u8>) -> Seq<char>;

/// A text between double quotes and with escapes, as `Debug` for `str` writes it.
pub uninterp spec fn debug_text(s: Seq<char>) -> Seq<char>;

/// The bit pattern of the double-precision number one.
pub const ONE_F64_BITS: u64 = 0x3ff0_0000_0000_0000;

/// The bit pattern of two to the power of minus fifty-three in double precision.
pub const LEAST_RATIO_BITS: u64 = 0x3ca0_0000_0000_0000;

/// Whether `spans` are byte ranges of a text that begin and end on character boundaries and
/// follow one another without overlap, no two of them with one start.
pub open spec fn spans_of(bytes: Seq<u8>, spans: Seq<(int, int)>) -> bool {
    &&& forall|i: int|
        0 <= i < spans.len() ==> {
            &&& 0 <= (#[trigger] spans[i]).0 <= spans[i].1 <= bytes.len()
            &&& is_char_boundary(bytes, spans[i].0)
            &&& is_char_boundary(bytes, spans[i].1)
        }
    &&& forall|i: int, j: int|
        0 <= i < j < spans.len() ==> {
            &&& (#[trigger] spans[i]).1 <= (#[trigger] spans[j]).0
            &&& spans[i].0 < spans[j].0
        }
}

/// Whether a character has a meaning of its own in a pattern.
pub open spec fn meta_character(c: char) -> bool {
    ||| c == '\\' || c == '.' || c == '+' || c == '*' || c == '?' || c == '(' || c == ')'
    ||| c == '|' || c == '[' || c == ']' || c == '{' || c == '}' || c == '^' || c == '$'
    ||| c == '#' || c == '&' || c == '-' || c == '~'
}

/// A text with a backslash before each of its characters that has a meaning in a pattern.
pub open spec fn escaped(s: Seq<char>) -> Seq<char>
    decreases s.len(),
{
    if s.len() == 0 {
        Seq::empty()
    } else if meta_character(s.last()) {
        escaped(s.drop_last()).push('\\').push(s.last())
    } else {
        escaped(s.drop_last()).push(s.last())
    }
}

/// The pattern of a mark as it stands, with digits after it as the first group.
pub open spec fn numbered_pattern(mark: Seq<char>) -> Seq<char> {
    escaped(mark) + "(\\d+)"@
}

/// Whether the class `\d` holds a character: in ASCII, the ten decimal digits.
pub open spec fn pattern_digit(c: char) -> bool {
    if (c as u32) < 0x80 {
        '0' <= c <= '9'
    } else {
        regex_digit(c)
    }
}

/// How many digits stand in `s` from position `at` on.
pub open spec fn digit_run(s: Seq<char>, at: int) -> int
    decreases s.len() - at,
{
    if 0 <= at < s.len() && pattern_digit(s[at]) {
        1 + digit_run(s, at + 1)
    } else {
        0
    }
}

/// Whether `mark`, with a digit directly after it, stands at position `at` of `s`.
pub open spec fn numbered_at(s: Seq<char>, mark: Seq<char>, at: int) -> bool {
    text::occurs_at(s, mark, at) && digit_run(s, at + mark.len()) > 0
}

/// The first position at or after `from` where `mark` stands with a digit after it.
pub open spec fn first_numbered(s: Seq<char>, mark: Seq<char>, from: int) -> Option<int>
    decreases s.len() - from,
{
    if from >= s.len() {
        None
    } else if numbered_at(s, mark, from) {
        Some(from)
    } else {
        first_numbered(s, mark, from + 1)
    }
}

/// The end of the mark at `at` and of all the digits after it.
pub open spec fn numbered_end(s: Seq<char>, mark: Seq<char>, at: int) -> int {
    at + mark.len() + digit_run(s, at + mark.len())
}

/// The numbered marks at or after `from`, taken from the left and without overlap.
pub open spec fn numbered_marks(s: Seq<char>, mark: Seq<char>, from: int) -> Seq<int>
    decreases s.len() - from,
{
    proof {
        lemma_first_numbered(s, mark, from);
        if let Some(at) = first_numbered(s, mark, from) {
            lemma_digit_run(s, at + mark.len());
        }
    }
    match first_numbered(s, mark, from) {
        Some(at) => seq![at] + numbered_marks(s, mark, numbered_end(s, mark, at)),
        None => Seq::empty(),
    }
}

/// The last of the numbered marks, taken from the left and without overlap.
pub open spec fn last_numbered(s: Seq<char>, mark: Seq<char>) -> Option<int> {
    let marks = numbered_marks(s, mark, 0);
    if marks.len() == 0 {
        None
    } else {
        Some(marks.last())
    }
}

/// The digits after the numbered mark at `at`.
pub open spec fn number_after(s: Seq<char>, mark: Seq<char>, at: int) -> Seq<char> {
    s.subrange(at + mark.len(), numbered_end(s, mark, at))
}

/// The run of digits lies inside the text.
pub proof fn lemma_digit_run(s: Seq<char>, at: int)
    requires
        0 <= at <= s.len(),
    ensures
        0 <= digit_run(s, at) <= s.len() - at,
        forall|i: int| at <= i < at + digit_run(s, at) ==> pattern_digit(#[trigger] s[i]),
    decreases s.len() - at,
{
    if at < s.len() && pattern_digit(s[at]) {
        lemma_digit_run(s, at + 1);
    }
}

/// The first numbered mark is one, lies at or after `from`, and none lies before it.
pub proof fn lemma_first_numbered(s: Seq<char>, mark: Seq<char>, from: int)
    ensures
        match first_numbered(s, mark, from) {
            Some(at) => {
                &&& from <= at < s.len()
                &&& numbered_at(s, mark, at)
                &&& forall|i: int| from <= i < at ==> !numbered_at(s, mark, i)
            },
            None => forall|i: int| from <= i ==> !numbered_at(s, mark, i),
        },
    decreases s.len() - from,
{
    if from >= s.len() {
        assert forall|i: int| from <= i implies !numbered_at(s, mark, i) by {
            if numbered_at(s, mark, i) {
                lemma_digit_run(s, i + mark.len());
            }
        }
    } else if !numbered_at(s, mark, from) {
        lemma_first_numbered(s, mark, from + 1);
    }
}

/// A numbered mark before which there is none is the first one.
pub proof fn lemma_first_mark(s: Seq<char>, mark: Seq<char>, from: int, at: int)
    requires
        from <= at < s.len(),
        numbered_at(s, mark, at),
        forall|i: int| from <= i < at ==> !numbered_at(s, mark, i),
    ensures
        first_numbered(s, mark, from) == Some(at),
    decreases at - from,
{
    if from < at {
        assert(!numbered_at(s, mark, from));
        lemma_first_mark(s, mark, from + 1, at);
    }
}

/// Numbered marks lie inside the text.
pub proof fn lemma_numbered_marks(s: Seq<char>, mark: Seq<char>, from: int)
    requires
        0 <= from,
    ensures
        forall|i: int|
            0 <= i < numbered_marks(s, mark, from).len() ==> from <= #[trigger] numbered_marks(
                s,
                mark,
                from,
            )[i] < s.len(),
    decreases s.len() - from,
{
    lemma_first_numbered(s, mark, from);
    if let Some(at) = first_numbered(s, mark, from) {
        lemma_digit_run(s, at + mark.len());
        let end = numbered_end(s, mark, at);
        lemma_numbered_marks(s, mark, end);
        let rest = numbered_marks(s, mark, end);
        let all = numbered_marks(s, mark, from);
        assert forall|i: int| 0 <= i < all.len() implies from <= #[trigger] all[i] < s.len() by {
            if i > 0 {
                assert(all[i] == rest[i - 1]);
            }
        }
    }
}

/// A numbered mark after which there is none, and into which none before it runs, is the last
/// one.
pub proof fn lemma_last_mark(s: Seq<char>, mark: Seq<char>, from: int, at: int)
    requires
        0 <= from <= at,
        numbered_at(s, mark, at),
        forall|i: int| at < i ==> !numbered_at(s, mark, i),
        forall|i: int|
            0 <= i < at && numbered_at(s, mark, i) ==> #[trigger] numbered_end(s, mark, i) <= at,
    ensures
        numbered_marks(s, mark, from).len() > 0,
        numbered_marks(s, mark, from).last() == at,
    decreases s.len() - from,
{
    lemma_first_numbered(s, mark, from);
    let first = first_numbered(s, mark, from)->0;
    lemma_digit_run(s, first + mark.len());
    let end = numbered_end(s, mark, first);
    let rest = numbered_marks(s, mark, end);
    let all = numbered_marks(s, mark, from);
    assert(all == seq![first] + rest);
    if first == at {
        lemma_first_numbered(s, mark, end);
        assert(rest.len() == 0);
    } else {
        assert(numbered_end(s, mark, first) <= at);
        lemma_last_mark(s, mark, end, at);
        assert(all.last() == rest.last());
    }
}

/// Whether groups are those of a pattern for a mark and digits: one for every numbered mark,
/// with the byte offset at which it begins and the digits after it.
pub open spec fn groups_of(
    s: Seq<char>,
    mark: Seq<char>,
    groups: Seq<(usize, Option<String>)>,
) -> bool {
    let marks = numbered_marks(s, mark, 0);
    &&& groups.len() == marks.len()
    &&& forall|i: int|
        0 <= i < marks.len() ==> {
            &&& (#[trigger] groups[i]).0 == encode_utf8(s.take(marks[i])).len()
            &&& text::opt_text(groups[i].1) == Some(number_after(s, mark, marks[i]))
        }
}

/// Whether a text is a random UUID in hyphenated lower-case form.
pub open spec fn uuid_shape(s: Seq<char>) -> bool {
    &&& s.len() == 36
    &&& forall|i: int|
        0 <= i < 36 ==> if i == 8 || i == 13 || i == 18 || i == 23 {
            #[trigger] s[i] == '-'
        } else {
            '0' <= s[i] <= '9' || 'a' <= s[i] <= 'f'
        }
    &&& s[14] == '4'
    &&& (s[19] == '8' || s[19] == '9' || s[19] == 'a' || s[19] == 'b')
}

/// Whether bytes are the beginning of some valid UTF-8.
pub open spec fn utf8_beginning(bytes: Seq<u8>) -> bool {
    exists|rest: Seq<u8>| #[trigger] valid_utf8(bytes + rest)
}

/// The error type of the `shell-words` crate, carried through unread.
#[verifier::external_type_specification]
#[verifier::external_body]
pub struct ExShellParseError(shell_words::ParseError);

/// `shell_words::split` splits a command line into words the way a Unix shell does; the words
/// depend on the line alone. It fails where it finds no closing quote.
pub assume_specification[ shell_words::split ](s: &str) -> (r: Result<
    Vec<String>,
    shell_words::ParseError,
>)
    ensures
        match r {
            Ok(words) => shell_words_of(s@) == Some(text::texts(words@)),
            Err(_) => shell_words_of(s@) is None,
        },
;

/// `Display` for the error of `shell_words::split` always writes the same three words.
#[verifier::external_body]
pub(crate) fn shell_error_text(error: &shell_words::ParseError) -> (r: String)
    ensures
        r@ == "missing closing quote"@,
{
    error.to_string()
}

/// `regex::Regex::new` accepts a pattern or says why it does not; which of the two, and the
/// words of the error, depend on the pattern alone.
#[verifier::external_body]
pub(crate) fn check_regex(pattern: &str) -> (r: Result<(), String>)
    ensures
        match r {
            Ok(_) => regex_error(pattern@) is None,
            Err(message) => regex_error(pattern@) == Some(message@),
        },
{
    match regex::Regex::new(pattern) {
        Ok(_) => Ok(()),
        Err(error) => Err(error.to_string()),
    }
}

/// `regex::Regex::find_iter` yields successive matches that do not overlap, each a byte range
/// between character boundaries; they depend on the pattern and the text alone. Every search
/// begins where the match before it ended, or, after an empty match, one byte later, so no two
/// matches have one start. The pattern must be one that `regex::Regex::new` accepts.
#[verifier::external_body]
pub(crate) fn find_regex(pattern: &str, text: &str) -> (spans: Vec<(usize, usize)>)
    requires
        regex_error(pattern@) is None,
    ensures
        spans@.map_values(|s: (usize, usize)| (s.0 as int, s.1 as int)) == regex_spans(
            pattern@,
            text@,
        ),
        spans_of(
            text.spec_bytes(),
            spans@.map_values(|s: (usize, usize)| (s.0 as int, s.1 as int)),
        ),
{
    let regex = regex::Regex::new(pattern).expect("pattern was accepted before");
    regex.find_iter(text).map(|found| (found.start(), found.end())).collect()
}

/// `regex::escape` puts a backslash before each of a fixed set of characters and leaves all others
/// as they are.
#[verifier::external_body]
pub(crate) fn escape_regex(text: &str) -> (r: String)
    ensures
        r@ == escaped(text@),
{
    regex::escape(text)
}

/// `regex::Regex::captures_iter` yields successive matches that do not overlap, given here by the
/// byte offset at which each begins and the text of its first group. For an escaped mark with
/// `(\d+)` behind it, a match is the mark with all the digits that follow it, at least one, and
/// matches are taken from the left. What stands in a group outside ASCII is a digit by `\d`. The
/// pattern must be one of these, and one that `regex::Regex::new` accepts.
#[verifier::external_body]
pub(crate) fn regex_groups(pattern: &str, text: &str) -> (groups: Vec<(usize, Option<String>)>)
    requires
        regex_error(pattern@) is None,
        exists|mark: Seq<char>| pattern@ == #[trigger] numbered_pattern(mark),
    ensures
        forall|mark: Seq<char>|
            pattern@ == #[trigger] numbered_pattern(mark) ==> groups_of(text@, mark, groups@),
        forall|i: int, k: int|
            0 <= i < groups@.len() && groups@[i].1 is Some && 0 <= k < groups@[i].1->0@.len() && (
            groups@[i].1->0@[k] as u32) >= 0x80 ==> regex_digit(#[trigger] groups@[i].1->0@[k]),
{
    let regex = regex::Regex::new(pattern).expect("pattern was accepted before");
    let matches = regex.captures_iter(text);
    matches
        .map(|found| (found.get_match().start(), found.get(1).map(|g| g.as_str().to_string())))
        .collect()
}

/// `regex::Regex::captures` gives the first match, here the text of its first group; nothing where
/// there is no match. For an escaped mark with `(\d+)` behind it, the match is the leftmost mark
/// that a digit follows, with all the digits there. The pattern must be one of these, and one
/// that `regex::Regex::new` accepts.
#[verifier::external_body]
pub(crate) fn first_regex_group(pattern: &str, text: &str) -> (r: Option<String>)
    requires
        regex_error(pattern@) is None,
        exists|mark: Seq<char>| pattern@ == #[trigger] numbered_pattern(mark),
    ensures
        forall|mark: Seq<char>|
            pattern@ == #[trigger] numbered_pattern(mark) ==> match first_numbered(
                text@,
                mark,
                0,
            ) {
                Some(at) => r is Some && r->0@ == number_after(text@, mark, at),
                None => r is None,
            },
{
    let regex = regex::Regex::new(pattern).expect("pattern was accepted before");
    let found = regex.captures(text)?;
    found.get(1).map(|group| group.as_str().to_string())
}

/// `rapidfuzz::fuzz::ratio` measures how alike two texts are. The number depends on the two
/// texts alone. It is one minus a quotient between zero and one, so it is not a NaN, it is zero
/// or lies between two to the power of minus fifty-three and one, and it is one for equal texts.
#[verifier::external_body]
pub(crate) fn fuzz_ratio(a: &str, b: &str) -> (bits: u64)
    ensures
        bits == ratio_bits(a@, b@),
        bits == 0 || LEAST_RATIO_BITS <= bits <= ONE_F64_BITS,
        a@ == b@ ==> bits == ONE_F64_BITS,
{
    rapidfuzz::fuzz::ratio(a.chars(), b.chars()).to_bits()
}

/// `uuid::Uuid::new_v4` makes a random UUID, written here in hyphenated lower-case form.
#[verifier::external_body]
pub(crate) fn random_uuid() -> (r: String)
    ensures
        uuid_shape(r@),
{
    uuid::Uuid::new_v4().to_string()
}

/// `std::str::from_utf8` accepts bytes exactly where they are valid UTF-8, and gives them
/// unchanged. Its error holds the length of the longest valid beginning, and tells an end of
/// input inside a character, which more bytes could complete, from a wrong byte.
#[verifier::external_body]
pub(crate) fn decode_bytes(bytes: &[u8]) -> (r: Result<String, (usize, bool)>)
    ensures
        match r {
            Ok(text) => valid_utf8(bytes@) && encode_utf8(text@) == bytes@,
            Err(error) => {
                &&& !valid_utf8(bytes@)
                &&& error.0 < bytes@.len()
                &&& valid_utf8(bytes@.take(error.0 as int))
                &&& forall|n: int| error.0 < n <= bytes@.len() ==> !#[trigger] valid_utf8(
                    bytes@.take(n),
                )
                &&& error.1 == utf8_beginning(bytes@)
            },
        },
{
    match std::str::from_utf8(bytes) {
        Ok(text) => Ok(text.to_string()),
        Err(error) => Err((error.valid_up_to(), error.error_len().is_none())),
    }
}

/// `String::from_utf8_lossy` keeps valid UTF-8 as it is and puts replacement characters for
/// the rest; the text depends on the bytes alone.
#[verifier::external_body]
pub(crate) fn decode_lossy(bytes: &[u8]) -> (r: String)
    ensures
        r@ == lossy_text(bytes@),
        valid_utf8(bytes@) ==> r@ == decode_utf8(bytes@),
{
    String::from_utf8_lossy(bytes).to_string()
}

/// `Debug` for `str` puts a text between double quotes and escapes what needs it; the result
/// depends on the text alone.
#[verifier::external_body]
pub(crate) fn debug_quoted(s: &str) -> (r: String)
    ensures
        r@ == debug_text(s@),
{
    format!("{s:?}")
}

/// `rayon` applies a function to every item, on several threads, and `collect` keeps the results
/// in the order of the items.
#[verifier::external_body]
pub(crate) fn parallel_map<T: Sync, U: Send, F: Fn(&T) -> U + Sync + Send>(
    items: &Vec<T>,
    f: F,
) -> (r: Vec<U>)
    requires
        forall|i: int| 0 <= i < items@.len() ==> call_requires(f, (&#[trigger] items@[i],)),
    ensures
        r@.len() == items@.len(),
        forall|i: int|
            0 <= i < items@.len() ==> call_ensures(f, (&items@[i],), #[trigger] r@[i]),
{
    items.par_iter().map(|item| f(item)).collect()
}

} // verus!
