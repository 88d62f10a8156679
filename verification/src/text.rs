//! Text as a sequence of characters: splitting, trimming and searching.

use vstd::prelude::*;
use vstd::string::*;

verus! {

/// The contents of a list of owned strings.
pub open spec fn texts(items: Seq<String>) -> Seq<Seq<char>> {
    items.map_values(|s: String| s@)
}

/// The contents of an optional string.
pub open spec fn opt_text(item: Option<String>) -> Option<Seq<char>> {
    match item {
        Some(s) => Some(s@),
        None => None,
    }
}

/// The contents of an optional string slice.
pub open spec fn opt_str(item: Option<&str>) -> Option<Seq<char>> {
    match item {
        Some(s) => Some(s@),
        None => None,
    }
}

/// [`String::push`] appends the given character to the end of the string.
pub assume_specification[ String::push ](s: &mut String, c: char)
    ensures
        final(s)@ == old(s)@.push(c),
;

/// The pieces of `s` between the characters that `is_sep` accepts, in order; a text
/// without a separator is its own single piece.
pub open spec fn fields_where(s: Seq<char>, is_sep: spec_fn(char) -> bool) -> Seq<Seq<char>>
    decreases s.len(),
{
    if s.len() == 0 {
        seq![Seq::<char>::empty()]
    } else {
        let before = fields_where(s.drop_last(), is_sep);
        if is_sep(s.last()) {
            before.push(Seq::<char>::empty())
        } else {
            before.drop_last().push(before.last().push(s.last()))
        }
    }
}

/// The test for one character.
pub open spec fn is_char(sep: char) -> spec_fn(char) -> bool {
    |c: char| c == sep
}

/// The pieces of `s` between occurrences of `sep`.
pub open spec fn fields(s: Seq<char>, sep: char) -> Seq<Seq<char>> {
    fields_where(s, is_char(sep))
}

/// A line without the carriage return that may end it.
pub open spec fn without_cr(line: Seq<char>) -> Seq<char> {
    if line.len() > 0 && line.last() == '\r' {
        line.drop_last()
    } else {
        line
    }
}

/// The lines of `s`: every line feed, with a carriage return directly before it, ends a
/// line, and text after the last line feed is one more line.
pub open spec fn lines_of(s: Seq<char>) -> Seq<Seq<char>> {
    let parts = fields(s, '\n');
    let ended = parts.drop_last().map_values(|line: Seq<char>| without_cr(line));
    if parts.last().len() == 0 {
        ended
    } else {
        ended.push(parts.last())
    }
}

/// Whether a character has the Unicode `White_Space` property.
pub open spec fn white_space(c: char) -> bool {
    let n = c as u32;
    ||| 0x9 <= n <= 0xd
    ||| n == 0x20
    ||| n == 0x85
    ||| n == 0xa0
    ||| n == 0x1680
    ||| 0x2000 <= n <= 0x200a
    ||| n == 0x2028
    ||| n == 0x2029
    ||| n == 0x202f
    ||| n == 0x205f
    ||| n == 0x3000
}

/// The maximal runs of characters that are not white space.
pub open spec fn words_of(s: Seq<char>) -> Seq<Seq<char>> {
    fields_where(s, |c: char| white_space(c)).filter(|w: Seq<char>| w.len() > 0)
}

/// `s` without its leading white space.
pub open spec fn trimmed_start(s: Seq<char>) -> Seq<char>
    decreases s.len(),
{
    if s.len() > 0 && white_space(s[0]) {
        trimmed_start(s.drop_first())
    } else {
        s
    }
}

/// `s` without its trailing white space.
pub open spec fn trimmed_end(s: Seq<char>) -> Seq<char>
    decreases s.len(),
{
    if s.len() > 0 && white_space(s.last()) {
        trimmed_end(s.drop_last())
    } else {
        s
    }
}

/// `s` without the white space at its two ends.
pub open spec fn trimmed(s: Seq<char>) -> Seq<char> {
    trimmed_end(trimmed_start(s))
}

/// Whether `part` stands at position `at` of `s`.
pub open spec fn occurs_at<T>(s: Seq<T>, part: Seq<T>, at: int) -> bool {
    &&& 0 <= at
    &&& at + part.len() <= s.len()
    &&& s.subrange(at, at + part.len()) == part
}

/// Whether `part` stands anywhere in `s`.
pub open spec fn occurs_in<T>(s: Seq<T>, part: Seq<T>) -> bool {
    exists|at: int| #[trigger] occurs_at(s, part, at)
}

/// What follows the last occurrence of `mark` in `s`, or all of `s` where there is none.
pub open spec fn after_last(s: Seq<char>, mark: Seq<char>) -> Seq<char> {
    after_last_before(s, mark, s.len() - mark.len())
}

/// What follows the last occurrence of `mark` that starts at `at` or earlier.
pub open spec fn after_last_before(s: Seq<char>, mark: Seq<char>, at: int) -> Seq<char>
    decreases at + 1,
{
    if at < 0 {
        s
    } else if occurs_at(s, mark, at) {
        s.skip(at + mark.len())
    } else {
        after_last_before(s, mark, at - 1)
    }
}

/// Two strings with the same characters are one string of characters.
pub proof fn lemma_same_bytes_same_text(a: Seq<char>, b: Seq<char>)
    requires
        vstd::utf8::encode_utf8(a) == vstd::utf8::encode_utf8(b),
    ensures
        a == b,
{
    vstd::utf8::encode_utf8_decode_utf8(a);
    vstd::utf8::encode_utf8_decode_utf8(b);
}

/// Whether two string slices hold the same characters.
pub fn same_text(a: &str, b: &str) -> (r: bool)
    ensures
        r == (a@ == b@),
{
    let x = a.as_bytes();
    let y = b.as_bytes();
    if x.len() != y.len() {
        return false;
    }
    let mut i: usize = 0;
    while i < x.len()
        invariant
            i <= x.len(),
            x@.len() == y@.len(),
            x@ == a.spec_bytes(),
            y@ == b.spec_bytes(),
            forall|j: int| 0 <= j < i ==> x@[j] == y@[j],
        decreases x.len() - i,
    {
        if x[i] != y[i] {
            return false;
        }
        i += 1;
    }
    proof {
        assert(x@ =~= y@);
        lemma_same_bytes_same_text(a@, b@);
    }
    true
}

/// Collects the characters of a string slice.
pub fn chars_of(s: &str) -> (v: Vec<char>)
    ensures
        v@ == s@,
{
    let mut v: Vec<char> = Vec::new();
    for c in it: s.chars()
        invariant
            it.seq() == s@,
            v@ == s@.take(it.index() as int),
    {
        v.push(c);
    }
    v
}

/// The string made of the characters `chars[from..to]`.
pub fn string_of(chars: &Vec<char>, from: usize, to: usize) -> (s: String)
    requires
        from <= to <= chars@.len(),
    ensures
        s@ == chars@.subrange(from as int, to as int),
{
    let mut s = String::new();
    let mut i: usize = from;
    while i < to
        invariant
            from <= i <= to <= chars@.len(),
            s@ == chars@.subrange(from as int, i as int),
        decreases to - i,
    {
        s.push(chars[i]);
        proof {
            assert(chars@.subrange(from as int, i + 1) =~= chars@.subrange(
                from as int,
                i as int,
            ).push(chars@[i as int]));
        }
        i += 1;
    }
    s
}

/// Whether a character has the Unicode `White_Space` property.
pub fn is_white_space(c: char) -> (r: bool)
    ensures
        r == white_space(c),
{
    let n: u32 = c as u32;
    (0x9 <= n && n <= 0xd) || n == 0x20 || n == 0x85 || n == 0xa0 || n == 0x1680 || (0x2000 <= n
        && n <= 0x200a) || n == 0x2028 || n == 0x2029 || n == 0x202f || n == 0x205f || n == 0x3000
}

/// Splitting always gives at least one piece.
pub proof fn lemma_fields_nonempty(s: Seq<char>, is_sep: spec_fn(char) -> bool)
    ensures
        fields_where(s, is_sep).len() > 0,
    decreases s.len(),
{
    if s.len() > 0 {
        lemma_fields_nonempty(s.drop_last(), is_sep);
    }
}

/// Splits a string at every occurrence of a character.
pub fn split_on(s: &str, sep: char) -> (parts: Vec<String>)
    ensures
        texts(parts@) == fields(s@, sep),
{
    let mut done: Vec<String> = Vec::new();
    let mut current = String::new();
    for c in it: s.chars()
        invariant
            it.seq() == s@,
            texts(done@).push(current@) =~= fields(s@.take(it.index() as int), sep),
    {
        let ghost i = it.index() as int;
        proof {
            assert(s@.take(i + 1).drop_last() =~= s@.take(i));
            assert(s@.take(i + 1).last() == c);
            assert(texts(done@).push(current@).drop_last() =~= texts(done@));
        }
        if c == sep {
            let ghost before = done@;
            let ghost last = current@;
            done.push(current);
            current = String::new();
            proof {
                assert(texts(done@) =~= texts(before).push(last));
            }
        } else {
            current.push(c);
        }
    }
    let ghost before = done@;
    let ghost last = current@;
    done.push(current);
    proof {
        assert(s@.take(s@.len() as int) =~= s@);
        assert(texts(done@) =~= texts(before).push(last));
    }
    done
}

/// The lines of a string, without their line endings.
pub fn lines(s: &str) -> (out: Vec<String>)
    ensures
        texts(out@) == lines_of(s@),
{
    let mut parts = split_on(s, '\n');
    let ghost all = texts(parts@);
    let ghost ended = fields(s@, '\n').drop_last().map_values(|line: Seq<char>| without_cr(line));
    proof {
        lemma_fields_nonempty(s@, |c: char| c == '\n');
        assert(parts@.len() == all.len());
    }
    let count = parts.len() - 1;
    let mut out: Vec<String> = Vec::new();
    let mut i: usize = 0;
    while i < count
        invariant
            i <= count,
            count + 1 == parts@.len(),
            all == texts(parts@),
            all == fields(s@, '\n'),
            ended == fields(s@, '\n').drop_last().map_values(|line: Seq<char>| without_cr(line)),
            texts(out@) =~= ended.take(i as int),
        decreases count - i,
    {
        let chars = chars_of(parts[i].as_str());
        proof {
            assert(all[i as int] == parts@[i as int]@);
            assert(chars@ == all[i as int]);
        }
        let line = if chars.len() > 0 && chars[chars.len() - 1] == '\r' {
            string_of(&chars, 0, chars.len() - 1)
        } else {
            string_of(&chars, 0, chars.len())
        };
        proof {
            assert(line@ =~= without_cr(all[i as int]));
            assert(ended[i as int] == without_cr(all[i as int]));
        }
        let ghost before = out@;
        out.push(line);
        proof {
            assert(texts(out@) =~= texts(before).push(line@));
            assert(ended.take(i + 1) =~= ended.take(i as int).push(ended[i as int]));
        }
        i += 1;
    }
    proof {
        assert(all.last() == parts@.last()@);
        assert(ended.take(count as int) =~= ended);
    }
    if let Some(last) = parts.pop() {
        proof {
            assert(last@ == all.last());
        }
        if !last.as_str().is_empty() {
            let ghost before = out@;
            out.push(last);
            proof {
                assert(texts(out@) =~= texts(before).push(last@));
            }
        }
    }
    out
}

/// The words of a string: the maximal runs without white space.
pub fn words(s: &str) -> (out: Vec<String>)
    ensures
        texts(out@) == words_of(s@),
{
    let ghost is_sep = |c: char| white_space(c);
    let ghost keep = |w: Seq<char>| w.len() > 0;
    let mut done: Vec<String> = Vec::new();
    let mut current = String::new();
    proof {
        reveal(Seq::filter);
        assert(fields_where(s@.take(0), is_sep).drop_last() =~= Seq::<Seq<char>>::empty());
    }
    for c in it: s.chars()
        invariant
            it.seq() == s@,
            is_sep == (|c: char| white_space(c)),
            keep == (|w: Seq<char>| w.len() > 0),
            fields_where(s@.take(it.index() as int), is_sep).len() > 0,
            fields_where(s@.take(it.index() as int), is_sep).last() == current@,
            texts(done@) == fields_where(s@.take(it.index() as int), is_sep).drop_last().filter(
                keep,
            ),
    {
        let ghost i = it.index() as int;
        let ghost before = fields_where(s@.take(i), is_sep);
        proof {
            assert(s@.take(i + 1).drop_last() =~= s@.take(i));
            assert(s@.take(i + 1).last() == c);
        }
        if is_white_space(c) {
            let ghost next = before.push(Seq::<char>::empty());
            proof {
                reveal(Seq::filter);
                assert(next.drop_last() =~= before);
            }
            if !current.as_str().is_empty() {
                let ghost old_done = done@;
                let ghost last = current@;
                done.push(current);
                current = String::new();
                proof {
                    assert(texts(done@) =~= texts(old_done).push(last));
                }
            }
            proof {
                assert(current@ =~= Seq::<char>::empty());
            }
        } else {
            current.push(c);
            proof {
                assert(before.drop_last().push(current@).drop_last() =~= before.drop_last());
            }
        }
    }
    proof {
        reveal(Seq::filter);
        assert(s@.take(s@.len() as int) =~= s@);
    }
    if !current.as_str().is_empty() {
        let ghost old_done = done@;
        let ghost last = current@;
        done.push(current);
        proof {
            assert(texts(done@) =~= texts(old_done).push(last));
        }
    }
    done
}

/// A string without the white space at its two ends.
pub fn trim(s: &str) -> (out: String)
    ensures
        out@ == trimmed(s@),
{
    let chars = chars_of(s);
    let mut from: usize = 0;
    proof {
        assert(chars@.skip(0) =~= chars@);
    }
    while from < chars.len() && is_white_space(chars[from])
        invariant
            from <= chars@.len(),
            trimmed_start(chars@.skip(from as int)) == trimmed_start(chars@),
        decreases chars@.len() - from,
    {
        proof {
            assert(chars@.skip(from as int).drop_first() =~= chars@.skip(from + 1));
        }
        from += 1;
    }
    let ghost start = chars@.skip(from as int);
    let mut to: usize = chars.len();
    proof {
        assert(start == trimmed_start(chars@));
        assert(chars@.subrange(from as int, to as int) =~= start);
    }
    while to > from && is_white_space(chars[to - 1])
        invariant
            from <= to <= chars@.len(),
            trimmed_end(chars@.subrange(from as int, to as int)) == trimmed_end(start),
        decreases to,
    {
        proof {
            assert(chars@.subrange(from as int, to as int).drop_last() =~= chars@.subrange(
                from as int,
                to - 1,
            ));
        }
        to -= 1;
    }
    string_of(&chars, from, to)
}

/// Whether `part` stands at position `at` of `s`.
pub fn chars_match_at(s: &Vec<char>, part: &Vec<char>, at: usize) -> (r: bool)
    requires
        at + part@.len() <= s@.len(),
    ensures
        r == occurs_at(s@, part@, at as int),
{
    let total = s.len();
    let mut i: usize = 0;
    while i < part.len()
        invariant
            i <= part@.len(),
            total == s@.len(),
            at + part@.len() <= total,
            forall|j: int| 0 <= j < i ==> s@[at + j] == part@[j],
        decreases part@.len() - i,
    {
        if s[at + i] != part[i] {
            proof {
                assert(s@.subrange(at as int, at + part@.len())[i as int] != part@[i as int]);
            }
            return false;
        }
        i += 1;
    }
    proof {
        assert(s@.subrange(at as int, at + part@.len()) =~= part@);
    }
    true
}

/// Whether `part` stands anywhere in `s`.
pub fn contains(s: &str, part: &str) -> (r: bool)
    ensures
        r == occurs_in(s@, part@),
{
    let hay = chars_of(s);
    let needle = chars_of(part);
    if needle.len() > hay.len() {
        return false;
    }
    let mut at: usize = 0;
    let last = hay.len() - needle.len();
    while at <= last
        invariant
            hay@ == s@,
            needle@ == part@,
            last + needle@.len() == hay@.len(),
            at <= last + 1,
            forall|j: int| 0 <= j < at ==> !occurs_at(s@, part@, j),
        decreases last + 1 - at,
    {
        if chars_match_at(&hay, &needle, at) {
            return true;
        }
        if at == last {
            return false;
        }
        at += 1;
    }
    false
}

/// What follows the last occurrence of `mark` in `s`, or `s` itself where there is none.
pub fn text_after_last(s: &str, mark: &str) -> (out: String)
    ensures
        out@ == after_last(s@, mark@),
{
    let hay = chars_of(s);
    let needle = chars_of(mark);
    let total = hay.len();
    if needle.len() <= total {
        let mut at: usize = total - needle.len();
        loop
            invariant
                hay@ == s@,
                needle@ == mark@,
                total == hay@.len(),
                at + needle@.len() <= total,
                after_last(s@, mark@) == after_last_before(s@, mark@, at as int),
            ensures
                after_last(s@, mark@) == s@,
            decreases at,
        {
            if chars_match_at(&hay, &needle, at) {
                let out = string_of(&hay, at + needle.len(), total);
                proof {
                    assert(out@ =~= s@.skip(at + mark@.len()));
                }
                return out;
            }
            if at == 0 {
                proof {
                    assert(after_last_before(s@, mark@, -1) == s@);
                }
                break;
            }
            at -= 1;
        }
    }
    s.to_owned()
}

/// Whether a text is one of the items of a list.
pub fn contains_text(items: &Vec<String>, part: &str) -> (r: bool)
    ensures
        r == texts(items@).contains(part@),
{
    let ghost all = texts(items@);
    let mut i: usize = 0;
    while i < items.len()
        invariant
            i <= items@.len(),
            all == texts(items@),
            forall|k: int| 0 <= k < i ==> all[k] != part@,
        decreases items@.len() - i,
    {
        proof {
            assert(all[i as int] == items@[i as int]@);
        }
        if same_text(items[i].as_str(), part) {
            return true;
        }
        i += 1;
    }
    false
}

/// A copy of an optional string.
pub fn copy_text(item: &Option<String>) -> (r: Option<String>)
    ensures
        opt_text(r) == opt_text(*item),
{
    match item {
        Some(s) => Some(s.clone()),
        None => None,
    }
}

/// Adds texts to the end of a list.
pub fn push_all(items: &mut Vec<String>, more: &Vec<String>)
    ensures
        texts(final(items)@) == texts(old(items)@) + texts(more@),
{
    let ghost before = texts(items@);
    let ghost all = texts(more@);
    let mut i: usize = 0;
    proof {
        assert(before + all.take(0) =~= before);
    }
    while i < more.len()
        invariant
            i <= more@.len(),
            all == texts(more@),
            texts(items@) == before + all.take(i as int),
        decreases more@.len() - i,
    {
        let ghost prior = items@;
        items.push(more[i].clone());
        proof {
            assert(texts(items@) =~= texts(prior).push(more@[i as int]@));
            assert(before + all.take(i + 1) =~= (before + all.take(i as int)).push(all[i as int]));
        }
        i += 1;
    }
    proof {
        assert(all.take(all.len() as int) =~= all);
    }
}

/// Adds a text to the end of a list.
pub fn push_text(items: &mut Vec<String>, item: &str)
    ensures
        texts(final(items)@) == texts(old(items)@).push(item@),
{
    let ghost before = items@;
    items.push(item.to_owned());
    proof {
        assert(texts(items@) =~= texts(before).push(item@));
    }
}

/// Splitting what ends with a separator, or goes on without one.
proof fn lemma_fields_then(a: Seq<char>, b: Seq<char>, is_sep: spec_fn(char) -> bool, c: char)
    requires
        is_sep(c),
    ensures
        fields_where(a + seq![c] + b, is_sep) == fields_where(a, is_sep) + fields_where(b, is_sep),
    decreases b.len(),
{
    let more = a + seq![c];
    let x = fields_where(a, is_sep);
    let none = Seq::<char>::empty();
    lemma_fields_nonempty(a, is_sep);
    if b.len() == 0 {
        assert(more + b =~= more);
        assert(more.drop_last() =~= a);
        assert(more.last() == c);
        assert(fields_where(b, is_sep) =~= seq![none]);
        assert(fields_where(more, is_sep) =~= x + seq![none]);
    } else {
        let init = b.drop_last();
        lemma_fields_then(a, init, is_sep, c);
        lemma_fields_nonempty(init, is_sep);
        let whole = more + b;
        assert(whole.drop_last() =~= more + init);
        assert(whole.last() == b.last());
        let y = fields_where(init, is_sep);
        let inner = fields_where(more + init, is_sep);
        assert(inner == x + y);
        assert(inner.last() == y.last());
        assert(inner.drop_last() =~= x + y.drop_last());
        assert(fields_where(whole, is_sep) =~= x + fields_where(b, is_sep));
    }
}

/// A text without a separator is its own only piece.
proof fn lemma_one_field(a: Seq<char>, is_sep: spec_fn(char) -> bool)
    requires
        forall|i: int| 0 <= i < a.len() ==> !is_sep(#[trigger] a[i]),
    ensures
        fields_where(a, is_sep) == seq![a],
    decreases a.len(),
{
    if a.len() > 0 {
        let init = a.drop_last();
        assert forall|i: int| 0 <= i < init.len() implies !is_sep(#[trigger] init[i]) by {
            assert(init[i] == a[i]);
        }
        lemma_one_field(init, is_sep);
        assert(!is_sep(a[a.len() - 1]));
        assert(init.push(a.last()) =~= a);
        assert(fields_where(a, is_sep) =~= seq![a]);
    } else {
        assert(a =~= Seq::<char>::empty());
    }
}

/// Law: a text without a separator is its own only piece, and what stands before a separator and
/// after it is split apart.
pub proof fn law_fields(a: Seq<char>, b: Seq<char>, sep: char)
    ensures
        (forall|i: int| 0 <= i < a.len() ==> #[trigger] a[i] != sep) ==> fields(a, sep) == seq![a],
        fields(a + seq![sep] + b, sep) == fields(a, sep) + fields(b, sep),
{
    lemma_fields_then(a, b, is_char(sep), sep);
    if forall|i: int| 0 <= i < a.len() ==> #[trigger] a[i] != sep {
        lemma_one_field(a, is_char(sep));
    }
}

/// Law: what stands before the first line feed is a line, without a carriage return at its end, and
/// the lines of what follows come after it. A text without a line feed is one line as it is, and
/// no line where it is empty.
pub proof fn law_lines(line: Seq<char>, rest: Seq<char>)
    requires
        forall|i: int| 0 <= i < line.len() ==> #[trigger] line[i] != '\n',
    ensures
        line.len() == 0 ==> lines_of(line).len() == 0,
        line.len() > 0 ==> lines_of(line) == seq![line],
        line.len() == 0 || line.last() != '\r' ==> lines_of(line + seq!['\n'] + rest) == seq![
            line,
        ] + lines_of(rest),
        line.len() > 0 && line.last() == '\r' ==> lines_of(line + seq!['\n'] + rest) == seq![
            line.drop_last(),
        ] + lines_of(rest),
{
    law_fields(line, rest, '\n');
    let strip = |s: Seq<char>| without_cr(s);
    let parts = fields(rest, '\n');
    lemma_fields_nonempty(rest, is_char('\n'));
    let whole = fields(line + seq!['\n'] + rest, '\n');
    assert(whole == seq![line] + parts);
    assert(whole.last() == parts.last());
    assert(whole.drop_last() =~= seq![line] + parts.drop_last());
    assert(whole.drop_last().map_values(strip) =~= seq![without_cr(line)]
        + parts.drop_last().map_values(strip));
    assert(lines_of(line + seq!['\n'] + rest) =~= seq![without_cr(line)] + lines_of(rest));
    assert(seq![line].drop_last().map_values(strip) =~= Seq::<Seq<char>>::empty());
    assert(seq![line].last() == line);
    if line.len() > 0 {
        assert(lines_of(line) =~= seq![line]);
    }
}

/// Filtering two lists one after the other.
proof fn lemma_filter_concat<T>(a: Seq<T>, b: Seq<T>, keep: spec_fn(T) -> bool)
    ensures
        (a + b).filter(keep) == a.filter(keep) + b.filter(keep),
    decreases b.len(),
{
    reveal(Seq::filter);
    if b.len() == 0 {
        assert(a + b =~= a);
        assert(a.filter(keep) + b.filter(keep) =~= a.filter(keep));
    } else {
        lemma_filter_concat(a, b.drop_last(), keep);
        assert((a + b).drop_last() =~= a + b.drop_last());
        assert((a + b).filter(keep) =~= a.filter(keep) + b.filter(keep));
    }
}

/// Law: a text without white space is one word, or none where it is empty, and white space parts the
/// words before it from those after it.
pub proof fn law_words(a: Seq<char>, b: Seq<char>, c: char)
    ensures
        (forall|i: int| 0 <= i < a.len() ==> !white_space(#[trigger] a[i])) && a.len() > 0
            ==> words_of(a) == seq![a],
        a.len() == 0 ==> words_of(a).len() == 0,
        white_space(c) ==> words_of(a + seq![c] + b) == words_of(a) + words_of(b),
{
    let is_sep = |c: char| white_space(c);
    let keep = |w: Seq<char>| w.len() > 0;
    reveal(Seq::filter);
    if white_space(c) {
        lemma_fields_then(a, b, is_sep, c);
        lemma_filter_concat(fields_where(a, is_sep), fields_where(b, is_sep), keep);
    }
    if forall|i: int| 0 <= i < a.len() ==> !white_space(#[trigger] a[i]) {
        lemma_one_field(a, is_sep);
        assert(seq![a].drop_last() =~= Seq::<Seq<char>>::empty());
        assert(seq![a].drop_last().filter(keep) =~= Seq::<Seq<char>>::empty());
        if a.len() > 0 {
            assert(seq![a].filter(keep) =~= seq![a]);
        }
    }
}

proof fn lemma_trimmed_start(s: Seq<char>) -> (n: int)
    ensures
        0 <= n <= s.len(),
        trimmed_start(s) == s.skip(n),
        forall|i: int| 0 <= i < n ==> white_space(#[trigger] s[i]),
        n < s.len() ==> !white_space(s[n]),
    decreases s.len(),
{
    if s.len() > 0 && white_space(s[0]) {
        let rest = s.drop_first();
        let n = lemma_trimmed_start(rest);
        assert(rest.skip(n) =~= s.skip(n + 1));
        assert forall|i: int| 0 <= i < n + 1 implies white_space(#[trigger] s[i]) by {
            if i > 0 {
                assert(rest[i - 1] == s[i]);
            }
        }
        n + 1
    } else {
        assert(s.skip(0) =~= s);
        0
    }
}

proof fn lemma_trimmed_end(s: Seq<char>) -> (n: int)
    ensures
        0 <= n <= s.len(),
        trimmed_end(s) == s.take(n),
        forall|i: int| n <= i < s.len() ==> white_space(#[trigger] s[i]),
        n > 0 ==> !white_space(s[n - 1]),
    decreases s.len(),
{
    if s.len() > 0 && white_space(s.last()) {
        let rest = s.drop_last();
        let n = lemma_trimmed_end(rest);
        assert(rest.take(n) =~= s.take(n));
        assert forall|i: int| n <= i < s.len() implies white_space(#[trigger] s[i]) by {
            if i < rest.len() {
                assert(rest[i] == s[i]);
            }
        }
        n
    } else {
        assert(s.take(s.len() as int) =~= s);
        s.len() as int
    }
}

/// Law: trimming leaves out all white space at the two ends of a text, and nothing else.
pub proof fn law_trimmed(s: Seq<char>)
    ensures
        exists|a: int, b: int|
            {
                &&& 0 <= a <= b <= s.len()
                &&& trimmed(s) == #[trigger] s.subrange(a, b)
                &&& forall|i: int| 0 <= i < a ==> white_space(#[trigger] s[i])
                &&& forall|i: int| b <= i < s.len() ==> white_space(#[trigger] s[i])
            },
        trimmed(s).len() > 0 ==> !white_space(trimmed(s)[0]) && !white_space(trimmed(s).last()),
{
    let a = lemma_trimmed_start(s);
    let rest = s.skip(a);
    let n = lemma_trimmed_end(rest);
    assert(trimmed(s) =~= s.subrange(a, a + n));
    assert forall|i: int| a + n <= i < s.len() implies white_space(#[trigger] s[i]) by {
        assert(rest[i - a] == s[i]);
    }
    if n > 0 {
        assert(rest[0] == s[a]);
        assert(rest[n - 1] == s[a + n - 1]);
        if a < s.len() {
            assert(!white_space(s[a]));
        }
    }
}

/// Law: which characters are white space, by their numbers.
pub proof fn law_white_space(c: char)
    ensures
        white_space(c) <==> {
            let n = c as u32;
            ||| n == 9 || n == 10 || n == 11 || n == 12 || n == 13
            ||| n == 32 || n == 133 || n == 160 || n == 5_760
            ||| 8_192 <= n <= 8_202
            ||| n == 8_232 || n == 8_233 || n == 8_239 || n == 8_287 || n == 12_288
        },
{
}

/// Law: what follows the last occurrence of a mark is just that, and without an occurrence it is the
/// whole text.
pub proof fn law_after_last(s: Seq<char>, mark: Seq<char>)
    ensures
        (exists|at: int|
            {
                &&& #[trigger] occurs_at(s, mark, at)
                &&& after_last(s, mark) == s.skip(at + mark.len())
                &&& forall|i: int| i > at ==> !occurs_at(s, mark, i)
            }) || (after_last(s, mark) == s && forall|i: int| !occurs_at(s, mark, i)),
{
    lemma_after_last_before(s, mark, s.len() - mark.len());
}

proof fn lemma_after_last_before(s: Seq<char>, mark: Seq<char>, from: int)
    requires
        forall|i: int| i > from ==> !occurs_at(s, mark, i),
    ensures
        (exists|at: int|
            {
                &&& #[trigger] occurs_at(s, mark, at)
                &&& after_last_before(s, mark, from) == s.skip(at + mark.len())
                &&& forall|i: int| i > at ==> !occurs_at(s, mark, i)
            }) || (after_last_before(s, mark, from) == s && forall|i: int|
            !occurs_at(s, mark, i)),
    decreases from + 1,
{
    if from >= 0 && !occurs_at(s, mark, from) {
        lemma_after_last_before(s, mark, from - 1);
    }
}

} // verus!
