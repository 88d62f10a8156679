//! Text as a sequence of UTF-8 bytes: lengths, character boundaries and byte offsets.

use vstd::prelude::*;
use vstd::string::*;
use vstd::utf8::*;

use crate::text;

verus! {

/// The length of a text in bytes.
pub fn byte_len(s: &str) -> (n: usize)
    ensures
        n == s.spec_bytes().len(),
{
    s.as_bytes().len()
}

/// The last character boundary of `bytes` at or before `at`.
pub open spec fn boundary_before(bytes: Seq<u8>, at: int) -> int
    decreases at,
{
    if at <= 0 || is_char_boundary(bytes, at) {
        at
    } else {
        boundary_before(bytes, at - 1)
    }
}

/// The first character boundary of `bytes` at or after `at`.
pub open spec fn boundary_after(bytes: Seq<u8>, at: int) -> int
    decreases bytes.len() - at,
{
    if at >= bytes.len() || is_char_boundary(bytes, at) {
        at
    } else {
        boundary_after(bytes, at + 1)
    }
}

/// `at` moved to a character boundary, forward or backward; an offset past the end of the
/// text becomes the end of the text.
pub open spec fn clamped(bytes: Seq<u8>, at: int, forward: bool) -> int {
    if at >= bytes.len() {
        bytes.len() as int
    } else if forward {
        boundary_after(bytes, at)
    } else {
        boundary_before(bytes, at)
    }
}

/// The nearest boundary on either side is a boundary, and lies on that side.
pub proof fn lemma_boundary_before(bytes: Seq<u8>, at: int)
    requires
        valid_utf8(bytes),
        0 <= at <= bytes.len(),
    ensures
        0 <= boundary_before(bytes, at) <= at,
        is_char_boundary(bytes, boundary_before(bytes, at)),
        forall|i: int| boundary_before(bytes, at) < i <= at ==> !is_char_boundary(bytes, i),
    decreases at,
{
    if at > 0 && !is_char_boundary(bytes, at) {
        lemma_boundary_before(bytes, at - 1);
    }
}

/// The nearest boundary on the right is a boundary, and nothing before it is one.
pub proof fn lemma_boundary_after(bytes: Seq<u8>, at: int)
    requires
        valid_utf8(bytes),
        0 <= at <= bytes.len(),
    ensures
        at <= boundary_after(bytes, at) <= bytes.len(),
        is_char_boundary(bytes, boundary_after(bytes, at)),
        forall|i: int| at <= i < boundary_after(bytes, at) ==> !is_char_boundary(bytes, i),
    decreases bytes.len() - at,
{
    is_char_boundary_start_end_of_seq(bytes);
    if at < bytes.len() && !is_char_boundary(bytes, at) {
        lemma_boundary_after(bytes, at + 1);
    }
}

/// A clamped offset is a boundary inside the text; it lies on the asked side of the offset,
/// and no boundary lies between the two.
pub proof fn law_clamped(bytes: Seq<u8>, at: int, forward: bool)
    requires
        valid_utf8(bytes),
        0 <= at,
    ensures
        0 <= clamped(bytes, at, forward) <= bytes.len(),
        is_char_boundary(bytes, clamped(bytes, at, forward)),
        at <= bytes.len() && forward ==> at <= clamped(bytes, at, forward),
        !forward ==> clamped(bytes, at, forward) <= at,
        at <= bytes.len() && is_char_boundary(bytes, at) ==> clamped(bytes, at, forward) == at,
        forall|i: int|
            at <= i < clamped(bytes, at, forward) || clamped(bytes, at, forward) < i <= at
                ==> i > bytes.len() || !is_char_boundary(bytes, i),
{
    is_char_boundary_start_end_of_seq(bytes);
    if at < bytes.len() {
        lemma_boundary_before(bytes, at);
        lemma_boundary_after(bytes, at);
    }
}

/// The bytes of a text are valid UTF-8, and both ends are boundaries.
pub proof fn lemma_text_bytes(s: Seq<char>)
    ensures
        valid_utf8(encode_utf8(s)),
        is_char_boundary(encode_utf8(s), 0),
        is_char_boundary(encode_utf8(s), encode_utf8(s).len() as int),
{
    encode_utf8_valid_utf8(s);
    is_char_boundary_start_end_of_seq(encode_utf8(s));
}

/// Moves a byte offset to a character boundary of `text`.
pub fn clamp_char_boundary(text: &str, idx: usize, forward: bool) -> (r: usize)
    ensures
        r == clamped(text.spec_bytes(), idx as int, forward),
        r <= text.spec_bytes().len(),
        is_char_boundary(text.spec_bytes(), r as int),
{
    let len = byte_len(text);
    proof {
        lemma_text_bytes(text@);
        law_clamped(text.spec_bytes(), idx as int, forward);
    }
    if idx >= len {
        return len;
    }
    if text.is_char_boundary(idx) {
        return idx;
    }
    let mut i: usize = idx;
    if forward {
        while i < len && !text.is_char_boundary(i)
            invariant
                i <= len,
                len == text.spec_bytes().len(),
                boundary_after(text.spec_bytes(), i as int) == boundary_after(
                    text.spec_bytes(),
                    idx as int,
                ),
            decreases len - i,
        {
            i += 1;
        }
    } else {
        while i > 0 && !text.is_char_boundary(i)
            invariant
                boundary_before(text.spec_bytes(), i as int) == boundary_before(
                    text.spec_bytes(),
                    idx as int,
                ),
            decreases i,
        {
            i -= 1;
        }
    }
    i
}

/// Taking a part of a text between two boundaries keeps boundaries where they are.
pub proof fn lemma_boundary_in_suffix(bytes: Seq<u8>, from: int, at: int)
    requires
        valid_utf8(bytes),
        is_char_boundary(bytes, from),
        0 <= from <= at <= bytes.len(),
    ensures
        valid_utf8(bytes.skip(from)),
        is_char_boundary(bytes.skip(from), at - from) == is_char_boundary(bytes, at),
{
    assert(bytes.skip(from) =~= bytes.subrange(from, bytes.len() as int));
    valid_utf8_split(bytes, from);
    let rest = bytes.skip(from);
    if at < bytes.len() {
        is_char_boundary_iff_not_is_continuation_byte(bytes, at);
        is_char_boundary_iff_not_is_continuation_byte(rest, at - from);
        assert(rest[at - from] == bytes[at]);
    } else {
        is_char_boundary_start_end_of_seq(bytes);
        is_char_boundary_start_end_of_seq(rest);
    }
}

/// A prefix that ends on a boundary keeps the boundaries before it.
pub proof fn lemma_boundary_in_prefix(bytes: Seq<u8>, to: int, at: int)
    requires
        valid_utf8(bytes),
        is_char_boundary(bytes, to),
        0 <= at <= to <= bytes.len(),
    ensures
        valid_utf8(bytes.take(to)),
        is_char_boundary(bytes.take(to), at) == is_char_boundary(bytes, at),
{
    assert(bytes.take(to) =~= bytes.subrange(0, to));
    valid_utf8_split(bytes, to);
    let head = bytes.take(to);
    if at < to {
        is_char_boundary_iff_not_is_continuation_byte(bytes, at);
        is_char_boundary_iff_not_is_continuation_byte(head, at);
        assert(head[at] == bytes[at]);
    } else {
        is_char_boundary_start_end_of_seq(head);
    }
}

/// A stretch between two boundaries is valid UTF-8, with the boundaries of the whole text.
pub proof fn lemma_stretch(bytes: Seq<u8>, from: int, to: int)
    requires
        valid_utf8(bytes),
        0 <= from <= to <= bytes.len(),
        is_char_boundary(bytes, from),
        is_char_boundary(bytes, to),
    ensures
        valid_utf8(bytes.subrange(from, to)),
        forall|i: int|
            0 <= i <= to - from ==> is_char_boundary(bytes.subrange(from, to), i)
                == is_char_boundary(bytes, from + i),
{
    let head = bytes.take(to);
    lemma_boundary_in_prefix(bytes, to, from);
    lemma_boundary_in_suffix(head, from, to);
    assert(head.skip(from) =~= bytes.subrange(from, to));
    assert forall|i: int| 0 <= i <= to - from implies is_char_boundary(
        bytes.subrange(from, to),
        i,
    ) == is_char_boundary(bytes, from + i) by {
        lemma_boundary_in_prefix(bytes, to, from + i);
        lemma_boundary_in_suffix(head, from, from + i);
    }
}

/// The part of a text between two character boundaries.
pub fn slice<'a>(s: &'a str, from: usize, to: usize) -> (r: &'a str)
    requires
        from <= to <= s.spec_bytes().len(),
        is_char_boundary(s.spec_bytes(), from as int),
        is_char_boundary(s.spec_bytes(), to as int),
    ensures
        r.spec_bytes() == s.spec_bytes().subrange(from as int, to as int),
        r@ == decode_utf8(s.spec_bytes().subrange(from as int, to as int)),
{
    proof {
        lemma_text_bytes(s@);
        lemma_boundary_in_prefix(s.spec_bytes(), to as int, from as int);
        assert(s.spec_bytes().take(to as int) =~= s.spec_bytes().subrange(0, to as int));
    }
    let (head, _) = s.split_at(to);
    let (_, part) = head.split_at(from);
    proof {
        assert(part.spec_bytes() =~= s.spec_bytes().subrange(from as int, to as int));
        encode_utf8_decode_utf8(part@);
    }
    part
}

/// The next character begins no more than four bytes on.
pub proof fn lemma_next_boundary(bytes: Seq<u8>, at: int) -> (next: int)
    requires
        valid_utf8(bytes),
        is_char_boundary(bytes, at),
        0 <= at < bytes.len(),
    ensures
        at < next <= at + 4,
        next <= bytes.len(),
        is_char_boundary(bytes, next),
{
    lemma_boundary_in_suffix(bytes, at, at);
    let rest = bytes.skip(at);
    let width = length_of_first_scalar(rest);
    assert(valid_first_scalar(rest));
    assert(is_char_boundary(pop_first_scalar(rest), 0));
    assert(is_char_boundary(rest, width));
    lemma_boundary_in_suffix(bytes, at, at + width);
    at + width
}

/// The position of the first occurrence of `part` in `s` at or after `from`.
pub open spec fn first_occurrence(s: Seq<u8>, part: Seq<u8>, from: int) -> Option<int>
    decreases s.len() - from + 1,
{
    if from + part.len() > s.len() {
        None
    } else if text::occurs_at(s, part, from) {
        Some(from)
    } else {
        first_occurrence(s, part, from + 1)
    }
}

/// The first occurrence is one, lies at or after `from`, and none lies before it.
pub proof fn lemma_first_occurrence(s: Seq<u8>, part: Seq<u8>, from: int)
    requires
        0 <= from,
    ensures
        match first_occurrence(s, part, from) {
            Some(at) => {
                &&& from <= at
                &&& text::occurs_at(s, part, at)
                &&& forall|i: int| from <= i < at ==> !text::occurs_at(s, part, i)
            },
            None => forall|i: int| from <= i ==> !text::occurs_at(s, part, i),
        },
    decreases s.len() - from + 1,
{
    if from + part.len() <= s.len() && !text::occurs_at(s, part, from) {
        lemma_first_occurrence(s, part, from + 1);
    }
}

/// The positions of the occurrences of `part` in `s` from `from` on that do not overlap: the
/// first one, then the first one after its end, and so on.
pub open spec fn occurrences(s: Seq<u8>, part: Seq<u8>, from: int) -> Seq<int>
    decreases s.len() - from,
    when part.len() > 0 && 0 <= from
{
    proof {
        lemma_first_occurrence(s, part, from);
    }
    match first_occurrence(s, part, from) {
        Some(at) => seq![at] + occurrences(s, part, at + part.len()),
        None => Seq::empty(),
    }
}

/// Whether `part` stands at position `at` of `s`.
fn bytes_match_at(s: &[u8], part: &[u8], at: usize) -> (r: bool)
    requires
        at + part@.len() <= s@.len(),
    ensures
        r == text::occurs_at(s@, part@, at as int),
{
    let total = s.len();
    let mut i: usize = 0;
    while i < part.len()
        invariant
            i <= part@.len(),
            total == s@.len(),
            at + part@.len() <= total,
            forall|j: int| 0 <= j < i ==> s@[at + j] == part@[j],
        decreases part@.len() - i,
    {
        if s[at + i] != part[i] {
            proof {
                assert(s@.subrange(at as int, at + part@.len())[i as int] != part@[i as int]);
            }
            return false;
        }
        i += 1;
    }
    proof {
        assert(s@.subrange(at as int, at + part@.len()) =~= part@);
    }
    true
}

/// The positions of the occurrences of a nonempty text between two offsets, from the left and
/// without overlap.
pub fn find_occurrences(s: &str, part: &str, from: usize, to: usize) -> (found: Vec<usize>)
    requires
        part.spec_bytes().len() > 0,
        from <= to <= s.spec_bytes().len(),
    ensures
        found@.map_values(|n: usize| n as int) == occurrences(
            s.spec_bytes().take(to as int),
            part.spec_bytes(),
            from as int,
        ),
{
    let hay = s.as_bytes();
    let needle = part.as_bytes();
    let width = needle.len();
    let mut found: Vec<usize> = Vec::new();
    let mut at: usize = from;
    let ghost stretch = hay@.take(to as int);
    let ghost whole = occurrences(stretch, needle@, from as int);
    while width <= to - at
        invariant
            at <= to,
            to <= hay@.len(),
            stretch == hay@.take(to as int),
            width == needle@.len(),
            width > 0,
            whole == found@.map_values(|n: usize| n as int) + occurrences(
                stretch,
                needle@,
                at as int,
            ),
        decreases to - at,
    {
        proof {
            assert(stretch.subrange(at as int, at + width) =~= hay@.subrange(
                at as int,
                at + width,
            ));
        }
        if bytes_match_at(hay, needle, at) {
            let ghost before = found@;
            found.push(at);
            proof {
                assert(occurrences(stretch, needle@, at as int) =~= seq![at as int] + occurrences(
                    stretch,
                    needle@,
                    at + width,
                ));
                assert(found@.map_values(|n: usize| n as int) =~= before.map_values(
                    |n: usize| n as int,
                ).push(at as int));
            }
            at += width;
        } else {
            proof {
                assert(first_occurrence(stretch, needle@, at as int) == first_occurrence(
                    stretch,
                    needle@,
                    at + 1,
                ));
            }
            at += 1;
        }
    }
    proof {
        assert(first_occurrence(stretch, needle@, at as int) is None);
        assert(occurrences(stretch, needle@, at as int) =~= Seq::<int>::empty());
    }
    found
}

/// Whether `found` lists occurrences of `part` at `from` or later, in ascending order and
/// apart from one another.
pub open spec fn separate_occurrences(
    s: Seq<u8>,
    part: Seq<u8>,
    from: int,
    found: Seq<int>,
) -> bool {
    &&& forall|k: int|
        0 <= k < found.len() ==> from <= #[trigger] found[k] && text::occurs_at(s, part, found[k])
    &&& forall|k: int, l: int|
        0 <= k < l < found.len() ==> #[trigger] found[k] + part.len() <= #[trigger] found[l]
}

/// Whether the occurrence at `at` is one of `found` or overlaps an earlier one of them.
pub open spec fn covered(part: Seq<u8>, found: Seq<int>, at: int) -> bool {
    exists|k: int| 0 <= k < found.len() && #[trigger] found[k] <= at < found[k] + part.len()
}

/// Law: the occurrences that are found are occurrences, in ascending order and apart from one
/// another.
pub proof fn law_occurrences_separate(s: Seq<u8>, part: Seq<u8>, from: int)
    requires
        part.len() > 0,
        0 <= from,
    ensures
        separate_occurrences(s, part, from, occurrences(s, part, from)),
    decreases s.len() - from,
{
    lemma_first_occurrence(s, part, from);
    let all = occurrences(s, part, from);
    if let Some(first) = first_occurrence(s, part, from) {
        let next = first + part.len();
        let rest = occurrences(s, part, next);
        law_occurrences_separate(s, part, next);
        assert(all =~= seq![first] + rest);
        assert forall|k: int| 0 <= k < all.len() implies from <= #[trigger] all[k]
            && text::occurs_at(s, part, all[k]) by {
            if k > 0 {
                assert(all[k] == rest[k - 1]);
            }
        }
        assert forall|k: int, l: int| 0 <= k < l < all.len() implies #[trigger] all[k] + part.len()
            <= #[trigger] all[l] by {
            assert(all[l] == rest[l - 1]);
            if k > 0 {
                assert(all[k] == rest[k - 1]);
            }
        }
    }
}

/// Law: every occurrence is found, or overlaps an earlier one that is found.
pub proof fn law_occurrences_complete(s: Seq<u8>, part: Seq<u8>, from: int, at: int)
    requires
        part.len() > 0,
        0 <= from <= at,
        text::occurs_at(s, part, at),
    ensures
        covered(part, occurrences(s, part, from), at),
    decreases s.len() - from,
{
    lemma_first_occurrence(s, part, from);
    let all = occurrences(s, part, from);
    let first = first_occurrence(s, part, from)->0;
    let next = first + part.len();
    let rest = occurrences(s, part, next);
    assert(all =~= seq![first] + rest);
    if at < next {
        assert(all[0] == first);
    } else {
        law_occurrences_complete(s, part, next, at);
        let k = choose|k: int|
            0 <= k < rest.len() && #[trigger] rest[k] <= at < rest[k] + part.len();
        assert(all[k + 1] == rest[k]);
    }
}

/// Law: starting anew at an occurrence that was found gives the rest of the occurrences.
pub proof fn law_occurrences_resume(s: Seq<u8>, part: Seq<u8>, from: int, k: int)
    requires
        part.len() > 0,
        0 <= from,
        0 <= k < occurrences(s, part, from).len(),
    ensures
        occurrences(s, part, occurrences(s, part, from)[k]) == occurrences(s, part, from).skip(k),
    decreases s.len() - from,
{
    lemma_first_occurrence(s, part, from);
    let all = occurrences(s, part, from);
    let first = first_occurrence(s, part, from)->0;
    let next = first + part.len();
    let rest = occurrences(s, part, next);
    assert(all =~= seq![first] + rest);
    if k == 0 {
        assert(first_occurrence(s, part, first) == Some(first));
        assert(all.skip(0) =~= all);
        assert(occurrences(s, part, first) =~= seq![first] + rest);
    } else {
        assert(all[k] == rest[k - 1]);
        law_occurrences_resume(s, part, next, k - 1);
        assert(rest.skip(k - 1) =~= all.skip(k));
    }
}

/// An occurrence of a nonempty text in another begins and ends on character boundaries.
pub proof fn lemma_occurrence_boundaries(s: Seq<u8>, part: Seq<u8>, at: int)
    requires
        valid_utf8(s),
        valid_utf8(part),
        part.len() > 0,
        text::occurs_at(s, part, at),
    ensures
        is_char_boundary(s, at),
        is_char_boundary(s, at + part.len()),
{
    is_char_boundary_start_end_of_seq(part);
    is_char_boundary_iff_not_is_continuation_byte(part, 0);
    assert(s.subrange(at, at + part.len())[0] == s[at]);
    is_char_boundary_iff_not_is_continuation_byte(s, at);
    lemma_boundary_in_suffix(s, at, at);
    let rest = s.skip(at);
    let end = at + part.len();
    if end < s.len() {
        assert(rest.subrange(0, part.len() as int) =~= part);
        if !valid_utf8(rest.subrange(part.len() as int, rest.len() as int)) {
            partial_valid_partial_invalid_utf8(rest, part.len() as int);
        }
        let tail = rest.subrange(part.len() as int, rest.len() as int);
        is_char_boundary_start_end_of_seq(tail);
        is_char_boundary_iff_not_is_continuation_byte(tail, 0);
        assert(tail[0] == s[end]);
        is_char_boundary_iff_not_is_continuation_byte(s, end);
    } else {
        is_char_boundary_start_end_of_seq(s);
    }
}

/// The bytes of a text are those of its parts, one after the other.
pub proof fn lemma_encode_concat(a: Seq<char>, b: Seq<char>)
    ensures
        encode_utf8(a + b) == encode_utf8(a) + encode_utf8(b),
    decreases a.len(),
{
    if a.len() == 0 {
        assert(a + b =~= b);
        assert(encode_utf8(a) + encode_utf8(b) =~= encode_utf8(b));
    } else {
        lemma_encode_concat(a.drop_first(), b);
        assert((a + b).drop_first() =~= a.drop_first() + b);
        assert(encode_utf8(a + b) =~= encode_utf8(a) + encode_utf8(b));
    }
}

/// Where one text ends and the next one begins, there is a boundary.
pub proof fn lemma_concat_boundary(a: Seq<u8>, b: Seq<u8>)
    requires
        valid_utf8(a),
        valid_utf8(b),
    ensures
        valid_utf8(a + b),
        is_char_boundary(a + b, a.len() as int),
{
    valid_utf8_concat(a, b);
    is_char_boundary_start_end_of_seq(a + b);
    if b.len() > 0 {
        is_char_boundary_start_end_of_seq(b);
        is_char_boundary_iff_not_is_continuation_byte(b, 0);
        is_char_boundary_iff_not_is_continuation_byte(a + b, a.len() as int);
        assert((a + b)[a.len() as int] == b[0]);
    }
}

/// The byte offset of the character with number `i`.
pub open spec fn char_offset(s: Seq<char>, i: int) -> int {
    encode_utf8(s.take(i)).len() as int
}

/// The bytes between the offsets of two characters are those of the characters between them.
pub proof fn lemma_char_offset(s: Seq<char>, i: int, j: int)
    requires
        0 <= i <= j <= s.len(),
    ensures
        0 <= char_offset(s, i) <= char_offset(s, j) <= encode_utf8(s).len(),
        i < j ==> char_offset(s, i) < char_offset(s, j),
        is_char_boundary(encode_utf8(s), char_offset(s, i)),
        is_char_boundary(encode_utf8(s), char_offset(s, j)),
        encode_utf8(s).subrange(char_offset(s, i), char_offset(s, j)) == encode_utf8(
            s.subrange(i, j),
        ),
        char_offset(s, 0) == 0,
        char_offset(s, s.len() as int) == encode_utf8(s).len(),
{
    let a = s.take(i);
    let b = s.subrange(i, j);
    let c = s.skip(j);
    lemma_encode_concat(a, b + c);
    lemma_encode_concat(b, c);
    lemma_encode_concat(a, b);
    lemma_encode_concat(s.take(j), c);
    assert(a + (b + c) =~= s);
    assert(s.take(j) + c =~= s);
    assert(a + b =~= s.take(j));
    encode_utf8_valid_utf8(a);
    encode_utf8_valid_utf8(b + c);
    encode_utf8_valid_utf8(s.take(j));
    encode_utf8_valid_utf8(c);
    lemma_concat_boundary(encode_utf8(a), encode_utf8(b + c));
    lemma_concat_boundary(encode_utf8(s.take(j)), encode_utf8(c));
    assert(encode_utf8(s).subrange(char_offset(s, i), char_offset(s, j)) =~= encode_utf8(b));
    assert(s.take(0) =~= Seq::<char>::empty());
    assert(s.take(s.len() as int) =~= s);
}

/// The length of a character in UTF-8.
pub fn char_width(c: char) -> (n: usize)
    ensures
        n == encode_utf8(seq![c]).len(),
        1 <= n <= 4,
{
    proof {
        reveal_with_fuel(encode_utf8, 2);
        char_is_scalar(c);
        assert(encode_utf8(seq![c]) =~= encode_scalar(c as u32));
    }
    let code = c as u32;
    if code < 0x80 {
        1
    } else if code < 0x800 {
        2
    } else if code < 0x1_0000 {
        3
    } else {
        4
    }
}

/// The byte offset of every character, and of the end.
pub fn char_offsets(s: &str) -> (offsets: Vec<usize>)
    ensures
        offsets@.len() == s@.len() + 1,
        forall|i: int| 0 <= i <= s@.len() ==> #[trigger] offsets@[i] == char_offset(s@, i),
{
    let chars = text::chars_of(s);
    let total = byte_len(s);
    let mut offsets: Vec<usize> = Vec::new();
    let mut at: usize = 0;
    let mut i: usize = 0;
    offsets.push(0);
    proof {
        lemma_char_offset(s@, 0, 0);
    }
    while i < chars.len()
        invariant
            chars@ == s@,
            total == encode_utf8(s@).len(),
            i <= chars@.len(),
            at == char_offset(s@, i as int),
            offsets@.len() == i + 1,
            forall|k: int| 0 <= k <= i ==> #[trigger] offsets@[k] == char_offset(s@, k),
        decreases chars@.len() - i,
    {
        proof {
            let head = s@.take(i as int);
            assert(s@.take(i + 1) =~= head + seq![s@[i as int]]);
            lemma_encode_concat(head, seq![s@[i as int]]);
            lemma_char_offset(s@, i + 1, i + 1);
        }
        at += char_width(chars[i]);
        offsets.push(at);
        i += 1;
    }
    offsets
}

} // verus!
