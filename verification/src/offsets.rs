//! Byte offsets by buffer name.

use vstd::prelude::*;
use vstd::string::*;

use crate::text;

verus! {

/// Whether one row of bytes comes before another in dictionary order.
pub open spec fn precedes(a: Seq<u8>, b: Seq<u8>) -> bool
    decreases b.len(),
{
    if b.len() == 0 {
        false
    } else if a.len() == 0 || a[0] < b[0] {
        true
    } else {
        a[0] == b[0] && precedes(a.skip(1), b.skip(1))
    }
}

/// Of two different rows of bytes exactly one comes before the other.
pub proof fn lemma_precedes_total(a: Seq<u8>, b: Seq<u8>)
    ensures
        !(precedes(a, b) && precedes(b, a)),
        precedes(a, b) ==> a != b,
        a == b || precedes(a, b) || precedes(b, a),
    decreases b.len(),
{
    if a.len() > 0 && b.len() > 0 && a[0] == b[0] {
        lemma_precedes_total(a.skip(1), b.skip(1));
        if a.skip(1) == b.skip(1) {
            assert(a =~= b) by {
                assert forall|i: int| 0 <= i < a.len() && i < b.len() implies a[i] == b[i] by {
                    if i > 0 {
                        assert(a.skip(1)[i - 1] == b.skip(1)[i - 1]);
                    }
                }
                assert(a.skip(1).len() == b.skip(1).len());
            }
        }
    } else if a.len() == 0 && b.len() == 0 {
        assert(a =~= b);
    }
}

/// Dictionary order is transitive.
pub proof fn lemma_precedes_transitive(a: Seq<u8>, b: Seq<u8>, c: Seq<u8>)
    requires
        precedes(a, b),
        precedes(b, c),
    ensures
        precedes(a, c),
    decreases c.len(),
{
    if a.len() > 0 && a[0] == b[0] && b[0] == c[0] {
        lemma_precedes_transitive(a.skip(1), b.skip(1), c.skip(1));
    }
}

/// Whether one name comes before another: names are ordered by their UTF-8 bytes.
pub open spec fn name_precedes(a: Seq<char>, b: Seq<char>) -> bool {
    precedes(vstd::utf8::encode_utf8(a), vstd::utf8::encode_utf8(b))
}

/// The offset that the entries hold for a name.
pub open spec fn offset_in(entries: Seq<(Seq<char>, u64)>, name: Seq<char>) -> Option<u64>
    decreases entries.len(),
{
    if entries.len() == 0 {
        None
    } else if entries.last().0 == name {
        Some(entries.last().1)
    } else {
        offset_in(entries.drop_last(), name)
    }
}

/// The offsets by name.
pub open spec fn offset_map(entries: Seq<(Seq<char>, u64)>) -> Map<Seq<char>, u64> {
    Map::new(
        |name: Seq<char>| offset_in(entries, name) is Some,
        |name: Seq<char>| offset_in(entries, name)->0,
    )
}

/// `map` with an offset for `name`, unless it has one already.
pub open spec fn with_offset(
    map: Map<Seq<char>, u64>,
    name: Seq<char>,
    offset: u64,
) -> Map<Seq<char>, u64> {
    if map.dom().contains(name) {
        map
    } else {
        map.insert(name, offset)
    }
}

/// Whether the names of the entries are in ascending order, none of them twice.
pub open spec fn ascending(entries: Seq<(Seq<char>, u64)>) -> bool {
    forall|i: int, j: int|
        0 <= i < j < entries.len() ==> name_precedes(
            (#[trigger] entries[i]).0,
            (#[trigger] entries[j]).0,
        )
}

/// Names with one byte offset each, in the order of the names.
#[derive(Debug, PartialEq, Eq)]
pub struct OffsetMap {
    entries: Vec<(String, u64)>,
}

impl View for OffsetMap {
    type V = Seq<(Seq<char>, u64)>;

    /// The entries, in the order of the names.
    closed spec fn view(&self) -> Seq<(Seq<char>, u64)> {
        self.entries@.map_values(|e: (String, u64)| (e.0@, e.1))
    }
}

/// The offset for a name is that of the one entry with the name.
pub proof fn lemma_offset_in(entries: Seq<(Seq<char>, u64)>, name: Seq<char>)
    ensures
        match offset_in(entries, name) {
            Some(offset) => entries.contains((name, offset)),
            None => forall|i: int| 0 <= i < entries.len() ==> (#[trigger] entries[i]).0 != name,
        },
    decreases entries.len(),
{
    if entries.len() > 0 {
        let init = entries.drop_last();
        if entries.last().0 == name {
            assert(entries[entries.len() - 1] == (name, entries.last().1));
        } else {
            lemma_offset_in(init, name);
            match offset_in(init, name) {
                Some(offset) => {
                    let i = choose|i: int| 0 <= i < init.len() && init[i] == (name, offset);
                    assert(entries[i] == (name, offset));
                },
                None => {
                    assert forall|i: int| 0 <= i < entries.len() implies (
                    #[trigger] entries[i]).0 != name by {
                        if i < init.len() {
                            assert(init[i] == entries[i]);
                        }
                    }
                },
            }
        }
    }
}

/// In ascending entries the offset for the name of an entry is the offset of that entry.
pub proof fn lemma_offset_of_entry(entries: Seq<(Seq<char>, u64)>, i: int)
    requires
        ascending(entries),
        0 <= i < entries.len(),
    ensures
        offset_in(entries, entries[i].0) == Some(entries[i].1),
{
    let name = entries[i].0;
    lemma_offset_in(entries, name);
    match offset_in(entries, name) {
        Some(offset) => {
            let j = choose|j: int| 0 <= j < entries.len() && entries[j] == (name, offset);
            let bytes = vstd::utf8::encode_utf8(name);
            lemma_precedes_total(bytes, bytes);
            if i < j {
                assert(name_precedes(entries[i].0, entries[j].0));
            } else if j < i {
                assert(name_precedes(entries[j].0, entries[i].0));
            }
        },
        None => {},
    }
}

/// Law: ascending entries are determined by the offsets that they hold.
pub proof fn law_entries_determined(a: Seq<(Seq<char>, u64)>, b: Seq<(Seq<char>, u64)>)
    requires
        ascending(a),
        ascending(b),
        offset_map(a) == offset_map(b),
    ensures
        a == b,
{
    assert forall|name: Seq<char>| offset_in(a, name) == offset_in(b, name) by {
        assert(offset_map(a).dom().contains(name) == offset_in(a, name) is Some);
        assert(offset_map(b).dom().contains(name) == offset_in(b, name) is Some);
        if offset_in(a, name) is Some {
            assert(offset_map(a)[name] == offset_in(a, name)->0);
            assert(offset_map(b)[name] == offset_in(b, name)->0);
        }
    }
    lemma_entries_determined(a, b);
}

/// Ascending entries with the same offset for every name are the same.
proof fn lemma_entries_determined(a: Seq<(Seq<char>, u64)>, b: Seq<(Seq<char>, u64)>)
    requires
        ascending(a),
        ascending(b),
        forall|name: Seq<char>| offset_in(a, name) == offset_in(b, name),
    ensures
        a == b,
    decreases a.len() + b.len(),
{
    if a.len() == 0 && b.len() == 0 {
        assert(a =~= b);
    } else if a.len() == 0 {
        lemma_offset_of_entry(b, 0);
        assert(offset_in(a, b[0].0) is None);
    } else if b.len() == 0 {
        lemma_offset_of_entry(a, 0);
        assert(offset_in(b, a[0].0) is None);
    } else {
        let x = a.last();
        let y = b.last();
        lemma_offset_of_entry(a, a.len() - 1);
        lemma_offset_of_entry(b, b.len() - 1);
        lemma_offset_in(b, x.0);
        lemma_offset_in(a, y.0);
        let j = choose|j: int| 0 <= j < b.len() && b[j] == x;
        let i = choose|i: int| 0 <= i < a.len() && a[i] == y;
        assert(b.contains(x));
        assert(a.contains(y));
        if x.0 != y.0 {
            assert(j < b.len() - 1);
            assert(i < a.len() - 1);
            assert(name_precedes(b[j].0, b[b.len() - 1].0));
            assert(name_precedes(a[i].0, a[a.len() - 1].0));
            lemma_precedes_total(
                vstd::utf8::encode_utf8(x.0),
                vstd::utf8::encode_utf8(y.0),
            );
        }
        assert(offset_in(a, x.0) == offset_in(b, x.0));
        assert(x == y);
        let p = a.drop_last();
        let q = b.drop_last();
        assert forall|name: Seq<char>| offset_in(p, name) == offset_in(q, name) by {
            assert(offset_in(a, name) == offset_in(b, name));
            if name == x.0 {
                lemma_offset_in(p, name);
                lemma_offset_in(q, name);
                lemma_offset_of_entry(a, a.len() - 1);
                let bytes = vstd::utf8::encode_utf8(name);
                lemma_precedes_total(bytes, bytes);
                if let Some(offset) = offset_in(p, name) {
                    let k = choose|k: int| 0 <= k < p.len() && p[k] == (name, offset);
                    assert(name_precedes(a[k].0, a[a.len() - 1].0));
                }
                if let Some(offset) = offset_in(q, name) {
                    let k = choose|k: int| 0 <= k < q.len() && q[k] == (name, offset);
                    assert(name_precedes(b[k].0, b[b.len() - 1].0));
                }
            }
        }
        lemma_entries_determined(p, q);
        assert(a =~= p.push(x));
        assert(b =~= q.push(y));
    }
}

/// Whether one row of bytes comes before another.
fn bytes_precede(a: &[u8], b: &[u8]) -> (r: bool)
    ensures
        r == precedes(a@, b@),
{
    let mut i: usize = 0;
    proof {
        assert(a@.skip(0) =~= a@);
        assert(b@.skip(0) =~= b@);
    }
    while i < a.len() && i < b.len()
        invariant
            i <= a@.len(),
            i <= b@.len(),
            precedes(a@, b@) == precedes(a@.skip(i as int), b@.skip(i as int)),
        decreases a@.len() - i,
    {
        if a[i] != b[i] {
            return a[i] < b[i];
        }
        proof {
            assert(a@.skip(i as int).skip(1) =~= a@.skip(i + 1));
            assert(b@.skip(i as int).skip(1) =~= b@.skip(i + 1));
        }
        i += 1;
    }
    i < b.len()
}

impl OffsetMap {
    #[verifier::type_invariant]
    spec fn well_formed(self) -> bool {
        ascending(self@)
    }

    /// No entries.
    pub fn new() -> (r: OffsetMap)
        ensures
            r@ == Seq::<(Seq<char>, u64)>::empty(),
            offset_map(r@) == Map::<Seq<char>, u64>::empty(),
            ascending(r@),
    {
        let r = OffsetMap { entries: Vec::new() };
        proof {
            assert(r@ =~= Seq::<(Seq<char>, u64)>::empty());
            assert(offset_map(r@) =~= Map::<Seq<char>, u64>::empty());
        }
        r
    }

    /// How many names there are.
    pub fn len(&self) -> (n: usize)
        ensures
            n == self@.len(),
    {
        self.entries.len()
    }

    /// The name of an entry.
    pub fn name_at(&self, i: usize) -> (name: &str)
        requires
            i < self@.len(),
        ensures
            name@ == self@[i as int].0,
    {
        self.entries[i].0.as_str()
    }

    /// The offset of an entry.
    pub fn offset_at(&self, i: usize) -> (offset: u64)
        requires
            i < self@.len(),
        ensures
            offset == self@[i as int].1,
    {
        self.entries[i].1
    }

    /// The offset for a name.
    pub fn get(&self, name: &str) -> (offset: Option<u64>)
        ensures
            offset == offset_in(self@, name@),
    {
        let mut i: usize = self.entries.len();
        proof {
            assert(self@.take(self@.len() as int) =~= self@);
        }
        while i > 0
            invariant
                i <= self.entries@.len(),
                offset_in(self@, name@) == offset_in(self@.take(i as int), name@),
            decreases i,
        {
            proof {
                assert(self@.take(i as int).last() == self@[i - 1]);
                assert(self@.take(i as int).drop_last() =~= self@.take(i - 1));
            }
            i -= 1;
            if text::same_text(self.entries[i].0.as_str(), name) {
                return Some(self.entries[i].1);
            }
        }
        None
    }

    /// Adds an offset for a name that has none; a name that has one keeps it.
    pub fn insert_absent(&mut self, name: &str, offset: u64)
        ensures
            offset_map(final(self)@) == with_offset(offset_map(old(self)@), name@, offset),
            ascending(final(self)@),
    {
        proof {
            use_type_invariant(&*self);
        }
        let ghost before = self@;
        let total = self.entries.len();
        let mut at: usize = 0;
        let mut searching = true;
        while searching
            invariant
                self@ == before,
                ascending(before),
                total == before.len(),
                total == self.entries@.len(),
                at <= total,
                forall|i: int| 0 <= i < at ==> name_precedes((#[trigger] before[i]).0, name@),
                !searching ==> at == total || !name_precedes(before[at as int].0, name@),
            decreases total - at, searching as int,
        {
            if at < total && bytes_precede(
                self.entries[at].0.as_str().as_bytes(),
                name.as_bytes(),
            ) {
                at += 1;
            } else {
                searching = false;
            }
        }
        proof {
            lemma_offset_in(before, name@);
        }
        if at < total && text::same_text(self.entries[at].0.as_str(), name) {
            proof {
                lemma_offset_of_entry(before, at as int);
            }
            return;
        }
        let mut entries: Vec<(String, u64)> = Vec::new();
        std::mem::swap(&mut entries, &mut self.entries);
        entries.insert(at, (name.to_owned(), offset));
        proof {
            lemma_insert_entry(before, at as int, name@, offset);
            assert(entries@.map_values(|e: (String, u64)| (e.0@, e.1)) =~= before.insert(
                at as int,
                (name@, offset),
            ));
        }
        self.entries = entries;
    }
}

/// Putting a new name at its place keeps the order and adds just that offset.
proof fn lemma_insert_entry(
    entries: Seq<(Seq<char>, u64)>,
    at: int,
    name: Seq<char>,
    offset: u64,
)
    requires
        ascending(entries),
        0 <= at <= entries.len(),
        forall|i: int| 0 <= i < at ==> name_precedes((#[trigger] entries[i]).0, name),
        at < entries.len() ==> !name_precedes(entries[at].0, name) && entries[at].0 != name,
    ensures
        ascending(entries.insert(at, (name, offset))),
        offset_map(entries.insert(at, (name, offset))) == offset_map(entries).insert(name, offset),
        !offset_map(entries).dom().contains(name),
{
    let bytes = vstd::utf8::encode_utf8(name);
    let after = entries.insert(at, (name, offset));
    assert forall|i: int| at <= i < entries.len() implies name_precedes(
        name,
        (#[trigger] entries[i]).0,
    ) by {
        let first = vstd::utf8::encode_utf8(entries[at].0);
        lemma_precedes_total(first, bytes);
        if first == bytes {
            vstd::utf8::encode_utf8_decode_utf8(name);
            vstd::utf8::encode_utf8_decode_utf8(entries[at].0);
        }
        if i > at {
            assert(name_precedes(entries[at].0, entries[i].0));
            lemma_precedes_transitive(bytes, first, vstd::utf8::encode_utf8(entries[i].0));
        }
    }
    assert forall|i: int, j: int| 0 <= i < j < after.len() implies name_precedes(
        (#[trigger] after[i]).0,
        (#[trigger] after[j]).0,
    ) by {
        let k = if i < at {
            i
        } else {
            i - 1
        };
        let l = if j < at {
            j
        } else {
            j - 1
        };
        if i == at {
            assert(after[j] == entries[l]);
        } else if j == at {
            assert(after[i] == entries[k]);
        } else {
            assert(after[i] == entries[k]);
            assert(after[j] == entries[l]);
            assert(name_precedes(entries[k].0, entries[l].0));
        }
    }
    lemma_precedes_total(bytes, bytes);
    lemma_offset_in(entries, name);
    lemma_offset_of_entry(after, at);
    assert(after[at] == (name, offset));
    if let Some(other) = offset_in(entries, name) {
        let k = choose|k: int| 0 <= k < entries.len() && entries[k] == (name, other);
        assert(entries[k].0 == name);
    }
    assert forall|n: Seq<char>| n != name implies offset_in(after, n) == offset_in(
        entries,
        n,
    ) by {
        lemma_offset_in(after, n);
        lemma_offset_in(entries, n);
        if let Some(other) = offset_in(after, n) {
            let k = choose|k: int| 0 <= k < after.len() && after[k] == (n, other);
            let l = if k < at {
                k
            } else {
                k - 1
            };
            assert(entries[l] == after[k]);
            lemma_offset_of_entry(entries, l);
        } else if let Some(other) = offset_in(entries, n) {
            let k = choose|k: int| 0 <= k < entries.len() && entries[k] == (n, other);
            let l = if k < at {
                k
            } else {
                k + 1
            };
            assert(after[l] == entries[k]);
        }
    }
    assert(offset_map(after) =~= offset_map(entries).insert(name, offset));
}

impl Clone for OffsetMap {
    fn clone(&self) -> (r: Self)
        ensures
            r@ == self@,
    {
        let mut entries: Vec<(String, u64)> = Vec::new();
        let mut i: usize = 0;
        while i < self.entries.len()
            invariant
                i <= self.entries@.len(),
                entries@.map_values(|e: (String, u64)| (e.0@, e.1)) == self@.take(i as int),
            decreases self.entries@.len() - i,
        {
            let ghost before = entries@;
            entries.push((self.entries[i].0.clone(), self.entries[i].1));
            proof {
                assert(self@.take(i + 1) =~= self@.take(i as int).push(self@[i as int]));
                assert(entries@.map_values(|e: (String, u64)| (e.0@, e.1)) =~= before.map_values(
                    |e: (String, u64)| (e.0@, e.1),
                ).push(self@[i as int]));
            }
            i += 1;
        }
        proof {
            use_type_invariant(&*self);
            assert(self@.take(self@.len() as int) =~= self@);
        }
        OffsetMap { entries }
    }
}

} // verus!
