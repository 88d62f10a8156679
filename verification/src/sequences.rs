//! Facts about sequences.

use vstd::prelude::*;

verus! {

/// A filter that everything passes changes nothing.
pub proof fn lemma_filter_all<T>(items: Seq<T>, keep: spec_fn(T) -> bool)
    requires
        forall|i: int| 0 <= i < items.len() ==> keep(#[trigger] items[i]),
    ensures
        items.filter(keep) == items,
    decreases items.len(),
{
    reveal(Seq::filter);
    if items.len() > 0 {
        let init = items.drop_last();
        assert forall|i: int| 0 <= i < init.len() implies keep(#[trigger] init[i]) by {
            assert(init[i] == items[i]);
        }
        lemma_filter_all(init, keep);
        assert(keep(items[items.len() - 1]));
        assert(init.push(items.last()) =~= items);
    } else {
        assert(items.filter(keep) =~= items);
    }
}

/// Items that all pass a filter stay, and items after them that all fail it go.
pub proof fn lemma_filter_split<T>(a: Seq<T>, b: Seq<T>, keep: spec_fn(T) -> bool)
    requires
        forall|i: int| 0 <= i < a.len() ==> keep(#[trigger] a[i]),
        forall|i: int| 0 <= i < b.len() ==> !keep(#[trigger] b[i]),
    ensures
        (a + b).filter(keep) == a,
    decreases a.len() + b.len(),
{
    reveal(Seq::filter);
    let all = a + b;
    if b.len() > 0 {
        assert(all.drop_last() =~= a + b.drop_last());
        assert(all.last() == b.last());
        lemma_filter_split(a, b.drop_last(), keep);
    } else if a.len() > 0 {
        assert(all =~= a);
        let none = Seq::<T>::empty();
        assert(a.drop_last() + none =~= a.drop_last());
        assert(keep(a[a.len() - 1]));
        lemma_filter_split(a.drop_last(), none, keep);
        assert(a.drop_last().push(a.last()) =~= a);
    } else {
        assert(all =~= a);
    }
}

/// What passes a filter, and what does not.
pub proof fn lemma_filter_members<T>(items: Seq<T>, keep: spec_fn(T) -> bool)
    ensures
        forall|x: T|
            #[trigger] items.filter(keep).contains(x) <==> items.contains(x) && keep(x),
        forall|i: int|
            0 <= i < items.filter(keep).len() ==> keep(#[trigger] items.filter(keep)[i]),
    decreases items.len(),
{
    reveal(Seq::filter);
    let kept = items.filter(keep);
    if items.len() > 0 {
        let init = items.drop_last();
        let last = items.last();
        lemma_filter_members(init, keep);
        let before = init.filter(keep);
        assert forall|x: T| #[trigger] kept.contains(x) <==> items.contains(x) && keep(x) by {
            if kept.contains(x) {
                let i = choose|i: int| 0 <= i < kept.len() && kept[i] == x;
                if i < before.len() {
                    assert(before[i] == x);
                    assert(before.contains(x));
                    let j = choose|j: int| 0 <= j < init.len() && init[j] == x;
                    assert(items[j] == x);
                } else {
                    assert(items[items.len() - 1] == x);
                }
            }
            if items.contains(x) && keep(x) {
                let i = choose|i: int| 0 <= i < items.len() && items[i] == x;
                if i < init.len() {
                    assert(init[i] == x);
                    assert(before.contains(x));
                    let j = choose|j: int| 0 <= j < before.len() && before[j] == x;
                    assert(kept[j] == x);
                } else {
                    assert(kept[kept.len() - 1] == x);
                }
            }
        }
        assert forall|i: int| 0 <= i < kept.len() implies keep(#[trigger] kept[i]) by {
            if i < before.len() {
                assert(kept[i] == before[i]);
            }
        }
    } else {
        assert(kept =~= items);
    }
}

/// What a list with one more item holds.
pub proof fn lemma_push_contains<T>(items: Seq<T>, item: T, other: T)
    ensures
        items.push(item).contains(other) == (items.contains(other) || other == item),
{
    let all = items.push(item);
    assert(all[items.len() as int] == item);
    if items.contains(other) {
        let i = choose|i: int| 0 <= i < items.len() && items[i] == other;
        assert(all[i] == other);
    }
    if all.contains(other) {
        let i = choose|i: int| 0 <= i < all.len() && all[i] == other;
        if i < items.len() {
            assert(items[i] == other);
        }
    }
}

/// What stays of a list without one place.
pub proof fn lemma_remove_members<T>(items: Seq<T>, i: int, x: T)
    requires
        0 <= i < items.len(),
    ensures
        items.remove(i).contains(x) ==> items.contains(x),
        items.contains(x) && x != items[i] ==> items.remove(i).contains(x),
{
    let rest = items.remove(i);
    if rest.contains(x) {
        let j = choose|j: int| 0 <= j < rest.len() && rest[j] == x;
        assert(items[if j < i {
            j
        } else {
            j + 1
        }] == x);
    }
    if items.contains(x) && x != items[i] {
        let j = choose|j: int| 0 <= j < items.len() && items[j] == x;
        assert(rest[if j < i {
            j
        } else {
            j - 1
        }] == x);
    }
}

} // verus!
