//! Facts about filtered sequences that the proofs of this library share.

use vstd::prelude::*;

verus! {

/// The places of `items`, counted from zero, whose item passes `keep`, in
/// ascending order.
pub open spec fn places<A>(items: Seq<A>, keep: spec_fn(A) -> bool) -> Seq<usize> {
    Seq::new(items.len(), |i: int| i as usize).filter(|p: usize| keep(items[p as int]))
}

/// Two predicates that agree on every element of a sequence keep the same
/// elements of it.
pub proof fn lemma_filter_agree<A>(s: Seq<A>, p: spec_fn(A) -> bool, q: spec_fn(A) -> bool)
    requires
        forall|i: int| 0 <= i < s.len() ==> p(#[trigger] s[i]) == q(s[i]),
    ensures
        s.filter(p) == s.filter(q),
    decreases s.len(),
{
    reveal(Seq::filter);
    if s.len() > 0 {
        lemma_filter_agree(s.drop_last(), p, q);
    }
}

/// A sequence whose elements all pass the predicate is unchanged by the
/// filter.
pub proof fn lemma_filter_keeps_all<A>(s: Seq<A>, p: spec_fn(A) -> bool)
    requires
        forall|i: int| 0 <= i < s.len() ==> p(#[trigger] s[i]),
    ensures
        s.filter(p) == s,
    decreases s.len(),
{
    reveal(Seq::filter);
    if s.len() > 0 {
        lemma_filter_keeps_all(s.drop_last(), p);
        assert(s.drop_last().push(s.last()) =~= s);
    }
}

/// What a filter keeps of a sequence that grew by one element.
pub proof fn lemma_filter_push<A>(s: Seq<A>, x: A, p: spec_fn(A) -> bool)
    ensures
        s.push(x).filter(p) == if p(x) {
            s.filter(p).push(x)
        } else {
            s.filter(p)
        },
{
    reveal(Seq::filter);
    assert(s.push(x).drop_last() =~= s);
}

/// What a filter keeps of a sequence with one element inserted.
pub proof fn lemma_filter_insert<A>(s: Seq<A>, at: int, x: A, p: spec_fn(A) -> bool)
    requires
        0 <= at <= s.len(),
    ensures
        p(x) ==> s.insert(at, x).filter(p).len() == s.filter(p).len() + 1,
        !p(x) ==> s.insert(at, x).filter(p) == s.filter(p),
{
    let head = s.subrange(0, at);
    let tail = s.subrange(at, s.len() as int);
    let one = Seq::<A>::empty().push(x);
    assert(s =~= head + tail);
    assert(s.insert(at, x) =~= (head + one) + tail);
    Seq::filter_distributes_over_add(head, tail, p);
    Seq::filter_distributes_over_add(head, one, p);
    Seq::filter_distributes_over_add(head + one, tail, p);
    lemma_filter_push(Seq::<A>::empty(), x, p);
    assert(Seq::<A>::empty().filter(p) =~= Seq::<A>::empty()) by {
        reveal(Seq::filter);
    }
    if !p(x) {
        assert(head.filter(p) + Seq::<A>::empty() =~= head.filter(p));
    }
}

/// The places of a sequence that grew by one item: those it had, and its
/// last place where the new item passes.
pub proof fn lemma_places_push<A>(items: Seq<A>, x: A, keep: spec_fn(A) -> bool)
    requires
        items.len() <= usize::MAX,
    ensures
        places(items.push(x), keep) == if keep(x) {
            places(items, keep).push(items.len() as usize)
        } else {
            places(items, keep)
        },
{
    let longer = items.push(x);
    let indices = Seq::new(items.len(), |i: int| i as usize);
    let more = Seq::new(longer.len(), |i: int| i as usize);
    let p = |p: usize| keep(items[p as int]);
    let q = |p: usize| keep(longer[p as int]);
    assert(more =~= indices.push(items.len() as usize));
    lemma_filter_push(indices, items.len() as usize, q);
    assert(q(items.len() as usize) == keep(x));
    assert forall|i: int| 0 <= i < indices.len() implies p(#[trigger] indices[i]) == q(
        indices[i],
    ) by {
        assert(longer[i] == items[i]);
    }
    lemma_filter_agree(indices, p, q);
}

/// What the places of a sequence are: each lies within the sequence and
/// holds an item that passes, they ascend, and no place whose item passes is
/// missing.
pub proof fn lemma_places<A>(items: Seq<A>, keep: spec_fn(A) -> bool)
    requires
        items.len() <= usize::MAX,
    ensures
        places(items, keep).len() <= items.len(),
        forall|k: int|
            0 <= k < places(items, keep).len() ==> (#[trigger] places(items, keep)[k])
                < items.len() && keep(items[places(items, keep)[k] as int]),
        forall|j: int, k: int|
            0 <= j < k < places(items, keep).len() ==> (#[trigger] places(items, keep)[j]) < (
            #[trigger] places(items, keep)[k]),
        forall|i: int|
            0 <= i < items.len() && keep(#[trigger] items[i]) ==> places(items, keep).contains(
                i as usize,
            ),
    decreases items.len(),
{
    let found = places(items, keep);
    if items.len() == 0 {
        assert(found =~= Seq::<usize>::empty()) by {
            reveal(Seq::filter);
        }
    } else {
        let before = items.drop_last();
        let earlier = places(before, keep);
        lemma_places(before, keep);
        lemma_places_push(before, items.last(), keep);
        assert(before.push(items.last()) =~= items);
        assert forall|k: int| 0 <= k < found.len() implies (#[trigger] found[k]) < items.len()
            && keep(items[found[k] as int]) by {
            if k < earlier.len() {
                assert(found[k] == earlier[k]);
                assert(items[earlier[k] as int] == before[earlier[k] as int]);
            }
        }
        assert forall|j: int, k: int| 0 <= j < k < found.len() implies (#[trigger] found[j]) < (
        #[trigger] found[k]) by {
            assert(found[j] == earlier[j]);
            if k < earlier.len() {
                assert(found[k] == earlier[k]);
            }
        }
        assert forall|i: int|
            0 <= i < items.len() && keep(#[trigger] items[i]) implies found.contains(i as usize) by {
            if i < before.len() {
                assert(before[i] == items[i]);
                let k = choose|k: int| 0 <= k < earlier.len() && earlier[k] == i as usize;
                assert(found[k] == i as usize);
            } else {
                assert(found[found.len() - 1] == i as usize);
            }
        }
    }
}

} // verus!
