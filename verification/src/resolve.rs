use crate::literal::negation;
use vstd::prelude::*;

verus! {

/// `order` holds `w`.
pub open spec fn occurs(order: Seq<usize>, w: int) -> bool {
    exists|j: int| 0 <= j < order.len() && (#[trigger] order[j]) == w
}

/// `order` holds every node, none before a node with a smaller id, and no
/// node has the id of its negation.
pub open spec fn sorted_nodes(ids: Seq<usize>, order: Seq<usize>) -> bool {
    &&& ids.len() % 2 == 0
    &&& order.len() == ids.len()
    &&& forall|j: int| 0 <= j < order.len() ==> (#[trigger] order[j]) < ids.len()
    &&& forall|w: int| 0 <= w < ids.len() ==> #[trigger] occurs(order, w)
    &&& forall|a: int, b: int|
        0 <= a <= b < order.len() ==> ids[(#[trigger] order[a]) as int] <= ids[(
        #[trigger] order[b]) as int]
    &&& forall|w: int| 0 <= w < ids.len() ==> ids[w] != #[trigger] ids[negation(w as nat) as int]
}

/// The state of the resolver when the entries of `order` from position `i` on
/// have been looked at: each of them has a value, and a node that has a value
/// is true exactly if its id is smaller than that of its negation, which has
/// a value too.
pub open spec fn resolved_from(ids: Seq<usize>, order: Seq<usize>, value: Seq<Option<bool>>, i: int) -> bool {
    &&& value.len() == ids.len()
    &&& 0 <= i <= order.len()
    &&& forall|w: int|
        0 <= w < ids.len() && (#[trigger] value[w]).is_some() ==> value[negation(w as nat) as int].is_some()
            && value[w] == Some(ids[w] < ids[negation(w as nat) as int])
    &&& forall|j: int| i <= j < order.len() ==> value[(#[trigger] order[j]) as int].is_some()
}

/// A sequence with the same entries as `0 .. n` holds every node.
pub proof fn lemma_same_nodes(before: Seq<usize>, after: Seq<usize>, n: nat)
    requires
        before == Seq::new(n, |i: int| i as usize),
        after.to_multiset() == before.to_multiset(),
        n <= usize::MAX,
    ensures
        after.len() == n,
        forall|j: int| 0 <= j < n ==> (#[trigger] after[j]) < n,
        forall|w: int| 0 <= w < n ==> #[trigger] occurs(after, w),
{
    before.to_multiset_ensures();
    after.to_multiset_ensures();
    assert forall|j: int| 0 <= j < n implies (#[trigger] after[j]) < n by {
        assert(after.contains(after[j]));
        assert(after.to_multiset().count(after[j]) > 0);
        assert(before.to_multiset().count(after[j]) > 0);
        assert(before.contains(after[j]));
    }
    assert forall|w: int| 0 <= w < n implies #[trigger] occurs(after, w) by {
        assert(before[w] == w as usize);
        assert(before.contains(w as usize));
        assert(before.to_multiset().count(w as usize) > 0);
        assert(after.to_multiset().count(w as usize) > 0);
        assert(after.contains(w as usize));
    }
}

/// The entry that the resolver looks at next, and its negation, are nodes.
pub proof fn lemma_next_entry(ids: Seq<usize>, order: Seq<usize>, i: int)
    requires
        sorted_nodes(ids, order),
        0 < i <= order.len(),
    ensures
        order[i - 1] < ids.len(),
        negation(order[i - 1] as nat) < ids.len(),
{
}

/// An entry that has a value already leaves the state as it is.
pub proof fn lemma_skip(ids: Seq<usize>, order: Seq<usize>, value: Seq<Option<bool>>, i: int)
    requires
        sorted_nodes(ids, order),
        resolved_from(ids, order, value, i),
        0 < i,
        value[order[i - 1] as int].is_some(),
    ensures
        resolved_from(ids, order, value, i - 1),
{
}

/// An entry without a value has a larger id than its negation: to make it
/// false and its negation true keeps the state right.
pub proof fn lemma_decide(ids: Seq<usize>, order: Seq<usize>, value: Seq<Option<bool>>, i: int)
    requires
        sorted_nodes(ids, order),
        resolved_from(ids, order, value, i),
        0 < i,
        value[order[i - 1] as int].is_none(),
    ensures
        resolved_from(
            ids,
            order,
            value.update(order[i - 1] as int, Some(false)).update(
                negation(order[i - 1] as nat) as int,
                Some(true),
            ),
            i - 1,
        ),
{
    let v = order[i - 1] as int;
    let nv = negation(v as nat) as int;
    let after = value.update(v, Some(false)).update(nv, Some(true));
    assert(negation(nv as nat) == v);
    assert(occurs(order, nv));
    let j = choose|j: int| 0 <= j < order.len() && (#[trigger] order[j]) == nv;
    if value[nv].is_some() {
        assert(value[negation(nv as nat) as int].is_some());
    }
    assert(j < i - 1) by {
        if j >= i {
            assert(value[order[j] as int].is_some());
        }
    }
    assert(ids[order[j] as int] <= ids[order[i - 1] as int]);
    assert(ids[v] != ids[negation(v as nat) as int]);
    assert(ids[nv] < ids[v]);
    assert forall|w: int| 0 <= w < ids.len() && (#[trigger] after[w]).is_some() implies after[negation(
        w as nat,
    ) as int].is_some() && after[w] == Some(ids[w] < ids[negation(w as nat) as int]) by {
        if w != v && w != nv {
            assert(value[w].is_some());
            assert(negation(w as nat) != v);
            assert(negation(w as nat) != nv);
        }
    }
    assert forall|k: int| i - 1 <= k < order.len() implies after[(#[trigger] order[k]) as int].is_some() by {
        if k >= i {
            assert(value[order[k] as int].is_some());
        }
    }
}

/// When every entry has been looked at, every node has its value.
pub proof fn lemma_resolved(ids: Seq<usize>, order: Seq<usize>, value: Seq<Option<bool>>, w: int)
    requires
        sorted_nodes(ids, order),
        resolved_from(ids, order, value, 0),
        0 <= w < ids.len(),
    ensures
        value[w] == Some(ids[w] < ids[negation(w as nat) as int]),
{
    assert(occurs(order, w));
    let j = choose|j: int| 0 <= j < order.len() && (#[trigger] order[j]) == w;
    assert(value[order[j] as int].is_some());
}

} // verus!
