//! The mathematical model of an arena: a sequence of identities without
//! repetition, and beside it the sequence of values.

use crate::handle::AsIdx;
use crate::handle::Idx;
use vstd::prelude::*;

verus! {

/// The identities of a sequence of handles, in order.
pub open spec fn ids_in(handles: Seq<Idx>) -> Seq<u64> {
    Seq::new(handles.len(), |i: int| handles[i].id())
}

/// The identities that a sequence of handles or references to handles names,
/// in order.
pub open spec fn ids_named<I: AsIdx>(handles: Seq<I>) -> Seq<u64> {
    Seq::new(handles.len(), |i: int| handles[i].idx().id())
}

/// Every identity of `ids` is below `minted`.
pub open spec fn issued(ids: Seq<u64>, minted: nat) -> bool {
    forall|i: int| 0 <= i < ids.len() ==> #[trigger] ids[i] < minted
}

/// The position of `id` in `ids`, or `None` when it does not occur.
pub open spec fn lookup(ids: Seq<u64>, id: u64) -> Option<int> {
    if ids.contains(id) {
        Some(ids.index_of(id))
    } else {
        None
    }
}

/// What the states of the handles hold is where their elements stand: for
/// every identity below `minted`, `stored` has the position at which `ids`
/// has it, or `None` where `ids` has it no more.
pub open spec fn agrees(stored: Map<u64, Option<int>>, ids: Seq<u64>, minted: nat) -> bool {
    forall|id: u64|
        #![trigger stored[id]]
        #![trigger stored.dom().contains(id)]
        id < minted ==> stored.dom().contains(id) && stored[id] == lookup(ids, id)
}

/// `s` with the elements at `i` and `j` exchanged.
pub open spec fn swapped<A>(s: Seq<A>, i: int, j: int) -> Seq<A> {
    s.update(i, s[j]).update(j, s[i])
}

/// `s` with the element at `i` replaced by the last one, and the last one
/// dropped.
pub open spec fn swap_removed<A>(s: Seq<A>, i: int) -> Seq<A> {
    s.update(i, s.last()).drop_last()
}

/// The elements of `s` whose place is marked in `keep`, in order.
pub open spec fn kept<A>(s: Seq<A>, keep: Seq<bool>) -> Seq<A>
    decreases s.len(),
{
    if s.len() == 0 || keep.len() != s.len() {
        Seq::empty()
    } else if keep.last() {
        kept(s.drop_last(), keep.drop_last()).push(s.last())
    } else {
        kept(s.drop_last(), keep.drop_last())
    }
}

/// `order` names every identity of `ids` exactly once.
pub open spec fn is_ordering(ids: Seq<u64>, order: Seq<u64>) -> bool {
    &&& order.len() == ids.len()
    &&& order.no_duplicates()
    &&& forall|i: int| 0 <= i < order.len() ==> ids.contains(#[trigger] order[i])
}

/// The elements of `s` in the order in which `order` names them, where
/// `ids[i]` is the identity of `s[i]`.
pub open spec fn reordered<A>(s: Seq<A>, ids: Seq<u64>, order: Seq<u64>) -> Seq<A> {
    Seq::new(order.len(), |i: int| s[ids.index_of(order[i])])
}

/// In a sequence without repetition, an identity found at `i` is found
/// nowhere else.
pub proof fn lemma_found_at(ids: Seq<u64>, id: u64, i: int)
    requires
        ids.no_duplicates(),
        0 <= i < ids.len(),
        ids[i] == id,
    ensures
        ids.contains(id),
        ids.index_of(id) == i,
        lookup(ids, id) == Some(i),
{
    let p = ids.index_of(id);
    assert(ids[p] == id);
}

/// An identity that occurs in `ids` sits at its index.
pub proof fn lemma_index_of(ids: Seq<u64>, id: u64)
    requires
        ids.contains(id),
    ensures
        0 <= ids.index_of(id) < ids.len(),
        ids[ids.index_of(id)] == id,
{
}

/// `stored` agrees with `ids` where it has the position of every identity of
/// `ids` and `None` for every other identity that was issued.
pub proof fn lemma_agrees(stored: Map<u64, Option<int>>, ids: Seq<u64>, minted: nat)
    requires
        ids.no_duplicates(),
        forall|id: u64| id < minted ==> #[trigger] stored.dom().contains(id),
        forall|j: int| 0 <= j < ids.len() ==> stored[#[trigger] ids[j]] == Some(j),
        forall|id: u64| id < minted && !ids.contains(id) ==> (#[trigger] stored[id]) is None,
    ensures
        agrees(stored, ids, minted),
{
    assert forall|id: u64|
        #![trigger stored[id]]
        #![trigger stored.dom().contains(id)]
        id < minted implies stored.dom().contains(id) && stored[id] == lookup(ids, id) by {
        if ids.contains(id) {
            let j = ids.index_of(id);
            assert(stored[ids[j]] == Some(j));
        }
    }
}

/// Where `stored` agrees with `ids`, it has the position of every identity
/// of `ids`.
pub proof fn lemma_agrees_at(stored: Map<u64, Option<int>>, ids: Seq<u64>, minted: nat, j: int)
    requires
        ids.no_duplicates(),
        issued(ids, minted),
        agrees(stored, ids, minted),
        0 <= j < ids.len(),
    ensures
        stored.dom().contains(ids[j]),
        stored[ids[j]] == Some(j),
{
    lemma_found_at(ids, ids[j], j);
}

/// Appending an identity that was never issued keeps the identities apart.
pub proof fn lemma_push_apart(ids: Seq<u64>, minted: nat, id: u64)
    requires
        ids.no_duplicates(),
        issued(ids, minted),
        id == minted,
    ensures
        ids.push(id).no_duplicates(),
        issued(ids.push(id), minted + 1),
{
    let t = ids.push(id);
    assert forall|i: int, j: int| 0 <= i < t.len() && 0 <= j < t.len() && i != j implies t[i]
        != t[j] by {
        if i < ids.len() {
            assert(ids[i] < minted);
        }
        if j < ids.len() {
            assert(ids[j] < minted);
        }
    }
    assert forall|i: int| 0 <= i < t.len() implies #[trigger] t[i] < minted + 1 by {
        if i < ids.len() {
            assert(ids[i] < minted);
        }
    }
}

/// Taking an identity out keeps the others apart, and it occurs no more.
pub proof fn lemma_remove_apart(ids: Seq<u64>, minted: nat, i: int)
    requires
        ids.no_duplicates(),
        issued(ids, minted),
        0 <= i < ids.len(),
    ensures
        ids.remove(i).no_duplicates(),
        issued(ids.remove(i), minted),
        !ids.remove(i).contains(ids[i]),
{
    let t = ids.remove(i);
    assert forall|a: int, b: int| 0 <= a < t.len() && 0 <= b < t.len() && a != b implies t[a]
        != t[b] by {
        let a0 = if a < i { a } else { a + 1 };
        let b0 = if b < i { b } else { b + 1 };
        assert(t[a] == ids[a0]);
        assert(t[b] == ids[b0]);
    }
    assert forall|a: int| 0 <= a < t.len() implies #[trigger] t[a] < minted by {
        let a0 = if a < i { a } else { a + 1 };
        assert(t[a] == ids[a0]);
    }
    assert forall|a: int| 0 <= a < t.len() implies t[a] != ids[i] by {
        let a0 = if a < i { a } else { a + 1 };
        assert(t[a] == ids[a0]);
    }
}

/// Exchanging two identities keeps them all apart.
pub proof fn lemma_swapped_apart(ids: Seq<u64>, minted: nat, i: int, j: int)
    requires
        ids.no_duplicates(),
        issued(ids, minted),
        0 <= i < ids.len(),
        0 <= j < ids.len(),
    ensures
        swapped(ids, i, j).no_duplicates(),
        issued(swapped(ids, i, j), minted),
{
    let t = swapped(ids, i, j);
    assert forall|a: int, b: int| 0 <= a < t.len() && 0 <= b < t.len() && a != b implies t[a]
        != t[b] by {
        let a0 = if a == i { j } else if a == j { i } else { a };
        let b0 = if b == i { j } else if b == j { i } else { b };
        assert(t[a] == ids[a0]);
        assert(t[b] == ids[b0]);
        assert(a0 != b0);
    }
    assert forall|a: int| 0 <= a < t.len() implies #[trigger] t[a] < minted by {
        if a == j {
            assert(t[a] == ids[i]);
        } else if a == i {
            assert(t[a] == ids[j]);
        } else {
            assert(t[a] == ids[a]);
        }
    }
}

/// Filling a gap with the last identity keeps the others apart, and the one
/// that left occurs no more.
pub proof fn lemma_swap_removed_apart(ids: Seq<u64>, minted: nat, i: int)
    requires
        ids.no_duplicates(),
        issued(ids, minted),
        0 <= i < ids.len(),
    ensures
        swap_removed(ids, i).no_duplicates(),
        issued(swap_removed(ids, i), minted),
        !swap_removed(ids, i).contains(ids[i]),
{
    let t = swap_removed(ids, i);
    let last = ids.len() - 1;
    assert forall|a: int, b: int| 0 <= a < t.len() && 0 <= b < t.len() && a != b implies t[a]
        != t[b] by {
        let a0 = if a == i { last } else { a };
        let b0 = if b == i { last } else { b };
        assert(t[a] == ids[a0]);
        assert(t[b] == ids[b0]);
    }
    assert forall|a: int| 0 <= a < t.len() implies #[trigger] t[a] < minted by {
        let a0 = if a == i { last } else { a };
        assert(t[a] == ids[a0]);
    }
    assert forall|a: int| 0 <= a < t.len() implies t[a] != ids[i] by {
        let a0 = if a == i { last } else { a };
        assert(t[a] == ids[a0]);
    }
}

/// A prefix of identities that are apart is apart.
pub proof fn lemma_take_apart(ids: Seq<u64>, minted: nat, n: int)
    requires
        ids.no_duplicates(),
        issued(ids, minted),
        0 <= n <= ids.len(),
    ensures
        ids.take(n).no_duplicates(),
        issued(ids.take(n), minted),
{
    let t = ids.take(n);
    assert forall|a: int, b: int| 0 <= a < t.len() && 0 <= b < t.len() && a != b implies t[a]
        != t[b] by {
        assert(t[a] == ids[a] && t[b] == ids[b]);
    }
    assert forall|a: int| 0 <= a < t.len() implies #[trigger] t[a] < minted by {
        assert(t[a] == ids[a]);
    }
}

/// What `kept` makes of one more element.
pub proof fn lemma_kept_step<A>(s: Seq<A>, keep: Seq<bool>, n: int, b: bool)
    requires
        0 <= n < s.len(),
        keep.len() == n,
    ensures
        kept(s.take(n + 1), keep.push(b)) == if b {
            kept(s.take(n), keep).push(s[n])
        } else {
            kept(s.take(n), keep)
        },
{
    assert(s.take(n + 1).drop_last() =~= s.take(n));
    assert(keep.push(b).drop_last() =~= keep);
}

/// Reordering identities by an ordering of them gives that ordering.
pub proof fn lemma_reordered_ids(ids: Seq<u64>, minted: nat, order: Seq<u64>)
    requires
        ids.no_duplicates(),
        issued(ids, minted),
        is_ordering(ids, order),
    ensures
        reordered(ids, ids, order) == order,
        issued(order, minted),
{
    assert forall|i: int| 0 <= i < order.len() implies ids[ids.index_of(#[trigger] order[i])]
        == order[i] && order[i] < minted by {
        assert(ids.contains(order[i]));
        let p = ids.index_of(order[i]);
        assert(ids[p] < minted);
    }
    assert(reordered(ids, ids, order) =~= order);
}

} // verus!
