//! What holds of handles and their positions across the operations of an
//! arena, stated over the model of the arena and proved from it.

use crate::arena::Arena;
use crate::handle::Idx;
use crate::model::is_ordering;
use crate::model::lemma_agrees_at;
use crate::model::lemma_found_at;
use crate::model::lookup;
use crate::model::reordered;
use crate::model::swap_removed;
use crate::split::ArenaSplit;
use vstd::prelude::*;

verus! {

/// In an arena a handle reports the place of its element in a walk over the
/// arena from the first position to the last: the handle of the element at
/// position `k` reports `k`, and `k` is what the arena has stored in its
/// state. Every operation keeps the arena well formed, so this holds after
/// any sequence of them.
pub proof fn law_position_is_place_in_order<T>(arena: Arena<T>, h: Idx, k: int)
    requires
        arena.wf(),
        0 <= k < arena.ids().len(),
        h.id() == arena.ids()[k],
    ensures
        arena.spec_index_of(h) == Some(k),
        arena.stored()[h.id()] == Some(k),
{
    lemma_agrees_at(arena.stored(), arena.ids(), arena.minted(), k);
}

/// For every handle that an arena has minted, what the arena has stored in
/// its state is what the handle reports: the position of its element while
/// the element is in the arena, and nothing once it has left.
pub proof fn law_stored_is_reported<T>(arena: Arena<T>, h: Idx)
    requires
        arena.wf(),
        h.id() < arena.minted(),
    ensures
        arena.stored().dom().contains(h.id()),
        arena.stored()[h.id()] == arena.spec_index_of(h),
        !arena.contains(h) ==> arena.stored()[h.id()] is None,
{
}

/// Removal that keeps the order moves the handles along: after the element
/// at position `i` has been taken out, its handle reports nothing, a handle
/// that reported a position before `i` reports the same position, one that
/// reported a position behind `i` reports the position before it, and a
/// handle that reported nothing still reports nothing.
pub proof fn law_remove_keeps_handles_in_step(ids: Seq<u64>, i: int, id: u64)
    requires
        ids.no_duplicates(),
        0 <= i < ids.len(),
    ensures
        ids.remove(i).no_duplicates(),
        lookup(ids.remove(i), id) == match lookup(ids, id) {
            Some(j) => if j < i {
                Some(j)
            } else if j == i {
                None
            } else {
                Some(j - 1)
            },
            None => None,
        },
{
    let t = ids.remove(i);
    let back = |a: int| if a < i { a } else { a + 1 };
    assert forall|a: int, b: int| 0 <= a < t.len() && 0 <= b < t.len() && a != b implies t[a]
        != t[b] by {
        assert(t[a] == ids[back(a)] && t[b] == ids[back(b)]);
    }
    if ids.contains(id) {
        let j = ids.index_of(id);
        if j < i {
            assert(t[j] == id);
            lemma_found_at(t, id, j);
        } else if j > i {
            assert(t[j - 1] == id);
            lemma_found_at(t, id, j - 1);
        } else {
            if t.contains(id) {
                let a = t.index_of(id);
                assert(t[a] == ids[back(a)]);
            }
        }
    } else {
        if t.contains(id) {
            let a = t.index_of(id);
            assert(t[a] == ids[back(a)]);
        }
    }
}

/// Removal by swapping moves one handle at most: after the element at
/// position `i` has been taken out and the last element has taken its place,
/// the handle of the element taken out reports nothing, the handle of the
/// element that was last reports `i`, and every other handle reports what it
/// reported before.
pub proof fn law_swap_remove_moves_the_last(ids: Seq<u64>, i: int, id: u64)
    requires
        ids.no_duplicates(),
        0 <= i < ids.len(),
    ensures
        swap_removed(ids, i).no_duplicates(),
        lookup(swap_removed(ids, i), id) == if id == ids[i] {
            None
        } else if id == ids.last() {
            Some(i)
        } else {
            lookup(ids, id)
        },
{
    let t = swap_removed(ids, i);
    let last = ids.len() - 1;
    let back = |a: int| if a == i { last } else { a };
    assert forall|a: int, b: int| 0 <= a < t.len() && 0 <= b < t.len() && a != b implies t[a]
        != t[b] by {
        assert(t[a] == ids[back(a)] && t[b] == ids[back(b)]);
    }
    if id == ids[i] {
        if t.contains(id) {
            let a = t.index_of(id);
            assert(t[a] == ids[back(a)]);
        }
    } else if id == ids.last() {
        assert(t[i] == id);
        lemma_found_at(t, id, i);
    } else if ids.contains(id) {
        let j = ids.index_of(id);
        assert(t[j] == id);
        lemma_found_at(t, id, j);
    } else {
        if t.contains(id) {
            let a = t.index_of(id);
            assert(t[a] == ids[back(a)]);
        }
    }
}

/// A handle and a copy that `clone` made of it report the same position and
/// the same liveness in every state of an arena, and share what the arena
/// has stored for them: what a handle reports depends on its identity alone,
/// and a copy has the identity of the handle it was made from.
pub proof fn law_copies_report_alike<T>(arena: Arena<T>, handle: Idx, copy: Idx)
    requires
        call_ensures(Idx::clone, (&handle,), copy),
    ensures
        copy.id() == handle.id(),
        arena.spec_index_of(copy) == arena.spec_index_of(handle),
        arena.contains(copy) == arena.contains(handle),
        arena.stored()[copy.id()] == arena.stored()[handle.id()],
{
}

/// Handles from different allocations of one arena are never equal,
/// whatever positions they report: the later one got an identity that the
/// arena had not minted when the earlier one was made, and `==` and `same_as`
/// accept only handles of one identity.
pub proof fn law_allocations_differ<T>(
    earlier: Arena<T>,
    first: Idx,
    second: Idx,
    equal: bool,
    same: bool,
)
    requires
        first.id() < earlier.minted(),
        second.id() >= earlier.minted(),
        call_ensures(Idx::eq, (&first, &second), equal),
        call_ensures(Idx::same_as, (&first, &second), same),
    ensures
        !equal,
        !same,
        first.id() != second.id(),
{
}

/// What `from_vec` makes of a sequence of values, `to_vec` gives back as it
/// was: the same values in the same order.
pub proof fn law_round_trip<T>(values: Vec<T>, arena: Arena<T>, back: Vec<T>)
    requires
        call_ensures(Arena::<T>::from_vec, (values,), arena),
        call_ensures(Arena::<T>::to_vec, (arena,), back),
    ensures
        back@ == values@,
{
}

/// Applying the order in which the elements already stand changes nothing:
/// the identities of an arena in position order are an ordering of it, and
/// reordering by them leaves every value, and so every handle, where it was.
pub proof fn law_identity_ordering<A>(ids: Seq<u64>, values: Seq<A>)
    requires
        ids.no_duplicates(),
        ids.len() == values.len(),
    ensures
        is_ordering(ids, ids),
        reordered(values, ids, ids) == values,
        reordered(ids, ids, ids) == ids,
{
    assert forall|i: int| 0 <= i < ids.len() implies ids.contains(#[trigger] ids[i])
        && ids.index_of(ids[i]) == i by {
        lemma_found_at(ids, ids[i], i);
    }
    assert(reordered(values, ids, ids) =~= values);
    assert(reordered(ids, ids, ids) =~= ids);
}

/// What is left of an arena once the element at position `i` has been
/// split off reaches every element but that one, and holds for each the value
/// that the arena held: a handle leads to a value through the view exactly if
/// it names an element of the arena other than the one split off.
pub proof fn law_split_reaches_the_others<'a, T>(
    rest: ArenaSplit<'a, T>,
    ids: Seq<u64>,
    values: Seq<T>,
    i: int,
    h: Idx,
)
    requires
        ids.no_duplicates(),
        ids.len() == values.len(),
        0 <= i < ids.len(),
        rest.is_cut_of(ids, values, i),
    ensures
        h.id() == ids[i] ==> !rest.reaches(h),
        h.id() != ids[i] ==> (rest.reaches(h) <==> ids.contains(h.id())),
        h.id() != ids[i] && ids.contains(h.id()) ==> rest.value_at(ids.index_of(h.id()))
            == values[ids.index_of(h.id())],
{
    if ids.contains(h.id()) {
        let p = ids.index_of(h.id());
        if p < i {
            assert(rest.covers(0, p));
            rest.lemma_one_part(0, rest.part_of(p), p);
        } else if p > i {
            assert(rest.covers(1, p));
            rest.lemma_one_part(1, rest.part_of(p), p);
        } else {
            assert forall|k: int| !rest.covers(k, p) by {
                assert(rest.starts@[0] == 0 && rest.starts@[1] == i + 1);
            }
        }
    }
}

} // verus!
