//! The arena: values stored densely and in order, each named by a handle.

use crate::handle::AsIdx;
use crate::handle::Idx;
use crate::model::agrees;
use crate::model::ids_in;
use crate::model::ids_named;
use crate::model::is_ordering;
use crate::model::issued;
use crate::model::kept;
use crate::model::lemma_agrees;
use crate::model::lemma_agrees_at;
use crate::model::lemma_found_at;
use crate::model::lemma_index_of;
use crate::model::lemma_kept_step;
use crate::model::lemma_push_apart;
use crate::model::lemma_remove_apart;
use crate::model::lemma_reordered_ids;
use crate::model::lemma_swap_removed_apart;
use crate::model::lemma_swapped_apart;
use crate::model::lemma_take_apart;
use crate::model::lookup;
use crate::model::reordered;
use crate::model::swap_removed;
use crate::model::swapped;
use vstd::pervasive::unreached;
use vstd::prelude::*;

verus! {

/// An ordered, densely packed pool of values.
///
/// The element at position `i` has the value `values()[i]` and is named by
/// the handles whose identity is `ids()[i]`. Whenever an element moves or
/// leaves, the arena stores the new position, or the removal, in the state
/// that the handles of the element share; `stored()` is the record of what
/// it has stored there.
pub struct Arena<T> {
    pub(crate) handles: Vec<Idx>,
    pub(crate) values: Vec<T>,
    pub(crate) minted: u64,
    pub(crate) stored: Ghost<Map<u64, Option<int>>>,
}

impl<T> Arena<T> {
    /// The identities of the elements, in position order.
    pub open(crate) spec fn ids(&self) -> Seq<u64> {
        ids_in(self.handles@)
    }

    /// The values of the elements, in position order.
    pub open(crate) spec fn values(&self) -> Seq<T> {
        self.values@
    }

    /// How many handles this arena has minted so far. The next handle gets
    /// this number as its identity.
    pub open(crate) spec fn minted(&self) -> nat {
        self.minted as nat
    }

    /// What the arena has stored in the states of the handles it has minted,
    /// by their identity: the position of the element, or `None` once the
    /// element has left.
    pub open(crate) spec fn stored(&self) -> Map<u64, Option<int>> {
        self.stored@
    }

    /// The invariant of an arena: every element has one identity, no
    /// identity occurs twice, each was minted by this arena, and the state of
    /// every handle that the arena has minted holds the position at which
    /// its element stands now, or that the element has left.
    pub open spec fn wf(&self) -> bool {
        &&& self.ids().len() == self.values().len()
        &&& self.ids().no_duplicates()
        &&& issued(self.ids(), self.minted())
        &&& agrees(self.stored(), self.ids(), self.minted())
    }

    /// Whether `h` names an element of this arena.
    pub open spec fn contains(&self, h: Idx) -> bool {
        self.ids().contains(h.id())
    }

    /// The position of the element that `h` names, or `None` when `h` names
    /// none: what the handle reports.
    pub open spec fn spec_index_of(&self, h: Idx) -> Option<int> {
        lookup(self.ids(), h.id())
    }

    /// An empty arena.
    pub fn new() -> (r: Arena<T>)
        ensures
            r.wf(),
            r.ids() == Seq::<u64>::empty(),
            r.values() == Seq::<T>::empty(),
            r.minted() == 0,
    {
        let r = Arena {
            handles: Vec::new(),
            values: Vec::new(),
            minted: 0,
            stored: Ghost(Map::empty()),
        };
        assert(r.ids() =~= Seq::<u64>::empty());
        r
    }

    /// An empty arena with room for `capacity` elements.
    pub fn with_capacity(capacity: usize) -> (r: Arena<T>)
        ensures
            r.wf(),
            r.ids() == Seq::<u64>::empty(),
            r.values() == Seq::<T>::empty(),
            r.minted() == 0,
    {
        let r = Arena {
            handles: Vec::with_capacity(capacity),
            values: Vec::with_capacity(capacity),
            minted: 0,
            stored: Ghost(Map::empty()),
        };
        assert(r.ids() =~= Seq::<u64>::empty());
        r
    }

    /// How many elements the arena can hold before it has to grow.
    pub fn capacity(&self) -> (r: usize)
        ensures
            r >= self.ids().len(),
    {
        room(&self.handles)
    }

    /// The number of elements.
    pub fn len(&self) -> (r: usize)
        ensures
            r == self.values().len(),
    {
        self.values.len()
    }

    /// How many handles have been minted so far.
    pub fn handles_minted(&self) -> (r: u64)
        ensures
            r == self.minted(),
    {
        self.minted
    }

    /// The position of the element that `id` names, or `None` when it names
    /// no element of this arena.
    pub fn index_of<I: AsIdx>(&self, id: I) -> (r: Option<usize>)
        requires
            self.wf(),
        ensures
            match r {
                Some(i) => self.spec_index_of(id.idx()) == Some(i as int),
                None => self.spec_index_of(id.idx()) is None,
            },
    {
        find(self.handles.as_slice(), id.as_idx())
    }

    /// Appends the value that `func` makes of the handle it is given, which
    /// is the handle of the new element itself, and returns that handle.
    pub fn alloc_with_idx<F: FnOnce(Idx) -> T>(&mut self, func: F) -> (r: Idx)
        requires
            old(self).wf(),
            old(self).minted() < u64::MAX,
            forall|h: Idx| h.id() == old(self).minted() ==> func.requires((h,)),
        ensures
            final(self).wf(),
            final(self).minted() == old(self).minted() + 1,
            r.id() == old(self).minted(),
            final(self).ids() == old(self).ids().push(r.id()),
            final(self).values() == old(self).values().push(final(self).values().last()),
            func.ensures((r,), final(self).values().last()),
    {
        let (handle, told) = self.mint();
        let value = func(handle.clone());
        self.push_slot(handle.clone(), value, told);
        handle
    }

    /// Appends the value that `func` makes and returns its handle.
    pub fn alloc_with<F: FnOnce() -> T>(&mut self, func: F) -> (r: Idx)
        requires
            old(self).wf(),
            old(self).minted() < u64::MAX,
            func.requires(()),
        ensures
            final(self).wf(),
            final(self).minted() == old(self).minted() + 1,
            r.id() == old(self).minted(),
            final(self).ids() == old(self).ids().push(r.id()),
            final(self).values() == old(self).values().push(final(self).values().last()),
            func.ensures((), final(self).values().last()),
    {
        let (handle, told) = self.mint();
        let value = func();
        self.push_slot(handle.clone(), value, told);
        handle
    }

    /// Appends `value` and returns its handle.
    pub fn allocate(&mut self, value: T) -> (r: Idx)
        requires
            old(self).wf(),
            old(self).minted() < u64::MAX,
        ensures
            final(self).wf(),
            final(self).minted() == old(self).minted() + 1,
            r.id() == old(self).minted(),
            final(self).ids() == old(self).ids().push(r.id()),
            final(self).values() == old(self).values().push(value),
    {
        let (handle, told) = self.mint();
        self.push_slot(handle.clone(), value, told);
        handle
    }

    /// A handle for the element that comes next, and the record of the arena
    /// with a note of what the state of that handle holds: the position
    /// behind the last element. The arena itself stays as it is until the
    /// element arrives.
    fn mint(&self) -> (r: (Idx, Ghost<Map<u64, Option<int>>>))
        ensures
            r.0.id() == self.minted(),
            r.1@ == self.stored().insert(r.0.id(), Some(self.ids().len() as int)),
    {
        let mut told: Ghost<Map<u64, Option<int>>> = Ghost(self.stored@);
        let handle = Idx::mint(self.minted, self.handles.len(), &mut told);
        (handle, told)
    }

    /// Appends the element that `handle` was minted for, and takes over the
    /// record that was made when it was minted.
    fn push_slot(&mut self, handle: Idx, value: T, told: Ghost<Map<u64, Option<int>>>)
        requires
            old(self).wf(),
            old(self).minted() < u64::MAX,
            handle.id() == old(self).minted(),
            told@ == old(self).stored().insert(handle.id(), Some(old(self).ids().len() as int)),
        ensures
            final(self).wf(),
            final(self).minted() == old(self).minted() + 1,
            final(self).ids() == old(self).ids().push(handle.id()),
            final(self).values() == old(self).values().push(value),
    {
        self.handles.push(handle);
        self.values.push(value);
        self.minted = self.minted + 1;
        self.stored = told;
        proof {
            let id = handle.id();
            let before = old(self).ids();
            assert(self.ids() =~= before.push(id));
            lemma_push_apart(before, id as nat, id);
            assert forall|j: int| 0 <= j < self.ids().len() implies self.stored()[
            #[trigger] self.ids()[j]] == Some(j) by {
                if j < before.len() {
                    lemma_agrees_at(old(self).stored(), before, id as nat, j);
                }
            }
            assert forall|other: u64|
                other < self.minted() && !self.ids().contains(other) implies (
            #[trigger] self.stored()[other]) is None by {
                if before.contains(other) {
                    let j = before.index_of(other);
                    assert(self.ids()[j] == other);
                }
                assert(self.ids()[before.len() as int] == id);
            }
            lemma_agrees(self.stored(), self.ids(), self.minted());
        }
    }

    /// A handle to the element at position `index`, or `None` when there is
    /// no such position.
    pub fn get_idx_at_index(&self, index: usize) -> (r: Option<Idx>)
        ensures
            match r {
                Some(h) => index < self.ids().len() && h.id() == self.ids()[index as int],
                None => index >= self.ids().len(),
            },
    {
        if index < self.handles.len() {
            Some(self.handles[index].clone())
        } else {
            None
        }
    }

    /// Takes out the element at `index` and returns its value. The handles
    /// of the elements behind it are told their new positions, and the handle
    /// of the element that it has left.
    fn remove_index(&mut self, index: usize) -> (r: T)
        requires
            old(self).wf(),
            index < old(self).ids().len(),
        ensures
            final(self).wf(),
            final(self).minted() == old(self).minted(),
            r == old(self).values()[index as int],
            final(self).ids() == old(self).ids().remove(index as int),
            final(self).values() == old(self).values().remove(index as int),
            !final(self).ids().contains(old(self).ids()[index as int]),
    {
        let handle = self.handles.remove(index);
        let value = self.values.remove(index);
        let ghost before = old(self).ids();
        let ghost ids = self.ids();
        proof {
            assert(ids =~= before.remove(index as int));
            lemma_remove_apart(before, self.minted(), index as int);
        }
        let mut i: usize = index;
        while i < self.handles.len()
            invariant
                index <= i <= ids.len(),
                self.ids() == ids,
                self.values() == old(self).values().remove(index as int),
                self.minted == old(self).minted,
                ids.no_duplicates(),
                forall|id: u64| id < self.minted() ==> #[trigger] self.stored().dom().contains(id),
                forall|j: int| index <= j < i ==> self.stored()[#[trigger] ids[j]] == Some(j),
                forall|j: int|
                    0 <= j < index || i <= j < ids.len() ==> self.stored()[#[trigger] ids[j]]
                        == old(self).stored()[ids[j]],
                forall|id: u64|
                    !ids.contains(id) ==> #[trigger] self.stored()[id] == old(self).stored()[id],
            decreases ids.len() - i,
        {
            assert(self.handles@[i as int].id() == ids[i as int]);
            self.handles[i].moved_to(i, &mut self.stored);
            i = i + 1;
        }
        let ghost told = self.stored();
        handle.retire(&mut self.stored);
        proof {
            let gone = before[index as int];
            assert(handle.id() == gone);
            assert(self.stored() == told.insert(gone, None));
            assert forall|id: u64|
                id < self.minted() implies #[trigger] self.stored().dom().contains(id) by {
                assert(told.dom().contains(id));
            }
            assert forall|j: int| 0 <= j < ids.len() implies self.stored()[#[trigger] ids[j]]
                == Some(j) by {
                assert(ids[j] != gone);
                assert(self.stored()[ids[j]] == told[ids[j]]);
                if j < index {
                    assert(ids[j] == before[j]);
                    lemma_agrees_at(old(self).stored(), before, self.minted(), j);
                }
            }
            assert forall|id: u64| id < self.minted() && !ids.contains(id) implies (
            #[trigger] self.stored()[id]) is None by {
                if id != gone {
                    if before.contains(id) {
                        let j = before.index_of(id);
                        if j < index {
                            assert(ids[j] == id);
                        } else {
                            assert(ids[j - 1] == id);
                        }
                    }
                    assert(self.stored()[id] == told[id]);
                    assert(told[id] == old(self).stored()[id]);
                    assert(old(self).stored()[id] == lookup(before, id));
                }
            }
            lemma_agrees(self.stored(), ids, self.minted());
        }
        value
    }

    /// Takes out the element that `id` names and returns its value. The
    /// elements behind it move up by one position, in order.
    pub fn remove<I: AsIdx>(&mut self, id: I) -> (r: T)
        requires
            old(self).wf(),
            old(self).contains(id.idx()),
        ensures
            final(self).wf(),
            final(self).minted() == old(self).minted(),
            !final(self).contains(id.idx()),
            ({
                let i = old(self).ids().index_of(id.idx().id());
                &&& r == old(self).values()[i]
                &&& final(self).ids() == old(self).ids().remove(i)
                &&& final(self).values() == old(self).values().remove(i)
            }),
    {
        match find(self.handles.as_slice(), id.as_idx()) {
            Some(index) => self.remove_index(index),
            None => unreached(),
        }
    }

    /// Exchanges the elements at `a` and `b` and tells their handles the new
    /// positions.
    fn swap_index(&mut self, a: usize, b: usize)
        requires
            old(self).wf(),
            a < old(self).ids().len(),
            b < old(self).ids().len(),
        ensures
            final(self).wf(),
            final(self).minted() == old(self).minted(),
            final(self).ids() == swapped(old(self).ids(), a as int, b as int),
            final(self).values() == swapped(old(self).values(), a as int, b as int),
    {
        if a < b {
            exchange(&mut self.handles, a, b);
            exchange(&mut self.values, a, b);
        } else if b < a {
            exchange(&mut self.handles, b, a);
            exchange(&mut self.values, b, a);
        }
        self.handles[a].moved_to(a, &mut self.stored);
        self.handles[b].moved_to(b, &mut self.stored);
        proof {
            let before = old(self).ids();
            let ids = self.ids();
            assert(ids =~= swapped(before, a as int, b as int));
            assert(self.values() =~= swapped(old(self).values(), a as int, b as int));
            lemma_swapped_apart(before, self.minted(), a as int, b as int);
            assert forall|j: int| 0 <= j < ids.len() implies self.stored()[#[trigger] ids[j]]
                == Some(j) by {
                if j != a && j != b {
                    assert(ids[j] == before[j]);
                    lemma_agrees_at(old(self).stored(), before, self.minted(), j);
                }
            }
            assert forall|id: u64| id < self.minted() && !ids.contains(id) implies (
            #[trigger] self.stored()[id]) is None by {
                if before.contains(id) {
                    let j = before.index_of(id);
                    let to = if j == a { b as int } else if j == b { a as int } else { j };
                    assert(ids[to] == id);
                }
                assert(ids[a as int] != id && ids[b as int] != id);
            }
            lemma_agrees(self.stored(), ids, self.minted());
        }
    }

    /// Exchanges the positions of the two elements that `a` and `b` name.
    /// Nothing happens when either names no element.
    pub fn swap<A: AsIdx, B: AsIdx>(&mut self, a: A, b: B)
        requires
            old(self).wf(),
        ensures
            final(self).wf(),
            final(self).minted() == old(self).minted(),
            old(self).contains(a.idx()) && old(self).contains(b.idx()) ==> {
                let i = old(self).ids().index_of(a.idx().id());
                let j = old(self).ids().index_of(b.idx().id());
                &&& final(self).ids() == swapped(old(self).ids(), i, j)
                &&& final(self).values() == swapped(old(self).values(), i, j)
            },
            !(old(self).contains(a.idx()) && old(self).contains(b.idx())) ==> {
                &&& final(self).ids() == old(self).ids()
                &&& final(self).values() == old(self).values()
            },
    {
        let at_a = find(self.handles.as_slice(), a.as_idx());
        let at_b = find(self.handles.as_slice(), b.as_idx());
        match (at_a, at_b) {
            (Some(i), Some(j)) => {
                self.swap_index(i, j);
            },
            _ => {},
        }
    }

    /// Takes out the element at `index`, fills its place with the last
    /// element, and returns its value. The handle of the element that moved
    /// is told its new position, and the handle of the element taken out that
    /// it has left.
    fn swap_remove_index(&mut self, index: usize) -> (r: T)
        requires
            old(self).wf(),
            index < old(self).ids().len(),
        ensures
            final(self).wf(),
            final(self).minted() == old(self).minted(),
            r == old(self).values()[index as int],
            final(self).ids() == swap_removed(old(self).ids(), index as int),
            final(self).values() == swap_removed(old(self).values(), index as int),
            !final(self).ids().contains(old(self).ids()[index as int]),
    {
        let handle = self.handles.swap_remove(index);
        let value = self.values.swap_remove(index);
        if index < self.handles.len() {
            self.handles[index].moved_to(index, &mut self.stored);
        }
        handle.retire(&mut self.stored);
        proof {
            let before = old(self).ids();
            let ids = self.ids();
            let gone = before[index as int];
            let last = before.len() - 1;
            assert(ids =~= swap_removed(before, index as int));
            lemma_swap_removed_apart(before, self.minted(), index as int);
            assert forall|j: int| 0 <= j < ids.len() implies self.stored()[#[trigger] ids[j]]
                == Some(j) by {
                assert(ids[j] != gone);
                if j != index {
                    assert(ids[j] == before[j]);
                    lemma_agrees_at(old(self).stored(), before, self.minted(), j);
                }
            }
            assert forall|id: u64| id < self.minted() && !ids.contains(id) implies (
            #[trigger] self.stored()[id]) is None by {
                if id != gone {
                    if before.contains(id) {
                        let j = before.index_of(id);
                        if j == last {
                            assert(ids[index as int] == id);
                        } else {
                            assert(ids[j] == id);
                        }
                    }
                    if index < ids.len() {
                        assert(ids[index as int] != id);
                    }
                }
            }
            lemma_agrees(self.stored(), ids, self.minted());
        }
        value
    }

    /// Takes out the element that `id` names and returns its value. The last
    /// element takes its place; no other element moves.
    pub fn swap_remove<I: AsIdx>(&mut self, id: I) -> (r: T)
        requires
            old(self).wf(),
            old(self).contains(id.idx()),
        ensures
            final(self).wf(),
            final(self).minted() == old(self).minted(),
            !final(self).contains(id.idx()),
            ({
                let i = old(self).ids().index_of(id.idx().id());
                &&& r == old(self).values()[i]
                &&& final(self).ids() == swap_removed(old(self).ids(), i)
                &&& final(self).values() == swap_removed(old(self).values(), i)
            }),
    {
        match find(self.handles.as_slice(), id.as_idx()) {
            Some(index) => self.swap_remove_index(index),
            None => unreached(),
        }
    }

    /// Drops every element from position `len` on. Nothing happens when the
    /// arena has no more than `len` elements.
    pub fn truncate(&mut self, len: usize)
        requires
            old(self).wf(),
        ensures
            final(self).wf(),
            final(self).minted() == old(self).minted(),
            len <= old(self).ids().len() ==> {
                &&& final(self).ids() == old(self).ids().take(len as int)
                &&& final(self).values() == old(self).values().take(len as int)
            },
            len > old(self).ids().len() ==> {
                &&& final(self).ids() == old(self).ids()
                &&& final(self).values() == old(self).values()
            },
    {
        while self.handles.len() > len
            invariant
                self.wf(),
                self.minted == old(self).minted,
                old(self).ids().len() == old(self).values().len(),
                self.ids().len() <= old(self).ids().len(),
                self.ids().len() >= len || self.ids().len() == old(self).ids().len(),
                self.ids() == old(self).ids().take(self.ids().len() as int),
                self.values() == old(self).values().take(self.ids().len() as int),
            decreases self.handles.len(),
        {
            let ghost before = self.ids();
            let ghost values_before = self.values();
            let ghost stored_before = self.stored();
            let last = self.handles.pop();
            self.values.pop();
            match last {
                Some(handle) => {
                    handle.retire(&mut self.stored);
                },
                None => {},
            }
            proof {
                let ids = self.ids();
                let gone = before.last();
                assert(ids =~= before.take(before.len() - 1));
                assert(ids =~= old(self).ids().take(ids.len() as int));
                assert(self.values() =~= values_before.take(values_before.len() - 1));
                assert(self.values() =~= old(self).values().take(ids.len() as int));
                lemma_take_apart(before, self.minted(), before.len() - 1);
                assert forall|j: int| 0 <= j < ids.len() implies self.stored()[#[trigger] ids[j]]
                    == Some(j) by {
                    assert(ids[j] == before[j]);
                    assert(before[j] != gone);
                    lemma_agrees_at(stored_before, before, self.minted(), j);
                }
                assert forall|id: u64| id < self.minted() && !ids.contains(id) implies (
                #[trigger] self.stored()[id]) is None by {
                    if id != gone {
                        if before.contains(id) {
                            let j = before.index_of(id);
                            assert(ids[j] == id);
                        }
                    }
                }
                lemma_agrees(self.stored(), ids, self.minted());
            }
        }
        proof {
            assert(old(self).ids().take(old(self).ids().len() as int) =~= old(self).ids());
            assert(old(self).values().take(old(self).values().len() as int) =~= old(
                self,
            ).values());
        }
    }

    /// Keeps the elements whose value `f` accepts, in their order, and drops
    /// the others.
    ///
    /// `f` is asked once for each value, in position order. What it answered
    /// is the sequence `keep` of the contract.
    pub fn retain<F: FnMut(&T) -> bool>(&mut self, f: F)
        requires
            old(self).wf(),
            forall|i: int|
                0 <= i < old(self).values().len() ==> f.requires((&old(self).values()[i],)),
        ensures
            final(self).wf(),
            final(self).minted() == old(self).minted(),
            exists|keep: Seq<bool>|
                {
                    &&& keep.len() == old(self).values().len()
                    &&& forall|i: int|
                        0 <= i < keep.len() ==> f.ensures(
                            (&old(self).values()[i],),
                            #[trigger] keep[i],
                        )
                    &&& final(self).ids() == kept(old(self).ids(), keep)
                    &&& final(self).values() == kept(old(self).values(), keep)
                },
    {
        let mut ask = f;
        let len = self.values.len();
        let mut live: usize = 0;
        let mut i: usize = 0;
        let ghost mut keep: Seq<bool> = Seq::empty();
        proof {
            assert(self.ids().take(0) =~= kept(self.ids().take(0), keep));
            assert(self.values().take(0) =~= kept(self.values().take(0), keep));
        }
        while i < len
            invariant
                self.wf(),
                self.minted == old(self).minted,
                self.values().len() == len,
                old(self).values().len() == len,
                old(self).ids().len() == len,
                live <= i <= len,
                keep.len() == i,
                ask == f,
                forall|j: int| 0 <= j < len ==> f.requires((&old(self).values()[j],)),
                forall|j: int|
                    0 <= j < i ==> f.ensures((&old(self).values()[j],), #[trigger] keep[j]),
                self.ids().take(live as int) == kept(old(self).ids().take(i as int), keep),
                self.values().take(live as int) == kept(old(self).values().take(i as int), keep),
                forall|j: int| i <= j < len ==> self.ids()[j] == old(self).ids()[j],
                forall|j: int| i <= j < len ==> self.values()[j] == old(self).values()[j],
            decreases len - i,
        {
            let ghost ids_before = self.ids();
            let ghost values_before = self.values();
            let ghost asked = keep;
            let stays = ask(&self.values[i]);
            proof {
                keep = asked.push(stays);
                lemma_kept_step(old(self).ids(), asked, i as int, stays);
                lemma_kept_step(old(self).values(), asked, i as int, stays);
            }
            if stays {
                self.swap_index(live, i);
                proof {
                    assert(self.ids().take(live + 1) =~= ids_before.take(live as int).push(
                        ids_before[i as int],
                    ));
                    assert(self.values().take(live + 1) =~= values_before.take(live as int).push(
                        values_before[i as int],
                    ));
                }
                live = live + 1;
            }
            i = i + 1;
        }
        proof {
            assert(old(self).ids().take(len as int) =~= old(self).ids());
            assert(old(self).values().take(len as int) =~= old(self).values());
        }
        if live < len {
            self.truncate(live);
        } else {
            proof {
                assert(self.ids().take(len as int) =~= self.ids());
                assert(self.values().take(len as int) =~= self.values());
            }
        }
        proof {
            assert(self.ids() == kept(old(self).ids(), keep));
            assert(self.values() == kept(old(self).values(), keep));
        }
    }

    /// A handle to the first element whose value `func` accepts, or `None`
    /// when it accepts none.
    pub fn position<F: Fn(&T) -> bool>(&self, func: F) -> (r: Option<Idx>)
        requires
            self.wf(),
            forall|i: int| 0 <= i < self.values().len() ==> func.requires((&self.values()[i],)),
        ensures
            match r {
                Some(h) => {
                    let i = self.ids().index_of(h.id());
                    &&& self.contains(h)
                    &&& func.ensures((&self.values()[i],), true)
                    &&& forall|j: int| 0 <= j < i ==> func.ensures((&self.values()[j],), false)
                },
                None => forall|j: int|
                    0 <= j < self.values().len() ==> func.ensures((&self.values()[j],), false),
            },
    {
        let mut i: usize = 0;
        while i < self.values.len()
            invariant
                self.wf(),
                i <= self.values().len(),
                forall|j: int|
                    0 <= j < self.values().len() ==> func.requires((&self.values()[j],)),
                forall|j: int| 0 <= j < i ==> func.ensures((&self.values()[j],), false),
            decreases self.values.len() - i,
        {
            if func(&self.values[i]) {
                let found = self.handles[i].clone();
                proof {
                    lemma_found_at(self.ids(), found.id(), i as int);
                }
                return Some(found);
            }
            i = i + 1;
        }
        None
    }

    /// An arena of the given values, in their order. The handle of the value
    /// at position `i` has the identity `i`.
    pub fn from_vec(values: Vec<T>) -> (r: Arena<T>)
        ensures
            r.wf(),
            r.minted() == values@.len(),
            r.values() == values@,
            r.ids() == Seq::new(values@.len(), |i: int| i as u64),
    {
        let mut handles: Vec<Idx> = Vec::with_capacity(values.len());
        let mut stored: Ghost<Map<u64, Option<int>>> = Ghost(Map::empty());
        let mut i: usize = 0;
        while i < values.len()
            invariant
                i <= values@.len(),
                handles@.len() == i,
                forall|j: int| 0 <= j < i ==> (#[trigger] handles@[j]).id() == j,
                forall|id: u64|
                    #![trigger stored@[id]]
                    #![trigger stored@.dom().contains(id)]
                    id < i ==> stored@.dom().contains(id) && stored@[id] == Some(id as int),
            decreases values.len() - i,
        {
            handles.push(Idx::mint(widen(i), i, &mut stored));
            i = i + 1;
        }
        let minted = widen(values.len());
        let r = Arena { handles, values, minted, stored };
        proof {
            let ids = r.ids();
            assert(ids =~= Seq::new(values@.len(), |i: int| i as u64));
            assert forall|id: u64| id < r.minted() && !ids.contains(id) implies (
            #[trigger] r.stored()[id]) is None by {
                assert(ids[id as int] == id);
            }
            lemma_agrees(r.stored(), ids, r.minted());
        }
        r
    }

    /// Puts the elements in the order in which `ordering` names them. No
    /// handle is retired.
    pub fn apply_ordering<I: AsIdx>(&mut self, ordering: &Vec<I>)
        requires
            old(self).wf(),
            is_ordering(old(self).ids(), ids_named(ordering@)),
        ensures
            final(self).wf(),
            final(self).minted() == old(self).minted(),
            final(self).ids() == ids_named(ordering@),
            final(self).values() == reordered(
                old(self).values(),
                old(self).ids(),
                ids_named(ordering@),
            ),
    {
        let ghost order = ids_named(ordering@);
        let ghost ids = self.ids();
        let ghost values = self.values();
        let mut left_handles: Vec<Idx> = Vec::with_capacity(self.handles.len());
        let mut left_values: Vec<T> = Vec::with_capacity(self.values.len());
        std::mem::swap(&mut left_handles, &mut self.handles);
        std::mem::swap(&mut left_values, &mut self.values);
        proof {
            assert forall|q: int| 0 <= q < ids.len() implies ids_in(left_handles@).contains(
                #[trigger] ids[q],
            ) by {
                assert(ids_in(left_handles@)[q] == ids[q]);
            }
            assert forall|q: int| 0 <= q < left_handles@.len() implies {
                let id = #[trigger] ids_in(left_handles@)[q];
                ids.contains(id) && values[ids.index_of(id)] == left_values@[q]
            } by {
                lemma_found_at(ids, ids[q], q);
            }
        }
        let mut j: usize = 0;
        while j < ordering.len()
            invariant
                ids == old(self).ids(),
                values == old(self).values(),
                order == ids_named(ordering@),
                ids.len() == values.len(),
                ids.no_duplicates(),
                issued(ids, self.minted()),
                is_ordering(ids, order),
                self.minted == old(self).minted,
                j <= ordering@.len(),
                self.handles@.len() == j,
                self.values@.len() == j,
                forall|m: int| 0 <= m < j ==> (#[trigger] self.handles@[m]).id() == order[m],
                forall|m: int|
                    0 <= m < j ==> (#[trigger] self.values@[m]) == values[ids.index_of(order[m])],
                left_handles@.len() == left_values@.len(),
                left_handles@.len() + j == ids.len(),
                ids_in(left_handles@).no_duplicates(),
                forall|q: int|
                    0 <= q < left_handles@.len() ==> {
                        let id = #[trigger] ids_in(left_handles@)[q];
                        ids.contains(id) && values[ids.index_of(id)] == left_values@[q]
                    },
                forall|m: int|
                    j <= m < order.len() ==> ids_in(left_handles@).contains(#[trigger] order[m]),
                forall|m: int|
                    0 <= m < j ==> !ids_in(left_handles@).contains(#[trigger] order[m]),
                forall|q: int|
                    0 <= q < ids.len() ==> order.take(j as int).contains(#[trigger] ids[q])
                        || ids_in(left_handles@).contains(ids[q]),
                forall|id: u64| id < self.minted() ==> #[trigger] self.stored().dom().contains(id),
                forall|m: int| 0 <= m < j ==> self.stored()[#[trigger] order[m]] == Some(m),
                forall|id: u64|
                    id < self.minted() && !ids.contains(id) ==> (
                    #[trigger] self.stored()[id]) is None,
            decreases ordering.len() - j,
        {
            let ghost left = ids_in(left_handles@);
            let ghost left_v = left_values@;
            let ghost stored_before = self.stored();
            let h = ordering[j].as_idx();
            assert(h.id() == order[j as int]);
            match find(left_handles.as_slice(), h) {
                Some(p) => {
                    proof {
                        lemma_index_of(left, h.id());
                    }
                    let handle = left_handles.swap_remove(p);
                    let value = left_values.swap_remove(p);
                    if p < left_handles.len() {
                        left_handles[p].moved_to(p, &mut self.stored);
                    }
                    handle.moved_to(j, &mut self.stored);
                    self.handles.push(handle);
                    self.values.push(value);
                    proof {
                        let rest = ids_in(left_handles@);
                        let last = left.len() - 1;
                        let x = order[j as int];
                        assert(rest =~= swap_removed(left, p as int));
                        assert forall|a: int, b: int|
                            0 <= a < rest.len() && 0 <= b < rest.len() && a != b implies rest[a]
                            != rest[b] by {
                            let a0 = if a == p { last } else { a };
                            let b0 = if b == p { last } else { b };
                            assert(rest[a] == left[a0] && rest[b] == left[b0]);
                        }
                        assert forall|q: int| 0 <= q < rest.len() implies left.contains(
                            #[trigger] rest[q],
                        ) && rest[q] != x by {
                            let q0 = if q == p { last } else { q };
                            assert(rest[q] == left[q0]);
                        }
                        assert forall|q: int| 0 <= q < left_handles@.len() implies {
                            let id = #[trigger] ids_in(left_handles@)[q];
                            ids.contains(id) && values[ids.index_of(id)] == left_values@[q]
                        } by {
                            let q0 = if q == p { last } else { q };
                            assert(rest[q] == left[q0]);
                            assert(left_values@[q] == left_v[q0]);
                        }
                        assert forall|id: u64| left.contains(id) && id != x implies rest.contains(
                            id,
                        ) by {
                            let q = left.index_of(id);
                            if q == last {
                                assert(rest[p as int] == id);
                            } else {
                                assert(rest[q] == id);
                            }
                        }
                        assert forall|m: int| j + 1 <= m < order.len() implies rest.contains(
                            #[trigger] order[m],
                        ) by {
                            assert(left.contains(order[m]));
                            assert(order[m] != x);
                        }
                        assert forall|m: int| 0 <= m < j + 1 implies !rest.contains(
                            #[trigger] order[m],
                        ) by {
                            if rest.contains(order[m]) {
                                let q = rest.index_of(order[m]);
                                assert(left.contains(rest[q]) && rest[q] != x);
                            }
                        }
                        assert forall|q: int| 0 <= q < ids.len() implies order.take(
                            j + 1,
                        ).contains(#[trigger] ids[q]) || rest.contains(ids[q]) by {
                            if order.take(j as int).contains(ids[q]) {
                                let m = order.take(j as int).index_of(ids[q]);
                                assert(order.take(j + 1)[m] == ids[q]);
                            } else if ids[q] == x {
                                assert(order.take(j + 1)[j as int] == x);
                            }
                        }
                        assert forall|m: int| 0 <= m < j + 1 implies self.stored()[
                        #[trigger] order[m]] == Some(m) by {
                            if m < j {
                                assert(order[m] != x);
                                assert(!left.contains(order[m]));
                                if p < rest.len() {
                                    assert(left.contains(rest[p as int]));
                                }
                                assert(self.stored()[order[m]] == stored_before[order[m]]);
                            }
                        }
                        assert forall|id: u64|
                            id < self.minted() && !ids.contains(id) implies (
                        #[trigger] self.stored()[id]) is None by {
                            assert(ids.contains(x));
                            if p < rest.len() {
                                assert(left.contains(rest[p as int]));
                                assert(ids.contains(rest[p as int]));
                            }
                            assert(self.stored()[id] == stored_before[id]);
                        }
                    }
                },
                None => {
                    assert(left.contains(order[j as int]));
                    unreached::<()>();
                },
            }
            j = j + 1;
        }
        proof {
            assert(self.ids() =~= order);
            assert(self.values() =~= reordered(values, ids, order));
            lemma_reordered_ids(ids, self.minted(), order);
            assert forall|id: u64| id < self.minted() && !order.contains(id) implies (
            #[trigger] self.stored()[id]) is None by {
                if ids.contains(id) {
                    let q = ids.index_of(id);
                    assert(order.take(j as int).contains(ids[q]) || ids_in(
                        left_handles@,
                    ).contains(ids[q]));
                    if order.take(j as int).contains(id) {
                        let m = order.take(j as int).index_of(id);
                        assert(order[m] == id);
                    } else {
                        let r = ids_in(left_handles@).index_of(id);
                        assert(0 <= r < left_handles@.len());
                    }
                }
            }
            lemma_agrees(self.stored(), order, self.minted());
        }
    }

    /// The values in position order. Every handle of the arena is retired.
    pub fn to_vec(self) -> (r: Vec<T>)
        ensures
            r@ == self.values(),
    {
        let mut stored = self.stored;
        retire_all(self.handles.as_slice(), &mut stored);
        self.values
    }
}

/// Stores in the state of each of `handles` that its element has left.
fn retire_all(handles: &[Idx], stored: &mut Ghost<Map<u64, Option<int>>>)
    ensures
        forall|j: int|
            0 <= j < handles@.len() ==> final(stored)@[#[trigger] ids_in(handles@)[j]] is None,
{
    let mut i: usize = 0;
    while i < handles.len()
        invariant
            i <= handles@.len(),
            forall|j: int| 0 <= j < i ==> stored@[#[trigger] ids_in(handles@)[j]] is None,
        decreases handles.len() - i,
    {
        assert(ids_in(handles@)[i as int] == handles@[i as int].id());
        handles[i].retire(stored);
        i = i + 1;
    }
}

/// The position in `handles` of the handle that shares its identity with
/// `h`, or `None` when none does.
///
/// The position that `h` itself has stored is tried first, and believed only
/// if the handle there has the identity of `h`; otherwise the handles are
/// searched.
pub(crate) fn find(handles: &[Idx], h: &Idx) -> (r: Option<usize>)
    requires
        ids_in(handles@).no_duplicates(),
    ensures
        match r {
            Some(i) => lookup(ids_in(handles@), h.id()) == Some(i as int) && i < handles@.len(),
            None => !ids_in(handles@).contains(h.id()),
        },
{
    let wanted = h.serial();
    let hint = h.hint();
    if hint < handles.len() && handles[hint].serial() == wanted {
        proof {
            lemma_found_at(ids_in(handles@), wanted, hint as int);
        }
        return Some(hint);
    }
    let mut i: usize = 0;
    while i < handles.len()
        invariant
            ids_in(handles@).no_duplicates(),
            i <= handles@.len(),
            wanted == h.id(),
            forall|j: int| 0 <= j < i ==> ids_in(handles@)[j] != wanted,
        decreases handles.len() - i,
    {
        if handles[i].serial() == wanted {
            proof {
                lemma_found_at(ids_in(handles@), wanted, i as int);
            }
            return Some(i);
        }
        i = i + 1;
    }
    None
}

/// `Vec::capacity`: the number of elements the vector can hold without
/// reallocating, which is never less than the number it holds.
#[verifier::external_body]
fn room(handles: &Vec<Idx>) -> (r: usize)
    ensures
        r >= handles@.len(),
{
    handles.capacity()
}

/// A position as a handle identity.
fn widen(i: usize) -> (r: u64)
    ensures
        r == i,
{
    i as u64
}

/// Exchanges the elements at `a` and `b`.
fn exchange<A>(v: &mut Vec<A>, a: usize, b: usize)
    requires
        a < b < old(v)@.len(),
    ensures
        final(v)@ == swapped(old(v)@, a as int, b as int),
{
    let (low, high) = v.as_mut_slice().split_at_mut(b);
    std::mem::swap(&mut low[a], &mut high[0]);
    assert(v@ =~= swapped(old(v)@, a as int, b as int));
}

impl<T> Default for Arena<T> {
    fn default() -> (r: Arena<T>)
        ensures
            r.wf(),
            r.ids() == Seq::<u64>::empty(),
            r.values() == Seq::<T>::empty(),
            r.minted() == 0,
    {
        Arena::new()
    }
}

/// Access to the values of an arena by handle.
///
/// An accessor knows the identities of all elements of an arena and reaches
/// the values of some of them.
pub trait ArenaAccess<T> {
    /// The identities of all elements of the arena, in position order.
    spec fn all_ids(&self) -> Seq<u64>;

    /// Whether the value at position `p` can be reached.
    spec fn can_reach(&self, p: int) -> bool;

    /// The value at position `p`, where it can be reached.
    spec fn value_at(&self, p: int) -> T;

    /// The invariant of the accessor.
    spec fn valid(&self) -> bool;

    /// The value that `id` names, or `None` when it names none that can be
    /// reached.
    fn get<I: AsIdx>(&self, id: I) -> (r: Option<&T>)
        requires
            self.valid(),
        ensures
            match r {
                Some(v) => {
                    let p = self.all_ids().index_of(id.idx().id());
                    &&& self.all_ids().contains(id.idx().id())
                    &&& self.can_reach(p)
                    &&& *v == self.value_at(p)
                },
                None => !(self.all_ids().contains(id.idx().id()) && self.can_reach(
                    self.all_ids().index_of(id.idx().id()),
                )),
            },
    ;

    /// The value that `id` names, for writing, or `None` when it names none
    /// that can be reached. Nothing but that value can change.
    fn get_mut<I: AsIdx>(&mut self, id: I) -> (r: Option<&mut T>)
        requires
            old(self).valid(),
        ensures
            final(self).valid(),
            final(self).all_ids() == old(self).all_ids(),
            forall|q: int| final(self).can_reach(q) == old(self).can_reach(q),
            match r {
                Some(v) => {
                    let p = old(self).all_ids().index_of(id.idx().id());
                    &&& old(self).all_ids().contains(id.idx().id())
                    &&& old(self).can_reach(p)
                    &&& *v == old(self).value_at(p)
                    &&& final(self).value_at(p) == *final(v)
                    &&& forall|q: int|
                        q != p && old(self).can_reach(q) ==> final(self).value_at(q) == old(
                            self,
                        ).value_at(q)
                },
                None => {
                    &&& !(old(self).all_ids().contains(id.idx().id()) && old(self).can_reach(
                        old(self).all_ids().index_of(id.idx().id()),
                    ))
                    &&& forall|q: int|
                        old(self).can_reach(q) ==> final(self).value_at(q) == old(self).value_at(q)
                },
            },
    ;
}

impl<T> ArenaAccess<T> for Arena<T> {
    open spec fn all_ids(&self) -> Seq<u64> {
        self.ids()
    }

    open spec fn can_reach(&self, p: int) -> bool {
        0 <= p < self.values().len()
    }

    open spec fn value_at(&self, p: int) -> T {
        self.values()[p]
    }

    open spec fn valid(&self) -> bool {
        self.wf()
    }

    fn get<I: AsIdx>(&self, id: I) -> (r: Option<&T>) {
        match find(self.handles.as_slice(), id.as_idx()) {
            Some(i) => Some(&self.values[i]),
            None => None,
        }
    }

    fn get_mut<I: AsIdx>(&mut self, id: I) -> (r: Option<&mut T>)
        ensures
            final(self).minted() == old(self).minted(),
            final(self).stored() == old(self).stored(),
            final(self).values().len() == old(self).values().len(),
    {
        match find(self.handles.as_slice(), id.as_idx()) {
            Some(i) => Some(&mut self.values[i]),
            None => None,
        }
    }
}

} // verus!
