//! Split views: one element for writing, and beside it access by handle to
//! all the others.

use crate::arena::find;
use crate::arena::Arena;
use crate::arena::ArenaAccess;
use crate::handle::AsIdx;
use crate::handle::Idx;
use crate::model::ids_in;
use crate::model::lemma_index_of;
use vstd::prelude::*;

verus! {

/// An arena without the elements that were split off.
///
/// The values that can still be reached lie in `parts`, runs of neighbouring
/// elements in position order. `starts[k]` is the position in the arena of
/// the first element of `parts[k]`. Between two runs lies exactly one
/// position, that of an element that was split off: it belongs to no run, so
/// nothing here leads to it. `handles` holds the handles of all elements of
/// the arena, those split off too.
///
/// What the arena holds once the view is gone is what the runs, and the
/// elements split off, hold then; the fields are public so that contracts
/// can say so.
pub struct ArenaSplit<'a, T> {
    pub handles: &'a [Idx],
    pub starts: Vec<usize>,
    pub parts: Vec<&'a mut [T]>,
}

impl<'a, T> ArenaSplit<'a, T> {
    /// The invariant of a view: the runs lie in order, one position apart,
    /// and cover the arena from its first position to its last.
    pub open spec fn wf(&self) -> bool {
        &&& ids_in(self.handles@).no_duplicates()
        &&& self.parts@.len() == self.starts@.len()
        &&& self.parts@.len() >= 1
        &&& self.starts@[0] == 0
        &&& forall|k: int|
            #![trigger self.parts@[k]]
            0 <= k < self.parts@.len() - 1 ==> self.starts@[k] + self.parts@[k]@.len() + 1
                == self.starts@[k + 1]
        &&& self.starts@.last() + self.parts@.last()@.len() == self.handles@.len()
    }

    /// The identities of all elements of the arena, in position order.
    pub open spec fn ids(&self) -> Seq<u64> {
        ids_in(self.handles@)
    }

    /// Whether run `k` holds position `p`.
    pub open spec fn covers(&self, k: int, p: int) -> bool {
        &&& 0 <= k < self.parts@.len()
        &&& self.starts@[k] <= p < self.starts@[k] + self.parts@[k]@.len()
    }

    /// Whether the element at position `p` can be reached.
    pub open spec fn reachable(&self, p: int) -> bool {
        exists|k: int| self.covers(k, p)
    }

    /// The run that holds position `p`, where one does.
    pub open spec fn part_of(&self, p: int) -> int {
        choose|k: int| self.covers(k, p)
    }

    /// The value at position `p`, where it can be reached.
    pub open spec fn value_at(&self, p: int) -> T {
        self.parts@[self.part_of(p)]@[p - self.starts@[self.part_of(p)]]
    }

    /// Whether `h` names an element that can be reached.
    pub open spec fn reaches(&self, h: Idx) -> bool {
        self.ids().contains(h.id()) && self.reachable(self.ids().index_of(h.id()))
    }

    /// Whether this view is what is left of an arena with the given
    /// identities and values once the element at position `i` has been split
    /// off: one run before `i`, one behind it.
    pub open spec fn is_cut_of(&self, ids: Seq<u64>, values: Seq<T>, i: int) -> bool {
        &&& self.wf()
        &&& self.ids() == ids
        &&& self.parts@.len() == 2
        &&& self.starts@[1] == i + 1
        &&& self.parts@[0]@ == values.take(i)
        &&& self.parts@[1]@ == values.skip(i + 1)
    }

    /// Whether this view reaches what `outer` reaches but for position `p`,
    /// and holds there what `outer` holds.
    pub open spec fn narrows(&self, outer: ArenaSplit<'a, T>, p: int) -> bool {
        &&& self.handles == outer.handles
        &&& forall|q: int| #[trigger] self.reachable(q) <==> outer.reachable(q) && q != p
        &&& forall|q: int| #[trigger] self.reachable(q) ==> self.value_at(q) == outer.value_at(q)
    }

    /// Whether `other` has the runs of this view, each at its place and of
    /// its length, whatever values they hold.
    pub open spec fn same_runs(&self, other: ArenaSplit<'a, T>) -> bool {
        &&& other.handles == self.handles
        &&& other.starts == self.starts
        &&& other.parts@.len() == self.parts@.len()
        &&& forall|m: int|
            #![trigger other.parts@[m]]
            0 <= m < self.parts@.len() ==> other.parts@[m]@.len() == self.parts@[m]@.len()
    }

    /// A view with the same runs reaches the same positions, through the
    /// same runs.
    pub proof fn lemma_same_runs(&self, other: ArenaSplit<'a, T>, q: int)
        requires
            self.wf(),
            self.same_runs(other),
        ensures
            other.wf(),
            other.reachable(q) == self.reachable(q),
            self.reachable(q) ==> other.part_of(q) == self.part_of(q),
    {
        assert forall|k: int|
            #![trigger other.parts@[k]]
            0 <= k < other.parts@.len() - 1 implies other.starts@[k] + other.parts@[k]@.len() + 1
            == other.starts@[k + 1] by {
            assert(other.parts@[k]@.len() == self.parts@[k]@.len());
        }
        assert(other.parts@[other.parts@.len() - 1]@.len() == self.parts@[self.parts@.len()
            - 1]@.len());
        assert forall|k: int| other.covers(k, q) <==> self.covers(k, q) by {
            if 0 <= k < self.parts@.len() {
                assert(other.parts@[k]@.len() == self.parts@[k]@.len());
            }
        }
        if self.reachable(q) {
            let k = self.part_of(q);
            assert(other.covers(k, q));
            other.lemma_one_part(k, other.part_of(q), q);
        }
        if other.reachable(q) {
            assert(self.covers(other.part_of(q), q));
        }
    }

    /// The starts of the runs grow with their number.
    pub proof fn lemma_starts_grow(&self, j: int, k: int)
        requires
            self.wf(),
            0 <= j < k < self.parts@.len(),
        ensures
            self.starts@[j] + self.parts@[j]@.len() < self.starts@[k],
        decreases k - j,
    {
        if j + 1 < k {
            self.lemma_starts_grow(j + 1, k);
        }
    }

    /// A position lies in one run at most.
    pub proof fn lemma_one_part(&self, j: int, k: int, p: int)
        requires
            self.wf(),
            self.covers(j, p),
            self.covers(k, p),
        ensures
            j == k,
    {
        if j < k {
            self.lemma_starts_grow(j, k);
        } else if k < j {
            self.lemma_starts_grow(k, j);
        }
    }

    /// Cutting position `p` out of run `k` leaves a view in which `p` cannot
    /// be reached.
    proof fn lemma_cut(&self, rest: ArenaSplit<'a, T>, k: int, p: int)
        requires
            self.wf(),
            self.covers(k, p),
            p + 1 <= usize::MAX,
            rest.handles == self.handles,
            rest.starts@ == self.starts@.insert(k + 1, (p + 1) as usize),
            rest.parts@.len() == self.parts@.len() + 1,
            forall|m: int|
                #![trigger rest.parts@[m]]
                0 <= m < k ==> rest.parts@[m]@.len() == self.parts@[m]@.len(),
            forall|m: int|
                #![trigger self.parts@[m]]
                k < m < self.parts@.len() ==> rest.parts@[m + 1]@.len() == self.parts@[m]@.len(),
            rest.parts@[k]@.len() == p - self.starts@[k],
            rest.parts@[k + 1]@.len() == self.starts@[k] + self.parts@[k]@.len() - p - 1,
        ensures
            rest.wf(),
            !rest.reachable(p),
            forall|q: int| #[trigger] rest.reachable(q) <==> self.reachable(q) && q != p,
            forall|q: int|
                self.reachable(q) && q != p ==> #[trigger] rest.part_of(q) == if self.part_of(q)
                    < k || (self.part_of(q) == k && q < p) {
                    self.part_of(q)
                } else {
                    self.part_of(q) + 1
                },
    {
        let n = self.parts@.len() as int;
        assert forall|m: int|
            #![trigger rest.parts@[m]]
            0 <= m < rest.parts@.len() - 1 implies rest.starts@[m] + rest.parts@[m]@.len() + 1
            == rest.starts@[m + 1] by {
            if m < k {
                assert(rest.starts@[m] == self.starts@[m]);
                assert(rest.starts@[m + 1] == self.starts@[m + 1]);
                assert(rest.parts@[m]@.len() == self.parts@[m]@.len());
            } else if m == k {
                assert(rest.starts@[m] == self.starts@[m]);
                assert(rest.starts@[m + 1] == p + 1);
            } else if m == k + 1 {
                assert(rest.starts@[m] == p + 1);
                assert(rest.starts@[m + 1] == self.starts@[m]);
                assert(self.starts@[k] + self.parts@[k]@.len() + 1 == self.starts@[k + 1]);
            } else {
                assert(rest.starts@[m] == self.starts@[m - 1]);
                assert(rest.starts@[m + 1] == self.starts@[m]);
                assert(rest.parts@[m]@.len() == self.parts@[m - 1]@.len());
            }
        }
        if k == n - 1 {
            assert(rest.starts@.last() == p + 1);
        } else {
            assert(rest.starts@.last() == self.starts@[n - 1]);
            assert(rest.parts@[(n - 1) + 1]@.len() == self.parts@[n - 1]@.len());
        }
        assert(rest.starts@[0] == self.starts@[0]);
        assert(rest.wf());
        assert forall|m: int| !rest.covers(m, p) by {
            if rest.covers(m, p) {
                if m < k {
                    rest.lemma_starts_grow(m, k);
                } else if m > k + 1 {
                    rest.lemma_starts_grow(k + 1, m);
                }
            }
        }
        assert forall|q: int| #[trigger] rest.reachable(q) <==> self.reachable(q) && q != p by {
            self.lemma_cut_at(rest, k, p, q);
        }
        assert forall|q: int| self.reachable(q) && q != p implies #[trigger] rest.part_of(q)
            == if self.part_of(q) < k || (self.part_of(q) == k && q < p) {
            self.part_of(q)
        } else {
            self.part_of(q) + 1
        } by {
            self.lemma_cut_at(rest, k, p, q);
        }
    }

    /// What cutting position `p` out of run `k` means for position `q`.
    proof fn lemma_cut_at(&self, rest: ArenaSplit<'a, T>, k: int, p: int, q: int)
        requires
            self.wf(),
            rest.wf(),
            !rest.reachable(p),
            self.covers(k, p),
            p + 1 <= usize::MAX,
            rest.starts@ == self.starts@.insert(k + 1, (p + 1) as usize),
            rest.parts@.len() == self.parts@.len() + 1,
            forall|m: int|
                #![trigger rest.parts@[m]]
                0 <= m < k ==> rest.parts@[m]@.len() == self.parts@[m]@.len(),
            forall|m: int|
                #![trigger self.parts@[m]]
                k < m < self.parts@.len() ==> rest.parts@[m + 1]@.len() == self.parts@[m]@.len(),
            rest.parts@[k]@.len() == p - self.starts@[k],
            rest.parts@[k + 1]@.len() == self.starts@[k] + self.parts@[k]@.len() - p - 1,
        ensures
            rest.reachable(q) <==> self.reachable(q) && q != p,
            self.reachable(q) && q != p ==> rest.part_of(q) == if self.part_of(q) < k || (
            self.part_of(q) == k && q < p) {
                self.part_of(q)
            } else {
                self.part_of(q) + 1
            },
    {
        if rest.reachable(q) {
            let m = rest.part_of(q);
            assert(rest.covers(m, q));
            if m < k {
                assert(rest.starts@[m] == self.starts@[m]);
                assert(rest.parts@[m]@.len() == self.parts@[m]@.len());
                assert(self.covers(m, q));
            } else if m == k {
                assert(rest.starts@[m] == self.starts@[m]);
                assert(self.covers(k, q));
            } else if m == k + 1 {
                assert(rest.starts@[m] == p + 1);
                assert(self.covers(k, q));
            } else {
                assert(rest.starts@[m] == self.starts@[m - 1]);
                assert(rest.parts@[(m - 1) + 1]@.len() == self.parts@[m - 1]@.len());
                assert(self.covers(m - 1, q));
            }
        }
        if self.reachable(q) && q != p {
            let m = self.part_of(q);
            assert(self.covers(m, q));
            let to = if m < k || (m == k && q < p) {
                m
            } else {
                m + 1
            };
            if m < k {
                assert(rest.starts@[m] == self.starts@[m]);
                assert(rest.parts@[m]@.len() == self.parts@[m]@.len());
            } else if m == k {
                if q < p {
                    assert(rest.starts@[m] == self.starts@[m]);
                } else {
                    assert(rest.starts@[m + 1] == p + 1);
                }
            } else {
                assert(rest.starts@[m + 1] == self.starts@[m]);
                assert(rest.parts@[m + 1]@.len() == self.parts@[m]@.len());
            }
            assert(rest.covers(to, q));
            rest.lemma_one_part(to, rest.part_of(q), q);
        }
    }

    /// The run that holds position `p`, or `None` when `p` belongs to an
    /// element that was split off, or to none.
    fn part_holding(&self, p: usize) -> (r: Option<usize>)
        requires
            self.wf(),
        ensures
            match r {
                Some(k) => self.covers(k as int, p as int) && self.part_of(p as int) == k,
                None => !self.reachable(p as int),
            },
    {
        let mut k: usize = 0;
        while k < self.parts.len()
            invariant
                self.wf(),
                k <= self.parts@.len(),
                forall|m: int| 0 <= m < k ==> !self.covers(m, p as int),
            decreases self.parts.len() - k,
        {
            let start = self.starts[k];
            if p >= start && p - start < self.parts[k].len() {
                proof {
                    assert(self.covers(k as int, p as int));
                    self.lemma_one_part(k as int, self.part_of(p as int), p as int);
                }
                return Some(k);
            }
            k = k + 1;
        }
        None
    }

    /// The value that `id` names, or `None` when it names none that can be
    /// reached: an element that was split off is never reached.
    pub fn get<I: AsIdx>(&self, id: I) -> (r: Option<&T>)
        requires
            self.wf(),
        ensures
            match r {
                Some(v) => self.reaches(id.idx()) && *v == self.value_at(
                    self.ids().index_of(id.idx().id()),
                ),
                None => !self.reaches(id.idx()),
            },
    {
        match find(self.handles, id.as_idx()) {
            Some(p) => match self.part_holding(p) {
                Some(k) => Some(&self.parts[k][p - self.starts[k]]),
                None => None,
            },
            None => None,
        }
    }

    /// The value that `id` names, for writing, or `None` when it names none
    /// that can be reached. Nothing but that value can change.
    pub fn get_mut<I: AsIdx>(&mut self, id: I) -> (r: Option<&mut T>)
        requires
            old(self).wf(),
        ensures
            final(self).wf(),
            final(self).handles == old(self).handles,
            final(self).starts == old(self).starts,
            final(self).parts@.len() == old(self).parts@.len(),
            forall|m: int|
                #![trigger final(self).parts@[m]]
                0 <= m < old(self).parts@.len() ==> final(final(self).parts@[m])@
                    == final(old(self).parts@[m])@,
            forall|q: int| #[trigger] final(self).reachable(q) == old(self).reachable(q),
            match r {
                Some(v) => {
                    let p = old(self).ids().index_of(id.idx().id());
                    let k = old(self).part_of(p);
                    &&& old(self).reaches(id.idx())
                    &&& *v == old(self).value_at(p)
                    &&& final(self).value_at(p) == *final(v)
                    &&& forall|q: int|
                        q != p && old(self).reachable(q) ==> #[trigger] final(self).value_at(q)
                            == old(self).value_at(q)
                    &&& final(self).parts@[k]@ == old(self).parts@[k]@.update(
                        p - old(self).starts@[k],
                        *final(v),
                    )
                    &&& forall|m: int|
                        #![trigger final(self).parts@[m]]
                        0 <= m < old(self).parts@.len() && m != k ==> final(self).parts@[m]@
                            == old(self).parts@[m]@
                },
                None => {
                    &&& !old(self).reaches(id.idx())
                    &&& forall|m: int|
                        #![trigger final(self).parts@[m]]
                        0 <= m < old(self).parts@.len() ==> final(self).parts@[m]@ == old(
                            self,
                        ).parts@[m]@
                    &&& forall|q: int|
                        old(self).reachable(q) ==> #[trigger] final(self).value_at(q) == old(
                            self,
                        ).value_at(q)
                },
            },
    {
        proof {
            assert forall|other: ArenaSplit<'a, T>, q: int|
                self.same_runs(other) implies (#[trigger] other.reachable(q)) == self.reachable(q)
                && other.wf() by {
                self.lemma_same_runs(other, q);
            }
            assert forall|other: ArenaSplit<'a, T>, q: int|
                self.same_runs(other) && self.reachable(q) implies other.parts@[self.part_of(
                    q,
                )]@[q - self.starts@[self.part_of(q)]] == #[trigger] other.value_at(q) by {
                self.lemma_same_runs(other, q);
            }
        }
        match find(self.handles, id.as_idx()) {
            Some(p) => match self.part_holding(p) {
                Some(k) => {
                    let start = self.starts[k];
                    Some(&mut self.parts[k][p - start])
                },
                None => None,
            },
            None => None,
        }
    }

    /// Splits off one more element: the value that `id` names, for writing,
    /// and a view of what is left. Where `id` names no element that can be
    /// reached, the view comes back as it is.
    pub fn split_at<I: AsIdx>(self, id: I) -> (r: Result<
        (&'a mut T, ArenaSplit<'a, T>),
        ArenaSplit<'a, T>,
    >)
        requires
            self.wf(),
        ensures
            match r {
                Ok((v, rest)) => {
                    let p = self.ids().index_of(id.idx().id());
                    let k = self.part_of(p);
                    let at = p - self.starts@[k];
                    &&& self.reaches(id.idx())
                    &&& *v == self.value_at(p)
                    &&& rest.wf()
                    &&& rest.handles == self.handles
                    &&& rest.starts@ == self.starts@.insert(k + 1, (p + 1) as usize)
                    &&& rest.parts@.len() == self.parts@.len() + 1
                    &&& forall|m: int| 0 <= m < k ==> rest.parts@[m] == self.parts@[m]
                    &&& forall|m: int|
                        k < m < self.parts@.len() ==> rest.parts@[m + 1] == self.parts@[m]
                    &&& rest.parts@[k]@ == self.parts@[k]@.take(at)
                    &&& rest.parts@[k + 1]@ == self.parts@[k]@.skip(at + 1)
                    &&& final(self.parts@[k])@ == final(rest.parts@[k])@ + seq![*final(v)]
                        + final(rest.parts@[k + 1])@
                    &&& rest.narrows(self, p)
                },
                Err(same) => !self.reaches(id.idx()) && same == self,
            },
    {
        let found = match find(self.handles, id.as_idx()) {
            Some(p) => match self.part_holding(p) {
                Some(k) => Some((p, k)),
                None => None,
            },
            None => None,
        };
        match found {
            Some((p, k)) => {
                let handles = self.handles;
                let mut starts = self.starts;
                assert(p < handles.len());
                assert(k < starts.len());
                let at = p - starts[k];
                let (value, parts) = cut(self.parts, k, at);
                starts.insert(k + 1, p + 1);
                let rest = ArenaSplit { handles, starts, parts };
                proof {
                    assert(rest.starts@ =~= self.starts@.insert(k + 1, (p + 1) as usize));
                    self.lemma_cut(rest, k as int, p as int);
                    assert forall|q: int| #[trigger] rest.reachable(q) implies rest.value_at(q)
                        == self.value_at(q) by {
                        let m = self.part_of(q);
                        assert(self.covers(m, q));
                        assert(rest.covers(rest.part_of(q), q));
                    }
                }
                Ok((value, rest))
            },
            None => Err(self),
        }
    }
}

impl<'a, T> ArenaAccess<T> for ArenaSplit<'a, T> {
    open spec fn all_ids(&self) -> Seq<u64> {
        self.ids()
    }

    open spec fn can_reach(&self, p: int) -> bool {
        self.reachable(p)
    }

    open spec fn value_at(&self, p: int) -> T {
        ArenaSplit::value_at(self, p)
    }

    open spec fn valid(&self) -> bool {
        self.wf()
    }

    fn get<I: AsIdx>(&self, id: I) -> (r: Option<&T>) {
        ArenaSplit::get(self, id)
    }

    fn get_mut<I: AsIdx>(&mut self, id: I) -> (r: Option<&mut T>) {
        ArenaSplit::get_mut(self, id)
    }
}

/// Cuts the element at `at` out of run `k`: the element, and the runs with
/// run `k` replaced by what lay before the element and what lay behind it.
fn cut<'a, T>(parts: Vec<&'a mut [T]>, k: usize, at: usize) -> (r: (&'a mut T, Vec<&'a mut [T]>))
    requires
        k < parts@.len(),
        at < parts@[k as int]@.len(),
    ensures
        *r.0 == parts@[k as int]@[at as int],
        r.1@.len() == parts@.len() + 1,
        forall|m: int| 0 <= m < k ==> r.1@[m] == parts@[m],
        forall|m: int| k < m < parts@.len() ==> r.1@[m + 1] == parts@[m],
        r.1@[k as int]@ == parts@[k as int]@.take(at as int),
        r.1@[k + 1]@ == parts@[k as int]@.skip(at + 1),
        final(parts@[k as int])@ == final(r.1@[k as int])@ + seq![*final(r.0)]
            + final(r.1@[k + 1])@,
{
    let mut parts = parts;
    let part = parts.remove(k);
    let (low, tail) = part.split_at_mut(at);
    let (mid, high) = tail.split_at_mut(1);
    parts.insert(k, high);
    parts.insert(k, low);
    (&mut mid[0], parts)
}

impl<T> Arena<T> {
    /// The value that `selected` names, for writing, and beside it a view of
    /// all the other elements; `None` when `selected` names no element.
    ///
    /// What the arena holds once both are gone is what they hold then; only
    /// values can change.
    pub fn split_at<'a, I: AsIdx>(&'a mut self, selected: I) -> (r: Option<
        (&'a mut T, ArenaSplit<'a, T>),
    >)
        requires
            old(self).wf(),
        ensures
            final(self).ids() == old(self).ids(),
            final(self).minted() == old(self).minted(),
            final(self).stored() == old(self).stored(),
            match r {
                Some((v, rest)) => {
                    let i = old(self).ids().index_of(selected.idx().id());
                    &&& old(self).contains(selected.idx())
                    &&& *v == old(self).values()[i]
                    &&& rest.is_cut_of(old(self).ids(), old(self).values(), i)
                    &&& final(self).values() == final(rest.parts@[0])@ + seq![*final(v)]
                        + final(rest.parts@[1])@
                },
                None => !old(self).contains(selected.idx()) && final(self).values() == old(
                    self,
                ).values(),
            },
    {
        let ghost values = self.values();
        match find(self.handles.as_slice(), selected.as_idx()) {
            Some(i) => {
                proof {
                    lemma_index_of(self.ids(), selected.idx().id());
                }
                assert(i < self.handles.len());
                let (low, tail) = self.values.as_mut_slice().split_at_mut(i);
                let (mid, high) = tail.split_at_mut(1);
                let mut starts: Vec<usize> = Vec::with_capacity(2);
                starts.push(0);
                starts.push(i + 1);
                let mut parts: Vec<&'a mut [T]> = Vec::with_capacity(2);
                parts.push(low);
                parts.push(high);
                let rest = ArenaSplit { handles: self.handles.as_slice(), starts, parts };
                proof {
                    assert(rest.starts@[0] + rest.parts@[0]@.len() + 1 == rest.starts@[1]);
                    assert(rest.parts@[0]@ =~= values.take(i as int));
                    assert(rest.parts@[1]@ =~= values.skip(i + 1));
                }
                Some((&mut mid[0], rest))
            },
            None => None,
        }
    }
}

} // verus!
