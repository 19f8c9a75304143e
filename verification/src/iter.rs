//! Iteration over an arena, in position order.
//!
//! The four iterators hand out their items through `next`, one at a time,
//! until it returns `None`.

use crate::arena::Arena;
use crate::handle::Idx;
use crate::model::ids_in;
use vstd::prelude::*;

verus! {

/// The values of an arena, for reading.
pub struct Iter<'a, T> {
    rest: &'a [T],
}

/// The values of an arena, for writing.
///
/// `rest` holds the values that have not been handed out yet. What the
/// arena holds once the iterator is gone is what `rest`, and the references
/// handed out before, hold then; the field is public so that contracts can
/// say so.
pub struct IterMut<'a, T> {
    pub rest: &'a mut [T],
}

/// The handles and values of an arena, for reading.
pub struct Entries<'a, T> {
    handles: &'a [Idx],
    values: &'a [T],
}

/// The handles and values of an arena, the values for writing.
///
/// `handles` and `rest` hold what has not been handed out yet, as in
/// [`IterMut`].
pub struct EntriesMut<'a, T> {
    pub handles: &'a [Idx],
    pub rest: &'a mut [T],
}

impl<'a, T> Iter<'a, T> {
    /// The values that are still to come.
    pub closed spec fn remaining(&self) -> Seq<T> {
        self.rest@
    }

    /// The next value, or `None` when all have been handed out.
    pub fn next(&mut self) -> (r: Option<&'a T>)
        ensures
            match r {
                Some(v) => {
                    &&& old(self).remaining().len() > 0
                    &&& *v == old(self).remaining()[0]
                    &&& final(self).remaining() == old(self).remaining().drop_first()
                },
                None => old(self).remaining().len() == 0 && final(self).remaining().len() == 0,
            },
    {
        if self.rest.len() == 0 {
            None
        } else {
            let (head, tail) = self.rest.split_at(1);
            self.rest = tail;
            assert(tail@ =~= old(self).rest@.drop_first());
            Some(&head[0])
        }
    }
}

impl<'a, T> Entries<'a, T> {
    /// How many pairs are still to come.
    pub closed spec fn left(&self) -> int {
        if self.handles@.len() <= self.values@.len() {
            self.handles@.len() as int
        } else {
            self.values@.len() as int
        }
    }

    /// The identities of the handles that are still to come.
    pub closed spec fn remaining_ids(&self) -> Seq<u64> {
        ids_in(self.handles@).take(self.left())
    }

    /// The values that are still to come.
    pub closed spec fn remaining_values(&self) -> Seq<T> {
        self.values@.take(self.left())
    }

    /// The next value with a handle to it, or `None` when all have been
    /// handed out. The handle shares its state with every other handle to
    /// that value.
    pub fn next(&mut self) -> (r: Option<(Idx, &'a T)>)
        ensures
            final(self).remaining_ids().len() == final(self).remaining_values().len(),
            match r {
                Some((h, v)) => {
                    &&& old(self).remaining_ids().len() > 0
                    &&& h.id() == old(self).remaining_ids()[0]
                    &&& *v == old(self).remaining_values()[0]
                    &&& final(self).remaining_ids() == old(self).remaining_ids().drop_first()
                    &&& final(self).remaining_values() == old(self).remaining_values().drop_first()
                },
                None => old(self).remaining_ids().len() == 0 && final(self).remaining_ids().len()
                    == 0,
            },
    {
        if self.handles.len() == 0 || self.values.len() == 0 {
            None
        } else {
            let (first, others) = self.handles.split_at(1);
            let (head, tail) = self.values.split_at(1);
            self.handles = others;
            self.values = tail;
            proof {
                assert(self.remaining_ids() =~= old(self).remaining_ids().drop_first());
                assert(self.remaining_values() =~= old(self).remaining_values().drop_first());
            }
            Some((first[0].clone(), &head[0]))
        }
    }
}

impl<'a, T> IterMut<'a, T> {
    /// The next value, or `None` when all have been handed out.
    pub fn next(&mut self) -> (r: Option<&'a mut T>)
        ensures
            match r {
                Some(v) => {
                    &&& old(self).rest@.len() > 0
                    &&& *v == old(self).rest@[0]
                    &&& final(self).rest@ == old(self).rest@.drop_first()
                    &&& final(old(self).rest)@ == seq![*final(v)] + final(final(self).rest)@
                },
                None => {
                    &&& old(self).rest@.len() == 0
                    &&& final(self).rest@.len() == 0
                    &&& final(old(self).rest)@ == final(final(self).rest)@
                },
            },
    {
        if self.rest.len() == 0 {
            None
        } else {
            let mut rest: &'a mut [T] = &mut [];
            std::mem::swap(&mut rest, &mut self.rest);
            let (head, tail) = rest.split_at_mut(1);
            self.rest = tail;
            Some(&mut head[0])
        }
    }
}

impl<'a, T> EntriesMut<'a, T> {
    /// The next value, for writing, with a handle to it, or `None` when all
    /// have been handed out.
    pub fn next(&mut self) -> (r: Option<(Idx, &'a mut T)>)
        ensures
            match r {
                Some((h, v)) => {
                    &&& old(self).handles@.len() > 0
                    &&& old(self).rest@.len() > 0
                    &&& h.id() == old(self).handles@[0].id()
                    &&& *v == old(self).rest@[0]
                    &&& final(self).handles@ == old(self).handles@.drop_first()
                    &&& final(self).rest@ == old(self).rest@.drop_first()
                    &&& final(old(self).rest)@ == seq![*final(v)] + final(final(self).rest)@
                },
                None => {
                    &&& old(self).handles@.len() == 0 || old(self).rest@.len() == 0
                    &&& *final(self) == *old(self)
                },
            },
    {
        if self.handles.len() == 0 || self.rest.len() == 0 {
            None
        } else {
            let (first, others) = self.handles.split_at(1);
            let mut rest: &'a mut [T] = &mut [];
            std::mem::swap(&mut rest, &mut self.rest);
            let (head, tail) = rest.split_at_mut(1);
            self.handles = others;
            self.rest = tail;
            assert(others@ =~= old(self).handles@.drop_first());
            Some((first[0].clone(), &mut head[0]))
        }
    }
}

impl<T> Arena<T> {
    /// The values in position order, for writing, each with a handle to it.
    /// Only values can change.
    pub fn entries_mut<'a>(&'a mut self) -> (r: EntriesMut<'a, T>)
        ensures
            ids_in(r.handles@) == old(self).ids(),
            r.rest@ == old(self).values(),
            final(self).values() == final(r.rest)@,
            final(self).ids() == old(self).ids(),
            final(self).minted() == old(self).minted(),
            final(self).stored() == old(self).stored(),
    {
        EntriesMut { handles: self.handles.as_slice(), rest: self.values.as_mut_slice() }
    }

    /// The values in position order, for reading.
    pub fn iter<'a>(&'a self) -> (r: Iter<'a, T>)
        ensures
            r.remaining() == self.values(),
    {
        Iter { rest: self.values.as_slice() }
    }

    /// The values in position order, for writing. Only values can change.
    pub fn iter_mut<'a>(&'a mut self) -> (r: IterMut<'a, T>)
        ensures
            r.rest@ == old(self).values(),
            final(self).values() == final(r.rest)@,
            final(self).ids() == old(self).ids(),
            final(self).minted() == old(self).minted(),
            final(self).stored() == old(self).stored(),
    {
        IterMut { rest: self.values.as_mut_slice() }
    }

    /// The values in position order, each with a handle to it.
    pub fn entries<'a>(&'a self) -> (r: Entries<'a, T>)
        requires
            self.wf(),
        ensures
            r.remaining_ids() == self.ids(),
            r.remaining_values() == self.values(),
    {
        let r = Entries { handles: self.handles.as_slice(), values: self.values.as_slice() };
        proof {
            assert(r.remaining_ids() =~= self.ids());
            assert(r.remaining_values() =~= self.values());
        }
        r
    }
}

} // verus!
