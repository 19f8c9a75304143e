//! Handles: shared tokens that name one slot of an arena.

use std::sync::atomic::AtomicBool;
use std::sync::atomic::AtomicUsize;
use std::sync::atomic::Ordering;
use std::sync::Arc;
use vstd::prelude::*;
use vstd::string::StringExecFns;

verus! {

/// The state behind a handle, shared by all of its copies.
///
/// `serial` never changes and tells handles of one arena apart. `index` and
/// `removed` are rewritten by the arena that owns the slot and may be read by
/// any copy at any time.
struct IdxState {
    serial: u64,
    index: AtomicUsize,
    removed: AtomicBool,
}

/// A handle to one slot of an arena.
///
/// Copies made with `clone` share their state with the handle they were
/// made from: they carry the same [`Idx::id`], compare equal, and see every
/// move and the removal of the slot.
pub struct Idx {
    inner: Arc<IdxState>,
}

/// What a handle reports, given its liveness flag and its stored position.
pub open spec fn reported(removed: bool, index: usize) -> Option<usize> {
    if removed {
        None
    } else {
        Some(index)
    }
}

impl IdxState {
    /// The position that the state holds now.
    fn position(&self) -> usize {
        self.index.load(Ordering::Relaxed)
    }

    /// Whether the state holds now that the slot has been removed.
    fn is_removed(&self) -> bool {
        self.removed.load(Ordering::Relaxed)
    }

    /// Lets the state hold `index` as its position.
    fn set_position(&self, index: usize) {
        self.index.store(index, Ordering::Relaxed);
    }

    /// Lets the state hold that the slot has been removed.
    fn set_removed(&self) {
        self.removed.store(true, Ordering::Relaxed);
    }

    /// The stored position, unless the slot has been removed.
    ///
    /// The two fields are read from shared storage, so nothing is promised
    /// here about what they hold: [`position_if_live`] says how the answer
    /// follows from them.
    fn index(&self) -> Option<usize> {
        let removed = self.is_removed();
        let index = self.position();
        position_if_live(removed, index)
    }
}

/// The position a handle reports for the given flag and stored position.
pub fn position_if_live(removed: bool, index: usize) -> (r: Option<usize>)
    ensures
        r == reported(removed, index),
{
    if !removed {
        Some(index)
    } else {
        None
    }
}

impl Idx {
    /// The identity of the slot this handle names. It is fixed when the slot
    /// is allocated and shared by every copy of the handle.
    pub closed spec fn id(&self) -> u64 {
        self.inner.serial
    }

    /// The current position of the slot, or `None` once it has been removed.
    ///
    /// The answer is read from the state that the handle shares with its
    /// arena. What the arena has stored there is on record in the arena, and
    /// in a well-formed arena it is the position of the element; of the read
    /// itself nothing is promised here. The arena's own `index_of` gives the
    /// position with a proof.
    pub fn value(&self) -> Option<usize> {
        self.inner.index()
    }

    /// The identity of the slot, as a number.
    pub fn serial(&self) -> (r: u64)
        ensures
            r == self.id(),
    {
        self.inner.serial
    }

    /// Whether both handles share one state.
    pub fn same_as(&self, other: &Idx) -> (r: bool)
        ensures
            r ==> self.id() == other.id(),
    {
        same_state(&self.inner, &other.inner)
    }

    /// A short description: the stored position, marked when the slot has
    /// been removed. The two are read as in [`Idx::value`], so which flag and
    /// which position are shown is not promised here; whatever they are, the
    /// description is their [`rendering`].
    pub fn describe(&self) -> (r: String)
        ensures
            exists|removed: bool, index: usize| r@ == #[trigger] rendering(removed, index),
    {
        let removed = self.inner.is_removed();
        let index = self.inner.position();
        let r = render(removed, index);
        assert(r@ == rendering(removed, index));
        r
    }

    /// A handle with a fresh state: identity `serial`, live, at `index`.
    /// `stored` takes note of what the state holds.
    pub(crate) fn mint(
        serial: u64,
        index: usize,
        stored: &mut Ghost<Map<u64, Option<int>>>,
    ) -> (r: Idx)
        ensures
            r.id() == serial,
            final(stored)@ == old(stored)@.insert(serial, Some(index as int)),
    {
        let state = IdxState {
            serial,
            index: AtomicUsize::new(index),
            removed: AtomicBool::new(false),
        };
        *stored = Ghost(stored@.insert(serial, Some(index as int)));
        Idx { inner: Arc::new(state) }
    }

    /// The stored position, whatever the liveness flag says.
    pub(crate) fn hint(&self) -> usize {
        self.inner.position()
    }

    /// Stores in the state that the slot now sits at `index`. `stored` takes
    /// note of it.
    pub(crate) fn moved_to(&self, index: usize, stored: &mut Ghost<Map<u64, Option<int>>>)
        ensures
            final(stored)@ == old(stored)@.insert(self.id(), Some(index as int)),
    {
        self.inner.set_position(index);
        *stored = Ghost(stored@.insert(self.inner.serial, Some(index as int)));
    }

    /// Stores in the state that the slot has left its arena. `stored` takes
    /// note of it.
    pub(crate) fn retire(&self, stored: &mut Ghost<Map<u64, Option<int>>>)
        ensures
            final(stored)@ == old(stored)@.insert(self.id(), None),
    {
        self.inner.set_removed();
        *stored = Ghost(stored@.insert(self.inner.serial, None));
    }
}

/// `Arc::ptr_eq`: whether two references lead to the same allocation. When
/// they do, both see the same state, which is all that is claimed here.
#[verifier::external_body]
fn same_state(a: &Arc<IdxState>, b: &Arc<IdxState>) -> (r: bool)
    ensures
        r ==> *a == *b,
{
    Arc::ptr_eq(a, b)
}

impl Clone for Idx {
    fn clone(&self) -> (r: Self)
        ensures
            r == *self,
    {
        Idx { inner: self.inner.clone() }
    }
}

/// Of `==` on handles nothing is claimed in contracts: whether two handles
/// share one state is found out when the program runs. [`Idx::same_as`]
/// states what follows from the answer.
impl vstd::std_specs::cmp::PartialEqSpecImpl for Idx {
    open spec fn obeys_eq_spec() -> bool {
        false
    }

    open spec fn eq_spec(&self, other: &Idx) -> bool {
        self.id() == other.id()
    }
}

impl PartialEq for Idx {
    /// Two handles are equal when they share one state.
    fn eq(&self, other: &Idx) -> (r: bool)
        ensures
            r ==> self.id() == other.id(),
    {
        self.same_as(other)
    }
}

impl Eq for Idx {

}

impl std::hash::Hash for Idx {
    /// `Hash::hash` of the serial number, which handles with one state share.
    #[verifier::external_body]
    fn hash<H: std::hash::Hasher>(&self, state: &mut H) {
        self.inner.serial.hash(state)
    }
}

/// Anything that can stand for a handle in a call: a handle or a reference
/// to one.
pub trait AsIdx {
    /// The handle that this value stands for.
    spec fn idx(&self) -> Idx;

    fn as_idx(&self) -> (r: &Idx)
        ensures
            *r == self.idx(),
    ;
}

impl AsIdx for Idx {
    open spec fn idx(&self) -> Idx {
        *self
    }

    fn as_idx(&self) -> (r: &Idx) {
        self
    }
}

impl<'a> AsIdx for &'a Idx {
    open spec fn idx(&self) -> Idx {
        **self
    }

    fn as_idx(&self) -> (r: &Idx) {
        *self
    }
}

/// The decimal digit for `d`.
pub open spec fn digit(d: nat) -> char {
    if d == 0 {
        '0'
    } else if d == 1 {
        '1'
    } else if d == 2 {
        '2'
    } else if d == 3 {
        '3'
    } else if d == 4 {
        '4'
    } else if d == 5 {
        '5'
    } else if d == 6 {
        '6'
    } else if d == 7 {
        '7'
    } else if d == 8 {
        '8'
    } else {
        '9'
    }
}

/// The decimal digits of `n`, most significant first, without leading zeros.
pub open spec fn decimal(n: nat) -> Seq<char>
    decreases n,
{
    if n < 10 {
        seq![digit(n)]
    } else {
        decimal(n / 10).push(digit(n % 10))
    }
}

/// The description of a handle with the given flag and stored position.
pub open spec fn rendering(removed: bool, index: usize) -> Seq<char> {
    (if removed {
        "Removed "@
    } else {
        ""@
    }) + "Idx ( "@ + decimal(index as nat) + " )"@
}

fn digit_str(d: usize) -> (r: &'static str)
    requires
        d < 10,
    ensures
        r@ == seq![digit(d as nat)],
{
    proof {
        reveal_strlit("0");
        reveal_strlit("1");
        reveal_strlit("2");
        reveal_strlit("3");
        reveal_strlit("4");
        reveal_strlit("5");
        reveal_strlit("6");
        reveal_strlit("7");
        reveal_strlit("8");
        reveal_strlit("9");
    }
    let r = if d == 0 {
        "0"
    } else if d == 1 {
        "1"
    } else if d == 2 {
        "2"
    } else if d == 3 {
        "3"
    } else if d == 4 {
        "4"
    } else if d == 5 {
        "5"
    } else if d == 6 {
        "6"
    } else if d == 7 {
        "7"
    } else if d == 8 {
        "8"
    } else {
        "9"
    };
    assert(r@ =~= seq![digit(d as nat)]);
    r
}

fn push_decimal(out: &mut String, n: usize)
    ensures
        final(out)@ == old(out)@ + decimal(n as nat),
    decreases n,
{
    if n >= 10 {
        push_decimal(out, n / 10);
    }
    out.append(digit_str(n % 10));
    assert(out@ =~= old(out)@ + decimal(n as nat));
}

/// Writes out what a handle with the given flag and stored position is
/// described as.
pub fn render(removed: bool, index: usize) -> (r: String)
    ensures
        r@ == rendering(removed, index),
{
    let mut out = String::from_str(
        if removed {
            "Removed "
        } else {
            ""
        },
    );
    out.append("Idx ( ");
    push_decimal(&mut out, index);
    out.append(" )");
    assert(out@ =~= rendering(removed, index));
    out
}

} // verus!
