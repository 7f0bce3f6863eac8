//! A growable bit-per-slot allocator that always hands out the lowest free slot.
use std::marker::PhantomData;

use bitvec::vec::BitVec;
use vstd::prelude::*;

use crate::id::IDIntoUSize;

verus! {

/// A `bitvec` bit-vector, held opaquely: Verus refuses a declaration of
/// `BitVec` itself, whose parameters are bound by `bitvec`'s own traits.
#[verifier::external_body]
#[derive(Debug)]
pub struct SlotBits {
    inner: BitVec,
}

/// The bits held by a bit-vector, first bit first.
pub uninterp spec fn bits_of(v: SlotBits) -> Seq<bool>;

/// Number of `true` entries in a sequence of bits.
pub open spec fn count_true(s: Seq<bool>) -> nat
    decreases s.len(),
{
    if s.len() == 0 {
        0
    } else {
        count_true(s.drop_last()) + if s.last() { 1nat } else { 0nat }
    }
}

/// The largest length a bit-vector can be given.
pub open spec fn max_bits() -> nat {
    (usize::MAX as nat) / 8
}

/// Relies on `BitVec::new`: an empty bit-vector.
#[verifier::external_body]
fn bits_new() -> (r: SlotBits)
    ensures
        bits_of(r) == Seq::<bool>::empty(),
{
    SlotBits { inner: BitVec::new() }
}

/// Relies on `BitSlice::first_zero`: the index of the first cleared bit, if any.
#[verifier::external_body]
fn bits_first_zero(v: &SlotBits) -> (r: Option<usize>)
    ensures
        match r {
            Some(i) => i < bits_of(*v).len() && !bits_of(*v)[i as int] && forall|j: int|
                0 <= j < i ==> #[trigger] bits_of(*v)[j],
            None => forall|j: int| 0 <= j < bits_of(*v).len() ==> #[trigger] bits_of(*v)[j],
        },
{
    v.inner.first_zero()
}

/// Relies on `BitSlice::set`: writes one bit in bounds (it panics out of bounds).
#[verifier::external_body]
fn bits_set(v: &mut SlotBits, index: usize, value: bool)
    requires
        index < bits_of(*old(v)).len(),
    ensures
        bits_of(*final(v)) == bits_of(*old(v)).update(index as int, value),
{
    v.inner.set(index, value)
}

/// Relies on `BitVec::push`: appends one bit (it panics beyond `BitSlice::MAX_BITS`).
#[verifier::external_body]
fn bits_push(v: &mut SlotBits, value: bool)
    requires
        bits_of(*old(v)).len() + 1 <= max_bits(),
    ensures
        bits_of(*final(v)) == bits_of(*old(v)).push(value),
{
    v.inner.push(value)
}

/// Relies on `BitSlice`'s `Index<usize>`: reads one bit in bounds.
#[verifier::external_body]
fn bits_get(v: &SlotBits, index: usize) -> (r: bool)
    requires
        index < bits_of(*v).len(),
    ensures
        r == bits_of(*v)[index as int],
{
    v.inner[index]
}

/// Relies on `BitVec::len`: the number of bits held.
#[verifier::external_body]
fn bits_len(v: &SlotBits) -> (r: usize)
    ensures
        r == bits_of(*v).len(),
{
    v.inner.len()
}

/// Relies on `BitSlice::count_ones`: the number of set bits.
#[verifier::external_body]
fn bits_count_ones(v: &SlotBits) -> (r: usize)
    ensures
        r == count_true(bits_of(*v)),
{
    v.inner.count_ones()
}

/// One bit per slot: `true` when the slot is taken.
#[derive(Debug)]
pub struct AvailabilityManager<T> {
    ids: SlotBits,
    _marker: PhantomData<T>,
}

impl<T> View for AvailabilityManager<T> {
    type V = Seq<bool>;

    closed spec fn view(&self) -> Seq<bool> {
        bits_of(self.ids)
    }
}

impl<T: IDIntoUSize> AvailabilityManager<T> {
    pub fn new() -> (r: Self)
        ensures
            r@ == Seq::<bool>::empty(),
    {
        AvailabilityManager { ids: bits_new(), _marker: PhantomData }
    }

    /// Takes the lowest free slot, growing by one slot when none is free.
    pub fn get_available(&mut self) -> (r: T)
        requires
            old(self)@.len() + 1 <= max_bits(),
        ensures
            r.index() <= old(self)@.len(),
            forall|j: int| 0 <= j < r.index() ==> #[trigger] old(self)@[j],
            r.index() < old(self)@.len() ==> !old(self)@[r.index() as int] && final(self)@
                == old(self)@.update(r.index() as int, true),
            r.index() == old(self)@.len() ==> final(self)@ == old(self)@.push(true),
    {
        match bits_first_zero(&self.ids) {
            Some(idx) => {
                bits_set(&mut self.ids, idx, true);
                T::from_usize(idx)
            },
            None => {
                let n = bits_len(&self.ids);
                bits_push(&mut self.ids, true);
                T::from_usize(n)
            },
        }
    }

    /// Frees a taken slot.
    pub fn mark_as_available(&mut self, id: T)
        requires
            id.index() < old(self)@.len(),
            old(self)@[id.index() as int],
        ensures
            final(self)@ == old(self)@.update(id.index() as int, false),
    {
        let idx = id.as_usize();
        bits_set(&mut self.ids, idx, false);
    }

    pub fn is_taken(&self, id: T) -> (r: bool)
        requires
            id.index() < self@.len(),
        ensures
            r == self@[id.index() as int],
    {
        bits_get(&self.ids, id.as_usize())
    }

    pub fn taken_count(&self) -> (r: usize)
        ensures
            r == count_true(self@),
    {
        bits_count_ones(&self.ids)
    }
}

} // verus!
