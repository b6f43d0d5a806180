//! A growable sequence of bits, stored least-significant-bit first in bytes.
use bitvec::order::Lsb0;
use bitvec::vec::BitVec;
use vstd::prelude::*;

verus! {

/// The bit buffer that collectors fill while reading a symbol stream.
#[verifier::external_body]
#[derive(Debug, PartialEq, Eq)]
pub struct Bits {
    inner: BitVec<u8, Lsb0>,
}

/// The bits held by a buffer, in the order they were pushed.
pub uninterp spec fn bits_of(v: Bits) -> Seq<bool>;

/// Longest buffer the storage can describe: `BitSlice::<u8, Lsb0>::MAX_BITS`.
pub open spec fn max_bits() -> int {
    (usize::MAX as int) / 8
}

/// The state of a symbol-stream collector: nothing read yet, bits being gathered,
/// or a finished bit sequence.
pub enum CollectorView {
    Empty,
    InProgress(Seq<bool>),
    Complete(Seq<bool>),
}

/// The collector can take one more bit.
pub open spec fn has_room(s: CollectorView) -> bool {
    match s {
        CollectorView::InProgress(b) => b.len() < max_bits(),
        _ => true,
    }
}

/// The number of bits a collector holds.
pub open spec fn bit_count(s: CollectorView) -> int {
    match s {
        CollectorView::Empty => 0,
        CollectorView::InProgress(b) => b.len() as int,
        CollectorView::Complete(b) => b.len() as int,
    }
}

impl Bits {
    pub open spec fn view(&self) -> Seq<bool> {
        bits_of(*self)
    }

    /// Relies on `BitVec::new`: a new vector holds no bits.
    #[verifier::external_body]
    pub(crate) fn empty() -> (r: Bits)
        ensures
            bits_of(r) == Seq::<bool>::empty(),
    {
        Bits { inner: BitVec::<u8, Lsb0>::new() }
    }

    /// Relies on `BitVec::push`: the bit is appended; it panics only past `MAX_BITS`.
    #[verifier::external_body]
    pub(crate) fn push(&mut self, b: bool)
        requires
            bits_of(*old(self)).len() < max_bits(),
        ensures
            bits_of(*final(self)) == bits_of(*old(self)).push(b),
    {
        self.inner.push(b)
    }

    /// Relies on `BitVec::pop`: removes and returns the last bit, `None` when empty.
    #[verifier::external_body]
    pub(crate) fn pop(&mut self) -> (r: Option<bool>)
        ensures
            bits_of(*old(self)).len() == 0 ==> r is None && bits_of(*final(self)) == bits_of(*old(self)),
            bits_of(*old(self)).len() > 0 ==> r == Some(bits_of(*old(self)).last()) && bits_of(*final(self))
                == bits_of(*old(self)).drop_last(),
    {
        self.inner.pop()
    }

    /// Relies on `BitVec::len`: the number of live bits.
    #[verifier::external_body]
    pub(crate) fn len(&self) -> (r: usize)
        ensures
            r == bits_of(*self).len(),
    {
        self.inner.len()
    }

    /// Relies on indexing a `BitSlice` by `usize`: the bit at that place.
    #[verifier::external_body]
    pub(crate) fn get(&self, i: usize) -> (r: bool)
        requires
            i < bits_of(*self).len(),
        ensures
            r == bits_of(*self)[i as int],
    {
        self.inner[i]
    }

    /// Relies on `BitSlice::to_bitvec`: a copy holding the same bits.
    #[verifier::external_body]
    pub(crate) fn copy(&self) -> (r: Bits)
        ensures
            bits_of(r) == bits_of(*self),
    {
        Bits { inner: self.inner.to_bitvec() }
    }

    /// Builds a buffer holding the given bits, in order.
    pub fn from_bools(b: &[bool]) -> (r: Bits)
        requires
            b@.len() < max_bits(),
        ensures
            r@ == b@,
    {
        let mut r = Bits::empty();
        let mut i: usize = 0;
        while i < b.len()
            invariant
                i <= b@.len(),
                b@.len() < max_bits(),
                r@ == b@.take(i as int),
            decreases b@.len() - i,
        {
            r.push(b[i]);
            assert(b@.take(i + 1) == b@.take(i as int).push(b@[i as int]));
            i += 1;
        }
        assert(b@.take(b@.len() as int) == b@);
        r
    }

    /// The bits of the buffer, in order.
    pub fn to_bools(&self) -> (r: Vec<bool>)
        ensures
            r@ == self@,
    {
        let mut r: Vec<bool> = Vec::new();
        let n = self.len();
        let mut i: usize = 0;
        while i < n
            invariant
                i <= n,
                n == self@.len(),
                r@ == self@.take(i as int),
            decreases n - i,
        {
            r.push(self.get(i));
            assert(self@.take(i + 1) == self@.take(i as int).push(self@[i as int]));
            i += 1;
        }
        assert(self@.take(n as int) == self@);
        r
    }
}

} // verus!
