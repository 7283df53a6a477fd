//! The name of a cluster: the turns taken from the root to reach it.

use vstd::prelude::*;

verus! {

/// No name is longer than this many bits: the longest bit vector that can be
/// had on a machine with 32-bit addresses.
pub const MAX_HISTORY: usize = 0x1fff_ffff;

/// The turns taken from the root of a tree to one of its clusters, kept in a
/// `bitvec::vec::BitVec`: a leading one for the root, then a zero for each
/// turn to a left child and a one for each turn to a right child.
#[verifier::external_body]
pub struct History {
    bits: bitvec::vec::BitVec,
}

/// The bits that a history holds, first turn first.
pub uninterp spec fn history_bits(h: History) -> Seq<bool>;

/// `BitVec::new`: a bit vector that holds no bit.
#[verifier::external_body]
fn bits_new() -> (h: History)
    ensures
        history_bits(h) == Seq::<bool>::empty(),
{
    History { bits: bitvec::vec::BitVec::new() }
}

/// `BitVec::push`: appends one bit and leaves the others as they were. The
/// bit vector panics when it would grow past its maximum length, which is at
/// least `MAX_HISTORY`.
#[verifier::external_body]
fn bits_push(h: &mut History, bit: bool)
    requires
        history_bits(*old(h)).len() < MAX_HISTORY,
    ensures
        history_bits(*final(h)) == history_bits(*old(h)).push(bit),
{
    h.bits.push(bit)
}

/// `BitVec::len`: the number of bits held.
#[verifier::external_body]
fn bits_len(h: &History) -> (n: usize)
    ensures
        n == history_bits(*h).len(),
{
    h.bits.len()
}

/// Indexing a bit vector (`Index<usize>` of `BitSlice`): the bit at position
/// `i`. It panics when `i` is not below the length.
#[verifier::external_body]
fn bits_get(h: &History, i: usize) -> (bit: bool)
    requires
        i < history_bits(*h).len(),
    ensures
        bit == history_bits(*h)[i as int],
{
    h.bits[i]
}

/// `Clone` of `BitVec`: a bit vector that holds the same bits.
#[verifier::external_body]
fn bits_clone(h: &History) -> (res: History)
    ensures
        history_bits(res) == history_bits(*h),
{
    History { bits: h.bits.clone() }
}

impl History {
    /// The bits of the history, first turn first.
    pub open spec fn bits(&self) -> Seq<bool> {
        history_bits(*self)
    }

    /// The history names a cluster: it starts with the root's one and is not
    /// longer than a bit vector may be.
    pub open spec fn wf(&self) -> bool {
        &&& 1 <= self.bits().len() <= MAX_HISTORY
        &&& self.bits()[0]
    }

    /// The history of the root: a single one.
    pub fn root() -> (h: History)
        ensures
            h.bits() == seq![true],
            h.wf(),
    {
        let mut h = bits_new();
        bits_push(&mut h, true);
        proof {
            assert(h.bits() =~= seq![true]);
        }
        h
    }

    /// The number of bits.
    pub fn len(&self) -> (n: usize)
        ensures
            n == self.bits().len(),
    {
        bits_len(self)
    }

    /// The bit at position `i`.
    pub fn bit(&self, i: usize) -> (bit: bool)
        requires
            i < self.bits().len(),
        ensures
            bit == self.bits()[i as int],
    {
        bits_get(self, i)
    }

    /// The history of a child: these bits, then a zero for the left child or
    /// a one for the right child. `None` where the history has reached
    /// `MAX_HISTORY` bits.
    pub fn child(&self, right: bool) -> (res: Option<History>)
        ensures
            res is Some <==> self.bits().len() < MAX_HISTORY,
            res is Some ==> res->Some_0.bits() == self.bits().push(right),
            res is Some && self.wf() ==> res->Some_0.wf(),
    {
        if bits_len(self) >= MAX_HISTORY {
            return None;
        }
        let mut h = bits_clone(self);
        bits_push(&mut h, right);
        Some(h)
    }

    /// The bits as a vector of booleans.
    pub fn to_vec(&self) -> (out: Vec<bool>)
        ensures
            out@ == self.bits(),
    {
        let n = bits_len(self);
        let mut out: Vec<bool> = Vec::with_capacity(n);
        let mut i: usize = 0;
        while i < n
            invariant
                n == self.bits().len(),
                i <= n,
                out@ == self.bits().take(i as int),
            decreases n - i,
        {
            out.push(bits_get(self, i));
            proof {
                assert(self.bits().take(i as int + 1) =~= self.bits().take(i as int).push(
                    self.bits()[i as int],
                ));
            }
            i += 1;
        }
        proof {
            assert(self.bits().take(n as int) =~= self.bits());
        }
        out
    }
}

} // verus!
