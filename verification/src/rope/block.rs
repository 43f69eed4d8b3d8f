//! Block storage: fixed-capacity, append-only byte blocks shared by
//! reference, and immutable sub-range views into them.

use std::rc::Rc;
use vstd::prelude::*;
use vstd::math::min;
use vstd::slice::{slice_index_get, slice_subrange, slice_to_vec};

verus! {

/// Capacity of one storage block.
pub const BLOCK_CAPACITY: usize = 4096;

/// Shares a handle to a block of bytes.
///
/// Relies on `Rc::clone`: the returned handle refers to the same value.
#[verifier::external_body]
pub(crate) fn rc_clone<T>(v: &Rc<T>) -> (r: Rc<T>)
    ensures
        r == *v,
{
    Rc::clone(v)
}

/// An immutable view of the sub-interval `[start, end)` of one shared
/// block. Narrower views over the same block are produced by [`Self::substr`]
/// without copying any bytes.
pub struct BlockRange {
    block: Rc<Vec<u8>>,
    start: usize,
    end: usize,
}

impl View for BlockRange {
    type V = Seq<u8>;

    closed spec fn view(&self) -> Seq<u8> {
        self.block@.subrange(self.start as int, self.end as int)
    }
}

impl BlockRange {
    /// The bounds lie within the block: `start <= end <= end_of_block`.
    pub closed spec fn wf(self) -> bool {
        self.start <= self.end <= self.block@.len()
    }

    /// Length in bytes of the viewed interval.
    pub fn len(&self) -> (n: usize)
        requires
            self.wf(),
        ensures
            n == self@.len(),
    {
        self.end - self.start
    }

    /// The viewed bytes, borrowed from the underlying block.
    pub fn as_bytes(&self) -> (r: &[u8])
        requires
            self.wf(),
        ensures
            r@ == self@,
    {
        slice_subrange(self.block.as_slice(), self.start, self.end)
    }

    /// A second view of the same interval of the same block.
    pub fn dup(&self) -> (r: BlockRange)
        ensures
            r == *self,
    {
        BlockRange { block: rc_clone(&self.block), start: self.start, end: self.end }
    }

    /// A narrower view over the same block; `[start, end)` is relative to
    /// this view and must be contained in it.
    pub fn substr(&self, start: usize, end: usize) -> (r: BlockRange)
        requires
            self.wf(),
            start <= end <= self@.len(),
        ensures
            r.wf(),
            r@ == self@.subrange(start as int, end as int),
    {
        let r = BlockRange {
            block: rc_clone(&self.block),
            start: self.start + start,
            end: self.start + end,
        };
        proof {
            assert(r@ =~= self@.subrange(start as int, end as int));
        }
        r
    }
}

/// The exclusive, single-owner append cursor into one block. The write
/// head only advances; bytes below it are frozen forever, so every
/// [`BlockRange`] already handed out stays valid and immutable.
pub struct Buffer {
    data: Vec<u8>,
}

impl Buffer {
    /// Everything written so far stays within the block's capacity.
    pub closed spec fn wf(self) -> bool {
        self.data@.len() <= BLOCK_CAPACITY
    }

    /// Position of the write head: the number of bytes written so far.
    pub closed spec fn head(self) -> nat {
        self.data@.len()
    }

    /// Every byte written so far, in order. Bytes below the head are
    /// frozen: appending only ever extends this sequence.
    pub closed spec fn written(self) -> Seq<u8> {
        self.data@
    }

    /// A fresh buffer over a new block, head at zero.
    pub fn new() -> (r: Buffer)
        ensures
            r.wf(),
            r.head() == 0,
            r.written() == Seq::<u8>::empty(),
    {
        Buffer { data: Vec::new() }
    }

    /// Appends `min(val.len(), capacity - head)` bytes at the head and
    /// returns the range describing exactly the written slice plus the
    /// count written. A short write signals that the buffer is full:
    /// rotating to a fresh buffer is the caller's responsibility.
    pub fn append(&mut self, val: &[u8]) -> (r: (BlockRange, usize))
        requires
            old(self).wf(),
        ensures
            final(self).wf(),
            final(self).head() == final(self).written().len(),
            r.1 == min(val@.len() as int, BLOCK_CAPACITY - old(self).head()),
            final(self).head() == old(self).head() + r.1,
            final(self).written() == old(self).written() + val@.subrange(0, r.1 as int),
            r.0.wf(),
            r.0@ == val@.subrange(0, r.1 as int),
    {
        let head = self.data.len();
        let room = BLOCK_CAPACITY - head;
        let n = if val.len() < room {
            val.len()
        } else {
            room
        };
        let mut i: usize = 0;
        while i < n
            invariant
                i <= n,
                n <= val@.len(),
                self.data@ == old(self).data@ + val@.subrange(0, i as int),
                head + n <= BLOCK_CAPACITY,
                head == old(self).data@.len(),
            decreases n - i,
        {
            self.data.push(*slice_index_get(val, i));
            proof {
                assert(self.data@ =~= old(self).data@ + val@.subrange(0, i + 1));
            }
            i = i + 1;
        }
        let frozen = Rc::new(slice_to_vec(self.data.as_slice()));
        let range = BlockRange { block: frozen, start: head, end: head + n };
        proof {
            assert(range@ =~= val@.subrange(0, n as int));
        }
        (range, n)
    }
}

} // verus!
