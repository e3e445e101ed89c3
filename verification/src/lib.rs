//! A fixed-capacity circular byte buffer with sequential, cursor-based
//! reading and writing.
//!
//! The buffer owns a storage region whose size is chosen once, at
//! construction. Two logical cursors, a start offset and a count of occupied
//! bytes, describe a circular occupied region inside the storage. Bytes are
//! appended at the back of the occupied region and consumed from its front,
//! wrapping around the physical end of storage, so the same storage is
//! reused without reallocation.

use vstd::prelude::*;
use vstd::slice::slice_index_get;
use vstd::slice::slice_subrange;

verus! {

/// Fixed-capacity circular byte buffer.
#[derive(Debug, Clone)]
pub struct RingBuffer {
    storage: Vec<u8>,
    begin: usize,
    len: usize,
}

impl RingBuffer {
    /// Total storage size, fixed at construction.
    pub closed spec fn spec_capacity(&self) -> nat {
        self.storage@.len()
    }

    /// Physical offset of the first occupied byte.
    pub closed spec fn spec_begin(&self) -> nat {
        self.begin as nat
    }

    /// The cursors stay inside the storage: the occupied length never
    /// exceeds the capacity, and the start offset is a valid storage
    /// offset (zero when the buffer has no storage at all).
    pub closed spec fn wf(&self) -> bool {
        &&& self.len <= self.storage@.len()
        &&& if self.storage@.len() == 0 {
            self.begin == 0
        } else {
            self.begin < self.storage@.len()
        }
    }
}

impl View for RingBuffer {
    type V = Seq<u8>;

    /// The occupied region, in reading order: the byte at logical
    /// position `i` lies at physical offset `begin + i`, wrapped at the
    /// end of storage.
    closed spec fn view(&self) -> Seq<u8> {
        Seq::new(
            self.len as nat,
            |i: int| self.storage@[wrap_index(self.begin as nat, i as nat, self.storage@.len()) as int],
        )
    }
}

/// Physical offset of the byte `offset` places after `begin`, in a circular
/// storage of size `cap`. Meaningful when `begin < cap` and `offset <= cap`.
pub open spec fn wrap_index(begin: nat, offset: nat, cap: nat) -> nat {
    if begin + offset < cap {
        begin + offset
    } else {
        (begin + offset - cap) as nat
    }
}

/// Length of the longest contiguous physical run that starts at `begin`
/// and stays inside a logical region of `len` bytes: the region is cut
/// short where it wraps past the end of storage.
pub open spec fn chunk_len(begin: nat, len: nat, cap: nat) -> nat {
    if begin + len <= cap {
        len
    } else {
        (cap - begin) as nat
    }
}

impl RingBuffer {
    /// Create a buffer with the given capacity, initially empty.
    pub fn new(capacity: usize) -> (r: RingBuffer)
        ensures
            r.wf(),
            r@ == Seq::<u8>::empty(),
            r.spec_capacity() == capacity,
            r.spec_begin() == 0,
    {
        let mut storage: Vec<u8> = Vec::new();
        let mut i: usize = 0;
        while i < capacity
            invariant
                storage@.len() == i,
                i <= capacity,
            decreases capacity - i,
        {
            storage.push(0u8);
            i += 1;
        }
        let r = RingBuffer { storage, begin: 0, len: 0 };
        proof {
            assert(r@ =~= Seq::<u8>::empty());
        }
        r
    }

    /// Capacity of the buffer.
    pub fn capacity(&self) -> (r: usize)
        ensures
            r == self.spec_capacity(),
    {
        self.storage.len()
    }

    /// Number of bytes currently available to read.
    pub fn remaining(&self) -> (r: usize)
        ensures
            r == self@.len(),
    {
        self.len
    }

    /// Number of bytes of free space available to write.
    pub fn remaining_mut(&self) -> (r: usize)
        requires
            self.wf(),
        ensures
            r == self.spec_capacity() - self@.len(),
    {
        self.storage.len() - self.len
    }

    /// Contiguous view of the front of the occupied region. The slice is
    /// truncated at the physical end of storage when the occupied region
    /// wraps past it, so its length is the lesser of the occupied length
    /// and the distance from the read cursor to the end of storage; a
    /// caller that wants the wrapped remainder advances past this slice
    /// and peeks again.
    pub fn bytes(&self) -> (r: &[u8])
        requires
            self.wf(),
        ensures
            r@ == self@.take(chunk_len(self.spec_begin(), self@.len(), self.spec_capacity()) as int),
            r@.len() == chunk_len(self.spec_begin(), self@.len(), self.spec_capacity()),
            self.spec_begin() + self@.len() <= self.spec_capacity() ==> r@ == self@,
    {
        let cap = self.storage.len();
        let end = if self.len <= cap - self.begin {
            self.begin + self.len
        } else {
            cap
        };
        let r = slice_subrange(self.storage.as_slice(), self.begin, end);
        proof {
            let chunk = chunk_len(self.spec_begin(), self@.len(), self.spec_capacity()) as int;
            assert forall|i: int| 0 <= i < chunk implies r@[i] == self@[i] by {
                assert(wrap_index(self.begin as nat, i as nat, self.storage@.len()) == self.begin + i);
            }
            assert(r@ =~= self@.take(chunk));
        }
        r
    }

    /// Consume `cnt` bytes from the front of the occupied region: the read
    /// cursor moves forward circularly and the consumed bytes join the
    /// free region. Consuming more than is readable is a caller error that
    /// this contract rules out.
    pub fn advance(&mut self, cnt: usize)
        requires
            old(self).wf(),
            cnt <= old(self)@.len(),
        ensures
            final(self).wf(),
            final(self)@ == old(self)@.skip(cnt as int),
            final(self).spec_capacity() == old(self).spec_capacity(),
            final(self).spec_begin() == wrap_index(old(self).spec_begin(), cnt as nat, old(self).spec_capacity()),
    {
        let cap = self.storage.len();
        let room = cap - self.begin;
        if cnt < room {
            self.begin = self.begin + cnt;
        } else {
            self.begin = cnt - room;
        }
        self.len = self.len - cnt;
        proof {
            let old_b = old(self).spec_begin();
            let c = self.storage@.len();
            assert forall|i: int| 0 <= i < self@.len() implies self@[i] == old(self)@.skip(cnt as int)[i] by {
                assert(wrap_index(wrap_index(old_b, cnt as nat, c), i as nat, c)
                    == wrap_index(old_b, (cnt + i) as nat, c));
            }
            assert(self@ =~= old(self)@.skip(cnt as int));
        }
    }

    /// Append one byte at the back of the occupied region, wrapping at the
    /// physical end of storage. Writing into a full buffer is a caller
    /// error that this contract rules out.
    pub fn put_u8(&mut self, b: u8)
        requires
            old(self).wf(),
            old(self)@.len() < old(self).spec_capacity(),
        ensures
            final(self).wf(),
            final(self)@ == old(self)@.push(b),
            final(self).spec_capacity() == old(self).spec_capacity(),
            final(self).spec_begin() == old(self).spec_begin(),
    {
        let cap = self.storage.len();
        let room = cap - self.begin;
        let pos = if self.len < room {
            self.begin + self.len
        } else {
            self.len - room
        };
        self.storage.set(pos, b);
        self.len = self.len + 1;
        proof {
            let c = self.storage@.len();
            let b0 = self.begin as nat;
            assert(pos == wrap_index(b0, old(self).len as nat, c));
            assert forall|i: int| 0 <= i < old(self)@.len() implies self@[i] == old(self)@[i] by {
                assert(wrap_index(b0, i as nat, c) != pos as nat);
            }
            assert(self@[old(self)@.len() as int] == b);
            assert(self@ =~= old(self)@.push(b));
        }
    }

    /// Append all of `src` at the back of the occupied region, in order,
    /// wrapping at the physical end of storage as needed. The bytes become
    /// readable behind everything already occupied.
    pub fn put_slice(&mut self, src: &[u8])
        requires
            old(self).wf(),
            old(self)@.len() + src@.len() <= old(self).spec_capacity(),
        ensures
            final(self).wf(),
            final(self)@ == old(self)@ + src@,
            final(self).spec_capacity() == old(self).spec_capacity(),
            final(self).spec_begin() == old(self).spec_begin(),
    {
        let mut i: usize = 0;
        while i < src.len()
            invariant
                self.wf(),
                i <= src@.len(),
                self@ == old(self)@ + src@.take(i as int),
                self.spec_capacity() == old(self).spec_capacity(),
                self.spec_begin() == old(self).spec_begin(),
                old(self)@.len() + src@.len() <= old(self).spec_capacity(),
            decreases src@.len() - i,
        {
            let b = *slice_index_get(src, i);
            self.put_u8(b);
            i += 1;
            proof {
                assert(self@ =~= old(self)@ + src@.take(i as int));
            }
        }
        proof {
            assert(src@.take(src@.len() as int) =~= src@);
        }
    }

    /// Length of the contiguous free run that starts at the write cursor:
    /// the free region truncated at the physical end of storage, exactly
    /// as `bytes` truncates the occupied region.
    pub fn writable_chunk_len(&self) -> (r: usize)
        requires
            self.wf(),
        ensures
            r == chunk_len(
                wrap_index(self.spec_begin(), self@.len(), self.spec_capacity()),
                (self.spec_capacity() - self@.len()) as nat,
                self.spec_capacity(),
            ),
            r <= self.spec_capacity() - self@.len(),
    {
        let cap = self.storage.len();
        let room = cap - self.begin;
        let wstart = if self.len < room {
            self.begin + self.len
        } else {
            self.len - room
        };
        let free = cap - self.len;
        if free <= cap - wstart {
            free
        } else {
            cap - wstart
        }
    }

    /// Read and consume the first occupied byte. Reading from an empty
    /// buffer is a caller error that this contract rules out.
    pub fn get_u8(&mut self) -> (r: u8)
        requires
            old(self).wf(),
            old(self)@.len() >= 1,
        ensures
            final(self).wf(),
            r == old(self)@[0],
            final(self)@ == old(self)@.skip(1),
            final(self).spec_capacity() == old(self).spec_capacity(),
            final(self).spec_begin() == wrap_index(old(self).spec_begin(), 1, old(self).spec_capacity()),
    {
        let b = self.storage[self.begin];
        proof {
            assert(wrap_index(self.begin as nat, 0, self.storage@.len()) == self.begin as nat);
        }
        self.advance(1);
        b
    }

    /// Append a sixteen-bit value in big-endian byte order: the high byte
    /// first, then the low byte, wrapping at the physical end of storage
    /// if the two bytes straddle it.
    pub fn put_u16(&mut self, v: u16)
        requires
            old(self).wf(),
            old(self)@.len() + 2 <= old(self).spec_capacity(),
        ensures
            final(self).wf(),
            final(self)@ == old(self)@.push(u16_be_hi(v)).push(u16_be_lo(v)),
            final(self).spec_capacity() == old(self).spec_capacity(),
            final(self).spec_begin() == old(self).spec_begin(),
    {
        let hi = (v / 256) as u8;
        let lo = (v % 256) as u8;
        self.put_u8(hi);
        self.put_u8(lo);
    }

    /// Read and consume a sixteen-bit value in big-endian byte order: the
    /// first occupied byte is the high byte, the second the low byte.
    pub fn get_u16(&mut self) -> (r: u16)
        requires
            old(self).wf(),
            old(self)@.len() >= 2,
        ensures
            final(self).wf(),
            r as int == old(self)@[0] as int * 256 + old(self)@[1] as int,
            final(self)@ == old(self)@.skip(2),
            final(self).spec_capacity() == old(self).spec_capacity(),
            final(self).spec_begin() == wrap_index(old(self).spec_begin(), 2, old(self).spec_capacity()),
    {
        let hi = self.get_u8();
        let lo = self.get_u8();
        proof {
            assert(old(self)@.skip(1).skip(1) =~= old(self)@.skip(2));
        }
        (hi as u16) * 256 + (lo as u16)
    }
}

/// High byte of a sixteen-bit value in big-endian order.
pub open spec fn u16_be_hi(v: u16) -> u8 {
    (v / 256) as u8
}

/// Low byte of a sixteen-bit value in big-endian order.
pub open spec fn u16_be_lo(v: u16) -> u8 {
    (v % 256) as u8
}

/// The cursors of a well-formed buffer stay inside its storage: the
/// occupied length never exceeds the capacity, and the read cursor is a
/// valid storage offset (zero when there is no storage at all). Every
/// constructor and every mutating operation of `RingBuffer` ensures
/// well-formedness, so this holds after any sequence of operations.
pub proof fn lemma_cursor_bounds(b: &RingBuffer)
    requires
        b.wf(),
    ensures
        b@.len() <= b.spec_capacity(),
        b.spec_capacity() == 0 ==> b.spec_begin() == 0,
        b.spec_capacity() > 0 ==> b.spec_begin() < b.spec_capacity(),
{
}

/// Capacity conservation: the readable count and the writable count of a
/// well-formed buffer always sum to its capacity. `remaining` returns the
/// occupied length and `remaining_mut` returns the capacity minus it, so
/// the two calls always sum to `capacity`.
pub proof fn lemma_capacity_conservation(b: &RingBuffer)
    requires
        b.wf(),
    ensures
        b@.len() <= b.spec_capacity(),
        b@.len() + (b.spec_capacity() - b@.len()) == b.spec_capacity(),
{
}

/// Round trip: appending `s` behind `pre` and then consuming the
/// `pre.len()` older bytes leaves exactly `s`, in order. `put_slice`
/// turns a buffer holding `pre` into one holding `pre + s`, and advancing
/// by `k` turns a view into its `skip(k)`, so writing any `s` into an
/// empty buffer and reading `s.len()` bytes yields `s` unchanged.
pub proof fn lemma_round_trip(pre: Seq<u8>, s: Seq<u8>)
    ensures
        (pre + s).skip(pre.len() as int) == s,
{
    assert((pre + s).skip(pre.len() as int) =~= s);
}

/// Reading in two steps keeps the order: the first `k` occupied bytes
/// followed by the remaining ones reassemble the occupied region exactly.
/// This is what lets a caller drain a wrapped region with two
/// `bytes`/`advance` cycles and still see every byte once, in order.
pub proof fn lemma_drain_in_order(b: &RingBuffer, k: int)
    requires
        0 <= k <= b@.len(),
    ensures
        b@.take(k) + b@.skip(k) == b@,
{
    assert(b@.take(k) + b@.skip(k) =~= b@);
}

/// Storage reuse does not leak stale bytes: filling a buffer to capacity
/// with `first`, draining it completely, and then writing `second` leaves
/// exactly `second` readable. Each step below is the view transition that
/// the contracts of `new`, `put_slice` and `advance` state.
pub proof fn lemma_wrap_reuse(cap: nat, first: Seq<u8>, second: Seq<u8>)
    requires
        first.len() == cap,
        second.len() <= cap,
    ensures
        ({
            let filled = Seq::<u8>::empty() + first;
            let drained = filled.skip(filled.len() as int);
            let refilled = drained + second;
            refilled == second
        }),
{
    let filled = Seq::<u8>::empty() + first;
    let drained = filled.skip(filled.len() as int);
    assert(drained + second =~= second);
}

/// A peek is truncated at the physical end of storage: it is never longer
/// than the distance from the read cursor to that end, nor than the
/// occupied region. And when the occupied region wraps, consuming the
/// whole first peek moves the read cursor to offset zero, so the next
/// peek covers the entire remainder.
pub proof fn lemma_peek_truncation(b: &RingBuffer)
    requires
        b.wf(),
    ensures
        chunk_len(b.spec_begin(), b@.len(), b.spec_capacity()) <= b.spec_capacity() - b.spec_begin(),
        chunk_len(b.spec_begin(), b@.len(), b.spec_capacity()) <= b@.len(),
        b.spec_begin() + b@.len() > b.spec_capacity() ==> ({
            let first = chunk_len(b.spec_begin(), b@.len(), b.spec_capacity());
            let next_begin = wrap_index(b.spec_begin(), first, b.spec_capacity());
            let rest = (b@.len() - first) as nat;
            &&& first == b.spec_capacity() - b.spec_begin()
            &&& next_begin == 0
            &&& chunk_len(next_begin, rest, b.spec_capacity()) == rest
        }),
{
}

/// The big-endian byte pair of a sixteen-bit value reassembles to that
/// value: `put_u16` followed by `get_u16` hands the same value back.
pub proof fn lemma_u16_be_round_trip(v: u16)
    ensures
        u16_be_hi(v) as int * 256 + u16_be_lo(v) as int == v as int,
{
}

} // verus!
