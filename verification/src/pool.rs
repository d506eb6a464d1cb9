//! The workspace pool: a bump allocator over a byte buffer that the caller
//! owns.
//!
//! The pool hands out regions of its buffer. A region is a handle, an offset
//! and an element count; the bytes stay in the pool and are read and written
//! through it. Typed regions keep their elements in little-endian byte order.
//! Allocation only moves an offset forward, always by a multiple of 8, and
//! [`MemoryPool::reset`] gives the whole buffer back at once.

use vstd::prelude::*;

verus! {

/// Recommended workspace size, enough for every table of any baseline
/// stream.
pub const RECOMMENDED_POOL_SIZE: usize = 10240;

/// A workspace size for small images.
pub const MINIMUM_POOL_SIZE: usize = 4096;

/// `n` rounded up to the next multiple of 8.
pub open spec fn align8(n: int) -> int {
    ((n + 7) / 8) * 8
}

/// Rounding up to a multiple of 8 adds what is missing to the next multiple,
/// and nothing to a multiple.
pub proof fn lemma_align8(n: int)
    requires
        n >= 0,
    ensures
        align8(n) % 8 == 0,
        n <= align8(n) < n + 8,
        align8(n) == if n % 8 == 0 {
            n
        } else {
            n + 8 - n % 8
        },
{
    let q = n / 8;
    let r = n % 8;
    assert(n == 8 * q + r);
    if r == 0 {
        assert((n + 7) / 8 == q);
    } else {
        assert((n + 7) / 8 == q + 1);
    }
}

/// The 16-bit value kept at `p` and `p + 1`, low byte first.
pub open spec fn u16_at(bytes: Seq<u8>, p: int) -> u16 {
    (bytes[p] as int + 256 * (bytes[p + 1] as int)) as u16
}

/// The 32-bit value kept at `p .. p + 4`, low byte first.
pub open spec fn u32_at(bytes: Seq<u8>, p: int) -> u32 {
    (bytes[p] as int + 256 * (bytes[p + 1] as int) + 65536 * (bytes[p + 2] as int) + 16777216 * (
    bytes[p + 3] as int)) as u32
}

/// The signed value that the two's complement pattern `u` stands for.
pub open spec fn signed16(u: u16) -> i16 {
    if u >= 32768 {
        (u - 65536) as i16
    } else {
        u as i16
    }
}

/// The signed value that the two's complement pattern `u` stands for.
pub open spec fn signed32(u: u32) -> i32 {
    if u >= 0x8000_0000 {
        (u - 0x1_0000_0000) as i32
    } else {
        u as i32
    }
}

/// A region of bytes inside a pool.
#[derive(Debug, Clone, Copy, PartialEq, Eq, Structural)]
pub struct ByteRegion {
    /// Offset of the first byte in the pool.
    pub start: usize,
    /// Number of bytes.
    pub count: usize,
}

/// A region of unsigned 16-bit elements inside a pool.
#[derive(Debug, Clone, Copy, PartialEq, Eq, Structural)]
pub struct U16Region {
    /// Offset of the first byte in the pool.
    pub start: usize,
    /// Number of elements.
    pub count: usize,
}

/// A region of signed 16-bit elements inside a pool.
#[derive(Debug, Clone, Copy, PartialEq, Eq, Structural)]
pub struct I16Region {
    /// Offset of the first byte in the pool.
    pub start: usize,
    /// Number of elements.
    pub count: usize,
}

/// A region of signed 32-bit elements inside a pool.
#[derive(Debug, Clone, Copy, PartialEq, Eq, Structural)]
pub struct I32Region {
    /// Offset of the first byte in the pool.
    pub start: usize,
    /// Number of elements.
    pub count: usize,
}

impl ByteRegion {
    /// Offset just past the last byte of the region.
    pub open spec fn end(&self) -> int {
        self.start + self.count
    }

    /// The elements of the region as they stand in `bytes`.
    pub open spec fn read(&self, bytes: Seq<u8>) -> Seq<u8> {
        Seq::new(self.count as nat, |i: int| bytes[self.start + i])
    }

    /// Number of elements.
    pub fn len(&self) -> (n: usize)
        ensures
            n == self.count,
    {
        self.count
    }
}

impl U16Region {
    /// Offset just past the last byte of the region.
    pub open spec fn end(&self) -> int {
        self.start + 2 * self.count
    }

    /// The elements of the region as they stand in `bytes`.
    pub open spec fn read(&self, bytes: Seq<u8>) -> Seq<u16> {
        Seq::new(self.count as nat, |i: int| u16_at(bytes, self.start + 2 * i))
    }

    /// Number of elements.
    pub fn len(&self) -> (n: usize)
        ensures
            n == self.count,
    {
        self.count
    }
}

impl I16Region {
    /// Offset just past the last byte of the region.
    pub open spec fn end(&self) -> int {
        self.start + 2 * self.count
    }

    /// The elements of the region as they stand in `bytes`.
    pub open spec fn read(&self, bytes: Seq<u8>) -> Seq<i16> {
        Seq::new(self.count as nat, |i: int| signed16(u16_at(bytes, self.start + 2 * i)))
    }

    /// Number of elements.
    pub fn len(&self) -> (n: usize)
        ensures
            n == self.count,
    {
        self.count
    }
}

impl I32Region {
    /// Offset just past the last byte of the region.
    pub open spec fn end(&self) -> int {
        self.start + 4 * self.count
    }

    /// The elements of the region as they stand in `bytes`.
    pub open spec fn read(&self, bytes: Seq<u8>) -> Seq<i32> {
        Seq::new(self.count as nat, |i: int| signed32(u32_at(bytes, self.start + 4 * i)))
    }

    /// Number of elements.
    pub fn len(&self) -> (n: usize)
        ensures
            n == self.count,
    {
        self.count
    }
}

/// Two byte sequences of one length that hold the same bytes in
/// `low .. high`.
pub open spec fn same_bytes(a: Seq<u8>, b: Seq<u8>, low: int, high: int) -> bool {
    &&& a.len() == b.len()
    &&& forall|k: int| low <= k < high && 0 <= k < a.len() ==> a[k] == b[k]
}

/// Two byte sequences of one length that differ at most in `low .. high`.
pub open spec fn same_outside(a: Seq<u8>, b: Seq<u8>, low: int, high: int) -> bool {
    &&& a.len() == b.len()
    &&& forall|k: int| 0 <= k < a.len() && !(low <= k < high) ==> a[k] == b[k]
}

/// A bump allocator over a caller-owned byte buffer.
pub struct MemoryPool<'a> {
    buffer: &'a mut [u8],
    offset: usize,
}

impl<'a> MemoryPool<'a> {
    /// The bytes of the whole buffer.
    pub closed spec fn view(&self) -> Seq<u8> {
        self.buffer@
    }

    /// Number of bytes allocated so far, alignment padding included.
    pub closed spec fn spec_used(&self) -> usize {
        self.offset
    }

    /// Size of the buffer.
    pub open spec fn spec_capacity(&self) -> usize {
        self@.len() as usize
    }

    /// Number of bytes that are not allocated yet.
    pub open spec fn spec_remaining(&self) -> usize {
        (self@.len() - self.spec_used()) as usize
    }

    /// The allocation offset lies inside the buffer and is a multiple of 8.
    pub open spec fn wf(&self) -> bool {
        &&& self@.len() <= usize::MAX
        &&& self.spec_used() <= self@.len()
        &&& self.spec_used() % 8 == 0
    }

    /// A pool over `buffer` with nothing allocated.
    pub fn new(buffer: &'a mut [u8]) -> (pool: Self)
        ensures
            pool.wf(),
            pool@ == old(buffer)@,
            pool.spec_used() == 0,
    {
        let pool = MemoryPool { buffer, offset: 0 };
        assert(pool.buffer@.len() == vstd::slice::spec_slice_len(&*pool.buffer));
        pool
    }

    /// Moves the offset forward by `size` rounded up to a multiple of 8 and
    /// returns the old offset, or fails where the rest of the buffer is
    /// smaller than that.
    fn bump(&mut self, size: usize) -> (r: Option<usize>)
        requires
            old(self).wf(),
        ensures
            final(self).wf(),
            final(self)@ == old(self)@,
            r is None <==> old(self).spec_remaining() < align8(size as int),
            r is None ==> final(self).spec_used() == old(self).spec_used(),
            r matches Some(start) ==> start == old(self).spec_used() && final(self).spec_used()
                == start + align8(size as int),
    {
        let remaining: usize = self.buffer.len() - self.offset;
        proof {
            lemma_align8(size as int);
        }
        if size > remaining {
            return None;
        }
        let odd: usize = size % 8;
        let pad: usize = if odd == 0 {
            0
        } else {
            8 - odd
        };
        if pad > remaining - size {
            return None;
        }
        let start: usize = self.offset;
        self.offset = start + size + pad;
        Some(start)
    }

    /// Writes zero to the `size` bytes from `start` on.
    fn clear(&mut self, start: usize, size: usize)
        requires
            old(self).wf(),
            start + size <= old(self)@.len(),
        ensures
            final(self).wf(),
            final(self).spec_used() == old(self).spec_used(),
            same_outside(old(self)@, final(self)@, start as int, start + size),
            forall|k: int| start <= k < start + size ==> final(self)@[k] == 0,
    {
        let mut i: usize = 0;
        while i < size
            invariant
                i <= size,
                start + size <= self.buffer@.len() <= usize::MAX,
                self.offset == old(self).offset,
                same_outside(old(self).buffer@, self.buffer@, start as int, start + size),
                forall|k: int| start <= k < start + i ==> self.buffer@[k] == 0,
            decreases size - i,
        {
            self.buffer[start + i] = 0;
            i += 1;
        }
    }

    /// Allocates `size` bytes. The region starts at the current offset, which
    /// then moves forward by `size` rounded up to a multiple of 8. Fails, and
    /// changes nothing, where fewer bytes than that remain.
    pub fn alloc_bytes(&mut self, size: usize) -> (r: Option<ByteRegion>)
        requires
            old(self).wf(),
        ensures
            final(self).wf(),
            final(self)@ == old(self)@,
            old(self).spec_used() <= final(self).spec_used() <= final(self).spec_capacity(),
            r is None <==> old(self).spec_remaining() < align8(size as int),
            r is None ==> final(self).spec_used() == old(self).spec_used(),
            r matches Some(region) ==> {
                &&& region.start == old(self).spec_used()
                &&& region.count == size
                &&& final(self).spec_used() == old(self).spec_used() + align8(size as int)
            },
    {
        match self.bump(size) {
            Some(start) => Some(ByteRegion { start, count: size }),
            None => None,
        }
    }

    /// Allocates `size` bytes as [`MemoryPool::alloc_bytes`] does and sets them to
    /// zero.
    pub fn alloc_zeroed(&mut self, size: usize) -> (r: Option<ByteRegion>)
        requires
            old(self).wf(),
        ensures
            final(self).wf(),
            old(self).spec_used() <= final(self).spec_used() <= final(self).spec_capacity(),
            r is None <==> old(self).spec_remaining() < align8(size as int),
            r is None ==> final(self).spec_used() == old(self).spec_used() && final(self)@ == old(
                self,
            )@,
            r matches Some(region) ==> {
                &&& region.start == old(self).spec_used()
                &&& region.count == size
                &&& final(self).spec_used() == old(self).spec_used() + align8(size as int)
                &&& same_outside(old(self)@, final(self)@, region.start as int, region.end())
                &&& region.read(final(self)@) == Seq::new(size as nat, |i: int| 0u8)
            },
    {
        match self.bump(size) {
            Some(start) => {
                self.clear(start, size);
                let region = ByteRegion { start, count: size };
                assert(region.read(self@) =~= Seq::new(size as nat, |i: int| 0u8));
                Some(region)
            },
            None => None,
        }
    }

    /// Allocates `count` bytes set to zero.
    pub fn alloc_u8(&mut self, count: usize) -> (r: Option<ByteRegion>)
        requires
            old(self).wf(),
        ensures
            final(self).wf(),
            old(self).spec_used() <= final(self).spec_used() <= final(self).spec_capacity(),
            r is None <==> old(self).spec_remaining() < align8(count as int),
            r is None ==> final(self).spec_used() == old(self).spec_used() && final(self)@ == old(
                self,
            )@,
            r matches Some(region) ==> {
                &&& region.start == old(self).spec_used()
                &&& region.count == count
                &&& final(self).spec_used() == old(self).spec_used() + align8(count as int)
                &&& same_outside(old(self)@, final(self)@, region.start as int, region.end())
                &&& region.read(final(self)@) == Seq::new(count as nat, |i: int| 0u8)
            },
    {
        self.alloc_zeroed(count)
    }

    /// Allocates `count` unsigned 16-bit elements set to zero.
    pub fn alloc_u16(&mut self, count: usize) -> (r: Option<U16Region>)
        requires
            old(self).wf(),
        ensures
            final(self).wf(),
            old(self).spec_used() <= final(self).spec_used() <= final(self).spec_capacity(),
            r is None <==> old(self).spec_remaining() < align8(2 * count),
            r is None ==> final(self).spec_used() == old(self).spec_used() && final(self)@ == old(
                self,
            )@,
            r matches Some(region) ==> {
                &&& region.start == old(self).spec_used()
                &&& region.count == count
                &&& final(self).spec_used() == old(self).spec_used() + align8(2 * count)
                &&& same_outside(old(self)@, final(self)@, region.start as int, region.end())
                &&& region.read(final(self)@) == Seq::new(count as nat, |i: int| 0u16)
            },
    {
        let remaining: usize = self.buffer.len() - self.offset;
        if count > remaining / 2 {
            return None;
        }
        match self.bump(2 * count) {
            Some(start) => {
                self.clear(start, 2 * count);
                let region = U16Region { start, count };
                assert(region.read(self@) =~= Seq::new(count as nat, |i: int| 0u16));
                Some(region)
            },
            None => None,
        }
    }

    /// Allocates `count` signed 32-bit elements set to zero.
    pub fn alloc_i32(&mut self, count: usize) -> (r: Option<I32Region>)
        requires
            old(self).wf(),
        ensures
            final(self).wf(),
            old(self).spec_used() <= final(self).spec_used() <= final(self).spec_capacity(),
            r is None <==> old(self).spec_remaining() < align8(4 * count),
            r is None ==> final(self).spec_used() == old(self).spec_used() && final(self)@ == old(
                self,
            )@,
            r matches Some(region) ==> {
                &&& region.start == old(self).spec_used()
                &&& region.count == count
                &&& final(self).spec_used() == old(self).spec_used() + align8(4 * count)
                &&& same_outside(old(self)@, final(self)@, region.start as int, region.end())
                &&& region.read(final(self)@) == Seq::new(count as nat, |i: int| 0i32)
            },
    {
        let remaining: usize = self.buffer.len() - self.offset;
        if count > remaining / 4 {
            return None;
        }
        match self.bump(4 * count) {
            Some(start) => {
                self.clear(start, 4 * count);
                let region = I32Region { start, count };
                assert(region.read(self@) =~= Seq::new(count as nat, |i: int| 0i32));
                Some(region)
            },
            None => None,
        }
    }

    /// Allocates `count` signed 16-bit elements set to zero.
    pub fn alloc_i16(&mut self, count: usize) -> (r: Option<I16Region>)
        requires
            old(self).wf(),
        ensures
            final(self).wf(),
            old(self).spec_used() <= final(self).spec_used() <= final(self).spec_capacity(),
            r is None <==> old(self).spec_remaining() < align8(2 * count),
            r is None ==> final(self).spec_used() == old(self).spec_used() && final(self)@ == old(
                self,
            )@,
            r matches Some(region) ==> {
                &&& region.start == old(self).spec_used()
                &&& region.count == count
                &&& final(self).spec_used() == old(self).spec_used() + align8(2 * count)
                &&& same_outside(old(self)@, final(self)@, region.start as int, region.end())
                &&& region.read(final(self)@) == Seq::new(count as nat, |i: int| 0i16)
            },
    {
        let remaining: usize = self.buffer.len() - self.offset;
        if count > remaining / 2 {
            return None;
        }
        match self.bump(2 * count) {
            Some(start) => {
                self.clear(start, 2 * count);
                let region = I16Region { start, count };
                assert(region.read(self@) =~= Seq::new(count as nat, |i: int| 0i16));
                Some(region)
            },
            None => None,
        }
    }

    /// Number of bytes that are not allocated yet.
    #[verifier::when_used_as_spec(spec_remaining)]
    pub fn remaining(&self) -> (n: usize)
        requires
            self.wf(),
        ensures
            n == self.spec_remaining(),
            n == self.spec_capacity() - self.spec_used(),
    {
        self.buffer.len() - self.offset
    }

    /// Number of bytes allocated so far, alignment padding included.
    #[verifier::when_used_as_spec(spec_used)]
    pub fn used(&self) -> (n: usize)
        ensures
            n == self.spec_used(),
    {
        self.offset
    }

    /// Size of the buffer.
    #[verifier::when_used_as_spec(spec_capacity)]
    pub fn capacity(&self) -> (n: usize)
        ensures
            n == self.spec_capacity(),
    {
        self.buffer.len()
    }

    /// Gives the whole buffer back: the next allocation starts at offset 0
    /// again. Regions handed out before keep their offsets, so they no longer
    /// stand for memory of their own.
    pub fn reset(&mut self)
        ensures
            final(self).wf(),
            final(self).spec_used() == 0,
            final(self)@ == old(self)@,
    {
        self.offset = 0;
        assert(self.buffer@.len() == vstd::slice::spec_slice_len(&*self.buffer));
    }

    /// Reads element `i` of a byte region.
    pub fn get_u8(&self, region: &ByteRegion, i: usize) -> (v: u8)
        requires
            self.wf(),
            region.end() <= self@.len(),
            i < region.count,
        ensures
            v == region.read(self@)[i as int],
    {
        self.buffer[region.start + i]
    }

    /// Writes element `i` of a byte region.
    pub fn set_u8(&mut self, region: &ByteRegion, i: usize, v: u8)
        requires
            old(self).wf(),
            region.end() <= old(self)@.len(),
            i < region.count,
        ensures
            final(self).wf(),
            final(self).spec_used() == old(self).spec_used(),
            same_outside(old(self)@, final(self)@, region.start + i, region.start + i + 1),
            region.read(final(self)@) == region.read(old(self)@).update(i as int, v),
    {
        self.buffer[region.start + i] = v;
        assert(region.read(self@) =~= region.read(old(self)@).update(i as int, v));
    }

    /// Reads element `i` of a 16-bit region.
    pub fn get_u16(&self, region: &U16Region, i: usize) -> (v: u16)
        requires
            self.wf(),
            region.end() <= self@.len(),
            i < region.count,
        ensures
            v == region.read(self@)[i as int],
    {
        let p: usize = region.start + 2 * i;
        let low: u16 = self.buffer[p] as u16;
        let high: u16 = self.buffer[p + 1] as u16;
        low + 256 * high
    }

    /// Writes element `i` of a 16-bit region.
    pub fn set_u16(&mut self, region: &U16Region, i: usize, v: u16)
        requires
            old(self).wf(),
            region.end() <= old(self)@.len(),
            i < region.count,
        ensures
            final(self).wf(),
            final(self).spec_used() == old(self).spec_used(),
            same_outside(
                old(self)@,
                final(self)@,
                region.start + 2 * i,
                region.start + 2 * i + 2,
            ),
            region.read(final(self)@) == region.read(old(self)@).update(i as int, v),
    {
        let p: usize = region.start + 2 * i;
        self.buffer[p] = (v % 256) as u8;
        self.buffer[p + 1] = (v / 256) as u8;
        assert(u16_at(self@, p as int) == v);
        assert(region.read(self@) =~= region.read(old(self)@).update(i as int, v));
    }

    /// Reads element `i` of a signed 16-bit region.
    pub fn get_i16(&self, region: &I16Region, i: usize) -> (v: i16)
        requires
            self.wf(),
            region.end() <= self@.len(),
            i < region.count,
        ensures
            v == region.read(self@)[i as int],
    {
        let p: usize = region.start + 2 * i;
        let low: u16 = self.buffer[p] as u16;
        let high: u16 = self.buffer[p + 1] as u16;
        let u: u16 = low + 256 * high;
        if u >= 32768 {
            ((u - 32768) as i16) + i16::MIN
        } else {
            u as i16
        }
    }

    /// Writes element `i` of a signed 16-bit region.
    pub fn set_i16(&mut self, region: &I16Region, i: usize, v: i16)
        requires
            old(self).wf(),
            region.end() <= old(self)@.len(),
            i < region.count,
        ensures
            final(self).wf(),
            final(self).spec_used() == old(self).spec_used(),
            same_outside(
                old(self)@,
                final(self)@,
                region.start + 2 * i,
                region.start + 2 * i + 2,
            ),
            region.read(final(self)@) == region.read(old(self)@).update(i as int, v),
    {
        let p: usize = region.start + 2 * i;
        let u: u16 = if v < 0 {
            ((v - i16::MIN) as u16) + 32768
        } else {
            v as u16
        };
        self.buffer[p] = (u % 256) as u8;
        self.buffer[p + 1] = (u / 256) as u8;
        assert(u16_at(self@, p as int) == u);
        assert(signed16(u) == v);
        assert(region.read(self@) =~= region.read(old(self)@).update(i as int, v));
    }

    /// Reads element `i` of a signed 32-bit region.
    pub fn get_i32(&self, region: &I32Region, i: usize) -> (v: i32)
        requires
            self.wf(),
            region.end() <= self@.len(),
            i < region.count,
        ensures
            v == region.read(self@)[i as int],
    {
        let p: usize = region.start + 4 * i;
        let b0: u32 = self.buffer[p] as u32;
        let b1: u32 = self.buffer[p + 1] as u32;
        let b2: u32 = self.buffer[p + 2] as u32;
        let b3: u32 = self.buffer[p + 3] as u32;
        let u: u32 = b0 + 256 * b1 + 65536 * b2 + 16777216 * b3;
        if u >= 0x8000_0000 {
            ((u - 0x8000_0000) as i32) + i32::MIN
        } else {
            u as i32
        }
    }

    /// Writes element `i` of a signed 32-bit region.
    pub fn set_i32(&mut self, region: &I32Region, i: usize, v: i32)
        requires
            old(self).wf(),
            region.end() <= old(self)@.len(),
            i < region.count,
        ensures
            final(self).wf(),
            final(self).spec_used() == old(self).spec_used(),
            same_outside(
                old(self)@,
                final(self)@,
                region.start + 4 * i,
                region.start + 4 * i + 4,
            ),
            region.read(final(self)@) == region.read(old(self)@).update(i as int, v),
    {
        let p: usize = region.start + 4 * i;
        let u: u32 = if v < 0 {
            ((v - i32::MIN) as u32) + 0x8000_0000
        } else {
            v as u32
        };
        self.buffer[p] = (u % 256) as u8;
        self.buffer[p + 1] = ((u / 256) % 256) as u8;
        self.buffer[p + 2] = ((u / 65536) % 256) as u8;
        self.buffer[p + 3] = (u / 16777216) as u8;
        assert(u == u % 256 + 256 * ((u / 256) % 256) + 65536 * ((u / 65536) % 256) + 16777216 * (u
            / 16777216)) by (bit_vector);
        assert(u32_at(self@, p as int) == u);
        assert(signed32(u) == v);
        assert(region.read(self@) =~= region.read(old(self)@).update(i as int, v));
    }
}

/// A region reads the same from two buffers that agree on its bytes.
pub proof fn lemma_read_bytes_local(region: ByteRegion, a: Seq<u8>, b: Seq<u8>)
    requires
        region.end() <= a.len(),
        same_bytes(a, b, region.start as int, region.end()),
    ensures
        region.read(a) == region.read(b),
{
    assert(region.read(a) =~= region.read(b));
}

/// A region reads the same from two buffers that agree on its bytes.
pub proof fn lemma_read_u16_local(region: U16Region, a: Seq<u8>, b: Seq<u8>)
    requires
        region.end() <= a.len(),
        same_bytes(a, b, region.start as int, region.end()),
    ensures
        region.read(a) == region.read(b),
{
    assert(region.read(a) =~= region.read(b));
}

/// A region reads the same from two buffers that agree on its bytes.
pub proof fn lemma_read_i32_local(region: I32Region, a: Seq<u8>, b: Seq<u8>)
    requires
        region.end() <= a.len(),
        same_bytes(a, b, region.start as int, region.end()),
    ensures
        region.read(a) == region.read(b),
{
    assert(region.read(a) =~= region.read(b));
}

} // verus!
