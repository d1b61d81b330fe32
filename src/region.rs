use vstd::prelude::*;

verus! {

/// Alignment of every block handed out by a region.
pub const BLOCK_ALIGN: usize = 16;

/// Most bytes a region hands out: offsets and lengths within it fit in 48 bits.
pub const MAX_REGION_BYTES: u64 = 0xffff_ffff_ffff;

/// A region could not satisfy an allocation request.
#[derive(Debug, Clone, Copy, PartialEq, Eq, Structural)]
pub struct AllocError {}

/// Bytes a request of `n` bytes takes from a region: `n` rounded up to the alignment.
pub open spec fn padded(n: nat) -> nat {
    ((n + 15) / 16) * 16
}

/// A bump region: blocks are appended, never freed one by one, and the whole
/// region is emptied at once by `reset`. Each reset starts a new generation, so a
/// handle taken before the reset no longer matches the region.
pub struct Region {
    id: u64,
    generation: u64,
    data: Vec<u8>,
    charged: usize,
    capacity: usize,
}

impl Region {
    pub closed spec fn id(&self) -> u64 {
        self.id
    }

    pub closed spec fn generation(&self) -> u64 {
        self.generation
    }

    /// The bytes handed out so far, padding included.
    pub closed spec fn bytes(&self) -> Seq<u8> {
        self.data@
    }

    /// Bytes in use: the blocks handed out, and the bytes charged for storage
    /// kept elsewhere on the region's account.
    pub closed spec fn used(&self) -> nat {
        self.data@.len() + self.charged as nat
    }

    pub closed spec fn capacity(&self) -> nat {
        self.capacity as nat
    }

    pub open spec fn wf(&self) -> bool {
        &&& self.bytes().len() <= self.used()
        &&& self.used() <= self.capacity()
        &&& self.capacity() <= MAX_REGION_BYTES
        &&& self.capacity() <= usize::MAX
    }

    /// `self` is `old` with zero or more blocks appended.
    pub open spec fn extends(&self, old: &Region) -> bool {
        &&& self.id() == old.id()
        &&& self.generation() == old.generation()
        &&& self.capacity() == old.capacity()
        &&& old.used() <= self.used()
        &&& old.bytes().len() <= self.bytes().len()
        &&& self.bytes().subrange(0, old.bytes().len() as int) == old.bytes()
    }

    /// Every region extends itself.
    pub proof fn lemma_extends_refl(&self)
        ensures
            self.extends(self),
    {
        assert(self.bytes().subrange(0, self.bytes().len() as int) == self.bytes());
    }

    /// Growth composes.
    pub proof fn lemma_extends_trans(&self, mid: &Region, old: &Region)
        requires
            self.extends(mid),
            mid.extends(old),
        ensures
            self.extends(old),
    {
        assert(self.bytes().subrange(0, old.bytes().len() as int) == self.bytes().subrange(
            0,
            mid.bytes().len() as int,
        ).subrange(0, old.bytes().len() as int));
    }

    /// An empty region named `id` that can hand out at most `capacity` bytes, or
    /// `MAX_REGION_BYTES` if that is less.
    pub fn new(id: u64, capacity: usize) -> (r: Region)
        ensures
            r.wf(),
            r.id() == id,
            r.generation() == 0,
            r.capacity() == if capacity <= MAX_REGION_BYTES {
                capacity as nat
            } else {
                MAX_REGION_BYTES as nat
            },
            r.bytes() == Seq::<u8>::empty(),
            r.used() == 0,
    {
        let capacity = if capacity as u64 <= MAX_REGION_BYTES {
            capacity
        } else {
            MAX_REGION_BYTES as usize
        };
        Region { id, generation: 0, data: Vec::new(), charged: 0, capacity }
    }

    pub fn id_of(&self) -> (r: u64)
        ensures
            r == self.id(),
    {
        self.id
    }

    pub fn generation_of(&self) -> (r: u64)
        ensures
            r == self.generation(),
    {
        self.generation
    }

    /// Bytes in use, padding and charges included.
    pub fn allocated_bytes(&self) -> (r: usize)
        requires
            self.wf(),
        ensures
            r == self.used(),
    {
        self.data.len() + self.charged
    }

    pub fn capacity_of(&self) -> (r: usize)
        ensures
            r == self.capacity(),
    {
        self.capacity
    }

    /// Whether a request of `n` bytes would be granted now.
    pub fn fits(&self, n: usize) -> (r: bool)
        requires
            self.wf(),
        ensures
            r == (self.used() + padded(n as nat) <= self.capacity()),
    {
        let free = self.capacity - (self.data.len() + self.charged);
        let blocks = n / BLOCK_ALIGN;
        let rest = n % BLOCK_ALIGN;
        proof {
            assert(padded(n as nat) == blocks * 16 + (if rest == 0 { 0int } else { 16int }))
                by (nonlinear_arith)
                requires
                    blocks == n as int / 16,
                    rest == n as int % 16,
            ;
        }
        if blocks > free / BLOCK_ALIGN {
            proof {
                assert(blocks * 16 > free) by (nonlinear_arith)
                    requires blocks > free as int / 16;
            }
            return false;
        }
        proof {
            assert(blocks * 16 <= free) by (nonlinear_arith)
                requires blocks <= free as int / 16;
        }
        let whole = blocks * BLOCK_ALIGN;
        if rest == 0 {
            true
        } else {
            free - whole >= BLOCK_ALIGN
        }
    }

    /// Appends a copy of `src`, padded with zeros to the alignment, and returns
    /// the offset of the copy. Fails, leaving the region as it was, when the
    /// padded block does not fit.
    pub fn alloc_copy(&mut self, src: &[u8]) -> (r: Result<usize, AllocError>)
        requires
            old(self).wf(),
        ensures
            final(self).wf(),
            r is Ok <==> old(self).used() + padded(src@.len()) <= old(self).capacity(),
            r is Err ==> *final(self) == *old(self),
            r is Ok ==> {
                &&& final(self).extends(old(self))
                &&& r->Ok_0 == old(self).bytes().len()
                &&& final(self).used() == old(self).used() + padded(src@.len())
                &&& final(self).bytes().len() == old(self).bytes().len() + padded(src@.len())
                &&& final(self).bytes().subrange(
                    r->Ok_0 as int,
                    r->Ok_0 + src@.len(),
                ) == src@
            },
    {
        if !self.fits(src.len()) {
            return Err(AllocError {  });
        }
        let ghost before = self.data@;
        let start = self.data.len();
        let mut i: usize = 0;
        while i < src.len()
            invariant
                i <= src@.len(),
                start == before.len(),
                self.data@ == before + src@.subrange(0, i as int),
                self.id == old(self).id,
                self.generation == old(self).generation,
                self.capacity == old(self).capacity,
                self.charged == old(self).charged,
                before == old(self).data@,
            decreases src@.len() - i,
        {
            self.data.push(src[i]);
            i = i + 1;
            proof {
                assert(src@.subrange(0, i as int) == src@.subrange(0, i - 1) + seq![src@[i - 1]]);
            }
        }
        let ghost copied = self.data@;
        assert(src@.subrange(0, src@.len() as int) == src@);
        let n = src.len();
        let rest = n % BLOCK_ALIGN;
        proof {
            assert(padded(n as nat) == n - rest + (if rest == 0 { 0int } else { 16int }))
                by (nonlinear_arith)
                requires
                    rest == n as int % 16,
            ;
        }
        let total = if rest == 0 { n } else { n - rest + BLOCK_ALIGN };
        let end = start + total;
        while self.data.len() < end
            invariant
                self.data@.len() >= copied.len(),
                self.data@.len() <= end,
                self.data@.subrange(0, copied.len() as int) == copied,
                copied == before + src@,
                start == before.len(),
                end == start + padded(src@.len() as nat),
                self.id == old(self).id,
                self.generation == old(self).generation,
                self.capacity == old(self).capacity,
                self.charged == old(self).charged,
                before == old(self).data@,
                end + self.charged <= self.capacity,
            decreases end - self.data@.len(),
        {
            self.data.push(0u8);
            proof {
                assert(self.data@.subrange(0, copied.len() as int) == copied);
            }
        }
        proof {
            let d = self.data@;
            assert(d.subrange(start as int, start + src@.len()) == copied.subrange(
                start as int,
                start + src@.len(),
            ));
            assert(copied.subrange(start as int, start + src@.len()) == src@);
            assert(d.subrange(0, start as int) == copied.subrange(0, start as int));
            assert(copied.subrange(0, start as int) == before);
        }
        Ok(start)
    }

    /// Charges `n` bytes, padded to the alignment, for storage the region's owner
    /// keeps elsewhere. Fails, leaving the region as it was, when they do not fit.
    pub fn charge(&mut self, n: usize) -> (r: Result<(), AllocError>)
        requires
            old(self).wf(),
        ensures
            final(self).wf(),
            r is Ok <==> old(self).used() + padded(n as nat) <= old(self).capacity(),
            r is Err ==> *final(self) == *old(self),
            r is Ok ==> final(self).extends(old(self)) && final(self).used() == old(self).used()
                + padded(n as nat) && final(self).bytes() == old(self).bytes(),
    {
        if !self.fits(n) {
            return Err(AllocError {  });
        }
        let rest = n % BLOCK_ALIGN;
        proof {
            assert(padded(n as nat) == n - rest + (if rest == 0 { 0int } else { 16int }))
                by (nonlinear_arith)
                requires
                    rest == n as int % 16,
            ;
        }
        let total = if rest == 0 { n } else { n - rest + BLOCK_ALIGN };
        self.charged = self.charged + total;
        proof {
            assert(self.bytes().subrange(0, self.bytes().len() as int) == self.bytes());
        }
        Ok(())
    }

    /// The `len` bytes that start at `offset`.
    pub fn slice(&self, offset: usize, len: usize) -> (r: &[u8])
        requires
            offset + len <= self.bytes().len(),
        ensures
            r@ == self.bytes().subrange(offset as int, offset + len),
    {
        let used = self.data.len();
        assert(offset + len <= used);
        vstd::slice::slice_subrange(self.data.as_slice(), offset, offset + len)
    }

    /// Empties the region in one step and starts a new generation.
    pub fn reset(&mut self)
        requires
            old(self).wf(),
        ensures
            final(self).wf(),
            final(self).bytes() == Seq::<u8>::empty(),
            final(self).used() == 0,
            final(self).id() == old(self).id(),
            final(self).capacity() == old(self).capacity(),
            final(self).generation() != old(self).generation(),
    {
        self.data.clear();
        self.charged = 0;
        self.generation = if self.generation < u64::MAX { self.generation + 1 } else { 0 };
    }
}

} // verus!
