use vstd::prelude::*;

use crate::error::VmError;

verus! {

/// Bytes in one page of the physical arena.
pub const PAGE_SIZE: usize = 0x1000;

/// Total bytes in the physical arena.
pub const PHYS_MEM_SIZE: usize = 0x100000;

/// Number of pages the arena is partitioned into.
pub const PHYS_PAGE_COUNT: usize = PHYS_MEM_SIZE / PAGE_SIZE;

/// Number of pages of an occupancy map that are still free.
pub open spec fn count_free(bm: Seq<bool>) -> nat
    decreases bm.len(),
{
    if bm.len() == 0 {
        0
    } else {
        count_free(bm.drop_last()) + (if bm.last() {
            0nat
        } else {
            1nat
        })
    }
}

/// A prefix of an occupancy map has at most as many free pages as the whole.
proof fn lemma_count_free_prefix(bm: Seq<bool>, n: int)
    requires
        0 <= n <= bm.len(),
    ensures
        count_free(bm.take(n)) <= count_free(bm),
    decreases bm.len() - n,
{
    if n < bm.len() {
        lemma_count_free_prefix(bm, n + 1);
        assert(bm.take(n + 1).drop_last() =~= bm.take(n));
        assert(count_free(bm.take(n)) <= count_free(bm.take(n + 1)));
    } else {
        assert(bm.take(n) =~= bm);
    }
}

/// Extending a prefix by one free page raises its free count by one;
/// by a used page, leaves it unchanged.
proof fn lemma_count_free_step(bm: Seq<bool>, n: int)
    requires
        0 <= n < bm.len(),
    ensures
        count_free(bm.take(n + 1)) == count_free(bm.take(n)) + (if bm[n] {
            0nat
        } else {
            1nat
        }),
{
    assert(bm.take(n + 1).drop_last() =~= bm.take(n));
    assert(bm.take(n + 1).last() == bm[n]);
}


/// Law: a page base handed out by one allocation is distinct from every
/// base handed out by a later allocation. The premises are exactly what
/// `mmap` ensures of the two calls: the first call's bases are marked
/// used afterwards, used pages stay used, and the second call's bases
/// were still free just before it.
pub proof fn lemma_mmap_bases_fresh(
    mid: SharedMemory,
    bases1: Seq<u32>,
    bases2: Seq<u32>,
)
    requires
        mid.wf(),
        forall|i: int|
            0 <= i < bases1.len() ==> (#[trigger] bases1[i]) as int % PAGE_SIZE as int == 0
                && bases1[i] as int + PAGE_SIZE as int <= PHYS_MEM_SIZE as int && mid.bitmap()[
                bases1[i] as int / PAGE_SIZE as int],
        forall|j: int|
            0 <= j < bases2.len() ==> !mid.bitmap()[(#[trigger] bases2[j]) as int
                / PAGE_SIZE as int],
    ensures
        forall|i: int, j: int|
            0 <= i < bases1.len() && 0 <= j < bases2.len() ==> (#[trigger] bases1[i]) != (
            #[trigger] bases2[j]),
{
    assert forall|i: int, j: int|
        0 <= i < bases1.len() && 0 <= j < bases2.len() implies (#[trigger] bases1[i]) != (
    #[trigger] bases2[j]) by {
        if bases1[i] == bases2[j] {
            assert(mid.bitmap()[bases1[i] as int / PAGE_SIZE as int]);
            assert(!mid.bitmap()[bases2[j] as int / PAGE_SIZE as int]);
        }
    }
}

/// The shared physical arena: a flat byte region and a per-page occupancy
/// map. Pages are handed out first-fit and are never reclaimed.
pub struct SharedMemory {
    pub phys_mem: Vec<u8>,
    pub phys_bitmap: Vec<bool>,
}

impl SharedMemory {
    /// Occupancy of each physical page: true means handed out.
    pub open spec fn bitmap(self) -> Seq<bool> {
        self.phys_bitmap@
    }

    pub open spec fn wf(self) -> bool {
        &&& self.phys_mem@.len() == PHYS_MEM_SIZE
        &&& self.bitmap().len() == PHYS_PAGE_COUNT
    }

    /// A zeroed arena with every page free.
    pub fn new() -> (r: Result<SharedMemory, VmError>)
        ensures
            r is Ok,
            r->Ok_0.wf(),
            forall|i: int| 0 <= i < PHYS_MEM_SIZE ==> r->Ok_0.phys_mem@[i] == 0u8,
            forall|p: int| 0 <= p < PHYS_PAGE_COUNT ==> !r->Ok_0.bitmap()[p],
    {
        let mut phys_mem: Vec<u8> = Vec::new();
        let mut i: usize = 0;
        while i < PHYS_MEM_SIZE
            invariant
                i == phys_mem@.len(),
                i <= PHYS_MEM_SIZE,
                forall|k: int| 0 <= k < i ==> phys_mem@[k] == 0u8,
            decreases PHYS_MEM_SIZE - i,
        {
            phys_mem.push(0);
            i = i + 1;
        }
        let mut phys_bitmap: Vec<bool> = Vec::new();
        let mut p: usize = 0;
        while p < PHYS_PAGE_COUNT
            invariant
                p == phys_bitmap@.len(),
                p <= PHYS_PAGE_COUNT,
                forall|k: int| 0 <= k < p ==> !phys_bitmap@[k],
            decreases PHYS_PAGE_COUNT - p,
        {
            phys_bitmap.push(false);
            p = p + 1;
        }
        Ok(SharedMemory { phys_mem, phys_bitmap })
    }

    /// Allocate `pages` free pages first-fit, all-or-nothing, and return
    /// their physical base addresses in allocation order. The arena's bytes
    /// are untouched; exactly the returned pages flip from free to used.
    pub fn mmap(&mut self, pages: u16) -> (r: Result<Vec<u32>, VmError>)
        requires
            old(self).wf(),
        ensures
            final(self).wf(),
            final(self).phys_mem@ == old(self).phys_mem@,
            match r {
                Ok(bases) => {
                    &&& pages > 0
                    &&& count_free(old(self).bitmap()) >= pages as nat
                    &&& bases@.len() == pages as int
                    &&& forall|i: int|
                        0 <= i < bases@.len() ==> {
                            &&& (#[trigger] bases@[i]) as int % PAGE_SIZE as int == 0
                            &&& bases@[i] as int + PAGE_SIZE as int <= PHYS_MEM_SIZE as int
                            &&& !old(self).bitmap()[bases@[i] as int / PAGE_SIZE as int]
                            &&& final(self).bitmap()[bases@[i] as int / PAGE_SIZE as int]
                        }
                    &&& forall|i: int, j: int|
                        0 <= i < j < bases@.len() ==> bases@[i] != bases@[j]
                    &&& forall|p: int|
                        0 <= p < PHYS_PAGE_COUNT && old(self).bitmap()[p]
                            ==> #[trigger] final(self).bitmap()[p]
                    &&& forall|p: int|
                        0 <= p < PHYS_PAGE_COUNT && !(exists|i: int|
                            0 <= i < bases@.len() && (#[trigger] bases@[i]) as int
                                / PAGE_SIZE as int == p) ==> #[trigger] final(self).bitmap()[p]
                            == old(self).bitmap()[p]
                },
                Err(e) => {
                    &&& final(self).bitmap() == old(self).bitmap()
                    &&& (e == VmError::InvalidInput <==> pages == 0)
                    &&& (e == VmError::OutOfMemory <==> pages > 0 && count_free(
                        old(self).bitmap(),
                    ) < pages as nat)
                },
            },
            r is Err <==> (pages == 0 || count_free(old(self).bitmap()) < pages as nat),
    {
        if pages == 0 {
            return Err(VmError::InvalidInput);
        }
        // collect free pages first to avoid partial allocations.
        let ghost bm = self.phys_bitmap@;
        let mut free_indices: Vec<usize> = Vec::new();
        let mut idx: usize = 0;
        while idx < PHYS_PAGE_COUNT && free_indices.len() < pages as usize
            invariant
                self.wf(),
                bm == self.phys_bitmap@,
                idx <= PHYS_PAGE_COUNT,
                free_indices@.len() <= pages as nat,
                free_indices@.len() == count_free(bm.take(idx as int)),
                forall|k: int|
                    0 <= k < free_indices@.len() ==> {
                        &&& 0 <= #[trigger] free_indices@[k] < idx
                        &&& !bm[free_indices@[k] as int]
                    },
                forall|i: int, j: int|
                    0 <= i < j < free_indices@.len() ==> free_indices@[i] < free_indices@[j],
            decreases PHYS_PAGE_COUNT - idx,
        {
            proof {
                lemma_count_free_step(bm, idx as int);
            }
            if !self.phys_bitmap[idx] {
                free_indices.push(idx);
            }
            idx = idx + 1;
        }

        if free_indices.len() < pages as usize {
            proof {
                // the scan covered the whole map, so there are too few free pages.
                assert(idx == PHYS_PAGE_COUNT);
                assert(bm.take(idx as int) =~= bm);
            }
            return Err(VmError::OutOfMemory);
        }
        proof {
            lemma_count_free_prefix(bm, idx as int);
        }

        let mut allocated: Vec<u32> = Vec::new();
        let mut k: usize = 0;
        while k < free_indices.len()
            invariant
                self.wf(),
                k <= free_indices@.len(),
                free_indices@.len() == pages as int,
                allocated@.len() == k,
                forall|i: int|
                    0 <= i < free_indices@.len() ==> {
                        &&& 0 <= #[trigger] free_indices@[i] < PHYS_PAGE_COUNT
                        &&& !bm[free_indices@[i] as int]
                    },
                forall|i: int, j: int|
                    0 <= i < j < free_indices@.len() ==> free_indices@[i] < free_indices@[j],
                self.phys_mem@ == old(self).phys_mem@,
                forall|i: int|
                    0 <= i < k ==> #[trigger] allocated@[i] as int == free_indices@[i] as int
                        * PAGE_SIZE as int,
                forall|p: int|
                    0 <= p < PHYS_PAGE_COUNT ==> self.bitmap()[p] == (bm[p] || exists|i: int|
                        0 <= i < k && free_indices@[i] == p),
            decreases free_indices@.len() - k,
        {
            let page = free_indices[k];
            self.phys_bitmap.set(page, true);
            allocated.push((page * PAGE_SIZE) as u32);
            proof {
                assert(allocated@[k as int] as int == free_indices@[k as int] as int
                    * PAGE_SIZE as int) by (nonlinear_arith)
                    requires
                        allocated@[k as int] == (free_indices@[k as int] * PAGE_SIZE) as u32,
                        free_indices@[k as int] < PHYS_PAGE_COUNT,
                        PAGE_SIZE == 0x1000,
                        PHYS_PAGE_COUNT == 0x100,
                ;
            }
            k = k + 1;
        }
        proof {
            assert forall|i: int| 0 <= i < allocated@.len() implies {
                &&& (#[trigger] allocated@[i]) as int % PAGE_SIZE as int == 0
                &&& allocated@[i] as int + PAGE_SIZE as int <= PHYS_MEM_SIZE as int
                &&& !old(self).bitmap()[allocated@[i] as int / PAGE_SIZE as int]
                &&& self.bitmap()[allocated@[i] as int / PAGE_SIZE as int]
            } by {
                let p = free_indices@[i] as int;
                assert(allocated@[i] as int == p * PAGE_SIZE as int);
                assert(p * PAGE_SIZE as int % PAGE_SIZE as int == 0) by (nonlinear_arith);
                assert(p * PAGE_SIZE as int / PAGE_SIZE as int == p) by (nonlinear_arith)
                    requires
                        PAGE_SIZE as int > 0,
                ;
                assert(p * PAGE_SIZE as int + PAGE_SIZE as int <= PHYS_MEM_SIZE as int)
                    by (nonlinear_arith)
                    requires
                        0 <= p < PHYS_PAGE_COUNT as int,
                        PAGE_SIZE == 0x1000,
                        PHYS_PAGE_COUNT == 0x100,
                        PHYS_MEM_SIZE == 0x100000,
                ;
            }
            assert forall|p: int|
                0 <= p < PHYS_PAGE_COUNT && !(exists|i: int|
                    0 <= i < allocated@.len() && (#[trigger] allocated@[i]) as int
                        / PAGE_SIZE as int == p) implies #[trigger] self.bitmap()[p] == old(
                self,
            ).bitmap()[p] by {
                if self.bitmap()[p] != old(self).bitmap()[p] {
                    let i = choose|i: int|
                        0 <= i < allocated@.len() && free_indices@[i] == p;
                    assert(allocated@[i] as int == p * PAGE_SIZE as int);
                    assert(p * PAGE_SIZE as int / PAGE_SIZE as int == p) by (nonlinear_arith)
                        requires
                            PAGE_SIZE as int > 0,
                    ;
                }
            }
            assert forall|i: int, j: int| 0 <= i < j < allocated@.len() implies allocated@[i]
                != allocated@[j] by {
                let p = free_indices@[i] as int;
                let q = free_indices@[j] as int;
                assert(p < q);
                assert((p * PAGE_SIZE as int) < (q * PAGE_SIZE as int)) by (nonlinear_arith)
                    requires
                        p < q,
                        PAGE_SIZE as int > 0,
                ;
            }
        }
        Ok(allocated)
    }

    /// Effective length of a physical write: the request clamped to the
    /// data that is actually there.
    pub open spec fn write_len(len: int, data: Seq<u8>) -> int {
        if len <= data.len() {
            len
        } else {
            data.len() as int
        }
    }

    /// Write the first `min(len, data.len())` bytes of `data` at physical
    /// address `addr`, bounds-checked against the arena and capped at one
    /// page per call.
    pub fn write(&mut self, addr: usize, data: &Vec<u8>, len: usize) -> (r: Result<(), VmError>)
        requires
            old(self).wf(),
        ensures
            final(self).wf(),
            final(self).bitmap() == old(self).bitmap(),
            ({
                let wl = Self::write_len(len as int, data@);
                match r {
                    Ok(_) => {
                        &&& wl <= PAGE_SIZE as int
                        &&& addr as int + wl <= PHYS_MEM_SIZE as int
                        &&& forall|i: int|
                            0 <= i < PHYS_MEM_SIZE ==> final(self).phys_mem@[i] == (if addr as int
                                <= i < addr as int + wl {
                                data@[i - addr as int]
                            } else {
                                old(self).phys_mem@[i]
                            })
                    },
                    Err(e) => {
                        &&& final(self).phys_mem@ == old(self).phys_mem@
                        &&& (wl > PAGE_SIZE as int || addr as int + wl > PHYS_MEM_SIZE as int)
                        &&& (e == VmError::TooLarge <==> wl > PAGE_SIZE as int)
                    },
                }
            }),
            r is Ok <==> (Self::write_len(len as int, data@) <= PAGE_SIZE as int && addr as int
                + Self::write_len(len as int, data@) <= PHYS_MEM_SIZE as int),
    {
        let write_len: usize = if len <= data.len() {
            len
        } else {
            data.len()
        };
        if write_len > PAGE_SIZE {
            return Err(VmError::TooLarge);
        }
        if addr > PHYS_MEM_SIZE - write_len {
            return Err(VmError::InvalidInput);
        }
        let mut i: usize = 0;
        while i < write_len
            invariant
                self.wf(),
                self.bitmap() == old(self).bitmap(),
                i <= write_len,
                write_len == Self::write_len(len as int, data@),
                write_len <= data@.len(),
                addr + write_len <= PHYS_MEM_SIZE,
                forall|k: int|
                    0 <= k < PHYS_MEM_SIZE ==> self.phys_mem@[k] == (if addr as int <= k < addr
                        as int + i as int {
                        data@[k - addr as int]
                    } else {
                        old(self).phys_mem@[k]
                    }),
            decreases write_len - i,
        {
            self.phys_mem.set(addr + i, data[i]);
            i = i + 1;
        }
        Ok(())
    }

    /// Read `len` bytes starting at physical address `addr`, strictly
    /// bounds-checked against the arena.
    pub fn read(&self, addr: usize, len: usize) -> (r: Result<Vec<u8>, VmError>)
        requires
            self.wf(),
        ensures
            match r {
                Ok(v) => addr as int + len as int <= PHYS_MEM_SIZE as int && v@
                    == self.phys_mem@.subrange(addr as int, addr as int + len as int),
                Err(e) => addr as int + len as int > PHYS_MEM_SIZE as int && e
                    == VmError::InvalidInput,
            },
    {
        if len > PHYS_MEM_SIZE || addr > PHYS_MEM_SIZE - len {
            return Err(VmError::InvalidInput);
        }
        let mut data: Vec<u8> = Vec::new();
        let mut i: usize = 0;
        while i < len
            invariant
                self.wf(),
                i <= len,
                addr + len <= PHYS_MEM_SIZE,
                data@.len() == i,
                forall|k: int| 0 <= k < i ==> data@[k] == self.phys_mem@[addr as int + k],
            decreases len - i,
        {
            data.push(self.phys_mem[addr + i]);
            i = i + 1;
        }
        proof {
            assert(data@ =~= self.phys_mem@.subrange(addr as int, addr as int + len as int));
        }
        Ok(data)
    }
}

} // verus!
