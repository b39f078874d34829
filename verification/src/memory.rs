//! The merkleized sparse memory: the global address-space view and the
//! commitment authority over it.

use crate::errors::VmError;
use crate::keccak::keccak_concat_hashes;
use crate::page::CachedPage;
use crate::tree::{
    exec_pow2, lemma_node_hash_page, lemma_node_hash_zero, node_hash, node_lo, splice_bytes,
    zero_hash, zero_memory, zero_page, ADDR_SPACE, PAGE_COUNT, PAGE_SIZE, TREE_DEPTH,
};
use vstd::arithmetic::div_mod::{
    lemma_div_denominator, lemma_fundamental_div_mod, lemma_mod_bound,
};
use vstd::arithmetic::power2::{
    lemma2_to64, lemma2_to64_rest, lemma_pow2_adds, lemma_pow2_pos, lemma_pow2_unfold, pow2,
};
use vstd::prelude::*;

verus! {

/// An offset into the emulated address space.
pub type Address = u64;

/// An address divided by the page size.
pub type PageIndex = u64;

/// A position in the perfect binary hash tree, root = 1.
pub type Gindex = u64;

/// One allocated page together with its index in the address space.
pub struct PageEntry {
    pub index: PageIndex,
    pub page: CachedPage,
}

/// Entries sorted strictly by page index: keys unique and ordered.
pub open spec fn pages_sorted(pages: Seq<PageEntry>) -> bool {
    forall|j1: int, j2: int|
        0 <= j1 < j2 < pages.len() ==> (#[trigger] pages[j1].index) < (#[trigger] pages[j2].index)
}

/// Whether some entry holds page `pi`.
pub open spec fn seq_has_page(pages: Seq<PageEntry>, pi: int) -> bool {
    exists|j: int| 0 <= j < pages.len() && (#[trigger] pages[j].index) == pi
}

/// The position of the entry holding page `pi`.
pub open spec fn seq_entry_at(pages: Seq<PageEntry>, pi: int) -> int {
    choose|j: int| 0 <= j < pages.len() && (#[trigger] pages[j].index) == pi
}

/// In a sorted entry sequence the position holding a given index is unique.
pub proof fn lemma_entry_unique(pages: Seq<PageEntry>, pi: int, j: int)
    requires
        pages_sorted(pages),
        0 <= j < pages.len(),
        pages[j].index == pi,
    ensures
        seq_has_page(pages, pi),
        seq_entry_at(pages, pi) == j,
{
    assert(seq_has_page(pages, pi));
    let je = seq_entry_at(pages, pi);
    assert(0 <= je < pages.len() && pages[je].index == pi);
    if je < j {
        assert(pages[je].index < pages[j].index);
    } else if j < je {
        assert(pages[j].index < pages[je].index);
    }
}

/// Replacing one entry by another of the same index leaves every other
/// page's presence and entry untouched.
pub proof fn lemma_entries_after_update(
    pages1: Seq<PageEntry>,
    pages2: Seq<PageEntry>,
    j: int,
    p: int,
)
    requires
        pages_sorted(pages1),
        0 <= j < pages1.len(),
        pages2.len() == pages1.len(),
        pages2 == pages1.update(j, pages2[j]),
        pages2[j].index == pages1[j].index,
        p != pages1[j].index,
    ensures
        pages_sorted(pages2),
        seq_has_page(pages2, p) == seq_has_page(pages1, p),
        seq_has_page(pages1, p) ==> seq_entry_at(pages2, p) == seq_entry_at(pages1, p)
            && pages2[seq_entry_at(pages2, p)] == pages1[seq_entry_at(pages1, p)],
{
    assert(forall|k: int|
        0 <= k < pages1.len() ==> (#[trigger] pages2[k]).index == pages1[k].index);
    assert(pages_sorted(pages2));
    if seq_has_page(pages1, p) {
        let j1 = seq_entry_at(pages1, p);
        lemma_entry_unique(pages1, p, j1);
        assert(pages1[j1].index == p);
        assert(j1 != j);
        assert(pages2[j1] == pages1[j1]);
        lemma_entry_unique(pages2, p, j1);
    }
    if seq_has_page(pages2, p) {
        let j2 = seq_entry_at(pages2, p);
        assert(0 <= j2 < pages2.len() && pages2[j2].index == p);
        assert(j2 != j);
        assert(pages1[j2] == pages2[j2]);
        lemma_entry_unique(pages1, p, j2);
    }
}

/// Inserting an entry with a fresh index at its sorted position keeps the
/// sequence sorted and leaves every other page's presence and entry
/// untouched.
pub proof fn lemma_entries_after_insert(
    pages1: Seq<PageEntry>,
    pages2: Seq<PageEntry>,
    ins: int,
    e: PageEntry,
    p: int,
)
    requires
        pages_sorted(pages1),
        0 <= ins <= pages1.len(),
        pages2 == pages1.insert(ins, e),
        forall|j: int| 0 <= j < ins ==> (#[trigger] pages1[j].index) < e.index,
        forall|j: int| ins <= j < pages1.len() ==> (#[trigger] pages1[j].index) > e.index,
        p != e.index,
    ensures
        pages_sorted(pages2),
        seq_has_page(pages2, e.index as int),
        seq_entry_at(pages2, e.index as int) == ins,
        pages2[ins] == e,
        seq_has_page(pages2, p) == seq_has_page(pages1, p),
        seq_has_page(pages1, p) ==> pages2[seq_entry_at(pages2, p)] == pages1[seq_entry_at(
            pages1,
            p,
        )],
{
    pages1.insert_ensures(ins, e);
    assert forall|j1: int, j2: int| 0 <= j1 < j2 < pages2.len() implies (
    #[trigger] pages2[j1].index) < (#[trigger] pages2[j2].index) by {
        if j1 < ins && j2 < ins {
        } else if j1 < ins && j2 == ins {
        } else if j1 == ins && j2 > ins {
            assert(pages2[j2] == pages1[j2 - 1]);
        } else if j1 < ins && j2 > ins {
            assert(pages2[j2] == pages1[j2 - 1]);
        } else if j1 > ins {
            assert(pages2[j1] == pages1[j1 - 1]);
            assert(pages2[j2] == pages1[j2 - 1]);
        }
    }
    lemma_entry_unique(pages2, e.index as int, ins);
    if seq_has_page(pages1, p) {
        let j1 = seq_entry_at(pages1, p);
        lemma_entry_unique(pages1, p, j1);
        let j2 = if j1 < ins {
            j1
        } else {
            j1 + 1
        };
        assert(pages2[j2] == pages1[j1]);
        lemma_entry_unique(pages2, p, j2);
    }
    if seq_has_page(pages2, p) {
        let j2 = seq_entry_at(pages2, p);
        assert(0 <= j2 < pages2.len() && pages2[j2].index == p);
        assert(j2 != ins);
        let j1 = if j2 < ins {
            j2
        } else {
            j2 - 1
        };
        assert(pages1[j1] == pages2[j2]);
        lemma_entry_unique(pages1, p, j1);
    }
}

/// A sparse collection of cached pages addressed by page index, exposing
/// byte-level reads and writes over the whole address space, a global root
/// commitment, and merkle inclusion proofs.
pub struct Memory {
    /// The allocated pages, sorted strictly by page index.
    pub pages: Vec<PageEntry>,
    /// `zero_hashes[l]` is the canonical digest of an all-zero subtree of
    /// height `l`, used in place of never-allocated regions.
    pub zero_hashes: Vec<[u8; 32]>,
}

impl Memory {
    pub open spec fn wf(self) -> bool {
        &&& pages_sorted(self.pages@)
        &&& forall|j: int|
            0 <= j < self.pages@.len() ==> (#[trigger] self.pages@[j]).index < PAGE_COUNT
        &&& forall|j: int| 0 <= j < self.pages@.len() ==> (#[trigger] self.pages@[j]).page.wf()
        &&& self.zero_hashes@.len() == 28
        &&& forall|l: int|
            0 <= l < 28 ==> (#[trigger] self.zero_hashes@[l])@ == zero_hash(l as nat)
    }

    pub open spec fn has_page(self, pi: int) -> bool {
        seq_has_page(self.pages@, pi)
    }

    /// The bytes of page `pi`: the entry's bytes when allocated, all zero
    /// otherwise.
    pub open spec fn page_data(self, pi: int) -> Seq<u8> {
        if seq_has_page(self.pages@, pi) {
            self.pages@[seq_entry_at(self.pages@, pi)].page.page.data@
        } else {
            zero_page()
        }
    }

    /// The whole address space as one byte sequence; addresses never written
    /// read as zero.
    pub open spec fn contents(self) -> Seq<u8> {
        Seq::new(
            ADDR_SPACE as nat,
            |a: int| self.page_data(a / (PAGE_SIZE as int))[a % (PAGE_SIZE as int)],
        )
    }

    /// The root commitment, a pure function of the contents alone.
    pub open spec fn root_spec(self) -> Seq<u8> {
        node_hash(self.contents(), TREE_DEPTH as nat, 0)
    }

    /// A fresh memory: no pages allocated, every address zero, the canonical
    /// zero digests of every tree height precomputed from the hash primitive.
    pub fn new() -> (r: Memory)
        ensures
            r.wf(),
            r.pages@.len() == 0,
            r.contents() == zero_memory(),
    {
        let mut zero_hashes: Vec<[u8; 32]> = Vec::new();
        let z0 = [0u8; 32];
        proof {
            assert(z0@ =~= zero_hash(0));
        }
        zero_hashes.push(z0);
        let mut z = z0;
        let mut l: usize = 0;
        while l < 27
            invariant
                zero_hashes@.len() == l + 1,
                l <= 27,
                z == zero_hashes@[l as int],
                forall|k: int| 0 <= k <= l ==> (#[trigger] zero_hashes@[k])@ == zero_hash(k as nat),
            decreases 27 - l,
        {
            z = keccak_concat_hashes(z, z);
            zero_hashes.push(z);
            l = l + 1;
        }
        let r = Memory { pages: Vec::new(), zero_hashes };
        proof {
            assert forall|a: int| 0 <= a < ADDR_SPACE implies r.contents()[a] == 0u8 by {
                lemma_mod_bound(a, PAGE_SIZE as int);
            }
            assert(r.contents() =~= zero_memory());
        }
        r
    }

    /// First position in `[lo, hi)` whose page index is at least `bound`;
    /// `hi` if there is none.
    fn find_from(&self, lo: usize, hi: usize, bound: u64) -> (r: usize)
        requires
            pages_sorted(self.pages@),
            lo <= hi <= self.pages@.len(),
        ensures
            lo <= r <= hi,
            forall|j: int| lo <= j < r ==> (#[trigger] self.pages@[j]).index < bound,
            forall|j: int| r <= j < hi ==> (#[trigger] self.pages@[j]).index >= bound,
    {
        let mut k = lo;
        while k < hi
            invariant
                lo <= k <= hi <= self.pages@.len(),
                pages_sorted(self.pages@),
                forall|j: int| lo <= j < k ==> (#[trigger] self.pages@[j]).index < bound,
            decreases hi - k,
        {
            if self.pages[k].index >= bound {
                proof {
                    assert forall|j: int| k <= j < hi implies (#[trigger] self.pages@[j]).index
                        >= bound by {
                        if j > k {
                            assert(self.pages@[k as int].index < self.pages@[j].index);
                        }
                    }
                }
                return k;
            }
            k = k + 1;
        }
        hi
    }

    /// The position of the entry holding page `pi`, if the page has been
    /// allocated.
    fn find_page(&self, pi: u64) -> (r: Option<usize>)
        requires
            pages_sorted(self.pages@),
        ensures
            match r {
                Some(j) => j < self.pages@.len() && self.pages@[j as int].index == pi
                    && seq_has_page(self.pages@, pi as int) && seq_entry_at(self.pages@, pi as int)
                    == j,
                None => !seq_has_page(self.pages@, pi as int),
            },
    {
        let mut k: usize = 0;
        while k < self.pages.len()
            invariant
                k <= self.pages@.len(),
                pages_sorted(self.pages@),
                forall|j: int| 0 <= j < k ==> (#[trigger] self.pages@[j]).index != pi,
            decreases self.pages@.len() - k,
        {
            if self.pages[k].index == pi {
                proof {
                    lemma_entry_unique(self.pages@, pi as int, k as int);
                }
                return Some(k);
            }
            k = k + 1;
        }
        proof {
            if seq_has_page(self.pages@, pi as int) {
                let j = choose|j: int|
                    0 <= j < self.pages@.len() && (#[trigger] self.pages@[j].index) == pi;
                assert(self.pages@[j].index != pi);
            }
        }
        None
    }

    /// One byte of the address space; an address never written reads zero.
    pub fn read_byte(&self, addr: u64) -> (r: u8)
        requires
            self.wf(),
            addr < ADDR_SPACE,
        ensures
            r == self.contents()[addr as int],
    {
        let pi = addr / PAGE_SIZE;
        let off = (addr % PAGE_SIZE) as usize;
        proof {
            lemma_mod_bound(addr as int, PAGE_SIZE as int);
        }
        match self.find_page(pi) {
            Some(j) => self.pages[j].page.page.read_byte(off),
            None => 0u8,
        }
    }

    /// Write one byte, allocating a fresh zero-filled page on the first
    /// write to a previously untouched page index.
    pub fn write_byte(&mut self, addr: u64, b: u8)
        requires
            old(self).wf(),
            addr < ADDR_SPACE,
        ensures
            final(self).wf(),
            final(self).contents() == old(self).contents().update(addr as int, b),
    {
        let pi = addr / PAGE_SIZE;
        let off = (addr % PAGE_SIZE) as usize;
        proof {
            lemma_mod_bound(addr as int, PAGE_SIZE as int);
            lemma_fundamental_div_mod(addr as int, PAGE_SIZE as int);
            assert(pi < PAGE_COUNT);
        }
        let found = self.find_page(pi);
        match found {
            Some(j) => {
                let ghost pages1 = self.pages@;
                let mut e = self.pages.remove(j);
                e.page.write_byte(off, b);
                self.pages.insert(j, e);
                proof {
                    assert(self.pages@ =~= pages1.update(j as int, self.pages@[j as int]));
                    assert forall|p: int| p != pi implies #[trigger] self.page_data(p) == old(
                        self,
                    ).page_data(p) by {
                        lemma_entries_after_update(pages1, self.pages@, j as int, p);
                    }
                    lemma_entry_unique(self.pages@, pi as int, j as int);
                    assert(self.page_data(pi as int) == old(self).page_data(pi as int).update(
                        off as int,
                        b,
                    ));
                    self.lemma_contents_after_byte(*old(self), pi as int, off as int, b);
                }
            },
            None => {
                let ins = self.find_from(0, self.pages.len(), pi);
                let mut cp = CachedPage::new();
                cp.write_byte(off, b);
                let ghost pages1 = self.pages@;
                let e = PageEntry { index: pi, page: cp };
                self.pages.insert(ins, e);
                proof {
                    assert(self.pages@ =~= pages1.insert(ins as int, e));
                    assert forall|j2: int| ins <= j2 < pages1.len() implies (#[trigger] pages1[j2].index)
                        > pi by {
                        assert(pages1[j2].index >= pi);
                        assert(pages1[j2].index != pi);
                    }
                    assert forall|p: int| p != pi implies #[trigger] self.page_data(p) == old(
                        self,
                    ).page_data(p) by {
                        lemma_entries_after_insert(pages1, self.pages@, ins as int, e, p);
                    }
                    lemma_entries_after_insert(pages1, self.pages@, ins as int, e, pi + 1);
                    assert(self.page_data(pi as int) == zero_page().update(off as int, b));
                    assert(old(self).page_data(pi as int) == zero_page());
                    self.lemma_contents_after_byte(*old(self), pi as int, off as int, b);
                }
            },
        }
    }

    /// Two memories whose pages agree everywhere but one byte of one page
    /// have contents that differ in exactly that byte.
    proof fn lemma_contents_after_byte(self, m1: Memory, pi: int, off: int, b: u8)
        requires
            0 <= pi < PAGE_COUNT,
            0 <= off < PAGE_SIZE,
            m1.page_data(pi).len() == PAGE_SIZE,
            forall|p: int| p != pi ==> #[trigger] self.page_data(p) == m1.page_data(p),
            self.page_data(pi) == m1.page_data(pi).update(off, b),
        ensures
            self.contents() == m1.contents().update(pi * (PAGE_SIZE as int) + off, b),
    {
        let ps = PAGE_SIZE as int;
        let target = pi * ps + off;
        assert(0 <= target < ADDR_SPACE) by (nonlinear_arith)
            requires
                ps == 4096,
                0 <= pi < 0x10_0000,
                0 <= off < 4096,
                target == pi * ps + off,
        ;
        assert forall|a: int| 0 <= a < ADDR_SPACE implies self.contents()[a] == m1.contents(
        ).update(target, b)[a] by {
            let p = a / ps;
            let o = a % ps;
            lemma_fundamental_div_mod(a, ps);
            lemma_mod_bound(a, ps);
            if p == pi && o == off {
                assert(a == target);
            } else {
                if a == target {
                    lemma_fundamental_div_mod(target, ps);
                    lemma_mod_bound(target, ps);
                    assert(target / ps == pi && target % ps == off) by (nonlinear_arith)
                        requires
                            ps == 4096,
                            0 <= off < ps,
                            target == pi * ps + off,
                            target == ps * (target / ps) + target % ps,
                            0 <= target % ps < ps,
                            0 <= pi,
                    ;
                }
                if p == pi {
                    assert(self.contents()[a] == self.page_data(pi)[o]);
                    assert(self.page_data(pi)[o] == m1.page_data(pi)[o]);
                }
            }
        }
        assert(self.contents() =~= m1.contents().update(target, b));
    }

    /// Read `length` bytes starting at `address`, transparently crossing
    /// page boundaries; fails only when the range leaves the address space,
    /// and a zero-length read of an in-range address succeeds.
    pub fn read(&self, address: u64, length: usize) -> (r: Result<Vec<u8>, VmError>)
        requires
            self.wf(),
        ensures
            match r {
                Ok(v) => address + length <= ADDR_SPACE && v@ == self.contents().subrange(
                    address as int,
                    address as int + length as int,
                ),
                Err(e) => e == VmError::OutOfBounds && address + length > ADDR_SPACE,
            },
    {
        if address > ADDR_SPACE || (length as u64) > ADDR_SPACE - address {
            return Err(VmError::OutOfBounds);
        }
        let mut v: Vec<u8> = Vec::new();
        let mut k: usize = 0;
        while k < length
            invariant
                self.wf(),
                address + length <= ADDR_SPACE,
                k <= length,
                v@.len() == k,
                forall|j: int| 0 <= j < k ==> v@[j] == self.contents()[address + j],
            decreases length - k,
        {
            v.push(self.read_byte(address + k as u64));
            k = k + 1;
        }
        assert(v@ =~= self.contents().subrange(address as int, address as int + length as int));
        Ok(v)
    }

    /// Write `data` starting at `address`, transparently crossing page
    /// boundaries and allocating pages as needed; fails only when the range
    /// leaves the address space, changing nothing. A zero-length write of an
    /// in-range address succeeds and changes nothing.
    pub fn write(&mut self, address: u64, data: &[u8]) -> (r: Result<(), VmError>)
        requires
            old(self).wf(),
        ensures
            final(self).wf(),
            match r {
                Ok(()) => address + data@.len() <= ADDR_SPACE && final(self).contents()
                    == splice_bytes(old(self).contents(), address as int, data@),
                Err(e) => {
                    &&& e == VmError::OutOfBounds
                    &&& address + data@.len() > ADDR_SPACE
                    &&& *final(self) == *old(self)
                },
            },
    {
        if address > ADDR_SPACE || (data.len() as u64) > ADDR_SPACE - address {
            return Err(VmError::OutOfBounds);
        }
        let ghost c1 = self.contents();
        let mut k: usize = 0;
        while k < data.len()
            invariant
                self.wf(),
                address + data@.len() <= ADDR_SPACE,
                k <= data@.len(),
                self.contents() == splice_bytes(c1, address as int, data@.take(k as int)),
                c1.len() == ADDR_SPACE,
            decreases data@.len() - k,
        {
            self.write_byte(address + k as u64, data[k]);
            proof {
                assert(self.contents() =~= splice_bytes(c1, address as int, data@.take(k + 1)));
            }
            k = k + 1;
        }
        proof {
            assert(data@.take(data@.len() as int) =~= data@);
        }
        Ok(())
    }

    /// Digest of the tree node at page height or above at position `i`,
    /// where the entries in `[lo, hi)` are exactly those under the node;
    /// commits the touched pages and changes no byte of the contents.
    #[verifier::rlimit(60)]
    #[verifier::spinoff_prover]
    fn subtree_root(&mut self, level: u64, i: u64, lo: usize, hi: usize) -> (r: [u8; 32])
        requires
            old(self).wf(),
            7 <= level <= 27,
            (i as int) < pow2((27 - level) as nat),
            lo <= hi <= old(self).pages@.len(),
            forall|j: int|
                lo <= j < hi ==> (i as int) * (pow2((level - 7) as nat) as int) <= (
                #[trigger] old(self).pages@[j]).index < (i as int + 1) * (pow2(
                    (level - 7) as nat,
                ) as int),
            forall|j: int|
                0 <= j < lo ==> (#[trigger] old(self).pages@[j]).index < (i as int) * (pow2(
                    (level - 7) as nat,
                ) as int),
            forall|j: int|
                hi <= j < old(self).pages@.len() ==> (#[trigger] old(self).pages@[j]).index >= (
                i as int + 1) * (pow2((level - 7) as nat) as int),
        ensures
            final(self).wf(),
            final(self).pages@.len() == old(self).pages@.len(),
            forall|j: int|
                0 <= j < old(self).pages@.len() ==> (#[trigger] final(self).pages@[j]).index == old(
                    self,
                ).pages@[j].index,
            forall|j: int|
                0 <= j < old(self).pages@.len() ==> (#[trigger] final(self).pages@[j]).page.page.data@
                    == old(self).pages@[j].page.page.data@,
            final(self).zero_hashes@ == old(self).zero_hashes@,
            final(self).contents() == old(self).contents(),
            r@ == node_hash(old(self).contents(), level as nat, i as int),
        decreases level,
    {
        proof {
            lemma_pow2_pos((level - 7) as nat);
            lemma_pow2_pos((27 - level) as nat);
        }
        if lo == hi {
            let r = self.zero_hashes[level as usize];
            proof {
                let w = pow2((level - 7) as nat) as int;
                assert forall|j: int| 0 <= j < self.pages@.len() implies !((i as int) * w <= (
                #[trigger] self.pages@[j]).index < (i as int + 1) * w) by {}
                lemma_empty_range_zero(*self, level as nat, i as int);
            }
            return r;
        }
        if level == 7 {
            proof {
                lemma2_to64();
                assert(pow2((level - 7) as nat) == 1);
                assert forall|j: int| lo <= j < hi implies (#[trigger] old(self).pages@[j]).index
                    == i by {
                    assert((i as int) * (pow2((level - 7) as nat) as int) <= old(
                        self,
                    ).pages@[j].index < (i as int + 1) * (pow2((level - 7) as nat) as int));
                }
                if hi > lo + 1 {
                    assert(old(self).pages@[lo as int].index < old(self).pages@[lo as int
                        + 1].index);
                    assert(false);
                }
                assert(old(self).pages@[lo as int].index == i);
            }
            let ghost pages1 = self.pages@;
            let ghost m1 = *self;
            let mut e = self.pages.remove(lo);
            let root = e.page.commit();
            self.pages.insert(lo, e);
            proof {
                assert(self.pages@ =~= pages1.update(lo as int, self.pages@[lo as int]));
                lemma_contents_same(m1, *self);
                let p = m1.pages@[lo as int].index as int;
                lemma_entry_unique(m1.pages@, p, lo as int);
                assert(p == i as int);
                lemma_page_subrange(m1, p);
                lemma_node_hash_page(m1.contents(), p, 7, 0);
                lemma2_to64();
            }
            return root;
        }
        let w = exec_pow2(level - 7);
        let half = exec_pow2(level - 8);
        proof {
            lemma_pow2_unfold((level - 7) as nat);
            lemma_pow2_adds((27 - level) as nat, (level - 7) as nat);
            lemma2_to64();
            assert(0 <= (i as int) * (w as int) && (i as int) * (w as int) + (w as int) == (
            i as int + 1) * (w as int) && (i as int + 1) * (w as int) <= pow2(20)) by (
            nonlinear_arith)
                requires
                    0 <= (i as int),
                    (i as int) < pow2((27 - level) as nat),
                    pow2((27 - level) as nat) * pow2((level - 7) as nat) == pow2(20),
                    w == pow2((level - 7) as nat),
                    w >= 1,
            ;
        }
        let start = i * w;
        let mid_bound = start + half;
        let mid = self.find_from(lo, hi, mid_bound);
        proof {
            assert((2 * (i as int)) * (half as int) == (i as int) * (w as int) && (2 * (i as int)
                + 1) * (half as int) == (i as int) * (w as int) + (half as int) && (2 * (i as int)
                + 2) * (half as int) == (i as int + 1) * (w as int)) by (nonlinear_arith)
                requires
                    (w as int) == 2 * (half as int),
            ;
            lemma_pow2_unfold((28 - level) as nat);
            assert(2 * (i as int) + 1 < pow2((28 - level) as nat));
        }
        let ghost m1 = *self;
        let left = self.subtree_root(level - 1, 2 * i, lo, mid);
        proof {
            assert forall|j: int| 0 <= j < self.pages@.len() implies (#[trigger] self.pages@[j]).index
                == m1.pages@[j].index by {}
        }
        let ghost m2 = *self;
        let right = self.subtree_root(level - 1, 2 * i + 1, mid, hi);
        let r = keccak_concat_hashes(left, right);
        proof {
            assert(m2.contents() == m1.contents());
            assert(left@ == node_hash(m1.contents(), (level - 1) as nat, 2 * (i as int)));
            assert(right@ == node_hash(m1.contents(), (level - 1) as nat, 2 * (i as int) + 1));
            assert(r@ == node_hash(m1.contents(), level as nat, i as int));
        }
        r
    }

    /// Commit every touched page and fold the page roots, with the canonical
    /// zero digest standing in for every untouched region, up to the single
    /// root digest of the whole address space. Deterministic: a pure
    /// function of the current contents.
    pub fn merkle_root(&mut self) -> (r: [u8; 32])
        requires
            old(self).wf(),
        ensures
            final(self).wf(),
            final(self).contents() == old(self).contents(),
            r@ == old(self).root_spec(),
    {
        let n = self.pages.len();
        proof {
            lemma2_to64();
            assert(pow2((TREE_DEPTH - 7) as nat) == 0x10_0000);
            assert((0 as int) * (pow2((TREE_DEPTH - 7) as nat) as int) == 0);
            assert((0 as int + 1) * (pow2((TREE_DEPTH - 7) as nat) as int) == 0x10_0000);
            assert(pow2((27 - TREE_DEPTH) as nat) == 1);
        }
        self.subtree_root(TREE_DEPTH, 0, 0, n)
    }

    /// Digest or leaf value of any node of the hash tree, committing pages
    /// as needed; changes no byte of the contents.
    fn node_hash_at(&mut self, level: u64, i: u64) -> (r: [u8; 32])
        requires
            old(self).wf(),
            level <= 27,
            (i as int) < pow2((27 - level) as nat),
        ensures
            final(self).wf(),
            final(self).contents() == old(self).contents(),
            r@ == node_hash(old(self).contents(), level as nat, i as int),
        decreases 28u64,
    {
        if level >= 7 {
            let w = exec_pow2(level - 7);
            proof {
                lemma_pow2_pos((level - 7) as nat);
                lemma_pow2_adds((27 - level) as nat, (level - 7) as nat);
                lemma2_to64();
                assert(0 <= (i as int) * (w as int) && (i as int) * (w as int) + (w as int) == (
                i as int + 1) * (w as int) && (i as int + 1) * (w as int) <= pow2(20)) by (
                nonlinear_arith)
                    requires
                        0 <= (i as int),
                        (i as int) < pow2((27 - level) as nat),
                        pow2((27 - level) as nat) * pow2((level - 7) as nat) == pow2(20),
                        w == pow2((level - 7) as nat),
                        w >= 1,
                ;
            }
            let start = i * w;
            let endb = start + w;
            let n = self.pages.len();
            let lo = self.find_from(0, n, start);
            let hi = self.find_from(lo, n, endb);
            proof {
                assert forall|j: int| lo <= j < hi implies (i as int) * (w as int) <= (
                #[trigger] self.pages@[j]).index < (i as int + 1) * (w as int) by {
                    if j >= lo {
                        assert(self.pages@[j].index >= start);
                    }
                }
                assert forall|j: int| hi <= j < self.pages@.len() implies (
                #[trigger] self.pages@[j]).index >= (i as int + 1) * (w as int) by {}
            }
            self.subtree_root(level, i, lo, hi)
        } else {
            proof {
                lemma_pow2_pos((7 - level) as nat);
            }
            let q = exec_pow2(7 - level);
            let pi = i / q;
            let li = i % q;
            proof {
                lemma_pow2_adds(20, (7 - level) as nat);
                lemma_fundamental_div_mod(i as int, q as int);
                lemma_mod_bound(i as int, q as int);
                assert((pi as int) < pow2(20)) by (nonlinear_arith)
                    requires
                        (i as int) < pow2(20) * (q as int),
                        q >= 1,
                        i as int == (q as int) * (pi as int) + (li as int),
                        0 <= (li as int) < (q as int),
                ;
                lemma2_to64();
            }
            match self.find_page(pi) {
                None => {
                    let r = self.zero_hashes[level as usize];
                    proof {
                        lemma_node_in_absent_page(*self, level as nat, i as int, pi as int);
                    }
                    r
                },
                Some(j) => {
                    let ghost pages1 = self.pages@;
                    let ghost m1 = *self;
                    let mut e = self.pages.remove(j);
                    let _root = e.page.commit();
                    let r = e.page.node_value(level, li);
                    self.pages.insert(j, e);
                    proof {
                        assert(self.pages@ =~= pages1.update(j as int, self.pages@[j as int]));
                        lemma_contents_same(m1, *self);
                        lemma_page_subrange(m1, pi as int);
                        lemma_node_hash_page(m1.contents(), pi as int, level as nat, li as int);
                        assert((pi as int) * (q as int) + (li as int) == i as int) by (
                        nonlinear_arith)
                            requires
                                i as int == (q as int) * (pi as int) + (li as int),
                        ;
                    }
                    r
                },
            }
        }
    }

    /// The merkle inclusion proof for the chunk containing `address`: the
    /// sibling digests on the path from the chunk's position up to the
    /// root, bottom first. Folding them with the chunk's own value
    /// reproduces exactly what `merkle_root` reports.
    pub fn proof_for(&mut self, address: u64) -> (r: Vec<[u8; 32]>)
        requires
            old(self).wf(),
            address < ADDR_SPACE,
        ensures
            final(self).wf(),
            final(self).contents() == old(self).contents(),
            r@.len() == 27,
            forall|k: int|
                0 <= k < 27 ==> (#[trigger] r@[k])@ == node_hash(
                    old(self).contents(),
                    k as nat,
                    sibling_index(address as int / 32, k as nat),
                ),
    {
        let c = address / 32;
        let mut out: Vec<[u8; 32]> = Vec::new();
        let mut k: u64 = 0;
        while k < 27
            invariant
                self.wf(),
                self.contents() == old(self).contents(),
                c == address / 32,
                address < ADDR_SPACE,
                c < 0x800_0000,
                k <= 27,
                out@.len() == k,
                forall|kk: int|
                    0 <= kk < k ==> (#[trigger] out@[kk])@ == node_hash(
                        old(self).contents(),
                        kk as nat,
                        sibling_index(address as int / 32, kk as nat),
                    ),
            decreases 27 - k,
        {
            proof {
                lemma_pow2_pos(k as nat);
            }
            let p = exec_pow2(k);
            let q = c / p;
            let s = if q % 2 == 0 {
                q + 1
            } else {
                q - 1
            };
            proof {
                lemma_pow2_adds(k as nat, (27 - k) as nat);
                lemma_fundamental_div_mod(c as int, p as int);
                lemma_mod_bound(c as int, p as int);
                lemma2_to64();
                assert((q as int) < pow2((27 - k) as nat)) by (nonlinear_arith)
                    requires
                        (c as int) < pow2(k as nat) * pow2((27 - k) as nat),
                        p == pow2(k as nat),
                        p >= 1,
                        c as int == (p as int) * (q as int) + (c as int) % (p as int),
                        0 <= (c as int) % (p as int),
                ;
                lemma_pow2_unfold((27 - k) as nat);
                lemma_fundamental_div_mod(q as int, 2);
                lemma_mod_bound(q as int, 2);
                assert((s as int) < pow2((27 - k) as nat));
                assert(s as int == sibling_index(address as int / 32, k as nat));
            }
            let h = self.node_hash_at(k, s);
            out.push(h);
            k = k + 1;
        }
        out
    }
}

/// The horizontal position of the sibling of the node at height `k` on the
/// path above chunk `c`.
pub open spec fn sibling_index(c: int, k: nat) -> int {
    let q = c / (pow2(k) as int);
    if q % 2 == 0 {
        q + 1
    } else {
        q - 1
    }
}

/// Folding a value up the tree along the path above chunk `c`, hashing the
/// accumulator with the sibling digest of each height, on the side the path
/// dictates.
pub open spec fn fold_proof(acc: Seq<u8>, sibs: Seq<Seq<u8>>, c: int, k: nat) -> Seq<u8>
    decreases 27 - k,
{
    if k >= 27 {
        acc
    } else {
        let q = c / (pow2(k) as int);
        let nxt = if q % 2 == 0 {
            crate::keccak::keccak_of(acc + sibs[k as int])
        } else {
            crate::keccak::keccak_of(sibs[k as int] + acc)
        };
        fold_proof(nxt, sibs, c, (k + 1) as nat)
    }
}

proof fn lemma_fold_from(m: Seq<u8>, sibs: Seq<Seq<u8>>, c: int, k: nat)
    requires
        0 <= c < pow2(27),
        sibs.len() == 27,
        k <= 27,
        forall|kk: int|
            k <= kk < 27 ==> sibs[kk] == node_hash(m, kk as nat, sibling_index(c, kk as nat)),
    ensures
        fold_proof(node_hash(m, k, c / (pow2(k) as int)), sibs, c, k) == node_hash(m, 27, 0),
    decreases 27 - k,
{
    let p = pow2(k) as int;
    lemma_pow2_pos(k);
    let q = c / p;
    lemma_fundamental_div_mod(c, p);
    lemma_mod_bound(c, p);
    if k == 27 {
        assert(q == 0) by (nonlinear_arith)
            requires
                0 <= c < p,
                p >= 1,
                c == p * q + c % p,
                0 <= c % p < p,
        ;
    } else {
        lemma_pow2_unfold((k + 1) as nat);
        lemma_div_denominator(c, p, 2);
        assert(p * 2 == pow2((k + 1) as nat));
        let q2 = c / (pow2((k + 1) as nat) as int);
        assert(q2 == q / 2);
        lemma_fundamental_div_mod(q, 2);
        lemma_mod_bound(q, 2);
        if q % 2 == 0 {
            assert(2 * q2 == q);
            assert(node_hash(m, (k + 1) as nat, q2) == crate::keccak::keccak_of(
                node_hash(m, k, q) + node_hash(m, k, q + 1),
            ));
            assert(fold_proof(node_hash(m, k, q), sibs, c, k) == fold_proof(
                node_hash(m, (k + 1) as nat, q2),
                sibs,
                c,
                (k + 1) as nat,
            ));
        } else {
            assert(2 * q2 + 1 == q);
            assert(node_hash(m, (k + 1) as nat, q2) == crate::keccak::keccak_of(
                node_hash(m, k, q - 1) + node_hash(m, k, q),
            ));
            assert(fold_proof(node_hash(m, k, q), sibs, c, k) == fold_proof(
                node_hash(m, (k + 1) as nat, q2),
                sibs,
                c,
                (k + 1) as nat,
            ));
        }
        lemma_fold_from(m, sibs, c, (k + 1) as nat);
    }
}

/// Proof soundness: folding a correct sibling list with the current chunk
/// value at the address reproduces exactly the memory's root digest.
pub proof fn lemma_proof_soundness(m: Seq<u8>, sibs: Seq<Seq<u8>>, c: int)
    requires
        0 <= c < pow2(27),
        sibs.len() == 27,
        forall|k: int|
            0 <= k < 27 ==> sibs[k] == node_hash(m, k as nat, sibling_index(c, k as nat)),
    ensures
        fold_proof(node_hash(m, 0, c), sibs, c, 0) == node_hash(m, 27, 0),
{
    lemma2_to64();
    assert(c / (pow2(0) as int) == c);
    lemma_fold_from(m, sibs, c, 0);
}

/// For any address and any memory state: folding the sibling digests that
/// `proof_for` reports with the current chunk value at the address
/// reproduces exactly the root that `merkle_root` reports.
pub proof fn lemma_proof_for_folds_to_root(m: Memory, addr: int, sibs: Seq<Seq<u8>>)
    requires
        0 <= addr < ADDR_SPACE,
        sibs.len() == 27,
        forall|k: int|
            0 <= k < 27 ==> sibs[k] == node_hash(
                m.contents(),
                k as nat,
                sibling_index(addr / 32, k as nat),
            ),
    ensures
        fold_proof(node_hash(m.contents(), 0, addr / 32), sibs, addr / 32, 0) == m.root_spec(),
{
    lemma2_to64();
    lemma_proof_soundness(m.contents(), sibs, addr / 32);
}

/// Recompute a root from one 32-byte chunk value and a sibling list, as an
/// external verifier would, without the rest of the memory.
pub fn compute_root_from_proof(leaf: &[u8; 32], siblings: &Vec<[u8; 32]>, address: u64) -> (r: [u8;
    32])
    requires
        siblings@.len() == 27,
        address < ADDR_SPACE,
    ensures
        r@ == fold_proof(
            leaf@,
            siblings@.map_values(|x: [u8; 32]| x@),
            address as int / 32,
            0,
        ),
{
    let ghost sibs = siblings@.map_values(|x: [u8; 32]| x@);
    let c = address / 32;
    let mut acc = *leaf;
    let mut k: u64 = 0;
    while k < 27
        invariant
            k <= 27,
            c == address / 32,
            c < 0x800_0000,
            siblings@.len() == 27,
            sibs == siblings@.map_values(|x: [u8; 32]| x@),
            fold_proof(leaf@, sibs, c as int, 0) == fold_proof(acc@, sibs, c as int, k as nat),
        decreases 27 - k,
    {
        proof {
            lemma_pow2_pos(k as nat);
        }
        let p = exec_pow2(k);
        let q = c / p;
        let sib = siblings[k as usize];
        let nxt = if q % 2 == 0 {
            keccak_concat_hashes(acc, sib)
        } else {
            keccak_concat_hashes(sib, acc)
        };
        proof {
            assert(sibs[k as int] == sib@);
            assert(fold_proof(acc@, sibs, c as int, k as nat) == fold_proof(
                nxt@,
                sibs,
                c as int,
                (k + 1) as nat,
            ));
        }
        acc = nxt;
        k = k + 1;
    }
    acc
}

/// Write-order independence: the root commitment depends only on the final
/// byte contents, never on the order or granularity of the writes that
/// produced them — two memories with identical contents at every address
/// report identical roots.
pub proof fn lemma_root_depends_only_on_contents(m1: Memory, m2: Memory)
    requires
        m1.contents() == m2.contents(),
    ensures
        m1.root_spec() == m2.root_spec(),
{
}

/// Read-write consistency: reading back exactly the just-written range
/// returns the written bytes.
pub proof fn lemma_read_after_write(m: Seq<u8>, addr: int, d: Seq<u8>)
    requires
        0 <= addr,
        addr + d.len() <= m.len(),
    ensures
        splice_bytes(m, addr, d).subrange(addr, addr + d.len() as int) == d,
{
    assert(splice_bytes(m, addr, d).subrange(addr, addr + d.len() as int) =~= d);
}

/// A write changes nothing outside the written range, so an address never
/// covered by any write still holds the zero byte a fresh memory gave it.
pub proof fn lemma_write_preserves_others(m: Seq<u8>, addr: int, d: Seq<u8>, a: int)
    requires
        0 <= a < m.len(),
        !(addr <= a < addr + d.len()),
    ensures
        splice_bytes(m, addr, d)[a] == m[a],
{
}

/// Empty-tree baseline: an untouched memory's root commitment equals the
/// canonical zero digest of the full tree height.
pub proof fn lemma_untouched_root(m: Memory)
    requires
        m.contents() == zero_memory(),
    ensures
        m.root_spec() == zero_hash(TREE_DEPTH as nat),
{
    lemma2_to64();
    lemma2_to64_rest();
    assert(node_lo(27, 1) <= ADDR_SPACE);
    lemma_node_hash_zero(m.contents(), TREE_DEPTH as nat, 0);
}

/// Contents depend only on the entries' indexes and bytes.
proof fn lemma_contents_same(m1: Memory, m2: Memory)
    requires
        pages_sorted(m1.pages@),
        pages_sorted(m2.pages@),
        m2.pages@.len() == m1.pages@.len(),
        forall|j: int|
            0 <= j < m1.pages@.len() ==> (#[trigger] m2.pages@[j]).index == m1.pages@[j].index,
        forall|j: int|
            0 <= j < m1.pages@.len() ==> (#[trigger] m2.pages@[j]).page.page.data@
                == m1.pages@[j].page.page.data@,
    ensures
        m2.contents() == m1.contents(),
{
    assert forall|p: int| #[trigger] m2.page_data(p) == m1.page_data(p) by {
        if seq_has_page(m1.pages@, p) {
            let j1 = seq_entry_at(m1.pages@, p);
            lemma_entry_unique(m1.pages@, p, j1);
            lemma_entry_unique(m2.pages@, p, j1);
        } else if seq_has_page(m2.pages@, p) {
            let j2 = choose|j: int|
                0 <= j < m2.pages@.len() && (#[trigger] m2.pages@[j].index) == p;
            assert(m1.pages@[j2].index == p);
            assert(seq_has_page(m1.pages@, p));
        }
    }
    assert(m2.contents() =~= m1.contents());
}

/// The bytes of one allocated page, seen through the whole contents.
proof fn lemma_page_subrange(m: Memory, p: int)
    requires
        m.wf(),
        0 <= p < PAGE_COUNT,
    ensures
        m.contents().subrange(p * (PAGE_SIZE as int), p * (PAGE_SIZE as int) + (PAGE_SIZE as int))
            == m.page_data(p),
        m.page_data(p).len() == PAGE_SIZE,
{
    let ps = PAGE_SIZE as int;
    if seq_has_page(m.pages@, p) {
        let j = seq_entry_at(m.pages@, p);
        lemma_entry_unique(m.pages@, p, j);
        assert(m.pages@[j].page.wf());
    }
    assert forall|k: int| 0 <= k < ps implies m.contents()[p * ps + k] == m.page_data(p)[k] by {
        let a = p * ps + k;
        assert(0 <= a < ADDR_SPACE && a / ps == p && a % ps == k) by (nonlinear_arith)
            requires
                ps == 4096,
                0 <= p < 0x10_0000,
                0 <= k < ps,
                a == p * ps + k,
                a == ps * (a / ps) + a % ps,
                0 <= a % ps < ps,
        ;
    }
    assert(m.contents().subrange(p * ps, p * ps + ps) =~= m.page_data(p));
}

/// With no page allocated anywhere under a node at page height or above,
/// the node's digest is the canonical zero digest of its height.
proof fn lemma_empty_range_zero(m: Memory, level: nat, i: int)
    requires
        m.wf(),
        7 <= level <= 27,
        0 <= i < pow2((27 - level) as nat),
        forall|j: int|
            0 <= j < m.pages@.len() ==> !(i * (pow2((level - 7) as nat) as int) <= (
            #[trigger] m.pages@[j]).index < (i + 1) * (pow2((level - 7) as nat) as int)),
    ensures
        node_hash(m.contents(), level, i) == zero_hash(level),
{
    let w = pow2((level - 7) as nat) as int;
    let ps = PAGE_SIZE as int;
    lemma_pow2_adds((level - 7) as nat, 7);
    lemma_pow2_adds((27 - level) as nat, level);
    lemma2_to64();
    lemma2_to64_rest();
    assert(pow2(level) == w * 128);
    assert(node_lo(level, i + 1) <= ADDR_SPACE && 0 <= node_lo(level, i)) by (nonlinear_arith)
        requires
            0 <= i,
            i + 1 <= pow2((27 - level) as nat),
            pow2((27 - level) as nat) * pow2(level) == pow2(27),
            pow2(27) * 32 == ADDR_SPACE,
            node_lo(level, i) == i * pow2(level) * 32,
            node_lo(level, i + 1) == (i + 1) * pow2(level) * 32,
    ;
    assert forall|k: int| node_lo(level, i) <= k < node_lo(level, i + 1) implies #[trigger] m.contents(
    )[k] == 0 by {
        let p = k / ps;
        lemma_fundamental_div_mod(k, ps);
        lemma_mod_bound(k, ps);
        assert(i * w <= p < (i + 1) * w) by (nonlinear_arith)
            requires
                ps == 4096,
                k == ps * p + k % ps,
                0 <= k % ps < ps,
                i * (w * 128) * 32 <= k < (i + 1) * (w * 128) * 32,
                pow2(level) == w * 128,
                node_lo(level, i) == i * pow2(level) * 32,
                node_lo(level, i + 1) == (i + 1) * pow2(level) * 32,
                node_lo(level, i) <= k < node_lo(level, i + 1),
        ;
        if seq_has_page(m.pages@, p) {
            let j = choose|j: int| 0 <= j < m.pages@.len() && (#[trigger] m.pages@[j].index) == p;
            assert(!(i * w <= m.pages@[j].index < (i + 1) * w));
            assert(false);
        }
        assert(m.page_data(p) == zero_page());
    }
    lemma_node_hash_zero(m.contents(), level, i);
}

/// A node strictly below page height whose page was never allocated has the
/// canonical zero digest of its height.
proof fn lemma_node_in_absent_page(m: Memory, level: nat, i: int, pi: int)
    requires
        m.wf(),
        level < 7,
        0 <= i < pow2((27 - level) as nat),
        pi == i / (pow2((7 - level) as nat) as int),
        !seq_has_page(m.pages@, pi),
    ensures
        node_hash(m.contents(), level, i) == zero_hash(level),
{
    let q = pow2((7 - level) as nat) as int;
    let ps = PAGE_SIZE as int;
    let li = i % q;
    lemma_pow2_pos((7 - level) as nat);
    lemma_pow2_adds((7 - level) as nat, level);
    lemma_pow2_adds(20, (7 - level) as nat);
    lemma2_to64();
    lemma_fundamental_div_mod(i, q);
    lemma_mod_bound(i, q);
    assert(q * pow2(level) == 128);
    let p2 = pow2(level) as int;
    lemma_pow2_pos(level);
    assert(i * p2 * 32 == pi * 4096 + li * (p2 * 32) && (i + 1) * p2 * 32 == pi * 4096 + (li + 1)
        * (p2 * 32) && q * (p2 * 32) == 4096) by (nonlinear_arith)
        requires
            i == q * pi + li,
            q * p2 == 128,
    ;
    assert(0 <= li * (p2 * 32) && (li + 1) * (p2 * 32) <= 4096) by (nonlinear_arith)
        requires
            0 <= li < q,
            q * (p2 * 32) == 4096,
            p2 >= 1,
    ;
    assert(0 <= pi < 0x10_0000) by (nonlinear_arith)
        requires
            0 <= i < pow2(20) * q,
            q >= 1,
            i == q * pi + li,
            0 <= li < q,
            pow2(20) == 0x10_0000,
    ;
    assert(pi * ps <= node_lo(level, i) && node_lo(level, i + 1) <= (pi + 1) * ps);
    assert forall|k: int| node_lo(level, i) <= k < node_lo(level, i + 1) implies #[trigger] m.contents(
    )[k] == 0 by {
        lemma_fundamental_div_mod(k, ps);
        lemma_mod_bound(k, ps);
        assert(k / ps == pi) by (nonlinear_arith)
            requires
                ps == 4096,
                k == ps * (k / ps) + k % ps,
                0 <= k % ps < ps,
                pi * ps <= k < (pi + 1) * ps,
        ;
        assert(m.page_data(pi) == zero_page());
    }
    lemma_node_hash_zero(m.contents(), level, i);
}

} // verus!
