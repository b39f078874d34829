//! Pages and cached page digests: the leaf-level byte blocks of the address
//! space, each with a memoized hash subtree and a dirty-invalidation rule.

use crate::errors::VmError;
use crate::keccak::keccak_concat_hashes;
use crate::tree::{
    exec_pow2, lemma_node_hash_depends, lemma_node_skips_byte, lemma_node_within_page, node_hash,
    splice_bytes, zero_page, PAGE_SIZE,
};
use vstd::arithmetic::power2::{lemma2_to64, lemma_pow2_pos, lemma_pow2_unfold, pow2};
use vstd::prelude::*;

verus! {

/// A fixed-size raw byte block, the leaf-level unit of memory.
pub struct Page {
    pub data: Vec<u8>,
}

impl Page {
    /// A page always holds exactly `PAGE_SIZE` bytes.
    pub open spec fn wf(self) -> bool {
        self.data@.len() == PAGE_SIZE
    }

    /// A fresh, zero-filled page.
    pub fn new() -> (r: Page)
        ensures
            r.wf(),
            r.data@ == zero_page(),
    {
        let mut data: Vec<u8> = Vec::new();
        let mut i: usize = 0;
        while i < 4096
            invariant
                data@.len() == i,
            i <= 4096,
            forall|k: int| 0 <= k < i ==> data@[k] == 0u8,
            decreases 4096 - i,
        {
            data.push(0u8);
            i = i + 1;
        }
        let r = Page { data };
        assert(r.data@ =~= zero_page());
        r
    }

    /// One byte of the page.
    pub fn read_byte(&self, offset: usize) -> (r: u8)
        requires
            self.wf(),
            offset < PAGE_SIZE,
        ensures
            r == self.data@[offset as int],
    {
        self.data[offset]
    }

    /// Replace one byte of the page.
    pub fn write_byte(&mut self, offset: usize, b: u8)
        requires
            old(self).wf(),
            offset < PAGE_SIZE,
        ensures
            final(self).wf(),
            final(self).data@ == old(self).data@.update(offset as int, b),
    {
        self.data[offset] = b;
    }

    /// The 32-byte chunk at chunk index `ci`: the leaf value of the page's
    /// hash subtree at that position.
    pub fn chunk_at(&self, ci: usize) -> (r: [u8; 32])
        requires
            self.wf(),
            ci < 128,
        ensures
            r@ == node_hash(self.data@, 0, ci as int),
    {
        let mut r = [0u8; 32];
        let mut j: usize = 0;
        while j < 32
            invariant
                self.wf(),
                ci < 128,
                j <= 32,
                forall|k: int| 0 <= k < j ==> r@[k] == self.data@[32 * ci + k],
            decreases 32 - j,
        {
            r[j] = self.data[32 * ci + j];
            j = j + 1;
        }
        assert(r@ =~= self.data@.subrange(ci as int * 32, ci as int * 32 + 32));
        r
    }
}

/// A page together with memoized digests for every internal node of the
/// page's own hash subtree. A cached digest is valid only while no byte
/// under it has been written since it was computed; writes invalidate the
/// path above the touched chunk and never hash eagerly.
pub struct CachedPage {
    pub page: Page,
    /// `cache[l][i]` holds the digest of the page-internal node `l` levels
    /// above the chunks at horizontal position `i`, for `l` in `1..=7`;
    /// row 0 is unused (leaves are read from the page directly).
    pub cache: Vec<Vec<[u8; 32]>>,
    /// `valid[l][i]` marks whether `cache[l][i]` is current.
    pub valid: Vec<Vec<bool>>,
}

impl CachedPage {
    /// Shape of the cache arena: one row per level, of the width of that
    /// level of the page subtree.
    pub open spec fn dims_ok(self) -> bool {
        &&& self.page.wf()
        &&& self.cache@.len() == 8
        &&& self.valid@.len() == 8
        &&& forall|l: int| 1 <= l <= 7 ==> (#[trigger] self.cache@[l])@.len() == pow2((7 - l) as nat)
        &&& forall|l: int| 1 <= l <= 7 ==> (#[trigger] self.valid@[l])@.len() == pow2((7 - l) as nat)
    }

    /// The memoization invariant: every digest marked valid equals the hash
    /// of the page bytes its node covers.
    pub open spec fn cache_ok(self) -> bool {
        forall|l: int, i: int|
            1 <= l <= 7 && 0 <= i < pow2((7 - l) as nat) && (#[trigger] self.valid@[l]@[i])
                ==> self.cache@[l]@[i]@ == node_hash(self.page.data@, l as nat, i)
    }

    pub open spec fn wf(self) -> bool {
        self.dims_ok() && self.cache_ok()
    }

    /// Every internal digest of the page subtree is memoized and current.
    pub open spec fn all_valid(self) -> bool {
        forall|l: int, i: int|
            1 <= l <= 7 && 0 <= i < pow2((7 - l) as nat) ==> #[trigger] self.valid@[l]@[i]
    }

    /// A fresh cached page over a zero-filled page, nothing memoized yet.
    pub fn new() -> (r: CachedPage)
        ensures
            r.wf(),
            r.page.data@ == zero_page(),
    {
        let mut cache: Vec<Vec<[u8; 32]>> = Vec::new();
        let mut valid: Vec<Vec<bool>> = Vec::new();
        let mut l: usize = 0;
        while l < 8
            invariant
                cache@.len() == l,
                valid@.len() == l,
                l <= 8,
                forall|lp: int|
                    1 <= lp < l ==> (#[trigger] cache@[lp])@.len() == pow2((7 - lp) as nat),
                forall|lp: int|
                    1 <= lp < l ==> (#[trigger] valid@[lp])@.len() == pow2((7 - lp) as nat),
                forall|lp: int, i: int|
                    1 <= lp < l && 0 <= i < pow2((7 - lp) as nat) ==> !(#[trigger] valid@[lp]@[i]),
            decreases 8 - l,
        {
            let mut row: Vec<[u8; 32]> = Vec::new();
            let mut vrow: Vec<bool> = Vec::new();
            if l >= 1 {
                let cnt = exec_pow2((7 - l) as u64) as usize;
                let mut i: usize = 0;
                while i < cnt
                    invariant
                        row@.len() == i,
                        vrow@.len() == i,
                        i <= cnt,
                        forall|k: int| 0 <= k < i ==> !(#[trigger] vrow@[k]),
                    decreases cnt - i,
                {
                    row.push([0u8; 32]);
                    vrow.push(false);
                    i = i + 1;
                }
                proof {
                    assert(pow2((7 - l) as nat) < 0x1_0000_0000) by {
                        lemma2_to64();
                        vstd::arithmetic::power2::lemma_pow2_strictly_increases(
                            (7 - l) as nat,
                            32,
                        );
                    }
                }
            }
            cache.push(row);
            valid.push(vrow);
            l = l + 1;
        }
        CachedPage { page: Page::new(), cache, valid }
    }

    /// Write one byte and mark every memoized digest on the path from the
    /// byte's chunk up to the page root as stale; no hashing happens here.
    pub fn write_byte(&mut self, offset: usize, b: u8)
        requires
            old(self).wf(),
            offset < PAGE_SIZE,
        ensures
            final(self).wf(),
            final(self).page.data@ == old(self).page.data@.update(offset as int, b),
            forall|l: int, i: int|
                1 <= l <= 7 && 0 <= i < pow2((7 - l) as nat) && (#[trigger] final(self).valid@[l]@[i])
                    ==> old(self).valid@[l]@[i],
    {
        let ghost d1 = self.page.data@;
        self.page.write_byte(offset, b);
        let ghost d2 = self.page.data@;
        let c = offset / 32;
        let mut l: u64 = 1;
        while l <= 7
            invariant
                1 <= l <= 8,
                c == offset / 32,
                offset < PAGE_SIZE,
                self.dims_ok(),
                self.page.data@ == d2,
                d2 == d1.update(offset as int, b),
                self.cache@ == old(self).cache@,
                old(self).dims_ok(),
                forall|lp: int, i: int|
                    1 <= lp <= 7 && 0 <= i < pow2((7 - lp) as nat) && (#[trigger] self.valid@[lp]@[i])
                        ==> old(self).valid@[lp]@[i],
                forall|lp: int, i: int|
                    1 <= lp <= 7 && 0 <= i < pow2((7 - lp) as nat) && (#[trigger] old(self).valid@[lp]@[i])
                        ==> old(self).cache@[lp]@[i]@ == node_hash(d1, lp as nat, i),
                forall|lp: int, i: int|
                    1 <= lp < l && 0 <= i < pow2((7 - lp) as nat) && (#[trigger] self.valid@[lp]@[i])
                        ==> i != (offset / 32) as int / pow2(lp as nat) as int,
            decreases 8 - l,
        {
            proof {
                lemma_pow2_pos(l as nat);
                lemma2_to64();
                vstd::arithmetic::power2::lemma_pow2_strictly_increases(l as nat, 8);
            }
            let p = exec_pow2(l) as usize;
            let idx = c / p;
            proof {
                assert(c < 128);
                vstd::arithmetic::power2::lemma_pow2_adds(l as nat, (7 - l) as nat);
                assert((c as int / p as int) < pow2((7 - l) as nat)) by (nonlinear_arith)
                    requires
                        p == pow2(l as nat),
                        p >= 1,
                        c < 128,
                        pow2(l as nat) * pow2((7 - l) as nat) == 128,
                ;
            }
            let ghost prev_valid = self.valid@;
            let mut vrow = self.valid.remove(l as usize);
            let ghost prev_row = vrow@;
            vrow[idx] = false;
            self.valid.insert(l as usize, vrow);
            proof {
                assert(self.valid@ =~= prev_valid.update(l as int, vrow));
                assert(vrow@ =~= prev_row.update(idx as int, false));
            }
            l = l + 1;
        }
        proof {
            assert forall|lp: int, i: int|
                1 <= lp <= 7 && 0 <= i < pow2((7 - lp) as nat) && (#[trigger] self.valid@[lp]@[i])
                    implies self.cache@[lp]@[i]@ == node_hash(d2, lp as nat, i) by {
                assert(old(self).valid@[lp]@[i]);
                assert(old(self).cache@[lp]@[i]@ == node_hash(d1, lp as nat, i));
                assert(i != (offset / 32) as int / pow2(lp as nat) as int);
                lemma_node_skips_byte(offset as int, lp as nat, i);
                lemma_node_within_page(lp as nat, i);
                lemma_node_hash_depends(d1, d2, lp as nat, i);
            }
        }
    }

    /// Read `length` bytes starting at `offset`; fails if the range exceeds
    /// the page bounds.
    pub fn read(&self, offset: usize, length: usize) -> (r: Result<Vec<u8>, VmError>)
        requires
            self.wf(),
        ensures
            match r {
                Ok(v) => offset + length <= PAGE_SIZE && v@ == self.page.data@.subrange(
                    offset as int,
                    offset as int + length as int,
                ),
                Err(e) => e == VmError::OutOfBounds && offset + length > PAGE_SIZE,
            },
    {
        if offset > 4096 || length > 4096 - offset {
            return Err(VmError::OutOfBounds);
        }
        let mut v: Vec<u8> = Vec::new();
        let mut k: usize = 0;
        while k < length
            invariant
                self.wf(),
                offset + length <= PAGE_SIZE,
                k <= length,
                v@.len() == k,
                forall|j: int| 0 <= j < k ==> v@[j] == self.page.data@[offset + j],
            decreases length - k,
        {
            v.push(self.page.read_byte(offset + k));
            k = k + 1;
        }
        assert(v@ =~= self.page.data@.subrange(offset as int, offset as int + length as int));
        Ok(v)
    }

    /// Copy `bytes` into the page starting at `offset`, invalidating the
    /// cached digests above every touched chunk; fails if the range exceeds
    /// the page bounds, changing nothing.
    pub fn write(&mut self, offset: usize, bytes: &[u8]) -> (r: Result<(), VmError>)
        requires
            old(self).wf(),
        ensures
            final(self).wf(),
            match r {
                Ok(()) => offset + bytes@.len() <= PAGE_SIZE && final(self).page.data@ == splice_bytes(
                    old(self).page.data@,
                    offset as int,
                    bytes@,
                ),
                Err(e) => {
                    &&& e == VmError::OutOfBounds
                    &&& offset + bytes@.len() > PAGE_SIZE
                    &&& final(self).page.data@ == old(self).page.data@
                    &&& final(self).cache@ == old(self).cache@
                    &&& final(self).valid@ == old(self).valid@
                },
            },
    {
        if offset > 4096 || bytes.len() > 4096 - offset {
            return Err(VmError::OutOfBounds);
        }
        let ghost d1 = self.page.data@;
        let mut k: usize = 0;
        while k < bytes.len()
            invariant
                self.wf(),
                offset + bytes@.len() <= PAGE_SIZE,
                k <= bytes@.len(),
                self.page.data@ == splice_bytes(d1, offset as int, bytes@.take(k as int)),
            decreases bytes@.len() - k,
        {
            let ghost before = self.page.data@;
            self.write_byte(offset + k, bytes[k]);
            proof {
                assert(self.page.data@ =~= splice_bytes(
                    d1,
                    offset as int,
                    bytes@.take(k as int + 1),
                ));
            }
            k = k + 1;
        }
        proof {
            assert(bytes@.take(bytes@.len() as int) =~= bytes@);
        }
        Ok(())
    }

    /// Recompute every stale digest bottom-up, memoize the results, and
    /// return the page-local root digest. Only digests marked stale are
    /// rehashed; everything else is served from the cache.
    pub fn commit(&mut self) -> (r: [u8; 32])
        requires
            old(self).wf(),
        ensures
            final(self).wf(),
            final(self).all_valid(),
            final(self).page.data@ == old(self).page.data@,
            r@ == node_hash(final(self).page.data@, 7, 0),
    {
        let ghost d = self.page.data@;
        let mut l: u64 = 1;
        while l <= 7
            invariant
                1 <= l <= 8,
                self.wf(),
                self.page.data@ == d,
                forall|lp: int, i: int|
                    1 <= lp < l && 0 <= i < pow2((7 - lp) as nat)
                        ==> #[trigger] self.valid@[lp]@[i],
            decreases 8 - l,
        {
            proof {
                lemma2_to64();
                lemma_pow2_unfold((8 - l) as nat);
                lemma_pow2_pos((7 - l) as nat);
                vstd::arithmetic::power2::lemma_pow2_strictly_increases((7 - l) as nat, 8);
            }
            let cnt = exec_pow2(7 - l) as usize;
            let mut new_row: Vec<[u8; 32]> = Vec::new();
            let mut new_vrow: Vec<bool> = Vec::new();
            let mut i: usize = 0;
            while i < cnt
                invariant
                    1 <= l <= 7,
                    cnt == pow2((7 - l) as nat),
                    cnt < 256,
                    pow2((8 - l) as nat) == 2 * pow2((7 - l) as nat),
                    self.wf(),
                    self.page.data@ == d,
                    forall|lp: int, ii: int|
                        1 <= lp < l && 0 <= ii < pow2((7 - lp) as nat)
                            ==> #[trigger] self.valid@[lp]@[ii],
                    i <= cnt,
                    new_row@.len() == i,
                    new_vrow@.len() == i,
                    forall|k: int| 0 <= k < i ==> (#[trigger] new_row@[k])@ == node_hash(d, l as nat, k),
                    forall|k: int| 0 <= k < i ==> #[trigger] new_vrow@[k],
                decreases cnt - i,
            {
                let value: [u8; 32];
                if self.valid[l as usize][i] {
                    proof {
                        assert(self.valid@[l as int]@[i as int]);
                    }
                    value = self.cache[l as usize][i];
                } else {
                    let left: [u8; 32];
                    let right: [u8; 32];
                    if l == 1 {
                        proof {
                            lemma2_to64();
                        }
                        left = self.page.chunk_at(2 * i);
                        right = self.page.chunk_at(2 * i + 1);
                    } else {
                        proof {
                            assert(self.valid@[l as int - 1]@[2 * (i as int)]);
                            assert(self.valid@[l as int - 1]@[2 * (i as int) + 1]);
                        }
                        left = self.cache[(l - 1) as usize][2 * i];
                        right = self.cache[(l - 1) as usize][2 * i + 1];
                    }
                    value = keccak_concat_hashes(left, right);
                    proof {
                        assert(left@ == node_hash(d, (l - 1) as nat, 2 * (i as int)));
                        assert(right@ == node_hash(d, (l - 1) as nat, 2 * (i as int) + 1));
                        assert(value@ == node_hash(d, l as nat, i as int));
                    }
                }
                new_row.push(value);
                new_vrow.push(true);
                i = i + 1;
            }
            let ghost prev_cache = self.cache@;
            let ghost prev_valid = self.valid@;
            self.cache.remove(l as usize);
            self.cache.insert(l as usize, new_row);
            self.valid.remove(l as usize);
            self.valid.insert(l as usize, new_vrow);
            proof {
                assert(self.cache@ =~= prev_cache.update(l as int, new_row));
                assert(self.valid@ =~= prev_valid.update(l as int, new_vrow));
            }
            l = l + 1;
        }
        proof {
            lemma2_to64();
            assert(self.valid@[7]@[0]);
            assert(self.cache@[7]@[0]@ == node_hash(d, 7, 0));
        }
        self.cache[7][0]
    }

    /// The digest or leaf value of the page-internal node at the given level
    /// and position; every internal digest must be current, as `commit`
    /// leaves them.
    pub fn node_value(&self, level: u64, i: u64) -> (r: [u8; 32])
        requires
            self.wf(),
            self.all_valid(),
            level <= 7,
            i < pow2((7 - level) as nat),
        ensures
            r@ == node_hash(self.page.data@, level as nat, i as int),
    {
        proof {
            lemma2_to64();
            vstd::arithmetic::power2::lemma_pow2_strictly_increases((7 - level) as nat, 32);
        }
        if level == 0 {
            self.page.chunk_at(i as usize)
        } else {
            proof {
                assert(self.valid@[level as int]@[i as int]);
            }
            self.cache[level as usize][i as usize]
        }
    }
}

} // verus!
