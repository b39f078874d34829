use mipsevm::{
    compute_root_from_proof, concat_fixed, is_leaf, is_left_child, keccak_concat_hashes,
    left_child, parent, path_to_root, right_child, sibling, sign_extend, CachedPage, Memory,
    VmError,
};

const PAGE: u64 = 4096;

#[test]
fn sign_extend_high_bit_set() {
    // bit 7 of 0x80 is set: every bit above bit 7 becomes one
    assert_eq!(sign_extend(0x80, 8), 0xFFFF_FFFF_FFFF_FF80);
}

#[test]
fn sign_extend_high_bit_clear() {
    // bit 7 of 0x7F is clear: the low byte survives, everything above is zero
    assert_eq!(sign_extend(0x7F, 8), 0x7F);
}

#[test]
fn sign_extend_wider_widths() {
    assert_eq!(sign_extend(0x8000_0000, 32), 0xFFFF_FFFF_8000_0000);
    assert_eq!(sign_extend(0x7FFF_FFFF, 32), 0x7FFF_FFFF);
    assert_eq!(sign_extend(0xFFFF, 16), 0xFFFF_FFFF_FFFF_FFFF);
}

#[test]
fn concat_fixed_orders_bytes() {
    let a = [1u8; 32];
    let b = [2u8; 32];
    let r = concat_fixed(a, b);
    assert_eq!(&r[..32], &a[..]);
    assert_eq!(&r[32..], &b[..]);
}

#[test]
fn keccak_of_two_zero_digests() {
    // keccak-256 of 64 zero bytes, a widely published constant
    let expected: [u8; 32] = [
        0xad, 0x32, 0x28, 0xb6, 0x76, 0xf7, 0xd3, 0xcd, 0x42, 0x84, 0xa5, 0x44, 0x3f, 0x17, 0xf1,
        0x96, 0x2b, 0x36, 0xe4, 0x91, 0xb3, 0x0a, 0x40, 0xb2, 0x40, 0x58, 0x49, 0xe5, 0x97, 0xba,
        0x5f, 0xb5,
    ];
    assert_eq!(keccak_concat_hashes([0u8; 32], [0u8; 32]), expected);
}

#[test]
fn read_after_write_returns_written_bytes() {
    let mut m = Memory::new();
    let data = [0xDEu8, 0xAD, 0xBE, 0xEF, 0x01, 0x02];
    m.write(0x2468, &data).unwrap();
    let back = m.read(0x2468, data.len()).unwrap();
    assert_eq!(back, data.to_vec());
}

#[test]
fn read_of_untouched_addresses_is_zero() {
    let m = Memory::new();
    assert_eq!(m.read(0, 16).unwrap(), vec![0u8; 16]);
    assert_eq!(m.read(0xFFFF_0000, 8).unwrap(), vec![0u8; 8]);
    let mut m2 = Memory::new();
    m2.write(100, &[7u8; 4]).unwrap();
    // neighbours of a written range stay zero
    assert_eq!(m2.read(96, 4).unwrap(), vec![0u8; 4]);
    assert_eq!(m2.read(104, 4).unwrap(), vec![0u8; 4]);
}

#[test]
fn zero_length_access_is_a_noop() {
    let mut m = Memory::new();
    assert_eq!(m.read(123, 0).unwrap(), Vec::<u8>::new());
    m.write(123, &[]).unwrap();
    assert_eq!(m.read(123, 1).unwrap(), vec![0u8]);
}

#[test]
fn out_of_bounds_access_is_reported() {
    let mut m = Memory::new();
    assert_eq!(m.read(0xFFFF_FFFF, 2).unwrap_err(), VmError::OutOfBounds);
    assert_eq!(m.write(0xFFFF_FFFF, &[1, 2]).unwrap_err(), VmError::OutOfBounds);
    assert_eq!(m.read(0x1_0000_0000, 1).unwrap_err(), VmError::OutOfBounds);
    // the last byte of the address space is still reachable
    m.write(0xFFFF_FFFF, &[9]).unwrap();
    assert_eq!(m.read(0xFFFF_FFFF, 1).unwrap(), vec![9]);
}

#[test]
fn root_ignores_write_order_and_granularity() {
    let mut a = Memory::new();
    let mut b = Memory::new();
    let bytes = [0x11u8, 0x22, 0x33, 0x44, 0x55, 0x66, 0x77, 0x88];
    a.write(0x5000, &bytes).unwrap();
    a.write(0x9000, &[0xAA]).unwrap();
    // same final contents, other order, byte by byte
    b.write(0x9000, &[0xAA]).unwrap();
    for (k, byte) in bytes.iter().enumerate() {
        b.write(0x5000 + k as u64, &[*byte]).unwrap();
    }
    assert_eq!(a.merkle_root(), b.merkle_root());
    // overwriting with identical bytes changes nothing
    a.write(0x5000, &bytes).unwrap();
    assert_eq!(a.merkle_root(), b.merkle_root());
}

#[test]
fn untouched_root_is_canonical_zero_root() {
    // fold the zero chunk up all 27 levels by hand
    let mut z = [0u8; 32];
    for _ in 0..27 {
        z = keccak_concat_hashes(z, z);
    }
    let mut m = Memory::new();
    assert_eq!(m.merkle_root(), z);
}

#[test]
fn proof_folds_back_to_root() {
    let mut m = Memory::new();
    m.write(0x1000, &[1, 2, 3, 4]).unwrap();
    m.write(0x8_0000, &[9; 40]).unwrap();
    for addr in [0x1000u64, 0x1001, 0x8_0000, 0x0, 0xFFFF_FFE0] {
        let root = m.merkle_root();
        let proof = m.proof_for(addr);
        assert_eq!(proof.len(), 27);
        let chunk = m.read(addr & !31, 32).unwrap();
        let leaf: [u8; 32] = chunk.try_into().unwrap();
        assert_eq!(compute_root_from_proof(&leaf, &proof, addr), root);
    }
}

#[test]
fn tampered_proof_does_not_validate() {
    let mut m = Memory::new();
    m.write(0x1000, &[5; 8]).unwrap();
    let root = m.merkle_root();
    let proof = m.proof_for(0x1000);
    let chunk = m.read(0x1000, 32).unwrap();
    let mut leaf: [u8; 32] = chunk.try_into().unwrap();
    leaf[0] ^= 1;
    assert_ne!(compute_root_from_proof(&leaf, &proof, 0x1000), root);
}

#[test]
fn page_boundary_write_updates_both_pages() {
    let n = 3u64; // write spans the last byte of page 3 and the first of page 4
    let addr = (n + 1) * PAGE - 1;
    let mut m = Memory::new();
    m.write(addr, &[0xAB, 0xCD]).unwrap();
    let incremental = m.merkle_root();

    // independent full recomputation of the root from the raw bytes
    let page_root = |m: &Memory, pi: u64| -> [u8; 32] {
        let raw = m.read(pi * PAGE, PAGE as usize).unwrap();
        let mut level: Vec<[u8; 32]> = raw
            .chunks(32)
            .map(|c| {
                let a: [u8; 32] = c.try_into().unwrap();
                a
            })
            .collect();
        while level.len() > 1 {
            level = level
                .chunks(2)
                .map(|p| keccak_concat_hashes(p[0], p[1]))
                .collect();
        }
        level[0]
    };
    let p3 = page_root(&m, 3);
    let p4 = page_root(&m, 4);
    let mut zero_hashes = vec![[0u8; 32]; 28];
    for l in 1..28 {
        zero_hashes[l] = keccak_concat_hashes(zero_hashes[l - 1], zero_hashes[l - 1]);
    }
    // level 8 nodes over page pairs (2,3) and (4,5); all other pages are zero
    let l8b = keccak_concat_hashes(zero_hashes[7], p3);
    let l8c = keccak_concat_hashes(p4, zero_hashes[7]);
    // level 9 nodes over pages 0..4 and 4..8
    let l9a = keccak_concat_hashes(zero_hashes[8], l8b);
    let l9b = keccak_concat_hashes(l8c, zero_hashes[8]);
    // level 10 node over pages 0..8, then fold with zero siblings to the root
    let mut cur = keccak_concat_hashes(l9a, l9b);
    for l in 10..27 {
        cur = keccak_concat_hashes(cur, zero_hashes[l]);
    }
    assert_eq!(incremental, cur);

    // and both bytes read back across the boundary
    assert_eq!(m.read(addr, 2).unwrap(), vec![0xAB, 0xCD]);
}

#[test]
fn gindex_arithmetic() {
    assert_eq!(parent(6), 3);
    assert_eq!(parent(7), 3);
    assert_eq!(sibling(6), 7);
    assert_eq!(sibling(7), 6);
    assert_eq!(left_child(3), 6);
    assert_eq!(right_child(3), 7);
    assert!(is_left_child(6));
    assert!(!is_left_child(7));
    assert!(is_leaf(1, 0));
    assert!(is_leaf(5, 2));
    assert!(!is_leaf(5, 3));
    assert_eq!(path_to_root(11), vec![11, 5, 2, 1]);
    assert_eq!(path_to_root(1), vec![1]);
}

#[test]
fn cached_page_read_write_commit() {
    let mut p = CachedPage::new();
    assert_eq!(p.read(0, 4).unwrap(), vec![0; 4]);
    p.write(100, &[1, 2, 3]).unwrap();
    assert_eq!(p.read(99, 5).unwrap(), vec![0, 1, 2, 3, 0]);
    assert_eq!(p.read(4095, 2).unwrap_err(), VmError::OutOfBounds);
    assert_eq!(p.write(4096, &[1]).unwrap_err(), VmError::OutOfBounds);
    let r1 = p.commit();
    // committing twice without a write serves the same digest from the cache
    assert_eq!(p.commit(), r1);
    // a write invalidates the path above the touched chunk
    p.write(0, &[0xFF]).unwrap();
    assert_ne!(p.commit(), r1);
    // a fresh page commits to the canonical zero digest of page height
    let mut zero = [0u8; 32];
    for _ in 0..7 {
        zero = keccak_concat_hashes(zero, zero);
    }
    let mut fresh = CachedPage::new();
    assert_eq!(fresh.commit(), zero);
}
