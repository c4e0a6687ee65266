use bitturbulence::pieces::verify::{
    block_hashes, file_root, hash_block, hash_piece, hashes_equal, merkle_parent, merkle_root, piece_root,
    piece_root_from_block_hashes, verify_block, verify_piece,
};

#[test]
fn verify_correct() {
    let data: Vec<u8> = (0..16 * 1024).map(|i| (i % 251) as u8).collect();
    let root = piece_root(&data);
    assert!(verify_piece(&data, &root));
}

#[test]
fn verify_wrong() {
    let data: Vec<u8> = (0..16 * 1024).map(|i| (i % 251) as u8).collect();
    assert!(!verify_piece(&data, &[0u8; 32]));
}

#[test]
fn hash_is_32_bytes() {
    let h = hash_block(b"test");
    assert_eq!(h.len(), 32);
}

#[test]
fn merkle_root_single_leaf() {
    let leaf = [1u8; 32];
    assert_eq!(merkle_root(&[leaf]), leaf);
}

#[test]
fn merkle_root_two_leaves() {
    let a = [1u8; 32];
    let b = [2u8; 32];
    let expected = merkle_parent(&a, &b);
    assert_eq!(merkle_root(&[a, b]), expected);
}

#[test]
fn merkle_root_pads_to_pow2() {
    // 3 leaves, padded to 4 with the zero hash
    let a = [1u8; 32];
    let b = [2u8; 32];
    let c = [3u8; 32];
    let zero = [0u8; 32];
    let expected = merkle_parent(&merkle_parent(&a, &b), &merkle_parent(&c, &zero));
    assert_eq!(merkle_root(&[a, b, c]), expected);
}

#[test]
fn piece_root_deterministic() {
    let data: Vec<u8> = (0..64 * 1024).map(|i| (i % 251) as u8).collect();
    assert_eq!(piece_root(&data), piece_root(&data));
    assert_ne!(piece_root(&data), hash_block(&data));
}

#[test]
fn verify_block_correct() {
    let data = b"hello block";
    let h = hash_block(data);
    assert!(verify_block(data, &h));
}

#[test]
fn file_root_uses_merkle() {
    let p0 = [0xAAu8; 32];
    let p1 = [0xBBu8; 32];
    assert_eq!(file_root(&[p0, p1]), merkle_parent(&p0, &p1));
}

#[test]
fn sha256_of_abc_is_the_known_digest() {
    let expected: [u8; 32] = [
        0xba, 0x78, 0x16, 0xbf, 0x8f, 0x01, 0xcf, 0xea, 0x41, 0x41, 0x40, 0xde, 0x5d, 0xae, 0x22, 0x23, 0xb0, 0x03,
        0x61, 0xa3, 0x96, 0x17, 0x7a, 0x9c, 0xb4, 0x10, 0xff, 0x61, 0xf2, 0x00, 0x15, 0xad,
    ];
    assert_eq!(hash_block(b"abc"), expected);
    assert_eq!(hash_piece(b"abc"), expected);
}

#[test]
fn merkle_root_of_nothing_is_zero() {
    assert_eq!(merkle_root(&[]), [0u8; 32]);
}

#[test]
fn block_hashes_cut_into_16k_blocks() {
    let data: Vec<u8> = (0..(2 * 16384 + 5)).map(|i| (i % 7) as u8).collect();
    let hs = block_hashes(&data);
    assert_eq!(hs.len(), 3);
    assert_eq!(hs[0], hash_block(&data[..16384]));
    assert_eq!(hs[1], hash_block(&data[16384..32768]));
    assert_eq!(hs[2], hash_block(&data[32768..]));
    assert_eq!(piece_root(&data), piece_root_from_block_hashes(&hs));
}

#[test]
fn single_block_piece_root_is_merkle_of_one_leaf() {
    let data = vec![9u8; 100];
    assert_eq!(piece_root(&data), hash_block(&data));
}

#[test]
fn hashes_equal_compares_bytes() {
    let a = [5u8; 32];
    let mut b = [5u8; 32];
    assert!(hashes_equal(&a, &b));
    b[31] = 6;
    assert!(!hashes_equal(&a, &b));
}

#[test]
fn verify_block_rejects_other_data() {
    let h = hash_block(b"one");
    assert!(!verify_block(b"two", &h));
}
