use btclib::crypto::{PrivateKey, Signature};
use btclib::transaction::{Transactions, TransactionsOutput};
use btclib::u256::U256;
use btclib::util::MerkleRoot;
use btclib::series::{factorial_iter, factorial_loop, fibbonaci};

#[test]
fn sha256_of_empty_input() {
    let h = btclib::hashing::Hash::hash_bytes(&vec![]);
    // e3b0c442 98fc1c14 9afbf4c8 996fb924 27ae41e4 649b934c a495991b 7852b855
    assert_eq!(h.0.w3, 0xe3b0c44298fc1c14);
    assert_eq!(h.0.w2, 0x9afbf4c8996fb924);
    assert_eq!(h.0.w1, 0x27ae41e4649b934c);
    assert_eq!(h.0.w0, 0xa495991b7852b855);
}

#[test]
fn hash_bytes_little_endian() {
    let h = btclib::hashing::Hash(U256::from_limbs([0x0102030405060708, 0, 0, 0xAA00_0000_0000_0000]));
    let b = h.as_bytes();
    assert_eq!(&b[0..8], &[8, 7, 6, 5, 4, 3, 2, 1]);
    assert_eq!(b[31], 0xAA);
    assert_eq!(btclib::hashing::Hash::zero().as_bytes(), [0u8; 32]);
}

#[test]
fn matches_target_is_at_most() {
    let h = btclib::hashing::Hash(U256::from_limbs([5, 0, 0, 0]));
    assert!(h.matches_target(U256::from_limbs([5, 0, 0, 0])));
    assert!(!h.matches_target(U256::from_limbs([4, 0, 0, 0])));
    assert!(h.matches_target(U256::from_limbs([0, 0, 0, 1])));
    assert!(btclib::hashing::Hash::zero().matches_target(U256::zero()));
}

#[test]
fn u256_arithmetic() {
    let a = U256::from_limbs([u64::MAX, 1, 0, 0]);
    assert_eq!(a.checked_mul_small(2), Some(U256::from_limbs([u64::MAX - 1, 3, 0, 0])));
    assert_eq!(U256::from_limbs([0, 0, 0, 1 << 63]).checked_mul_small(2), None);
    assert_eq!(U256::from_limbs([0, 1, 0, 0]).div_small(2), U256::from_limbs([1 << 63, 0, 0, 0]));
    assert_eq!(U256::from_limbs([7, 0, 0, 0]).div_small(2), U256::from_limbs([3, 0, 0, 0]));
    assert!(U256::from_limbs([0, 0, 1, 0]).lt(&U256::from_limbs([0, 0, 0, 1])));
    assert_eq!(U256::from_limbs([9, 0, 0, 0]).min(U256::from_limbs([3, 0, 0, 0])), U256::from_limbs([3, 0, 0, 0]));
}

#[test]
fn sign_and_verify() {
    let k = PrivateKey::new_key();
    let p = k.public_key().unwrap();
    let h = btclib::hashing::Hash(U256::from_limbs([1, 2, 3, 4]));
    let s = Signature::sign_output(&h, &k).unwrap();
    assert!(s.verify(&h, &p));
    let other = btclib::hashing::Hash(U256::from_limbs([1, 2, 3, 5]));
    assert!(!s.verify(&other, &p));
    let q = PrivateKey::new_key().public_key().unwrap();
    assert!(!s.verify(&h, &q));
    assert_eq!(Signature::sign_output(&h, &k), Some(s));
    let order = PrivateKey {
        bytes: [
            0xFF, 0xFF, 0xFF, 0xFF, 0xFF, 0xFF, 0xFF, 0xFF, 0xFF, 0xFF, 0xFF, 0xFF, 0xFF, 0xFF, 0xFF, 0xFE, 0xBA, 0xAE,
            0xDC, 0xE6, 0xAF, 0x48, 0xA0, 0x3B, 0xBF, 0xD2, 0x5E, 0x8C, 0xD0, 0x36, 0x41, 0x41,
        ],
    };
    assert_eq!(order.public_key(), None);
    let mut below = order;
    below.bytes[31] = 0x40;
    assert!(below.public_key().is_some());
    assert!(Signature::sign_output(&h, &below).is_some());
    let zero = PrivateKey { bytes: [0u8; 32] };
    assert_eq!(zero.public_key(), None);
    assert_eq!(Signature::sign_output(&h, &zero), None);
}

#[test]
fn single_transaction_merkle_root() {
    let k = PrivateKey::new_key();
    let t = Transactions::new(vec![], vec![TransactionsOutput { value: 5, unique_id: 9, pubkey: k.public_key().unwrap() }]);
    let root = MerkleRoot::calculate(&[t.clone()]);
    assert_eq!(root, MerkleRoot(t.hash()));
    let twice = btclib::hashing::Hash::hash_bytes(&{
        let mut v = vec![];
        btclib::codec::write_u256(&mut v, &t.hash().0);
        v
    });
    assert_ne!(root.0, twice);
}

#[test]
fn merkle_root_odd_layer_duplicates() {
    let k = PrivateKey::new_key();
    let p = k.public_key().unwrap();
    let txs: Vec<Transactions> = (0..3u128)
        .map(|i| Transactions::new(vec![], vec![TransactionsOutput { value: 1, unique_id: i, pubkey: p }]))
        .collect();
    let three = MerkleRoot::calculate(&txs);
    let mut four = txs.clone();
    four.push(txs[2].clone());
    assert_eq!(three, MerkleRoot::calculate(&four));
    assert_ne!(three, MerkleRoot::calculate(&txs[0..2]));
}

#[test]
fn encoding_bytes() {
    let mut v = vec![];
    btclib::codec::write_uint(&mut v, 23);
    btclib::codec::write_uint(&mut v, 24);
    btclib::codec::write_uint(&mut v, 500);
    btclib::codec::write_uint(&mut v, 1 << 40);
    assert_eq!(v, vec![23, 0x18, 24, 0x19, 0x01, 0xf4, 0x1b, 0, 0, 1, 0, 0, 0, 0, 0]);
    let mut w = vec![];
    btclib::codec::write_u256(&mut w, &U256::from_limbs([1, 2, 3, 4]));
    assert_eq!(w, vec![0x84, 1, 2, 3, 4]);
    let mut x = vec![];
    btclib::codec::write_bytes(&mut x, &[9, 8]);
    btclib::codec::write_bool(&mut x, true);
    assert_eq!(x, vec![0x42, 9, 8, 0xf5]);
}

#[test]
fn series_values() {
    assert_eq!(factorial_iter(10), 46);
    assert_eq!(factorial_loop(10), 45);
    assert_eq!(fibbonaci(10), 55);
    assert_eq!(factorial_iter(0), 1);
    assert_eq!(factorial_loop(1), 1);
    assert_eq!(fibbonaci(0), 0);
    assert_eq!(fibbonaci(2), 1);
}
