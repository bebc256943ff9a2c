use btclib::block::{Block, BlockHeader};
use btclib::blockchain::{min_target, BlockChain};
use btclib::crypto::{PrivateKey, Signature};
use btclib::error::BtcError;
use btclib::transaction::{Transactions, TransactionsInput, TransactionsOutput};
use btclib::u256::U256;
use btclib::util::MerkleRoot;

fn sample_tx() -> Transactions {
    let k = PrivateKey::new_key();
    let p = k.public_key().unwrap();
    let prev = btclib::hashing::Hash(U256::from_limbs([7, 8, 9, 10]));
    let signature = Signature::sign_output(&prev, &k).unwrap();
    Transactions::new(
        vec![TransactionsInput { prev_transaction_output_hash: prev, signature }],
        vec![
            TransactionsOutput { value: 300, unique_id: u128::MAX - 5, pubkey: p },
            TransactionsOutput { value: 1 << 40, unique_id: 0x0102_0304_0506_0708_090a_0b0c_0d0e_0f10, pubkey: p },
        ],
    )
}

#[test]
fn transaction_round_trip() {
    let t = sample_tx();
    let bytes = t.encode();
    let back = Transactions::decode(&bytes).unwrap();
    assert_eq!(back, t);
    assert_eq!(back.encode(), bytes);
    assert_eq!(back.hash(), t.hash());
}

#[test]
fn block_round_trip() {
    let t = sample_tx();
    let txs = vec![t.clone(), t];
    let root = MerkleRoot::calculate(&txs);
    let b = Block::new(BlockHeader::new(1_700_000_000_123, 77, btclib::hashing::Hash::zero(), root, min_target()), txs);
    let bytes = b.encode();
    let back = Block::decode(&bytes).unwrap();
    assert_eq!(back, b);
    assert_eq!(back.encode(), bytes);
}

#[test]
fn chain_round_trip() {
    let k = PrivateKey::new_key();
    let p = k.public_key().unwrap();
    let txs = vec![Transactions::new(vec![], vec![TransactionsOutput { value: 5_000_000_000, unique_id: 1, pubkey: p }])];
    let root = MerkleRoot::calculate(&txs);
    let b = Block::new(BlockHeader::new(1_700_000_000_000, 0, btclib::hashing::Hash::zero(), root, min_target()), txs);
    let mut chain = BlockChain::new();
    assert_eq!(chain.add_block(b), Ok(()));
    let u = chain.utxos().entries()[0].hash;
    let signature = Signature::sign_output(&u, &k).unwrap();
    let spend = Transactions::new(
        vec![TransactionsInput { prev_transaction_output_hash: u, signature }],
        vec![TransactionsOutput { value: 1, unique_id: 2, pubkey: p }],
    );
    assert_eq!(chain.add_to_mempool(spend), Ok(()));
    let bytes = chain.encode();
    let back = BlockChain::decode(&bytes).unwrap();
    assert_eq!(back.encode(), bytes);
    assert_eq!(back.block_height(), 1);
    assert_eq!(back.utxos().len(), 1);
    assert_eq!(back.target(), min_target());
    assert_eq!(back.utxos().get(&u).map(|e| e.0), Some(true));
    assert_eq!(back.mempool().len(), 0);
}

#[test]
fn malformed_input_rejected() {
    let bytes = sample_tx().encode();
    assert_eq!(Transactions::decode(&bytes[..bytes.len() - 1].to_vec()), Err(BtcError::MalformedInput));
    let mut longer = bytes.clone();
    longer.push(0);
    assert_eq!(Transactions::decode(&longer), Err(BtcError::MalformedInput));
    assert_eq!(Transactions::decode(&vec![]), Err(BtcError::MalformedInput));
    assert_eq!(Block::decode(&vec![0xff]), Err(BtcError::MalformedInput));
    assert!(matches!(BlockChain::decode(&vec![0x83, 0x80]), Err(BtcError::MalformedInput)));
    // a non-shortest integer head is not canonical
    let mut v = vec![];
    btclib::codec::write_uint(&mut v, 5);
    assert_eq!(btclib::codec::read_uint(&vec![0x18, 5], 0), None);
    assert_eq!(btclib::codec::read_uint(&v, 0), Some((5, 1)));
}
