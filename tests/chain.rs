use btclib::block::{reward_at, Block, BlockHeader};
use btclib::blockchain::{min_target, retarget_value, BlockChain};
use btclib::crypto::{PrivateKey, PublicKey, Signature};
use btclib::error::BtcError;
use btclib::transaction::{Transactions, TransactionsInput, TransactionsOutput};
use btclib::u256::U256;
use btclib::util::MerkleRoot;
use btclib::{DIFFICULTY_UPDATE_INTERVAL, HALVING_INTERVAL, INITIAL_REWARD};

const T0: u64 = 1_700_000_000_000;

fn key() -> (PrivateKey, PublicKey) {
    let k = PrivateKey::new_key();
    let p = k.public_key().expect("fresh keys are valid");
    (k, p)
}

fn coinbase(value: u64, id: u128, pubkey: PublicKey) -> Transactions {
    Transactions::new(vec![], vec![TransactionsOutput { value, unique_id: id, pubkey }])
}

fn easiest() -> U256 {
    U256::from_limbs([u64::MAX; 4])
}

fn block_on(prev: btclib::hashing::Hash, timestamp: u64, target: U256, txs: Vec<Transactions>) -> Block {
    let root = MerkleRoot::calculate(&txs);
    Block::new(BlockHeader::new(timestamp, 0, prev, root, target), txs)
}

fn genesis_chain(pubkey: PublicKey) -> (BlockChain, btclib::hashing::Hash) {
    let mut chain = BlockChain::new();
    let cb = coinbase(INITIAL_REWARD * 100_000_000, 1, pubkey);
    let genesis = block_on(btclib::hashing::Hash::zero(), T0, min_target(), vec![cb]);
    let h = genesis.header.hash();
    assert_eq!(chain.add_block(genesis), Ok(()));
    (chain, h)
}

fn spend(prev: btclib::hashing::Hash, k: &PrivateKey, value: u64, id: u128, to: PublicKey) -> Transactions {
    let signature = Signature::sign_output(&prev, k).expect("valid key");
    Transactions::new(
        vec![TransactionsInput { prev_transaction_output_hash: prev, signature }],
        vec![TransactionsOutput { value, unique_id: id, pubkey: to }],
    )
}

#[test]
fn genesis_accept() {
    let (_, p) = key();
    let (chain, _) = genesis_chain(p);
    assert_eq!(chain.block_height(), 1);
    assert_eq!(chain.utxos().len(), 1);
}

#[test]
fn genesis_with_nonzero_prev_rejected() {
    let (_, p) = key();
    let mut chain = BlockChain::new();
    let cb = coinbase(1, 1, p);
    let prev = btclib::hashing::Hash(U256::from_limbs([1, 0, 0, 0]));
    let b = block_on(prev, T0, min_target(), vec![cb]);
    assert_eq!(chain.add_block(b), Err(BtcError::InvalidBlock));
    assert_eq!(chain.block_height(), 0);
}

#[test]
fn reject_second_block_with_wrong_prev_hash() {
    let (_, p) = key();
    let (mut chain, _) = genesis_chain(p);
    let cb = coinbase(reward_at(1), 2, p);
    let b = block_on(btclib::hashing::Hash::zero(), T0 + 1000, easiest(), vec![cb]);
    assert_eq!(chain.add_block(b), Err(BtcError::InvalidBlock));
    assert_eq!(chain.block_height(), 1);
}

#[test]
fn reject_block_failing_pow() {
    let (_, p) = key();
    let (mut chain, h) = genesis_chain(p);
    let cb = coinbase(reward_at(1), 2, p);
    let b = block_on(h, T0 + 1000, U256::zero(), vec![cb]);
    assert_eq!(chain.add_block(b), Err(BtcError::InvalidBlock));
    assert_eq!(chain.block_height(), 1);
}

#[test]
fn reject_wrong_merkle_root_and_old_timestamp() {
    let (_, p) = key();
    let (mut chain, h) = genesis_chain(p);
    let cb = coinbase(reward_at(1), 2, p);
    let mut b = block_on(h, T0 + 1000, easiest(), vec![cb.clone()]);
    b.header.merkle_root = MerkleRoot(btclib::hashing::Hash::zero());
    assert_eq!(chain.add_block(b), Err(BtcError::InvalidMerkleRoot));
    let late = block_on(h, T0, easiest(), vec![cb]);
    assert_eq!(chain.add_block(late), Err(BtcError::InvalidBlock));
}

#[test]
fn second_block_spending_genesis_output() {
    let (k, p) = key();
    let (_, q) = key();
    let (mut chain, h) = genesis_chain(p);
    let u = chain.utxos().entries()[0].hash;
    let tx = spend(u, &k, 49 * 100_000_000, 10, q);
    let cb = coinbase(reward_at(1) + 100_000_000, 11, q);
    let b = block_on(h, T0 + 1000, easiest(), vec![cb, tx]);
    assert_eq!(chain.add_block(b), Ok(()));
    assert_eq!(chain.block_height(), 2);
    assert!(!chain.utxos().contains_key(&u));
    assert_eq!(chain.utxos().len(), 2);
}

#[test]
fn bad_signature_rejected() {
    let (_, p) = key();
    let (other, q) = key();
    let (mut chain, h) = genesis_chain(p);
    let u = chain.utxos().entries()[0].hash;
    let tx = spend(u, &other, 49 * 100_000_000, 10, q);
    let cb = coinbase(reward_at(1) + 100_000_000, 11, q);
    let b = block_on(h, T0 + 1000, easiest(), vec![cb, tx]);
    assert_eq!(chain.add_block(b), Err(BtcError::InvalidTransaction));
}

#[test]
fn coinbase_reward_halving() {
    assert_eq!(reward_at(0), 50 * 100_000_000);
    assert_eq!(reward_at(209), 50 * 100_000_000);
    assert_eq!(reward_at(210), 25 * 100_000_000);
    assert_eq!(reward_at(419), 25 * 100_000_000);
    assert_eq!(reward_at(420), 1_250_000_000);
    assert_eq!(reward_at(629), 1_250_000_000);
    assert_eq!(reward_at(HALVING_INTERVAL * 64), 0);
    let (_, p) = key();
    let cb = coinbase(50 * 100_000_000, 1, p);
    let b = block_on(btclib::hashing::Hash::zero(), T0, min_target(), vec![cb]);
    let utxos = BlockChain::new().utxos().clone();
    assert_eq!(b.verify_coinbase_transaction(210, &utxos), Err(BtcError::InvalidTransaction));
    assert_eq!(b.verify_coinbase_transaction(209, &utxos), Ok(()));
}

#[test]
fn mempool_double_spend_conflict() {
    let (k, p) = key();
    let (_, q) = key();
    let (mut chain, _) = genesis_chain(p);
    let u = chain.utxos().entries()[0].hash;
    let a = spend(u, &k, 50 * 100_000_000 - 1, 20, q);
    let b = spend(u, &k, 50 * 100_000_000 - 100, 21, q);
    let b_hash = b.hash();
    assert_eq!(chain.add_to_mempool(a), Ok(()));
    assert_eq!(chain.mempool().len(), 1);
    assert_eq!(chain.mempool()[0].fee, 1);
    assert_eq!(chain.add_to_mempool(b), Ok(()));
    assert_eq!(chain.mempool().len(), 1);
    assert_eq!(chain.mempool()[0].transaction.hash(), b_hash);
    assert_eq!(chain.mempool()[0].fee, 100);
    assert_eq!(chain.utxos().get(&u).map(|e| e.0), Some(true));
}

#[test]
fn mempool_rejects_bad_transactions() {
    let (k, p) = key();
    let (_, q) = key();
    let (mut chain, _) = genesis_chain(p);
    let u = chain.utxos().entries()[0].hash;
    let too_much = spend(u, &k, 50 * 100_000_000 + 1, 20, q);
    assert_eq!(chain.add_to_mempool(too_much), Err(BtcError::InvalidTransaction));
    let unknown = spend(btclib::hashing::Hash::zero(), &k, 1, 21, q);
    assert_eq!(chain.add_to_mempool(unknown), Err(BtcError::InvalidTransaction));
    let mut twice = spend(u, &k, 1, 22, q);
    let again = twice.inputs[0];
    twice.inputs.push(again);
    assert_eq!(chain.add_to_mempool(twice), Err(BtcError::InvalidTransaction));
    assert_eq!(chain.mempool().len(), 0);
    assert_eq!(chain.utxos().get(&u).map(|e| e.0), Some(false));
}

#[test]
fn mempool_sorted_by_fee() {
    let (k, p) = key();
    let (_, q) = key();
    let (mut chain, h) = genesis_chain(p);
    let u0 = chain.utxos().entries()[0].hash;
    let cb = coinbase(reward_at(1), 2, p);
    let b = block_on(h, T0 + 1000, easiest(), vec![cb]);
    assert_eq!(chain.add_block(b), Ok(()));
    let other: Vec<_> = chain.utxos().entries().iter().map(|e| e.hash).filter(|x| *x != u0).collect();
    let u1 = other[0];
    assert_eq!(chain.add_to_mempool_at(spend(u0, &k, 50 * 100_000_000 - 50, 30, q), T0), Ok(()));
    assert_eq!(chain.add_to_mempool_at(spend(u1, &k, 50 * 100_000_000 - 5, 31, q), T0), Ok(()));
    let fees: Vec<u128> = chain.mempool().iter().map(|e| e.fee).collect();
    assert_eq!(fees, vec![5, 50]);
}

#[test]
fn mempool_expiry() {
    let (k, p) = key();
    let (_, q) = key();
    let (mut chain, _) = genesis_chain(p);
    let u = chain.utxos().entries()[0].hash;
    let a = spend(u, &k, 50 * 100_000_000 - 1, 20, q);
    assert_eq!(chain.add_to_mempool_at(a, T0), Ok(()));
    chain.cleanup_mempool_at(T0 + 600_000);
    assert_eq!(chain.mempool().len(), 1);
    assert_eq!(chain.utxos().get(&u).map(|e| e.0), Some(true));
    chain.cleanup_mempool_at(T0 + 600_001);
    assert_eq!(chain.mempool().len(), 0);
    assert_eq!(chain.utxos().get(&u).map(|e| e.0), Some(false));
}

#[test]
fn block_removes_its_transactions_from_mempool() {
    let (k, p) = key();
    let (_, q) = key();
    let (mut chain, h) = genesis_chain(p);
    let u = chain.utxos().entries()[0].hash;
    let tx = spend(u, &k, 49 * 100_000_000, 10, q);
    assert_eq!(chain.add_to_mempool(tx.clone()), Ok(()));
    let cb = coinbase(reward_at(1) + 100_000_000, 11, q);
    let b = block_on(h, T0 + 1000, easiest(), vec![cb, tx]);
    assert_eq!(chain.add_block(b), Ok(()));
    assert_eq!(chain.mempool().len(), 0);
}

#[test]
fn difficulty_clamp() {
    let (_, p) = key();
    let (mut chain, mut prev) = genesis_chain(p);
    let n = DIFFICULTY_UPDATE_INTERVAL as usize;
    for i in 1..n {
        let ts = if i == n - 1 { T0 + 5_000 } else { T0 + 100 * i as u64 };
        let cb = coinbase(reward_at(i as u64), 100 + i as u128, p);
        let b = block_on(prev, ts, easiest(), vec![cb]);
        prev = b.header.hash();
        assert_eq!(chain.add_block(b), Ok(()));
    }
    assert_eq!(chain.block_height(), DIFFICULTY_UPDATE_INTERVAL);
    assert_eq!(chain.target(), min_target().div_small(4));
    assert_eq!(retarget_value(min_target(), 5), min_target().div_small(4));
}

#[test]
fn retarget_formula() {
    let t = U256::from_limbs([1_000_000, 0, 0, 0]);
    assert_eq!(retarget_value(t, 500), t);
    assert_eq!(retarget_value(t, 250), U256::from_limbs([500_000, 0, 0, 0]));
    assert_eq!(retarget_value(t, 1_000_000), U256::from_limbs([4_000_000, 0, 0, 0]));
    assert_eq!(retarget_value(t, 0), U256::from_limbs([250_000, 0, 0, 0]));
    assert_eq!(retarget_value(min_target(), 1000), min_target());
}

#[test]
fn rebuild_matches_incremental() {
    let (k, p) = key();
    let (_, q) = key();
    let (mut chain, h) = genesis_chain(p);
    let u = chain.utxos().entries()[0].hash;
    let tx = spend(u, &k, 49 * 100_000_000, 10, q);
    let cb = coinbase(reward_at(1) + 100_000_000, 11, q);
    let b = block_on(h, T0 + 1000, easiest(), vec![cb, tx]);
    assert_eq!(chain.add_block(b), Ok(()));
    let mut before: Vec<_> = chain.utxos().entries().iter().map(|e| e.hash.0.w0).collect();
    chain.rebuild_utxos();
    let mut after: Vec<_> = chain.utxos().entries().iter().map(|e| e.hash.0.w0).collect();
    before.sort();
    after.sort();
    assert_eq!(before, after);
    for e in chain.utxos().entries() {
        assert_eq!(e.hash, e.output.hash());
        assert!(!e.marked);
    }
}

#[test]
fn mining_finds_a_nonce() {
    let (_, p) = key();
    let cb = coinbase(1, 1, p);
    let hard = U256::from_limbs([u64::MAX, u64::MAX, u64::MAX, 0x00FF_FFFF_FFFF_FFFF]);
    let mut b = block_on(btclib::hashing::Hash::zero(), T0, hard, vec![cb]);
    let start = b.header;
    let mut found = false;
    for _ in 0..200 {
        if b.header.mine(1000) {
            found = true;
            break;
        }
    }
    assert!(found);
    assert!(b.header.hash().matches_target(hard));
    assert_eq!(b.header.timestamp, start.timestamp);
    assert!(b.header.nonce > start.nonce);
    let again = b.header;
    assert!(b.header.mine(5));
    assert_eq!(b.header, again);
}

#[test]
fn mempool_accepts_inputs_beyond_u64() {
    let (k, p) = key();
    let mut chain = BlockChain::new();
    let cb = Transactions::new(
        vec![],
        vec![
            TransactionsOutput { value: u64::MAX, unique_id: 1, pubkey: p },
            TransactionsOutput { value: u64::MAX, unique_id: 2, pubkey: p },
        ],
    );
    let genesis = block_on(btclib::hashing::Hash::zero(), T0, min_target(), vec![cb]);
    assert_eq!(chain.add_block(genesis), Ok(()));
    let hs: Vec<_> = chain.utxos().entries().iter().map(|e| e.hash).collect();
    let mut inputs = vec![];
    for h in &hs {
        let signature = Signature::sign_output(h, &k).unwrap();
        inputs.push(TransactionsInput { prev_transaction_output_hash: *h, signature });
    }
    let tx = Transactions::new(inputs, vec![]);
    assert_eq!(chain.add_to_mempool(tx), Ok(()));
    assert_eq!(chain.mempool()[0].fee, 2 * (u64::MAX as u128));
}
