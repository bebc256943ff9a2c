//! The chain state: accepted blocks, the UTXO set, the difficulty target
//! and the mempool of pending transactions.

use vstd::prelude::*;
use crate::block::{
    Block, UtxoMap, block_valid, contains_hash, header_hash, meets_target, spent_value, inputs_known,
    total_spent, total_value,
};
use crate::error::BtcError;
use crate::transaction::{
    Transactions, TransactionsInput, TransactionsOutput, output_hash, spent_hashes, sum_values, transaction_hash,
};
use crate::u256::{U256, limbs_value};
use crate::util::{MerkleRoot, merkle_root_of, transaction_hashes};
use crate::utxo::{UtxoEntry, UtxoSet, keys_unique};
use crate::codec::{
    enc_array_head, enc_bool, enc_u256, lemma_prefix_split, read_bool, write_bool, lemma_subrange_split, prefix_at, read_array_head, read_array_len,
    read_u256, write_array_head, write_u256,
};
use crate::transaction::{enc_output, read_output};
use crate::block::{enc_block, read_block, same_block, same_transactions, lemma_same_transactions_encode};
use crate::{DIFFICULTY_UPDATE_INTERVAL, IDEAL_BLOCK_TIME, MAX_MEMPOOL_TRANSACTION_AGE};

verus! {

/// The easiest target allowed: the top 16 bits are zero.
pub open spec fn min_target_value() -> nat {
    limbs_value(0xFFFF_FFFF_FFFF_FFFF, 0xFFFF_FFFF_FFFF_FFFF, 0xFFFF_FFFF_FFFF_FFFF, 0x0000_FFFF_FFFF_FFFF)
}

/// The easiest target allowed.
pub fn min_target() -> (r: U256)
    ensures
        r.value() == min_target_value(),
        r.value() == 0xFFFF_FFFF_FFFF_FFFF_FFFF_FFFF_FFFF_FFFF_FFFF_FFFF_FFFF_FFFF_FFFF_FFFF_FFFFnat,
{
    U256 { w0: 0xFFFF_FFFF_FFFF_FFFF, w1: 0xFFFF_FFFF_FFFF_FFFF, w2: 0xFFFF_FFFF_FFFF_FFFF, w3: 0x0000_FFFF_FFFF_FFFF }
}

/// A pending transaction with the time it arrived (milliseconds since the
/// Unix epoch) and the fee it pays.
#[derive(Clone, Debug, PartialEq, Eq)]
pub struct MempoolEntry {
    pub timestamp: u64,
    pub transaction: Transactions,
    pub fee: u128,
}

/// The hashes marked or unmarked: entries under `hs` get mark `flag`.
pub open spec fn set_marks(m: UtxoMap, hs: Seq<crate::hashing::Hash>, flag: bool) -> UtxoMap {
    Map::new(
        |h: crate::hashing::Hash| m.contains_key(h),
        |h: crate::hashing::Hash| if hs.contains(h) { (flag, m[h].1) } else { m[h] },
    )
}

/// The entries that `keep` keeps, in order.
pub open spec fn retain_entries(pool: Seq<MempoolEntry>, keep: spec_fn(MempoolEntry) -> bool) -> Seq<MempoolEntry>
    decreases pool.len(),
{
    if pool.len() == 0 {
        pool
    } else {
        let r = retain_entries(pool.drop_last(), keep);
        if keep(pool.last()) {
            r.push(pool.last())
        } else {
            r
        }
    }
}

/// The outputs that the entries `keep` drops were spending.
pub open spec fn dropped_hashes(pool: Seq<MempoolEntry>, keep: spec_fn(MempoolEntry) -> bool) -> Seq<crate::hashing::Hash>
    decreases pool.len(),
{
    if pool.len() == 0 {
        Seq::empty()
    } else {
        let r = dropped_hashes(pool.drop_last(), keep);
        if keep(pool.last()) {
            r
        } else {
            r + spent_hashes(pool.last().transaction.inputs@)
        }
    }
}

/// Spending a transaction's inputs: their outputs leave the map.
pub open spec fn remove_inputs(m: UtxoMap, s: Seq<TransactionsInput>) -> UtxoMap
    decreases s.len(),
{
    if s.len() == 0 {
        m
    } else {
        remove_inputs(m, s.drop_last()).remove(s.last().prev_transaction_output_hash)
    }
}

/// A transaction's outputs enter the map, unmarked, under their hashes.
pub open spec fn insert_outputs(m: UtxoMap, s: Seq<TransactionsOutput>) -> UtxoMap
    decreases s.len(),
{
    if s.len() == 0 {
        m
    } else {
        insert_outputs(m, s.drop_last()).insert(output_hash(s.last()), (false, s.last()))
    }
}

/// The map after some transactions, in order.
pub open spec fn apply_transactions(m: UtxoMap, txs: Seq<Transactions>) -> UtxoMap
    decreases txs.len(),
{
    if txs.len() == 0 {
        m
    } else {
        let before = apply_transactions(m, txs.drop_last());
        insert_outputs(remove_inputs(before, txs.last().inputs@), txs.last().outputs@)
    }
}

/// The map after some blocks, in order.
pub open spec fn apply_blocks(m: UtxoMap, blocks: Seq<Block>) -> UtxoMap
    decreases blocks.len(),
{
    if blocks.len() == 0 {
        m
    } else {
        apply_transactions(apply_blocks(m, blocks.drop_last()), blocks.last().transactions@)
    }
}

/// The UTXO set that a chain's history gives.
pub open spec fn replay(blocks: Seq<Block>) -> UtxoMap {
    apply_blocks(Map::empty(), blocks)
}

/// The ideal time for one adjustment interval, in seconds.
pub open spec fn ideal_interval_seconds() -> nat {
    (IDEAL_BLOCK_TIME * DIFFICULTY_UPDATE_INTERVAL) as nat
}

/// The retargeted value: `target * actual / ideal` rounded down, kept within
/// a factor of four of the old target, and no easier than the minimum.
pub open spec fn retarget(target: nat, actual_seconds: nat) -> nat {
    let scaled = target * actual_seconds / ideal_interval_seconds();
    let clamped = if scaled < target / 4 {
        target / 4
    } else if scaled > target * 4 {
        target * 4
    } else {
        scaled
    };
    if clamped <= min_target_value() {
        clamped
    } else {
        min_target_value()
    }
}

/// Whole seconds from one millisecond timestamp to a later one (zero when
/// the second is not later).
pub open spec fn seconds_between(start: u64, end: u64) -> nat {
    if end >= start {
        ((end - start) as nat / 1000) as nat
    } else {
        0
    }
}

/// The target after a block makes the chain `blocks`: adjusted when the
/// length is a positive multiple of the update interval.
pub open spec fn adjusted_target(target: U256, blocks: Seq<Block>) -> nat {
    let n = blocks.len();
    if n == 0 || n % (DIFFICULTY_UPDATE_INTERVAL as nat) != 0 {
        target.value()
    } else {
        retarget(
            target.value(),
            seconds_between(
                blocks[n - DIFFICULTY_UPDATE_INTERVAL as int].header.timestamp,
                blocks[n - 1].header.timestamp,
            ),
        )
    }
}

/// A well-linked history: the first block names the zero hash, every later
/// block names the previous header's hash, meets its own target and is later
/// than its predecessor.
pub open spec fn chain_linked(blocks: Seq<Block>) -> bool {
    &&& blocks.len() > 0 ==> blocks[0].header.prev_block_hash == crate::hashing::Hash(
        U256 { w0: 0, w1: 0, w2: 0, w3: 0 },
    )
    &&& forall|i: int| 0 < i < blocks.len() ==> {
        &&& (#[trigger] blocks[i]).header.prev_block_hash == header_hash(blocks[i - 1].header)
        &&& meets_target(blocks[i].header)
        &&& blocks[i].header.timestamp > blocks[i - 1].header.timestamp
    }
}

/// Which check, if any, refuses a block on top of `blocks` with UTXO view `m`.
pub open spec fn block_verdict(blocks: Seq<Block>, m: UtxoMap, b: Block) -> Result<(), BtcError> {
    if blocks.len() == 0 {
        if b.header.prev_block_hash == crate::hashing::Hash(U256 { w0: 0, w1: 0, w2: 0, w3: 0 }) {
            Ok(())
        } else {
            Err(BtcError::InvalidBlock)
        }
    } else {
        let last = blocks.last();
        if b.header.prev_block_hash != header_hash(last.header) {
            Err(BtcError::InvalidBlock)
        } else if !meets_target(b.header) {
            Err(BtcError::InvalidBlock)
        } else if b.transactions@.len() == 0 || merkle_root_of(b.transactions@) != b.header.merkle_root {
            Err(BtcError::InvalidMerkleRoot)
        } else if b.header.timestamp <= last.header.timestamp {
            Err(BtcError::InvalidBlock)
        } else if !block_valid(m, b.transactions@, blocks.len() as u64) {
            Err(BtcError::InvalidTransaction)
        } else {
            Ok(())
        }
    }
}

/// An accepted block extends a linked chain to a linked chain.
pub proof fn lemma_accepted_block_keeps_chain_linked(blocks: Seq<Block>, m: UtxoMap, b: Block)
    requires
        chain_linked(blocks),
        block_verdict(blocks, m, b) is Ok,
    ensures
        chain_linked(blocks.push(b)),
{
    let nb = blocks.push(b);
    assert forall|i: int| 0 < i < nb.len() implies {
        &&& (#[trigger] nb[i]).header.prev_block_hash == header_hash(nb[i - 1].header)
        &&& meets_target(nb[i].header)
        &&& nb[i].header.timestamp > nb[i - 1].header.timestamp
    } by {
        if i < blocks.len() {
            assert(nb[i] == blocks[i] && nb[i - 1] == blocks[i - 1]);
        }
    }
}

/// Every entry that replaying outputs produces sits under its output's hash.
pub open spec fn keyed_by_hash(m: UtxoMap) -> bool {
    forall|h: crate::hashing::Hash| #[trigger] m.contains_key(h) ==> h == output_hash(m[h].1)
}

proof fn lemma_apply_keeps_keys(m: UtxoMap, txs: Seq<Transactions>)
    requires
        keyed_by_hash(m),
    ensures
        keyed_by_hash(apply_transactions(m, txs)),
    decreases txs.len(),
{
    if txs.len() > 0 {
        lemma_apply_keeps_keys(m, txs.drop_last());
        let before = apply_transactions(m, txs.drop_last());
        lemma_remove_keeps_keys(before, txs.last().inputs@);
        lemma_insert_keeps_keys(remove_inputs(before, txs.last().inputs@), txs.last().outputs@);
    }
}

proof fn lemma_remove_keeps_keys(m: UtxoMap, s: Seq<TransactionsInput>)
    requires
        keyed_by_hash(m),
    ensures
        keyed_by_hash(remove_inputs(m, s)),
    decreases s.len(),
{
    if s.len() > 0 {
        lemma_remove_keeps_keys(m, s.drop_last());
    }
}

proof fn lemma_insert_keeps_keys(m: UtxoMap, s: Seq<TransactionsOutput>)
    requires
        keyed_by_hash(m),
    ensures
        keyed_by_hash(insert_outputs(m, s)),
    decreases s.len(),
{
    if s.len() > 0 {
        lemma_insert_keeps_keys(m, s.drop_last());
    }
}

/// Replaying any history keeps every UTXO under the hash of its output.
pub proof fn lemma_replay_keyed_by_hash(blocks: Seq<Block>)
    ensures
        keyed_by_hash(replay(blocks)),
    decreases blocks.len(),
{
    if blocks.len() > 0 {
        lemma_replay_keyed_by_hash(blocks.drop_last());
        lemma_apply_keeps_keys(replay(blocks.drop_last()), blocks.last().transactions@);
    }
}

/// Spends the inputs of a transaction: their outputs leave the set.
fn remove_all_inputs(utxos: &mut UtxoSet, s: &Vec<TransactionsInput>)
    requires
        old(utxos).wf(),
    ensures
        final(utxos).wf(),
        final(utxos)@ == remove_inputs(old(utxos)@, s@),
{
    let mut i: usize = 0;
    while i < s.len()
        invariant
            0 <= i <= s@.len(),
            utxos.wf(),
            utxos@ == remove_inputs(old(utxos)@, s@.take(i as int)),
        decreases s@.len() - i,
    {
        utxos.remove(&s[i].prev_transaction_output_hash);
        assert(s@.take(i as int + 1).drop_last() =~= s@.take(i as int));
        i += 1;
    }
    assert(s@.take(s@.len() as int) =~= s@);
}

/// Adds the outputs of a transaction, unmarked.
fn insert_all_outputs(utxos: &mut UtxoSet, s: &Vec<TransactionsOutput>)
    requires
        old(utxos).wf(),
    ensures
        final(utxos).wf(),
        final(utxos)@ == insert_outputs(old(utxos)@, s@),
{
    let mut i: usize = 0;
    while i < s.len()
        invariant
            0 <= i <= s@.len(),
            utxos.wf(),
            utxos@ == insert_outputs(old(utxos)@, s@.take(i as int)),
        decreases s@.len() - i,
    {
        let h = s[i].hash();
        utxos.insert(h, false, s[i]);
        assert(s@.take(i as int + 1).drop_last() =~= s@.take(i as int));
        i += 1;
    }
    assert(s@.take(s@.len() as int) =~= s@);
}

/// Applies a block's transactions to a UTXO set, in order.
fn apply_block(utxos: &mut UtxoSet, block: &Block)
    requires
        old(utxos).wf(),
    ensures
        final(utxos).wf(),
        final(utxos)@ == apply_transactions(old(utxos)@, block.transactions@),
{
    let txs = &block.transactions;
    let mut t: usize = 0;
    while t < txs.len()
        invariant
            0 <= t <= txs@.len(),
            utxos.wf(),
            utxos@ == apply_transactions(old(utxos)@, txs@.take(t as int)),
        decreases txs@.len() - t,
    {
        remove_all_inputs(utxos, &txs[t].inputs);
        insert_all_outputs(utxos, &txs[t].outputs);
        assert(txs@.take(t as int + 1).drop_last() =~= txs@.take(t as int));
        t += 1;
    }
    assert(txs@.take(txs@.len() as int) =~= txs@);
}

/// Sets the mark of the outputs that some inputs spend.
fn mark_inputs(utxos: &mut UtxoSet, s: &Vec<TransactionsInput>, flag: bool)
    requires
        old(utxos).wf(),
    ensures
        final(utxos).wf(),
        final(utxos)@ == set_marks(old(utxos)@, spent_hashes(s@), flag),
{
    let mut i: usize = 0;
    while i < s.len()
        invariant
            0 <= i <= s@.len(),
            utxos.wf(),
            utxos@ == set_marks(old(utxos)@, spent_hashes(s@.take(i as int)), flag),
        decreases s@.len() - i,
    {
        let h = s[i].prev_transaction_output_hash;
        let ghost before = utxos@;
        utxos.set_marked(&h, flag);
        proof {
            let hs = spent_hashes(s@.take(i as int));
            let hs1 = spent_hashes(s@.take(i as int + 1));
            assert(hs1 =~= hs.push(h));
            assert(utxos@ =~= set_marks(old(utxos)@, hs1, flag)) by {
                assert forall|k: crate::hashing::Hash| #[trigger] hs1.contains(k) <==> (hs.contains(k) || k == h) by {
                    if hs1.contains(k) {
                        let j = choose|j: int| 0 <= j < hs1.len() && hs1[j] == k;
                        if j < hs.len() {
                            assert(hs[j] == k);
                        }
                    }
                    if hs.contains(k) {
                        let j = choose|j: int| 0 <= j < hs.len() && hs[j] == k;
                        assert(hs1[j] == k);
                    }
                    if k == h {
                        assert(hs1[hs.len() as int] == k);
                    }
                }
            }
        }
        i += 1;
    }
    assert(s@.take(s@.len() as int) =~= s@);
}

/// Whether a transaction spends the output under a hash.
pub open spec fn spends(t: Transactions, h: crate::hashing::Hash) -> bool {
    spent_hashes(t.inputs@).contains(h)
}

/// Two transactions spend a common output.
pub open spec fn conflicts(a: Transactions, b: Transactions) -> bool {
    exists|i: int, j: int|
        0 <= i < a.inputs@.len() && 0 <= j < b.inputs@.len()
            && #[trigger] a.inputs@[i].prev_transaction_output_hash == #[trigger] b.inputs@[j].prev_transaction_output_hash
}

/// What the mempool accepts: known, distinct inputs, and outputs worth no
/// more than the inputs.
pub open spec fn tx_acceptable(m: UtxoMap, t: Transactions) -> bool {
    &&& inputs_known(m, t.inputs@)
    &&& spent_hashes(t.inputs@).no_duplicates()
    &&& sum_values(t.outputs@) <= spent_value(m, t.inputs@)
}

/// The fee a transaction pays.
pub open spec fn tx_fee(m: UtxoMap, t: Transactions) -> int {
    spent_value(m, t.inputs@) - sum_values(t.outputs@)
}

/// Entries that are older than the allowed age at `now` (milliseconds).
pub open spec fn expired(e: MempoolEntry, now: u64) -> bool {
    now as int - e.timestamp as int > (MAX_MEMPOOL_TRANSACTION_AGE * 1000) as int
}

/// `pool` with `e` inserted before the first entry of a higher fee.
pub open spec fn inserted_by_fee(pool: Seq<MempoolEntry>, e: MempoolEntry, result: Seq<MempoolEntry>) -> bool {
    exists|p: int|
        0 <= p <= pool.len() && result == pool.insert(p, e) && (forall|i: int|
            0 <= i < p ==> (#[trigger] pool[i]).fee <= e.fee) && (p < pool.len() ==> pool[p].fee > e.fee)
}

/// The mempool `result` is `pool` after admitting `t` at `now`.
pub open spec fn admitted_at(pool: Seq<MempoolEntry>, m: UtxoMap, t: Transactions, now: u64, result: Seq<MempoolEntry>) -> bool {
    inserted_by_fee(
        retain_entries(pool, |e: MempoolEntry| !conflicts(e.transaction, t)),
        MempoolEntry { timestamp: now, transaction: t, fee: tx_fee(m, t) as u128 },
        result,
    )
}

/// The mempool and UTXO view after evicting what is too old at `now`.
pub open spec fn cleaned_at(pool: Seq<MempoolEntry>, m: UtxoMap, now: u64, new_pool: Seq<MempoolEntry>, new_m: UtxoMap) -> bool {
    &&& new_pool == retain_entries(pool, |e: MempoolEntry| !expired(e, now))
    &&& new_m == set_marks(m, dropped_hashes(pool, |e: MempoolEntry| !expired(e, now)), false)
}

proof fn lemma_contains_concat(a: Seq<crate::hashing::Hash>, b: Seq<crate::hashing::Hash>, k: crate::hashing::Hash)
    ensures
        (a + b).contains(k) <==> (a.contains(k) || b.contains(k)),
{
    if (a + b).contains(k) {
        let j = choose|j: int| 0 <= j < (a + b).len() && (a + b)[j] == k;
        if j < a.len() {
            assert(a[j] == k);
        } else {
            assert(b[j - a.len()] == k);
        }
    }
    if a.contains(k) {
        let j = choose|j: int| 0 <= j < a.len() && a[j] == k;
        assert((a + b)[j] == k);
    }
    if b.contains(k) {
        let j = choose|j: int| 0 <= j < b.len() && b[j] == k;
        assert((a + b)[a.len() + j] == k);
    }
}

proof fn lemma_set_marks_concat(m: UtxoMap, a: Seq<crate::hashing::Hash>, b: Seq<crate::hashing::Hash>, flag: bool)
    ensures
        set_marks(set_marks(m, a, flag), b, flag) == set_marks(m, a + b, flag),
{
    assert forall|k: crate::hashing::Hash| #![auto] (a + b).contains(k) <==> (a.contains(k) || b.contains(k)) by {
        lemma_contains_concat(a, b, k);
    }
    assert(set_marks(set_marks(m, a, flag), b, flag) =~= set_marks(m, a + b, flag));
}

/// Keeps the entries whose flag is set, in order, and clears the marks of
/// the outputs that the dropped entries were spending.
fn retain_flagged(
    pool: &mut Vec<MempoolEntry>,
    utxos: &mut UtxoSet,
    flags: &Vec<bool>,
    Ghost(keep): Ghost<spec_fn(MempoolEntry) -> bool>,
)
    requires
        old(utxos).wf(),
        pool_spends_distinct(old(pool)@),
        flags@.len() == old(pool)@.len(),
        forall|i: int| 0 <= i < flags@.len() ==> flags@[i] == keep(#[trigger] old(pool)@[i]),
    ensures
        final(utxos).wf(),
        final(pool)@ == retain_entries(old(pool)@, keep),
        final(utxos)@ == set_marks(old(utxos)@, dropped_hashes(old(pool)@, keep), false),
        pool_spends_distinct(final(pool)@),
        entries_spend_once(old(pool)@) ==> entries_spend_once(final(pool)@),
        marks_claimed(old(utxos)@, old(pool)@) ==> marks_claimed(final(utxos)@, final(pool)@),
        claims_marked(old(utxos)@, old(pool)@) ==> claims_marked(final(utxos)@, final(pool)@),
        pool_sorted(old(pool)@) ==> pool_sorted(final(pool)@),
        fees_current(old(utxos)@, old(pool)@) ==> fees_current(final(utxos)@, final(pool)@),
{
    proof {
        if fees_current(old(utxos)@, old(pool)@) {
            lemma_retain_fees(old(utxos)@, old(pool)@, keep);
        }
        if pool_sorted(old(pool)@) {
            lemma_retain_sorted(old(pool)@, keep);
        }
        lemma_retain_consistent(old(utxos)@, old(pool)@, keep);
    }
    let ghost p0 = old(pool)@;
    let ghost u0 = old(utxos)@;
    let mut j: usize = 0;
    let mut i: usize = 0;
    assert(p0.take(0) =~= Seq::<MempoolEntry>::empty());
    assert(p0.skip(0) =~= p0);
    assert(set_marks(u0, Seq::empty(), false) =~= u0);
    while j < flags.len()
        invariant
            0 <= j <= flags@.len(),
            flags@.len() == p0.len(),
            forall|k: int| 0 <= k < flags@.len() ==> flags@[k] == keep(#[trigger] p0[k]),
            utxos.wf(),
            pool@ == retain_entries(p0.take(j as int), keep) + p0.skip(j as int),
            i <= j,
            i == retain_entries(p0.take(j as int), keep).len(),
            utxos@ == set_marks(u0, dropped_hashes(p0.take(j as int), keep), false),
        decreases flags@.len() - j,
    {
        let ghost r = retain_entries(p0.take(j as int), keep);
        assert(p0.take(j as int + 1).drop_last() =~= p0.take(j as int));
        assert(pool@[i as int] == p0[j as int]);
        if flags[j] {
            assert(retain_entries(p0.take(j as int + 1), keep) == r.push(p0[j as int]));
            assert(pool@ =~= r.push(p0[j as int]) + p0.skip(j as int + 1));
            i += 1;
        } else {
            let e = pool.remove(i);
            mark_inputs(utxos, &e.transaction.inputs, false);
            proof {
                lemma_set_marks_concat(
                    u0,
                    dropped_hashes(p0.take(j as int), keep),
                    spent_hashes(e.transaction.inputs@),
                    false,
                );
            }
            assert(pool@ =~= r + p0.skip(j as int + 1));
        }
        j += 1;
    }
    assert(p0.take(p0.len() as int) =~= p0);
    assert(pool@ =~= retain_entries(p0, keep));
}

/// Whether two transactions spend a common output.
fn spends_common(a: &Transactions, b: &Transactions) -> (r: bool)
    ensures
        r == conflicts(*a, *b),
{
    let mut i: usize = 0;
    while i < a.inputs.len()
        invariant
            0 <= i <= a.inputs@.len(),
            forall|x: int, y: int|
                0 <= x < i && 0 <= y < b.inputs@.len() ==> a.inputs@[x].prev_transaction_output_hash
                    != b.inputs@[y].prev_transaction_output_hash,
        decreases a.inputs@.len() - i,
    {
        let mut j: usize = 0;
        while j < b.inputs.len()
            invariant
                0 <= i < a.inputs@.len(),
                0 <= j <= b.inputs@.len(),
                forall|x: int, y: int|
                    0 <= x < i && 0 <= y < b.inputs@.len() ==> a.inputs@[x].prev_transaction_output_hash
                        != b.inputs@[y].prev_transaction_output_hash,
                forall|y: int|
                    0 <= y < j ==> a.inputs@[i as int].prev_transaction_output_hash
                        != b.inputs@[y].prev_transaction_output_hash,
            decreases b.inputs@.len() - j,
        {
            if a.inputs[i].prev_transaction_output_hash == b.inputs[j].prev_transaction_output_hash {
                return true;
            }
            j += 1;
        }
        i += 1;
    }
    false
}

/// The hashes of a block's transactions.
fn block_transaction_hashes(block: &Block) -> (r: Vec<crate::hashing::Hash>)
    ensures
        r@ == transaction_hashes(block.transactions@),
{
    let mut hashes: Vec<crate::hashing::Hash> = Vec::new();
    let mut t: usize = 0;
    while t < block.transactions.len()
        invariant
            0 <= t <= block.transactions@.len(),
            hashes@ == transaction_hashes(block.transactions@.take(t as int)),
        decreases block.transactions@.len() - t,
    {
        let h = block.transactions[t].hash();
        hashes.push(h);
        assert(transaction_hashes(block.transactions@.take(t as int + 1)) =~= transaction_hashes(
            block.transactions@.take(t as int),
        ).push(h));
        t += 1;
    }
    assert(block.transactions@.take(block.transactions@.len() as int) =~= block.transactions@);
    hashes
}

/// For each entry, whether its transaction's hash is outside `hashes`.
fn flags_outside(pool: &Vec<MempoolEntry>, hashes: &Vec<crate::hashing::Hash>) -> (r: Vec<bool>)
    ensures
        r@.len() == pool@.len(),
        forall|x: int| 0 <= x < pool@.len() ==> r@[x] == !hashes@.contains(transaction_hash(#[trigger] pool@[x].transaction)),
{
    let mut flags: Vec<bool> = Vec::new();
    let mut k: usize = 0;
    while k < pool.len()
        invariant
            0 <= k <= pool@.len(),
            flags@.len() == k,
            forall|x: int| 0 <= x < k ==> flags@[x] == !hashes@.contains(transaction_hash(#[trigger] pool@[x].transaction)),
        decreases pool@.len() - k,
    {
        let h = pool[k].transaction.hash();
        flags.push(!contains_hash(hashes, &h));
        k += 1;
    }
    flags
}

/// For each entry, whether its transaction spends nothing that `t` spends.
fn flags_without_conflict(pool: &Vec<MempoolEntry>, t: &Transactions) -> (r: Vec<bool>)
    ensures
        r@.len() == pool@.len(),
        forall|x: int| 0 <= x < pool@.len() ==> r@[x] == !conflicts((#[trigger] pool@[x]).transaction, *t),
{
    let mut flags: Vec<bool> = Vec::new();
    let mut k: usize = 0;
    while k < pool.len()
        invariant
            0 <= k <= pool@.len(),
            flags@.len() == k,
            forall|x: int| 0 <= x < k ==> flags@[x] == !conflicts((#[trigger] pool@[x]).transaction, *t),
        decreases pool@.len() - k,
    {
        flags.push(!spends_common(&pool[k].transaction, t));
        k += 1;
    }
    flags
}

/// For each entry, whether it is still young enough at `now`.
fn flags_fresh(pool: &Vec<MempoolEntry>, now: u64) -> (r: Vec<bool>)
    ensures
        r@.len() == pool@.len(),
        forall|x: int| 0 <= x < pool@.len() ==> r@[x] == !expired(#[trigger] pool@[x], now),
{
    let mut flags: Vec<bool> = Vec::new();
    let mut k: usize = 0;
    while k < pool.len()
        invariant
            0 <= k <= pool@.len(),
            flags@.len() == k,
            forall|x: int| 0 <= x < k ==> flags@[x] == !expired(#[trigger] pool@[x], now),
        decreases pool@.len() - k,
    {
        let ts = pool[k].timestamp;
        let is_expired = now > ts && now - ts > MAX_MEMPOOL_TRANSACTION_AGE * 1000;
        flags.push(!is_expired);
        k += 1;
    }
    flags
}

/// No two pending transactions spend a common output.
pub open spec fn pool_spends_distinct(pool: Seq<MempoolEntry>) -> bool {
    forall|a: int, b: int, h: crate::hashing::Hash|
        0 <= a < pool.len() && 0 <= b < pool.len() && a != b && #[trigger] spends(pool[a].transaction, h)
            ==> !#[trigger] spends(pool[b].transaction, h)
}

/// Every marked output is spent by some pending transaction.
pub open spec fn marks_claimed(m: UtxoMap, pool: Seq<MempoolEntry>) -> bool {
    forall|h: crate::hashing::Hash|
        #[trigger] m.contains_key(h) && m[h].0 ==> exists|k: int| 0 <= k < pool.len() && spends(pool[k].transaction, h)
}

/// Every unspent output that a pending transaction spends is marked.
pub open spec fn claims_marked(m: UtxoMap, pool: Seq<MempoolEntry>) -> bool {
    forall|k: int, h: crate::hashing::Hash|
        0 <= k < pool.len() && #[trigger] spends(pool[k].transaction, h) && m.contains_key(h) ==> m[h].0
}

/// No pending transaction spends one output twice.
pub open spec fn entries_spend_once(pool: Seq<MempoolEntry>) -> bool {
    forall|k: int| 0 <= k < pool.len() ==> spent_hashes((#[trigger] pool[k]).transaction.inputs@).no_duplicates()
}

/// The marks match the mempool: an unspent output is marked exactly when a
/// pending transaction spends it.
pub open spec fn mempool_consistent(m: UtxoMap, pool: Seq<MempoolEntry>) -> bool {
    marks_claimed(m, pool) && claims_marked(m, pool)
}

/// Input `j` of pending transaction `k` names the output under `h`.
pub open spec fn input_names(pool: Seq<MempoolEntry>, k: int, j: int, h: crate::hashing::Hash) -> bool {
    &&& 0 <= k < pool.len()
    &&& 0 <= j < pool[k].transaction.inputs@.len()
    &&& pool[k].transaction.inputs@[j].prev_transaction_output_hash == h
}

/// An unspent output is marked exactly when an input of a pending
/// transaction names it, and no two such inputs name the same output.
pub open spec fn marks_exact(m: UtxoMap, pool: Seq<MempoolEntry>) -> bool {
    forall|h: crate::hashing::Hash| #[trigger] m.contains_key(h) ==> {
        &&& m[h].0 <==> exists|k: int, j: int| input_names(pool, k, j, h)
        &&& forall|k1: int, j1: int, k2: int, j2: int|
            #[trigger] input_names(pool, k1, j1, h) && #[trigger] input_names(pool, k2, j2, h) ==> k1 == k2 && j1
                == j2
    }
}

/// With distinct spends, matching marks give marks that name exactly one input each.
pub proof fn lemma_marks_exact(m: UtxoMap, pool: Seq<MempoolEntry>)
    requires
        pool_spends_distinct(pool),
        entries_spend_once(pool),
        mempool_consistent(m, pool),
    ensures
        marks_exact(m, pool),
{
    assert forall|h: crate::hashing::Hash| #[trigger] m.contains_key(h) implies {
        &&& m[h].0 <==> exists|k: int, j: int| input_names(pool, k, j, h)
        &&& forall|k1: int, j1: int, k2: int, j2: int|
            #[trigger] input_names(pool, k1, j1, h) && #[trigger] input_names(pool, k2, j2, h) ==> k1 == k2 && j1
                == j2
    } by {
        if m[h].0 {
            let k = choose|k: int| 0 <= k < pool.len() && spends(pool[k].transaction, h);
            let j = choose|j: int|
                0 <= j < spent_hashes(pool[k].transaction.inputs@).len() && spent_hashes(pool[k].transaction.inputs@)[j]
                    == h;
            assert(input_names(pool, k, j, h));
        }
        if exists|k: int, j: int| input_names(pool, k, j, h) {
            let (k, j) = choose|k: int, j: int| input_names(pool, k, j, h);
            assert(spent_hashes(pool[k].transaction.inputs@)[j] == h);
            assert(spends(pool[k].transaction, h));
        }
        assert forall|k1: int, j1: int, k2: int, j2: int|
            #[trigger] input_names(pool, k1, j1, h) && #[trigger] input_names(pool, k2, j2, h) implies k1 == k2 && j1
                == j2 by {
            assert(spent_hashes(pool[k1].transaction.inputs@)[j1] == h);
            assert(spent_hashes(pool[k2].transaction.inputs@)[j2] == h);
            if k1 != k2 {
                assert(spends(pool[k1].transaction, h));
                assert(spends(pool[k2].transaction, h));
            } else {
                assert(spent_hashes(pool[k1].transaction.inputs@).no_duplicates());
            }
        }
    }
}

/// Every marked output is spent by exactly one pending transaction.
pub open spec fn marked_spent_by_exactly_one(m: UtxoMap, pool: Seq<MempoolEntry>) -> bool {
    forall|h: crate::hashing::Hash|
        #[trigger] m.contains_key(h) && m[h].0 ==> {
            &&& exists|k: int| 0 <= k < pool.len() && spends(pool[k].transaction, h)
            &&& forall|a: int, b: int|
                0 <= a < pool.len() && 0 <= b < pool.len() && spends(#[trigger] pool[a].transaction, h) && spends(
                    #[trigger] pool[b].transaction,
                    h,
                ) ==> a == b
        }
}

/// Consistent bookkeeping means each marked output has exactly one pending spender.
pub proof fn lemma_marked_spent_by_exactly_one(m: UtxoMap, pool: Seq<MempoolEntry>)
    requires
        pool_spends_distinct(pool),
        marks_claimed(m, pool),
    ensures
        marked_spent_by_exactly_one(m, pool),
{
    assert forall|h: crate::hashing::Hash| #[trigger] m.contains_key(h) && m[h].0 implies {
        &&& exists|k: int| 0 <= k < pool.len() && spends(pool[k].transaction, h)
        &&& forall|a: int, b: int|
            0 <= a < pool.len() && 0 <= b < pool.len() && spends(#[trigger] pool[a].transaction, h) && spends(
                #[trigger] pool[b].transaction,
                h,
            ) ==> a == b
    } by {
        assert forall|a: int, b: int|
            0 <= a < pool.len() && 0 <= b < pool.len() && spends(#[trigger] pool[a].transaction, h) && spends(
                #[trigger] pool[b].transaction,
                h,
            ) implies a == b by {
            if a != b {
                assert(!spends(pool[b].transaction, h));
            }
        }
    }
}

proof fn lemma_retain_member(pool: Seq<MempoolEntry>, keep: spec_fn(MempoolEntry) -> bool, a: int) -> (i: int)
    requires
        0 <= a < retain_entries(pool, keep).len(),
    ensures
        0 <= i < pool.len(),
        retain_entries(pool, keep)[a] == pool[i],
        keep(pool[i]),
    decreases pool.len(),
{
    let t = pool.drop_last();
    let r = retain_entries(t, keep);
    if a < r.len() {
        let i = lemma_retain_member(t, keep, a);
        assert(t[i] == pool[i]);
        i
    } else {
        pool.len() - 1
    }
}

proof fn lemma_retain_contains(pool: Seq<MempoolEntry>, keep: spec_fn(MempoolEntry) -> bool, i: int) -> (a: int)
    requires
        0 <= i < pool.len(),
        keep(pool[i]),
    ensures
        0 <= a < retain_entries(pool, keep).len(),
        retain_entries(pool, keep)[a] == pool[i],
    decreases pool.len(),
{
    let t = pool.drop_last();
    if i < t.len() {
        let a = lemma_retain_contains(t, keep, i);
        assert(t[i] == pool[i]);
        a
    } else {
        retain_entries(t, keep).len() as int
    }
}

proof fn lemma_dropped_contains(pool: Seq<MempoolEntry>, keep: spec_fn(MempoolEntry) -> bool, i: int, h: crate::hashing::Hash)
    requires
        0 <= i < pool.len(),
        !keep(pool[i]),
        spends(pool[i].transaction, h),
    ensures
        dropped_hashes(pool, keep).contains(h),
    decreases pool.len(),
{
    let t = pool.drop_last();
    if i < t.len() {
        lemma_dropped_contains(t, keep, i, h);
        assert(t[i] == pool[i]);
        if !keep(pool.last()) {
            lemma_contains_concat(dropped_hashes(t, keep), spent_hashes(pool.last().transaction.inputs@), h);
        }
    } else {
        lemma_contains_concat(dropped_hashes(t, keep), spent_hashes(pool.last().transaction.inputs@), h);
    }
}

proof fn lemma_retain_distinct(pool: Seq<MempoolEntry>, keep: spec_fn(MempoolEntry) -> bool)
    requires
        pool_spends_distinct(pool),
    ensures
        pool_spends_distinct(retain_entries(pool, keep)),
    decreases pool.len(),
{
    if pool.len() > 0 {
        let t = pool.drop_last();
        assert(pool_spends_distinct(t)) by {
            assert forall|a: int, b: int, h: crate::hashing::Hash|
                0 <= a < t.len() && 0 <= b < t.len() && a != b && #[trigger] spends(t[a].transaction, h)
                    implies !#[trigger] spends(t[b].transaction, h) by {
                assert(t[a] == pool[a] && t[b] == pool[b]);
            }
        }
        lemma_retain_distinct(t, keep);
        let r = retain_entries(t, keep);
        if keep(pool.last()) {
            let r2 = r.push(pool.last());
            assert forall|a: int, b: int, h: crate::hashing::Hash|
                0 <= a < r2.len() && 0 <= b < r2.len() && a != b && #[trigger] spends(r2[a].transaction, h)
                    implies !#[trigger] spends(r2[b].transaction, h) by {
                if a < r.len() && b < r.len() {
                    assert(r2[a] == r[a] && r2[b] == r[b]);
                } else if a < r.len() {
                    let i = lemma_retain_member(t, keep, a);
                    assert(r2[a] == pool[i]);
                    assert(r2[b] == pool[pool.len() - 1]);
                } else {
                    let i = lemma_retain_member(t, keep, b);
                    assert(r2[b] == pool[i]);
                    assert(r2[a] == pool[pool.len() - 1]);
                }
            }
        }
    }
}

proof fn lemma_dropped_member(pool: Seq<MempoolEntry>, keep: spec_fn(MempoolEntry) -> bool, h: crate::hashing::Hash) -> (j: int)
    requires
        dropped_hashes(pool, keep).contains(h),
    ensures
        0 <= j < pool.len(),
        !keep(pool[j]),
        spends(pool[j].transaction, h),
    decreases pool.len(),
{
    if pool.len() == 0 {
        0
    } else {
        let t = pool.drop_last();
        if !keep(pool.last()) {
            lemma_contains_concat(dropped_hashes(t, keep), spent_hashes(pool.last().transaction.inputs@), h);
        }
        if !keep(pool.last()) && spent_hashes(pool.last().transaction.inputs@).contains(h) {
            pool.len() - 1
        } else {
            let j = lemma_dropped_member(t, keep, h);
            assert(t[j] == pool[j]);
            j
        }
    }
}

proof fn lemma_retain_consistent(m: UtxoMap, pool: Seq<MempoolEntry>, keep: spec_fn(MempoolEntry) -> bool)
    requires
        pool_spends_distinct(pool),
    ensures
        pool_spends_distinct(retain_entries(pool, keep)),
        entries_spend_once(pool) ==> entries_spend_once(retain_entries(pool, keep)),
        marks_claimed(m, pool) ==> marks_claimed(
            set_marks(m, dropped_hashes(pool, keep), false),
            retain_entries(pool, keep),
        ),
        claims_marked(m, pool) ==> claims_marked(
            set_marks(m, dropped_hashes(pool, keep), false),
            retain_entries(pool, keep),
        ),
{
    lemma_retain_distinct(pool, keep);
    let m2 = set_marks(m, dropped_hashes(pool, keep), false);
    let r = retain_entries(pool, keep);
    if entries_spend_once(pool) {
        assert forall|a: int| 0 <= a < r.len() implies spent_hashes((#[trigger] r[a]).transaction.inputs@).no_duplicates() by {
            let i = lemma_retain_member(pool, keep, a);
        }
    }
    if marks_claimed(m, pool) {
        assert forall|h: crate::hashing::Hash| #[trigger] m2.contains_key(h) && m2[h].0 implies exists|k: int|
            0 <= k < r.len() && spends(r[k].transaction, h) by {
            assert(!dropped_hashes(pool, keep).contains(h));
            assert(m.contains_key(h) && m[h].0);
            let i = choose|i: int| 0 <= i < pool.len() && spends(pool[i].transaction, h);
            if !keep(pool[i]) {
                lemma_dropped_contains(pool, keep, i, h);
            }
            let a = lemma_retain_contains(pool, keep, i);
            assert(spends(r[a].transaction, h));
        }
    }
    if claims_marked(m, pool) {
        assert forall|k: int, h: crate::hashing::Hash|
            0 <= k < r.len() && #[trigger] spends(r[k].transaction, h) && m2.contains_key(h) implies m2[h].0 by {
            let i = lemma_retain_member(pool, keep, k);
            if dropped_hashes(pool, keep).contains(h) {
                let j = lemma_dropped_member(pool, keep, h);
                assert(spends(pool[i].transaction, h));
                assert(i != j);
            }
            assert(spends(pool[i].transaction, h));
        }
    }
}

proof fn lemma_apply_marked(m: UtxoMap, txs: Seq<Transactions>, h: crate::hashing::Hash)
    requires
        apply_transactions(m, txs).contains_key(h),
        apply_transactions(m, txs)[h].0,
    ensures
        m.contains_key(h),
        m[h].0,
    decreases txs.len(),
{
    if txs.len() > 0 {
        let before = apply_transactions(m, txs.drop_last());
        lemma_insert_marked(remove_inputs(before, txs.last().inputs@), txs.last().outputs@, h);
        lemma_remove_marked(before, txs.last().inputs@, h);
        lemma_apply_marked(m, txs.drop_last(), h);
    }
}

proof fn lemma_insert_marked(m: UtxoMap, s: Seq<TransactionsOutput>, h: crate::hashing::Hash)
    requires
        insert_outputs(m, s).contains_key(h),
        insert_outputs(m, s)[h].0,
    ensures
        m.contains_key(h),
        m[h] == insert_outputs(m, s)[h],
    decreases s.len(),
{
    if s.len() > 0 {
        lemma_insert_marked(m, s.drop_last(), h);
    }
}

proof fn lemma_remove_marked(m: UtxoMap, s: Seq<TransactionsInput>, h: crate::hashing::Hash)
    requires
        remove_inputs(m, s).contains_key(h),
    ensures
        m.contains_key(h),
        m[h] == remove_inputs(m, s)[h],
    decreases s.len(),
{
    if s.len() > 0 {
        lemma_remove_marked(m, s.drop_last(), h);
    }
}

proof fn lemma_replay_unmarked(blocks: Seq<Block>, h: crate::hashing::Hash)
    requires
        replay(blocks).contains_key(h),
    ensures
        !replay(blocks)[h].0,
    decreases blocks.len(),
{
    if blocks.len() > 0 && replay(blocks)[h].0 {
        lemma_apply_marked(replay(blocks.drop_last()), blocks.last().transactions@, h);
        lemma_replay_unmarked(blocks.drop_last(), h);
    }
}

/// A saved UTXO entry: its hash, its mark and its output.
pub open spec fn enc_utxo_entry(e: UtxoEntry) -> Seq<u8> {
    enc_array_head(3) + enc_u256(e.hash.0) + enc_bool(e.marked) + enc_output(e.output)
}

/// Saved UTXO entries, one after another.
pub open spec fn enc_utxo_entries(s: Seq<UtxoEntry>) -> Seq<u8>
    decreases s.len(),
{
    if s.len() == 0 {
        Seq::empty()
    } else {
        enc_utxo_entries(s.drop_last()) + enc_utxo_entry(s.last())
    }
}

/// Blocks, one after another.
pub open spec fn enc_blocks(s: Seq<Block>) -> Seq<u8>
    decreases s.len(),
{
    if s.len() == 0 {
        Seq::empty()
    } else {
        enc_blocks(s.drop_last()) + enc_block(s.last())
    }
}

/// A saved chain: its UTXO entries, its target and its blocks.
pub open spec fn enc_chain(c: BlockChain) -> Seq<u8> {
    enc_array_head(3) + enc_array_head(c.utxo_entries().len()) + enc_utxo_entries(c.utxo_entries()) + enc_u256(
        c.current_target(),
    ) + enc_array_head(c.chain_blocks().len()) + enc_blocks(c.chain_blocks())
}

/// Two lists of blocks that agree item by item.
pub open spec fn same_blocks(a: Seq<Block>, b: Seq<Block>) -> bool {
    a.len() == b.len() && forall|i: int| 0 <= i < a.len() ==> same_block(#[trigger] a[i], b[i])
}

/// Two chains that agree on what is saved: the UTXO entries, the target and
/// the blocks.
pub open spec fn same_saved_chain(a: BlockChain, b: BlockChain) -> bool {
    &&& a.utxo_entries() == b.utxo_entries()
    &&& a.current_target() == b.current_target()
    &&& same_blocks(a.chain_blocks(), b.chain_blocks())
}

proof fn lemma_enc_utxo_entries_split(s: Seq<UtxoEntry>, i: int)
    requires
        0 <= i <= s.len(),
    ensures
        enc_utxo_entries(s) == enc_utxo_entries(s.take(i)) + enc_utxo_entries(s.skip(i)),
    decreases s.len(),
{
    if i == s.len() {
        assert(s.take(i) =~= s);
        assert(s.skip(i) =~= Seq::<UtxoEntry>::empty());
        assert(enc_utxo_entries(s) + Seq::<u8>::empty() =~= enc_utxo_entries(s));
    } else {
        lemma_enc_utxo_entries_split(s.drop_last(), i);
        assert(s.drop_last().take(i) =~= s.take(i));
        assert(s.skip(i).drop_last() =~= s.drop_last().skip(i));
        assert(s.skip(i).last() == s.last());
        assert(enc_utxo_entries(s) =~= enc_utxo_entries(s.take(i)) + enc_utxo_entries(s.skip(i)));
    }
}

#[verifier::rlimit(80)]
proof fn lemma_enc_blocks_split(s: Seq<Block>, i: int)
    requires
        0 <= i <= s.len(),
    ensures
        enc_blocks(s) == enc_blocks(s.take(i)) + enc_blocks(s.skip(i)),
    decreases s.len(),
{
    if i == s.len() {
        assert(s.take(i) =~= s);
        assert(s.skip(i) =~= Seq::<Block>::empty());
        assert(enc_blocks(s) + Seq::<u8>::empty() =~= enc_blocks(s));
    } else {
        lemma_enc_blocks_split(s.drop_last(), i);
        assert(s.drop_last().take(i) =~= s.take(i));
        assert(s.skip(i).drop_last() =~= s.drop_last().skip(i));
        assert(s.skip(i).last() == s.last());
        assert(enc_blocks(s) =~= enc_blocks(s.take(i)) + enc_blocks(s.skip(i)));
    }
}

proof fn lemma_same_block_encode(a: Block, b: Block)
    requires
        same_block(a, b),
    ensures
        enc_block(a) == enc_block(b),
{
    lemma_same_transactions_encode(a.transactions@, b.transactions@);
}

proof fn lemma_same_blocks_encode(a: Seq<Block>, b: Seq<Block>)
    requires
        same_blocks(a, b),
    ensures
        enc_blocks(a) == enc_blocks(b),
    decreases a.len(),
{
    if a.len() > 0 {
        lemma_same_blocks_encode(a.drop_last(), b.drop_last());
        lemma_same_block_encode(a[a.len() - 1], b[b.len() - 1]);
    }
}


/// The pending transactions are ordered by ascending fee.
pub open spec fn pool_sorted(pool: Seq<MempoolEntry>) -> bool {
    forall|a: int, b: int| 0 <= a < b < pool.len() ==> (#[trigger] pool[a]).fee <= (#[trigger] pool[b]).fee
}

proof fn lemma_retain_sorted(pool: Seq<MempoolEntry>, keep: spec_fn(MempoolEntry) -> bool)
    requires
        pool_sorted(pool),
    ensures
        pool_sorted(retain_entries(pool, keep)),
    decreases pool.len(),
{
    if pool.len() > 0 {
        let t = pool.drop_last();
        assert(pool_sorted(t)) by {
            assert forall|a: int, b: int| 0 <= a < b < t.len() implies (#[trigger] t[a]).fee <= (#[trigger] t[b]).fee by {
                assert(t[a] == pool[a] && t[b] == pool[b]);
            }
        }
        lemma_retain_sorted(t, keep);
        let r = retain_entries(t, keep);
        if keep(pool.last()) {
            let r2 = r.push(pool.last());
            assert forall|a: int, b: int| 0 <= a < b < r2.len() implies (#[trigger] r2[a]).fee <= (#[trigger] r2[b]).fee by {
                if b < r.len() {
                    assert(r2[a] == r[a] && r2[b] == r[b]);
                } else {
                    let i = lemma_retain_member(t, keep, a);
                    assert(r2[a] == pool[i]);
                }
            }
        }
    }
}

/// Each pending transaction whose inputs are all unspent carries the fee that
/// the current UTXO values give it.
pub open spec fn fees_current(m: UtxoMap, pool: Seq<MempoolEntry>) -> bool {
    forall|k: int|
        0 <= k < pool.len() && inputs_known(m, (#[trigger] pool[k]).transaction.inputs@) ==> pool[k].fee as int
            == tx_fee(m, pool[k].transaction)
}

proof fn lemma_set_marks_spent(m: UtxoMap, hs: Seq<crate::hashing::Hash>, flag: bool, s: Seq<TransactionsInput>)
    ensures
        inputs_known(set_marks(m, hs, flag), s) <==> inputs_known(m, s),
        inputs_known(m, s) ==> spent_value(set_marks(m, hs, flag), s) == spent_value(m, s),
    decreases s.len(),
{
    if s.len() > 0 {
        lemma_set_marks_spent(m, hs, flag, s.drop_last());
        if inputs_known(m, s) {
            assert(inputs_known(m, s.drop_last())) by {
                assert forall|i: int| 0 <= i < s.drop_last().len() implies m.contains_key(
                    #[trigger] s.drop_last()[i].prev_transaction_output_hash,
                ) by {
                    assert(s.drop_last()[i] == s[i]);
                }
            }
            assert(m.contains_key(s[s.len() - 1].prev_transaction_output_hash));
        }
        if inputs_known(set_marks(m, hs, flag), s) {
            assert forall|i: int| 0 <= i < s.len() implies m.contains_key(#[trigger] s[i].prev_transaction_output_hash) by {
                assert(set_marks(m, hs, flag).contains_key(s[i].prev_transaction_output_hash));
            }
        }
    }
}

proof fn lemma_set_marks_fees(m: UtxoMap, hs: Seq<crate::hashing::Hash>, flag: bool, t: Transactions)
    ensures
        inputs_known(set_marks(m, hs, flag), t.inputs@) ==> inputs_known(m, t.inputs@) && tx_fee(
            set_marks(m, hs, flag),
            t,
        ) == tx_fee(m, t),
{
    lemma_set_marks_spent(m, hs, flag, t.inputs@);
}

proof fn lemma_retain_fees(m: UtxoMap, pool: Seq<MempoolEntry>, keep: spec_fn(MempoolEntry) -> bool)
    requires
        fees_current(m, pool),
    ensures
        fees_current(set_marks(m, dropped_hashes(pool, keep), false), retain_entries(pool, keep)),
{
    let m2 = set_marks(m, dropped_hashes(pool, keep), false);
    let r = retain_entries(pool, keep);
    assert forall|k: int| 0 <= k < r.len() && inputs_known(m2, (#[trigger] r[k]).transaction.inputs@) implies r[k].fee as int
        == tx_fee(m2, r[k].transaction) by {
        let i = lemma_retain_member(pool, keep, k);
        lemma_set_marks_fees(m, dropped_hashes(pool, keep), false, r[k].transaction);
    }
}

/// The chain state.
#[derive(Clone, Debug)]
pub struct BlockChain {
    utxos: UtxoSet,
    target: U256,
    blocks: Vec<Block>,
    mempool: Vec<MempoolEntry>,
}

impl BlockChain {
    /// The UTXO view.
    pub closed spec fn utxo_map(&self) -> UtxoMap {
        self.utxos@
    }

    /// The UTXO entries in their stored order.
    pub closed spec fn utxo_entries(&self) -> Seq<UtxoEntry> {
        self.utxos.entry_seq()
    }

    /// The accepted blocks, oldest first.
    pub closed spec fn chain_blocks(&self) -> Seq<Block> {
        self.blocks@
    }

    /// The current difficulty target.
    pub closed spec fn current_target(&self) -> U256 {
        self.target
    }

    /// The pending transactions, by ascending fee.
    pub closed spec fn pool(&self) -> Seq<MempoolEntry> {
        self.mempool@
    }

    /// The state's invariant: distinct UTXO keys, a target no easier than
    /// the minimum, pending transactions that spend distinct outputs, and a
    /// mempool ordered by ascending fee. That the marks match the mempool is
    /// kept by the mempool operations (`mempool_consistent`), but a loaded
    /// chain carries its saved marks without the mempool they describe.
    pub closed spec fn wf(&self) -> bool {
        &&& self.utxos.wf()
        &&& self.target.value() <= min_target_value()
        &&& pool_spends_distinct(self.mempool@)
        &&& entries_spend_once(self.mempool@)
        &&& pool_sorted(self.mempool@)
    }

    /// The pending transactions are ordered by ascending fee.
    pub proof fn lemma_mempool_sorted(&self)
        requires
            self.wf(),
        ensures
            pool_sorted(self.pool()),
    {
    }

    /// When the marks match the mempool, each marked output is spent by
    /// exactly one pending transaction, through exactly one input, and every
    /// unspent output that a pending input names is marked.
    pub proof fn lemma_mempool_marks(&self)
        requires
            self.wf(),
            mempool_consistent(self.utxo_map(), self.pool()),
        ensures
            pool_spends_distinct(self.pool()),
            marked_spent_by_exactly_one(self.utxo_map(), self.pool()),
            marks_exact(self.utxo_map(), self.pool()),
    {
        lemma_marked_spent_by_exactly_one(self.utxos@, self.mempool@);
        lemma_marks_exact(self.utxos@, self.mempool@);
    }

    /// An empty chain at the minimum target.
    pub fn new() -> (r: BlockChain)
        ensures
            r.wf(),
            r.utxo_map() == UtxoMap::empty(),
            r.chain_blocks() == Seq::<Block>::empty(),
            r.current_target().value() == min_target_value(),
            r.pool() == Seq::<MempoolEntry>::empty(),
            mempool_consistent(r.utxo_map(), r.pool()),
            fees_current(r.utxo_map(), r.pool()),
    {
        BlockChain { utxos: UtxoSet::new(), target: min_target(), blocks: Vec::new(), mempool: Vec::new() }
    }

    /// The UTXO set.
    pub fn utxos(&self) -> (r: &UtxoSet)
        requires
            self.wf(),
        ensures
            r.wf(),
            r@ == self.utxo_map(),
    {
        &self.utxos
    }

    /// The current target, never easier than the minimum.
    pub fn target(&self) -> (r: U256)
        requires
            self.wf(),
        ensures
            r == self.current_target(),
            r.value() <= min_target_value(),
    {
        self.target
    }

    /// The accepted blocks, oldest first.
    pub fn blocks(&self) -> (r: &Vec<Block>)
        ensures
            r@ == self.chain_blocks(),
    {
        &self.blocks
    }

    /// The number of accepted blocks.
    pub fn block_height(&self) -> (r: u64)
        ensures
            r as nat == self.chain_blocks().len(),
    {
        self.blocks.len() as u64
    }

    /// The pending transactions, by ascending fee.
    pub fn mempool(&self) -> (r: &Vec<MempoolEntry>)
        ensures
            r@ == self.pool(),
    {
        &self.mempool
    }

    /// Which check, if any, refuses a block on top of this chain.
    fn check_block(&self, block: &Block) -> (r: Result<(), BtcError>)
        requires
            self.wf(),
        ensures
            r == block_verdict(self.chain_blocks(), self.utxo_map(), *block),
    {
        let n = self.blocks.len();
        if n == 0 {
            if block.header.prev_block_hash != crate::hashing::Hash::zero() {
                return Err(BtcError::InvalidBlock);
            }
        } else {
            let last_header = self.blocks[n - 1].header;
            if block.header.prev_block_hash != last_header.hash() {
                return Err(BtcError::InvalidBlock);
            }
            if !block.header.hash().matches_target(block.header.target) {
                return Err(BtcError::InvalidBlock);
            }
            if block.transactions.len() == 0 {
                return Err(BtcError::InvalidMerkleRoot);
            }
            let calculated_merkle_root = MerkleRoot::calculate(block.transactions.as_slice());
            if calculated_merkle_root != block.header.merkle_root {
                return Err(BtcError::InvalidMerkleRoot);
            }
            if block.header.timestamp <= last_header.timestamp {
                return Err(BtcError::InvalidBlock);
            }
            match block.verify_transaction(n as u64, &self.utxos) {
                Ok(()) => {},
                Err(e) => {
                    return Err(e);
                },
            }
        }
        Ok(())
    }

    /// Offers a block. The first block only has to name the zero hash as its
    /// predecessor. Any later block must name the last header's hash, meet its
    /// own target, carry the Merkle root of its transactions, be later than the
    /// last block, and pass the transaction checks at the current height. On
    /// success the mempool loses the block's transactions (their outputs'
    /// marks cleared), the UTXO set takes the block, the block is appended,
    /// and the target may be adjusted. A refused block changes nothing.
    pub fn add_block(&mut self, block: Block) -> (r: Result<(), BtcError>)
        requires
            old(self).wf(),
        ensures
            final(self).wf(),
            r == block_verdict(old(self).chain_blocks(), old(self).utxo_map(), block),
            r is Err ==> *final(self) == *old(self),
            marks_claimed(old(self).utxo_map(), old(self).pool()) ==> marks_claimed(
                final(self).utxo_map(),
                final(self).pool(),
            ),
            r is Ok ==> {
                let hashes = transaction_hashes(block.transactions@);
                let keep = |e: MempoolEntry| !hashes.contains(transaction_hash(e.transaction));
                &&& final(self).chain_blocks() == old(self).chain_blocks().push(block)
                &&& final(self).pool() == retain_entries(old(self).pool(), keep)
                &&& final(self).utxo_map() == apply_transactions(
                    set_marks(old(self).utxo_map(), dropped_hashes(old(self).pool(), keep), false),
                    block.transactions@,
                )
                &&& final(self).current_target().value() == adjusted_target(
                    old(self).current_target(),
                    old(self).chain_blocks().push(block),
                )
            },
    {
        match self.check_block(&block) {
            Ok(()) => {},
            Err(e) => {
                return Err(e);
            },
        }
        let hashes = block_transaction_hashes(&block);
        let ghost keep = |e: MempoolEntry| !hashes@.contains(transaction_hash(e.transaction));
        let flags = flags_outside(&self.mempool, &hashes);
        retain_flagged(&mut self.mempool, &mut self.utxos, &flags, Ghost(keep));
        let ghost m2 = self.utxos@;
        let ghost claimed = marks_claimed(m2, self.mempool@);
        apply_block(&mut self.utxos, &block);
        proof {
            if claimed {
            assert forall|h: crate::hashing::Hash| #[trigger] self.utxos@.contains_key(h) && self.utxos@[h].0 implies exists|k: int|
                0 <= k < self.mempool@.len() && spends(self.mempool@[k].transaction, h) by {
                lemma_apply_marked(m2, block.transactions@, h);
            }
            }
        }
        self.blocks.push(block);
        self.try_adjust_target();
        Ok(())
    }

    /// Admits a transaction that arrived at `now` (milliseconds). Its inputs
    /// must name distinct known outputs worth at least its outputs; the fee
    /// is kept in 128 bits, so no sum can overflow. Pending transactions that
    /// spend any of the same
    /// outputs are evicted and their outputs' marks cleared; then the inputs'
    /// outputs are marked and the transaction is placed before the first
    /// pending one with a higher fee. A refused transaction changes nothing.
    pub fn add_to_mempool_at(&mut self, transaction: Transactions, now: u64) -> (r: Result<(), BtcError>)
        requires
            old(self).wf(),
        ensures
            final(self).wf(),
            fees_current(old(self).utxo_map(), old(self).pool()) ==> fees_current(
                final(self).utxo_map(),
                final(self).pool(),
            ),
            mempool_consistent(old(self).utxo_map(), old(self).pool()) ==> mempool_consistent(
                final(self).utxo_map(),
                final(self).pool(),
            ),
            r is Ok <==> tx_acceptable(old(self).utxo_map(), transaction),
            r is Err ==> r == Err::<(), BtcError>(BtcError::InvalidTransaction) && *final(self) == *old(self),
            r is Ok ==> {
                let keep = |e: MempoolEntry| !conflicts(e.transaction, transaction);
                let entry = MempoolEntry {
                    timestamp: now,
                    transaction,
                    fee: tx_fee(old(self).utxo_map(), transaction) as u128,
                };
                &&& inserted_by_fee(retain_entries(old(self).pool(), keep), entry, final(self).pool())
                &&& final(self).utxo_map() == set_marks(
                    set_marks(old(self).utxo_map(), dropped_hashes(old(self).pool(), keep), false),
                    spent_hashes(transaction.inputs@),
                    true,
                )
                &&& final(self).chain_blocks() == old(self).chain_blocks()
                &&& final(self).current_target() == old(self).current_target()
            },
    {
        let mut seen: Vec<crate::hashing::Hash> = Vec::new();
        let mut i: usize = 0;
        while i < transaction.inputs.len()
            invariant
                0 <= i <= transaction.inputs@.len(),
                self.wf(),
                *self == *old(self),
                seen@ == spent_hashes(transaction.inputs@.take(i as int)),
                seen@.no_duplicates(),
            decreases transaction.inputs@.len() - i,
        {
            let h = transaction.inputs[i].prev_transaction_output_hash;
            if !self.utxos.contains_key(&h) {
                return Err(BtcError::InvalidTransaction);
            }
            if contains_hash(&seen, &h) {
                proof {
                    let ins = transaction.inputs@;
                    let j = choose|j: int| 0 <= j < seen@.len() && seen@[j] == h;
                    assert(seen@[j] == ins[j].prev_transaction_output_hash);
                    assert(spent_hashes(ins)[j] == spent_hashes(ins)[i as int]);
                    assert(j != i);
                    assert(!spent_hashes(ins).no_duplicates());
                }
                return Err(BtcError::InvalidTransaction);
            }
            seen.push(h);
            assert(spent_hashes(transaction.inputs@.take(i as int + 1)) =~= spent_hashes(
                transaction.inputs@.take(i as int),
            ).push(h));
            i += 1;
        }
        assert(transaction.inputs@.take(transaction.inputs@.len() as int) =~= transaction.inputs@);
        let input_value = match total_spent(&self.utxos, &transaction.inputs) {
            Some(v) => v,
            None => {
                return Err(BtcError::InvalidTransaction);
            },
        };
        let output_value = total_value(&transaction.outputs);
        if input_value < output_value {
            return Err(BtcError::InvalidTransaction);
        }
        let fee = input_value - output_value;
        let ghost keep = |e: MempoolEntry| !conflicts(e.transaction, transaction);
        let ghost pool_before = self.mempool@;
        let flags = flags_without_conflict(&self.mempool, &transaction);
        retain_flagged(&mut self.mempool, &mut self.utxos, &flags, Ghost(keep));
        let ghost m2 = self.utxos@;
        mark_inputs(&mut self.utxos, &transaction.inputs, true);
        let ghost kept = self.mempool@;
        let mut p: usize = 0;
        while p < self.mempool.len() && self.mempool[p].fee <= fee
            invariant
                0 <= p <= self.mempool@.len(),
                self.mempool@ == kept,
                forall|x: int| 0 <= x < p ==> (#[trigger] kept[x]).fee <= fee,
            decreases self.mempool@.len() - p,
        {
            p += 1;
        }
        let entry = MempoolEntry { timestamp: now, transaction, fee };
        let ghost m3 = self.utxos@;
        self.mempool.insert(p, entry);
        assert(inserted_by_fee(kept, entry, self.mempool@));
        proof {
            let pool = self.mempool@;
            assert(pool[p as int] == entry);
            assert forall|a: int| 0 <= a < pool.len() && a != p implies #[trigger] pool[a] == kept[if a < p { a } else { a - 1 }] by {}
            assert forall|a: int, b: int, h: crate::hashing::Hash|
                0 <= a < pool.len() && 0 <= b < pool.len() && a != b && #[trigger] spends(pool[a].transaction, h)
                    implies !#[trigger] spends(pool[b].transaction, h) by {
                let ka = if a < p { a } else { a - 1 };
                let kb = if b < p { b } else { b - 1 };
                if a != p && b != p {
                    assert(pool[a] == kept[ka] && pool[b] == kept[kb]);
                } else if a == p {
                    assert(pool[b] == kept[kb]);
                    assert(keep(kept[kb])) by {
                        let i = lemma_retain_member(pool_before, keep, kb);
                    }
                    if spends(pool[b].transaction, h) {
                        let x = choose|x: int| 0 <= x < spent_hashes(kept[kb].transaction.inputs@).len() && spent_hashes(kept[kb].transaction.inputs@)[x] == h;
                        let y = choose|y: int| 0 <= y < spent_hashes(transaction.inputs@).len() && spent_hashes(transaction.inputs@)[y] == h;
                        assert(kept[kb].transaction.inputs@[x].prev_transaction_output_hash == transaction.inputs@[y].prev_transaction_output_hash);
                        assert(conflicts(kept[kb].transaction, transaction));
                    }
                } else {
                    assert(pool[a] == kept[ka]);
                    assert(keep(kept[ka])) by {
                        let i = lemma_retain_member(pool_before, keep, ka);
                    }
                    let x = choose|x: int| 0 <= x < spent_hashes(kept[ka].transaction.inputs@).len() && spent_hashes(kept[ka].transaction.inputs@)[x] == h;
                    if spends(pool[b].transaction, h) {
                        let y = choose|y: int| 0 <= y < spent_hashes(transaction.inputs@).len() && spent_hashes(transaction.inputs@)[y] == h;
                        assert(kept[ka].transaction.inputs@[x].prev_transaction_output_hash == transaction.inputs@[y].prev_transaction_output_hash);
                        assert(conflicts(kept[ka].transaction, transaction));
                    }
                }
            }
            assert forall|a: int, b: int| 0 <= a < b < pool.len() implies (#[trigger] pool[a]).fee <= (#[trigger] pool[b]).fee by {
                let ka = if a < p { a } else { a - 1 };
                let kb = if b < p { b } else { b - 1 };
                if a == p as int {
                    assert(pool[b] == kept[kb]);
                } else if b == p as int {
                    assert(pool[a] == kept[ka]);
                } else {
                    assert(pool[a] == kept[ka] && pool[b] == kept[kb]);
                }
            }
            assert forall|a: int| 0 <= a < pool.len() implies spent_hashes((#[trigger] pool[a]).transaction.inputs@).no_duplicates() by {
                if a != p as int {
                    assert(pool[a] == kept[if a < p { a } else { a - 1 }]);
                }
            }
            if marks_claimed(m2, kept) {
            assert forall|h: crate::hashing::Hash| #[trigger] m3.contains_key(h) && m3[h].0 implies exists|k: int|
                0 <= k < pool.len() && spends(pool[k].transaction, h) by {
                if spent_hashes(transaction.inputs@).contains(h) {
                    assert(spends(pool[p as int].transaction, h));
                } else {
                    let k = choose|k: int| 0 <= k < kept.len() && spends(kept[k].transaction, h);
                    let a = if k < p { k } else { k + 1 };
                    assert(pool[a] == kept[k]);
                }
            }
            }
            if fees_current(m2, kept) {
                assert forall|k: int| 0 <= k < pool.len() && inputs_known(m3, (#[trigger] pool[k]).transaction.inputs@) implies pool[k].fee as int
                    == tx_fee(m3, pool[k].transaction) by {
                    lemma_set_marks_fees(m2, spent_hashes(transaction.inputs@), true, pool[k].transaction);
                    if k != p as int {
                        assert(pool[k] == kept[if k < p { k } else { k - 1 }]);
                    } else {
                        lemma_set_marks_fees(old(self).utxos@, dropped_hashes(pool_before, keep), false, transaction);
                    }
                }
            }
            if claims_marked(m2, kept) {
                assert forall|k: int, h: crate::hashing::Hash|
                    0 <= k < pool.len() && #[trigger] spends(pool[k].transaction, h) && m3.contains_key(h) implies m3[h].0 by {
                    if k != p as int && !spent_hashes(transaction.inputs@).contains(h) {
                        let kk = if k < p { k } else { k - 1 };
                        assert(pool[k] == kept[kk]);
                        assert(spends(kept[kk].transaction, h));
                    }
                }
            }
        }
        Ok(())
    }

    /// Admits a transaction stamped with the current time; see
    /// `add_to_mempool_at`.
    pub fn add_to_mempool(&mut self, transaction: Transactions) -> (r: Result<(), BtcError>)
        requires
            old(self).wf(),
        ensures
            final(self).wf(),
            fees_current(old(self).utxo_map(), old(self).pool()) ==> fees_current(
                final(self).utxo_map(),
                final(self).pool(),
            ),
            mempool_consistent(old(self).utxo_map(), old(self).pool()) ==> mempool_consistent(
                final(self).utxo_map(),
                final(self).pool(),
            ),
            r is Ok <==> tx_acceptable(old(self).utxo_map(), transaction),
            r is Err ==> r == Err::<(), BtcError>(BtcError::InvalidTransaction) && *final(self) == *old(self),
            r is Ok ==> {
                let keep = |e: MempoolEntry| !conflicts(e.transaction, transaction);
                &&& exists|now: u64| #[trigger] admitted_at(old(self).pool(), old(self).utxo_map(), transaction, now, final(self).pool())
                &&& final(self).utxo_map() == set_marks(
                    set_marks(old(self).utxo_map(), dropped_hashes(old(self).pool(), keep), false),
                    spent_hashes(transaction.inputs@),
                    true,
                )
                &&& final(self).chain_blocks() == old(self).chain_blocks()
                &&& final(self).current_target() == old(self).current_target()
            },
    {
        let now = crate::clock::now_millis();
        let r = self.add_to_mempool_at(transaction, now);
        proof {
            if r is Ok {
                assert(admitted_at(old(self).pool(), old(self).utxo_map(), transaction, now, self.pool()));
            }
        }
        r
    }

    /// Evicts every pending transaction older than
    /// `MAX_MEMPOOL_TRANSACTION_AGE` at `now` (milliseconds) and clears the
    /// marks of the outputs it was spending.
    pub fn cleanup_mempool_at(&mut self, now: u64)
        requires
            old(self).wf(),
        ensures
            final(self).wf(),
            fees_current(old(self).utxo_map(), old(self).pool()) ==> fees_current(
                final(self).utxo_map(),
                final(self).pool(),
            ),
            mempool_consistent(old(self).utxo_map(), old(self).pool()) ==> mempool_consistent(
                final(self).utxo_map(),
                final(self).pool(),
            ),
            final(self).pool() == retain_entries(old(self).pool(), |e: MempoolEntry| !expired(e, now)),
            final(self).utxo_map() == set_marks(
                old(self).utxo_map(),
                dropped_hashes(old(self).pool(), |e: MempoolEntry| !expired(e, now)),
                false,
            ),
            final(self).chain_blocks() == old(self).chain_blocks(),
            final(self).current_target() == old(self).current_target(),
    {
        let ghost keep = |e: MempoolEntry| !expired(e, now);
        let flags = flags_fresh(&self.mempool, now);
        retain_flagged(&mut self.mempool, &mut self.utxos, &flags, Ghost(keep));
    }

    /// Evicts the pending transactions that are too old now; see
    /// `cleanup_mempool_at`.
    pub fn cleanup_mempool(&mut self)
        requires
            old(self).wf(),
        ensures
            final(self).wf(),
            fees_current(old(self).utxo_map(), old(self).pool()) ==> fees_current(
                final(self).utxo_map(),
                final(self).pool(),
            ),
            mempool_consistent(old(self).utxo_map(), old(self).pool()) ==> mempool_consistent(
                final(self).utxo_map(),
                final(self).pool(),
            ),
            exists|now: u64| #[trigger] cleaned_at(old(self).pool(), old(self).utxo_map(), now, final(self).pool(), final(self).utxo_map()),
            final(self).chain_blocks() == old(self).chain_blocks(),
            final(self).current_target() == old(self).current_target(),
    {
        let now = crate::clock::now_millis();
        self.cleanup_mempool_at(now);
        assert(cleaned_at(old(self).pool(), old(self).utxo_map(), now, self.pool(), self.utxo_map()));
    }

    /// The encoding of the chain (the mempool is left out).
    #[verifier::rlimit(100)]
    pub fn encode(&self) -> (r: Vec<u8>)
        ensures
            r@ == enc_chain(*self),
    {
        let mut out: Vec<u8> = Vec::new();
        write_array_head(&mut out, 3);
        let entries = self.utxos.entries();
        write_array_head(&mut out, entries.len());
        let ghost p1 = out@;
        let mut i: usize = 0;
        while i < entries.len()
            invariant
                0 <= i <= entries@.len(),
                out@ == p1 + enc_utxo_entries(entries@.take(i as int)),
            decreases entries@.len() - i,
        {
            write_array_head(&mut out, 3);
            write_u256(&mut out, &entries[i].hash.0);
            write_bool(&mut out, entries[i].marked);
            entries[i].output.encode_into(&mut out);
            assert(entries@.take(i as int + 1).drop_last() =~= entries@.take(i as int));
            assert(out@ =~= p1 + enc_utxo_entries(entries@.take(i as int + 1)));
            i += 1;
        }
        assert(entries@.take(entries@.len() as int) =~= entries@);
        write_u256(&mut out, &self.target);
        write_array_head(&mut out, self.blocks.len());
        let ghost p2 = out@;
        let mut b: usize = 0;
        while b < self.blocks.len()
            invariant
                0 <= b <= self.blocks@.len(),
                out@ == p2 + enc_blocks(self.blocks@.take(b as int)),
            decreases self.blocks@.len() - b,
        {
            self.blocks[b].encode_into(&mut out);
            assert(self.blocks@.take(b as int + 1).drop_last() =~= self.blocks@.take(b as int));
            b += 1;
        }
        assert(self.blocks@.take(self.blocks@.len() as int) =~= self.blocks@);
        assert(out@ =~= enc_chain(*self));
        out
    }

    /// Decodes a chain that fills `bytes` exactly. Its UTXO entries must
    /// have distinct hashes and its target must be no easier than the
    /// minimum; it comes back with an empty mempool and the saved marks.
    /// Whatever decodes re-encodes to the same bytes, and the encoding of any
    /// well-formed chain decodes to that chain's saved part.
    pub fn decode(bytes: &Vec<u8>) -> (r: Result<BlockChain, BtcError>)
        ensures
            r matches Ok(c) ==> {
                &&& c.wf()
                &&& enc_chain(c) == bytes@
                &&& c.pool() == Seq::<MempoolEntry>::empty()
            },
            r matches Err(e) ==> e == BtcError::MalformedInput,
            forall|c: BlockChain| c.wf() && #[trigger] enc_chain(c) == bytes@ ==> (r matches Ok(y) && same_saved_chain(y, c)),
    {
        match read_chain(bytes) {
            Some(c) => Ok(c),
            None => Err(BtcError::MalformedInput),
        }
    }

    /// Rebuilds the UTXO set by replaying every block from the first: each
    /// transaction's inputs leave the set and its outputs enter it, unmarked.
    pub fn rebuild_utxos(&mut self)
        requires
            old(self).wf(),
        ensures
            final(self).wf(),
            marks_claimed(final(self).utxo_map(), final(self).pool()),
            final(self).utxo_map() == replay(old(self).chain_blocks()),
            final(self).chain_blocks() == old(self).chain_blocks(),
            final(self).current_target() == old(self).current_target(),
            final(self).pool() == old(self).pool(),
    {
        let mut utxos = UtxoSet::new();
        let mut b: usize = 0;
        while b < self.blocks.len()
            invariant
                0 <= b <= self.blocks@.len(),
                utxos.wf(),
                utxos@ == replay(self.blocks@.take(b as int)),
            decreases self.blocks@.len() - b,
        {
            apply_block(&mut utxos, &self.blocks[b]);
            assert(self.blocks@.take(b as int + 1).drop_last() =~= self.blocks@.take(b as int));
            b += 1;
        }
        assert(self.blocks@.take(self.blocks@.len() as int) =~= self.blocks@);
        self.utxos = utxos;
        proof {
            assert forall|h: crate::hashing::Hash| #[trigger] self.utxos@.contains_key(h) implies !self.utxos@[h].0 by {
                lemma_replay_unmarked(self.blocks@, h);
            }
        }
    }

    /// Every `DIFFICULTY_UPDATE_INTERVAL` blocks, scales the target by the
    /// time the last interval took over the ideal time, within a factor of
    /// four, and never easier than the minimum.
    pub fn try_adjust_target(&mut self)
        requires
            old(self).wf(),
        ensures
            final(self).wf(),
            final(self).current_target().value() == adjusted_target(
                old(self).current_target(),
                old(self).chain_blocks(),
            ),
            final(self).utxo_map() == old(self).utxo_map(),
            final(self).chain_blocks() == old(self).chain_blocks(),
            final(self).pool() == old(self).pool(),
    {
        let n = self.blocks.len();
        if n == 0 {
            return;
        }
        if n % (DIFFICULTY_UPDATE_INTERVAL as usize) != 0 {
            return;
        }
        let start_time = self.blocks[n - DIFFICULTY_UPDATE_INTERVAL as usize].header.timestamp;
        let end_time = self.blocks[n - 1].header.timestamp;
        let actual: u64 = if end_time >= start_time { (end_time - start_time) / 1000 } else { 0 };
        self.target = retarget_value(self.target, actual);
    }
}

/// The retargeted value of a target no easier than the minimum.
pub fn retarget_value(target: U256, actual_seconds: u64) -> (r: U256)
    requires
        target.value() <= min_target_value(),
    ensures
        r.value() == retarget(target.value(), actual_seconds as nat),
        r.value() <= min_target_value(),
{
    let ideal: u64 = IDEAL_BLOCK_TIME * DIFFICULTY_UPDATE_INTERVAL;
    let ghost t = target.value();
    let ghost a = actual_seconds as nat;
    let quarter = target.div_small(4);
    let four = match target.checked_mul_small(4) {
        Some(v) => v,
        None => {
            proof {
                assert(t * 4 < crate::u256::u256_bound());
            }
            target
        },
    };
    let clamped = if actual_seconds >= 4 * ideal {
        proof {
            assert(t * a / 500 >= t * 4) by (nonlinear_arith)
                requires a >= 2000;
        }
        four
    } else {
        let product = match target.checked_mul_small(actual_seconds) {
            Some(v) => v,
            None => {
                proof {
                    assert(t * a < crate::u256::u256_bound()) by (nonlinear_arith)
                        requires t <= min_target_value(), a < 2000;
                }
                target
            },
        };
        let scaled = product.div_small(ideal);
        if scaled.lt(&quarter) {
            quarter
        } else if four.lt(&scaled) {
            four
        } else {
            scaled
        }
    };
    clamped.min(min_target())
}

/// Reads `n` saved UTXO entries into a set; a repeated hash is refused.
#[verifier::rlimit(100)]
fn read_utxo_entries(data: &Vec<u8>, pos: usize, n: usize) -> (r: Option<(UtxoSet, usize)>)
    requires
        pos <= data@.len(),
    ensures
        r matches Some((u, end)) ==> {
            &&& u.wf()
            &&& u.entry_seq().len() == n
            &&& pos <= end <= data@.len()
            &&& data@.subrange(pos as int, end as int) == enc_utxo_entries(u.entry_seq())
        },
        forall|s: Seq<UtxoEntry>|
            s.len() == n && keys_unique(s) && #[trigger] prefix_at(data@, pos as int, enc_utxo_entries(s)) ==> (r matches Some((u, end))
                && u.entry_seq() == s && end == pos + enc_utxo_entries(s).len()),
{
    let mut utxos = UtxoSet::new();
    let mut cur = pos;
    let mut i: usize = 0;
    while i < n
        invariant
            0 <= i <= n,
            utxos.wf(),
            pos <= cur <= data@.len(),
            data@.subrange(pos as int, cur as int) == enc_utxo_entries(utxos.entry_seq()),
            utxos.entry_seq().len() == i,
            forall|s: Seq<UtxoEntry>|
                s.len() == n && keys_unique(s) && #[trigger] prefix_at(data@, pos as int, enc_utxo_entries(s)) ==> utxos.entry_seq()
                    == s.take(i as int) && cur == pos + enc_utxo_entries(
                    s.take(i as int),
                ).len(),
        decreases n - i,
    {
        proof {
            assert forall|s: Seq<UtxoEntry>|
                s.len() == n && keys_unique(s) && #[trigger] prefix_at(data@, pos as int, enc_utxo_entries(s)) implies {
                let e = s[i as int];
                let a = enc_array_head(3);
                let e0 = enc_u256(e.hash.0);
                let e1 = enc_bool(e.marked);
                &&& prefix_at(data@, cur as int, a)
                &&& prefix_at(data@, cur + a.len(), e0)
                &&& prefix_at(data@, cur + a.len() + e0.len(), e1)
                &&& prefix_at(data@, cur + a.len() + e0.len() + e1.len(), enc_output(e.output))
            } by {
                let e = s[i as int];
                let a = enc_array_head(3);
                let e0 = enc_u256(e.hash.0);
                let e1 = enc_bool(e.marked);
                lemma_enc_utxo_entries_split(s, i + 1);
                assert(s.take(i + 1).drop_last() =~= s.take(i as int));
                lemma_prefix_split(data@, pos as int, enc_utxo_entries(s.take(i + 1)), enc_utxo_entries(s.skip(i + 1)));
                lemma_prefix_split(data@, pos as int, enc_utxo_entries(s.take(i as int)), enc_utxo_entry(e));
                lemma_prefix_split(data@, cur as int, a + e0 + e1, enc_output(e.output));
                lemma_prefix_split(data@, cur as int, a + e0, e1);
                lemma_prefix_split(data@, cur as int, a, e0);
            }
        }
        let q0 = match read_array_head(data, cur, 3) {
            Some(p) => p,
            None => {
                return None;
            },
        };
        let (h, q1) = match read_u256(data, q0) {
            Some(x) => x,
            None => {
                return None;
            },
        };
        let (marked, qm) = match read_bool(data, q1) {
            Some(x) => x,
            None => {
                return None;
            },
        };
        let (o, q2) = match read_output(data, qm) {
            Some(x) => x,
            None => {
                return None;
            },
        };
        let key = crate::hashing::Hash(h);
        proof {
            utxos.lemma_entry_seq();
            assert forall|s: Seq<UtxoEntry>|
                s.len() == n && keys_unique(s) && #[trigger] prefix_at(data@, pos as int, enc_utxo_entries(s)) implies !utxos@.contains_key(
                key,
            ) by {
                if utxos@.contains_key(key) {
                    let j = choose|j: int| 0 <= j < utxos.entry_seq().len() && utxos.entry_seq()[j].hash == key;
                    assert(utxos.entry_seq()[j] == s.take(i as int)[j]);
                    assert(s[j].hash == s[i as int].hash);
                }
            }
        }
        if utxos.contains_key(&key) {
            return None;
        }
        let ghost before = utxos.entry_seq();
        utxos.insert(key, marked, o);
        proof {
            let e = UtxoEntry { hash: key, marked, output: o };
            lemma_subrange_split(data@, cur as int, q0 as int, q1 as int);
            lemma_subrange_split(data@, cur as int, q1 as int, qm as int);
            lemma_subrange_split(data@, cur as int, qm as int, q2 as int);
            assert(data@.subrange(cur as int, q2 as int) =~= enc_utxo_entry(e));
            lemma_subrange_split(data@, pos as int, cur as int, q2 as int);
            assert(utxos.entry_seq().drop_last() =~= before);
            assert forall|s: Seq<UtxoEntry>|
                s.len() == n && keys_unique(s) && #[trigger] prefix_at(data@, pos as int, enc_utxo_entries(s)) implies utxos.entry_seq()
                    == s.take(i + 1) && q2 == pos + enc_utxo_entries(
                    s.take(i + 1),
                ).len() by {
                assert(s.take(i + 1).drop_last() =~= s.take(i as int));
                assert(utxos.entry_seq() =~= s.take(i + 1));
            }
        }
        cur = q2;
        i += 1;
    }
    proof {
        assert forall|s: Seq<UtxoEntry>|
            s.len() == n && keys_unique(s) && #[trigger] prefix_at(data@, pos as int, enc_utxo_entries(s)) implies utxos.entry_seq()
                == s && cur == pos + enc_utxo_entries(s).len() by {
            assert(s.take(n as int) =~= s);
        }
    }
    Some((utxos, cur))
}

/// Reads `n` blocks one after another.
#[verifier::rlimit(100)]
fn read_blocks(data: &Vec<u8>, pos: usize, n: usize) -> (r: Option<(Vec<Block>, usize)>)
    requires
        pos <= data@.len(),
    ensures
        r matches Some((v, end)) ==> {
            &&& v@.len() == n
            &&& pos <= end <= data@.len()
            &&& data@.subrange(pos as int, end as int) == enc_blocks(v@)
        },
        forall|s: Seq<Block>|
            s.len() == n && #[trigger] prefix_at(data@, pos as int, enc_blocks(s)) ==> (r matches Some((v, end))
                && same_blocks(v@, s) && end == pos + enc_blocks(s).len()),
{
    let mut blocks: Vec<Block> = Vec::new();
    let mut cur = pos;
    let mut i: usize = 0;
    while i < n
        invariant
            0 <= i <= n,
            blocks@.len() == i,
            pos <= cur <= data@.len(),
            data@.subrange(pos as int, cur as int) == enc_blocks(blocks@),
            forall|s: Seq<Block>|
                s.len() == n && #[trigger] prefix_at(data@, pos as int, enc_blocks(s)) ==> same_blocks(
                    blocks@,
                    s.take(i as int),
                ) && cur == pos + enc_blocks(s.take(i as int)).len(),
        decreases n - i,
    {
        proof {
            assert forall|s: Seq<Block>|
                s.len() == n && #[trigger] prefix_at(data@, pos as int, enc_blocks(s)) implies prefix_at(
                data@,
                cur as int,
                enc_block(s[i as int]),
            ) by {
                lemma_enc_blocks_split(s, i + 1);
                assert(s.take(i + 1).drop_last() =~= s.take(i as int));
                lemma_prefix_split(data@, pos as int, enc_blocks(s.take(i + 1)), enc_blocks(s.skip(i + 1)));
                lemma_prefix_split(data@, pos as int, enc_blocks(s.take(i as int)), enc_block(s[i as int]));
            }
        }
        let (b, next) = match read_block(data, cur) {
            Some(y) => y,
            None => {
                proof {
                    assert forall|s: Seq<Block>| s.len() == n implies !#[trigger] prefix_at(data@, pos as int, enc_blocks(s)) by {
                        if prefix_at(data@, pos as int, enc_blocks(s)) {
                            assert(prefix_at(data@, cur as int, enc_block(s[i as int])));
                        }
                    }
                }
                return None;
            },
        };
        let ghost before = blocks@;
        blocks.push(b);
        proof {
            lemma_subrange_split(data@, pos as int, cur as int, next as int);
            assert(blocks@.drop_last() =~= before);
            assert forall|s: Seq<Block>|
                s.len() == n && #[trigger] prefix_at(data@, pos as int, enc_blocks(s)) implies same_blocks(
                blocks@,
                s.take(i + 1),
            ) && next == pos + enc_blocks(s.take(i + 1)).len() by {
                assert(prefix_at(data@, cur as int, enc_block(s[i as int])));
                assert(s.take(i + 1).drop_last() =~= s.take(i as int));
                assert(s.take(i + 1)[i as int] == s[i as int]);
                assert forall|k: int| 0 <= k < i + 1 implies same_block(#[trigger] blocks@[k], s.take(i + 1)[k]) by {
                    if k < i {
                        assert(blocks@[k] == before[k]);
                        assert(s.take(i + 1)[k] == s.take(i as int)[k]);
                    }
                }
            }
        }
        cur = next;
        i += 1;
    }
    proof {
        assert forall|s: Seq<Block>|
            s.len() == n && #[trigger] prefix_at(data@, pos as int, enc_blocks(s)) implies same_blocks(blocks@, s)
                && cur == pos + enc_blocks(s).len() by {
            assert(s.take(n as int) =~= s);
        }
    }
    Some((blocks, cur))
}

/// Reads a whole saved chain.
#[verifier::rlimit(60)]
fn read_chain(data: &Vec<u8>) -> (r: Option<BlockChain>)
    ensures
        r matches Some(c) ==> {
            &&& c.wf()
            &&& enc_chain(c) == data@
            &&& c.pool() == Seq::<MempoolEntry>::empty()
        },
        forall|c: BlockChain| c.wf() && #[trigger] enc_chain(c) == data@ ==> (r matches Some(y) && same_saved_chain(y, c)),
{
    proof {
        assert forall|c: BlockChain| c.wf() && #[trigger] enc_chain(c) == data@ implies {
            let a = enc_array_head(3);
            let b = enc_array_head(c.utxo_entries().len());
            let e = enc_utxo_entries(c.utxo_entries());
            let t = enc_u256(c.current_target());
            let d = enc_array_head(c.chain_blocks().len());
            &&& c.utxo_entries().len() <= usize::MAX
            &&& c.chain_blocks().len() <= usize::MAX
            &&& keys_unique(c.utxo_entries())
            &&& c.current_target().value() <= min_target_value()
            &&& prefix_at(data@, 0, a)
            &&& prefix_at(data@, a.len() as int, b)
            &&& prefix_at(data@, (a.len() + b.len()) as int, e)
            &&& prefix_at(data@, (a.len() + b.len() + e.len()) as int, t)
            &&& prefix_at(data@, (a.len() + b.len() + e.len() + t.len()) as int, d)
            &&& prefix_at(data@, (a.len() + b.len() + e.len() + t.len() + d.len()) as int, enc_blocks(c.chain_blocks()))
            &&& a.len() + b.len() + e.len() + t.len() + d.len() + enc_blocks(c.chain_blocks()).len() == data@.len()
        } by {
            c.utxos.lemma_entry_seq();
            assert(c.blocks@.len() == c.blocks.len());
            let a = enc_array_head(3);
            let b = enc_array_head(c.utxo_entries().len());
            let e = enc_utxo_entries(c.utxo_entries());
            let t = enc_u256(c.current_target());
            let d = enc_array_head(c.chain_blocks().len());
            assert(data@.subrange(0, data@.len() as int) =~= data@);
            assert(enc_chain(c) == a + b + e + t + d + enc_blocks(c.chain_blocks()));
            lemma_prefix_split(data@, 0, a + b + e + t + d, enc_blocks(c.chain_blocks()));
            lemma_prefix_split(data@, 0, a + b + e + t, d);
            lemma_prefix_split(data@, 0, a + b + e, t);
            lemma_prefix_split(data@, 0, a + b, e);
            lemma_prefix_split(data@, 0, a, b);
        }
    }
    let p0 = match read_array_head(data, 0, 3) {
        Some(p) => p,
        None => {
            return None;
        },
    };
    let (n, p1) = match read_array_len(data, p0) {
        Some(x) => x,
        None => {
            return None;
        },
    };
    let (utxos, cur) = match read_utxo_entries(data, p1, n) {
        Some(x) => x,
        None => {
            return None;
        },
    };
    let (target, p2) = match read_u256(data, cur) {
        Some(x) => x,
        None => {
            return None;
        },
    };
    if !target.le(&min_target()) {
        return None;
    }
    let (m, p3) = match read_array_len(data, p2) {
        Some(x) => x,
        None => {
            return None;
        },
    };
    let (blocks, pos) = match read_blocks(data, p3, m) {
        Some(x) => x,
        None => {
            return None;
        },
    };
    proof {
        assert forall|c: BlockChain| c.wf() && #[trigger] enc_chain(c) == data@ implies pos == data@.len() by {
        }
    }
    if pos != data.len() {
        return None;
    }
    let c = BlockChain { utxos, target, blocks, mempool: Vec::new() };
    proof {
        lemma_subrange_split(data@, 0, p0 as int, p1 as int);
        lemma_subrange_split(data@, 0, p1 as int, cur as int);
        lemma_subrange_split(data@, 0, cur as int, p2 as int);
        lemma_subrange_split(data@, 0, p2 as int, p3 as int);
        lemma_subrange_split(data@, 0, p3 as int, pos as int);
        assert(data@.subrange(0, pos as int) =~= data@);
        assert(enc_chain(c) =~= data@);
    }
    Some(c)
}
} // verus!
