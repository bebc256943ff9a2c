//! Block headers, blocks, mining, and the consensus checks on a block's
//! transactions.

use vstd::prelude::*;
use crate::codec::{
    enc_array_head, enc_u256, enc_uint, lemma_prefix_split, lemma_subrange_split, prefix_at, read_array_head,
    read_array_len, read_u256, read_uint,
    write_array_head, write_u256, write_uint,
};
use crate::crypto::ecdsa_accepts;
use crate::error::BtcError;
use crate::hashing::{digest_of, u256_le_bytes};
use crate::transaction::{
    Transactions, TransactionsInput, TransactionsOutput, enc_transaction, output_hash, read_transaction,
    same_transaction, spent_hashes, sum_values,
};
use crate::u256::U256;
use crate::util::MerkleRoot;
use crate::utxo::UtxoSet;
use crate::{HALVING_INTERVAL, INITIAL_REWARD};
use vstd::arithmetic::power2::{pow2, lemma2_to64, lemma_pow2_strictly_increases};
use vstd::bits::lemma_u64_shr_is_div;

verus! {

/// A block header. `timestamp` counts milliseconds since the Unix epoch (UTC).
#[derive(Clone, Copy, Debug, PartialEq, Eq, Structural)]
pub struct BlockHeader {
    pub timestamp: u64,
    pub nonce: u64,
    pub prev_block_hash: crate::hashing::Hash,
    pub merkle_root: MerkleRoot,
    pub target: U256,
}

/// A header and its transactions; the first transaction is the coinbase.
#[derive(Clone, Debug, PartialEq, Eq)]
pub struct Block {
    pub header: BlockHeader,
    pub transactions: Vec<Transactions>,
}

/// The encoding of a header.
pub open spec fn enc_header(h: BlockHeader) -> Seq<u8> {
    enc_array_head(5) + enc_uint(h.timestamp) + enc_uint(h.nonce) + enc_u256(h.prev_block_hash.0) + enc_u256(
        h.merkle_root.0.0,
    ) + enc_u256(h.target)
}

/// The hash of a header.
pub open spec fn header_hash(h: BlockHeader) -> crate::hashing::Hash {
    digest_of(enc_header(h))
}

/// Whether a header's hash is at most its own target.
pub open spec fn meets_target(h: BlockHeader) -> bool {
    header_hash(h).0.value() <= h.target.value()
}

/// The encodings of some transactions, one after another.
pub open spec fn enc_transactions(s: Seq<Transactions>) -> Seq<u8>
    decreases s.len(),
{
    if s.len() == 0 {
        Seq::empty()
    } else {
        enc_transactions(s.drop_last()) + enc_transaction(s.last())
    }
}

/// The encoding of a list of transactions splits at any point.
pub proof fn lemma_enc_transactions_split(s: Seq<Transactions>, i: int)
    requires
        0 <= i <= s.len(),
    ensures
        enc_transactions(s) == enc_transactions(s.take(i)) + enc_transactions(s.skip(i)),
    decreases s.len(),
{
    if i == s.len() {
        assert(s.take(i) =~= s);
        assert(s.skip(i) =~= Seq::<Transactions>::empty());
        assert(enc_transactions(s) + Seq::<u8>::empty() =~= enc_transactions(s));
    } else {
        lemma_enc_transactions_split(s.drop_last(), i);
        assert(s.drop_last().take(i) =~= s.take(i));
        assert(s.skip(i).drop_last() =~= s.drop_last().skip(i));
        assert(s.skip(i).last() == s.last());
        assert(enc_transactions(s) =~= enc_transactions(s.take(i)) + enc_transactions(s.skip(i)));
    }
}

/// Two lists of transactions that agree item by item.
pub open spec fn same_transactions(a: Seq<Transactions>, b: Seq<Transactions>) -> bool {
    a.len() == b.len() && forall|i: int| 0 <= i < a.len() ==> same_transaction(#[trigger] a[i], b[i])
}

/// Two blocks with the same header and the same transactions.
pub open spec fn same_block(a: Block, b: Block) -> bool {
    a.header == b.header && same_transactions(a.transactions@, b.transactions@)
}

/// Lists of transactions that agree item by item encode alike.
pub proof fn lemma_same_transactions_encode(a: Seq<Transactions>, b: Seq<Transactions>)
    requires
        same_transactions(a, b),
    ensures
        enc_transactions(a) == enc_transactions(b),
    decreases a.len(),
{
    if a.len() > 0 {
        lemma_same_transactions_encode(a.drop_last(), b.drop_last());
        assert(same_transaction(a[a.len() - 1], b[b.len() - 1]));
        assert(enc_transaction(a.last()) == enc_transaction(b.last()));
    }
}

/// The encoding of a block.
pub open spec fn enc_block(b: Block) -> Seq<u8> {
    enc_array_head(2) + enc_header(b.header) + enc_array_head(b.transactions@.len()) + enc_transactions(
        b.transactions@,
    )
}

/// The transactions after the coinbase.
pub open spec fn non_coinbase(txs: Seq<Transactions>) -> Seq<Transactions> {
    if txs.len() == 0 {
        txs
    } else {
        txs.skip(1)
    }
}

/// The inputs of some transactions, in order.
pub open spec fn flat_inputs(s: Seq<Transactions>) -> Seq<TransactionsInput>
    decreases s.len(),
{
    if s.len() == 0 {
        Seq::empty()
    } else {
        flat_inputs(s.drop_last()) + s.last().inputs@
    }
}

/// The outputs of some transactions, in order.
pub open spec fn flat_outputs(s: Seq<Transactions>) -> Seq<TransactionsOutput>
    decreases s.len(),
{
    if s.len() == 0 {
        Seq::empty()
    } else {
        flat_outputs(s.drop_last()) + s.last().outputs@
    }
}

/// The UTXO view that validation reads.
pub type UtxoMap = Map<crate::hashing::Hash, (bool, TransactionsOutput)>;

/// Every input names an output of the map.
pub open spec fn inputs_known(m: UtxoMap, s: Seq<TransactionsInput>) -> bool {
    forall|i: int| 0 <= i < s.len() ==> m.contains_key(#[trigger] s[i].prev_transaction_output_hash)
}

/// The total value of the outputs that some inputs spend.
pub open spec fn spent_value(m: UtxoMap, s: Seq<TransactionsInput>) -> nat
    decreases s.len(),
{
    if s.len() == 0 {
        0
    } else {
        spent_value(m, s.drop_last()) + m[s.last().prev_transaction_output_hash].1.value as nat
    }
}

/// The hashes of some outputs.
pub open spec fn output_hashes(s: Seq<TransactionsOutput>) -> Seq<crate::hashing::Hash> {
    s.map_values(|o: TransactionsOutput| output_hash(o))
}

/// The fee checks: the non-coinbase inputs are known and distinct, the
/// non-coinbase outputs have distinct hashes, and the fee is a `u64`.
pub open spec fn fees_ok(m: UtxoMap, txs: Seq<Transactions>) -> bool {
    let ins = flat_inputs(non_coinbase(txs));
    let outs = flat_outputs(non_coinbase(txs));
    &&& inputs_known(m, ins)
    &&& spent_hashes(ins).no_duplicates()
    &&& output_hashes(outs).no_duplicates()
    &&& sum_values(outs) <= spent_value(m, ins)
    &&& spent_value(m, ins) - sum_values(outs) <= u64::MAX
}

/// What the non-coinbase transactions leave to the miner.
pub open spec fn miner_fees(m: UtxoMap, txs: Seq<Transactions>) -> int {
    spent_value(m, flat_inputs(non_coinbase(txs))) - sum_values(flat_outputs(non_coinbase(txs)))
}

/// The newly minted amount at a height: the initial reward halved once per
/// halving interval.
pub open spec fn block_reward(height: u64) -> nat {
    (INITIAL_REWARD * 100_000_000) as nat / pow2((height / HALVING_INTERVAL) as nat)
}

/// The coinbase rules: no inputs, some outputs, and outputs worth exactly
/// the reward plus the fees.
pub open spec fn coinbase_ok(m: UtxoMap, txs: Seq<Transactions>, height: u64) -> bool {
    &&& txs.len() >= 1
    &&& txs[0].inputs@.len() == 0
    &&& txs[0].outputs@.len() >= 1
    &&& fees_ok(m, txs)
    &&& sum_values(txs[0].outputs@) == block_reward(height) + miner_fees(m, txs)
}

/// An input names a known output and carries a valid signature of that
/// output's hash under its owner's key.
pub open spec fn input_ok(m: UtxoMap, i: TransactionsInput) -> bool {
    &&& m.contains_key(i.prev_transaction_output_hash)
    &&& ecdsa_accepts(
        i.signature.bytes@,
        u256_le_bytes(i.prev_transaction_output_hash.0),
        m[i.prev_transaction_output_hash].1.pubkey.bytes@,
    )
}

/// A non-coinbase transaction: valid inputs, and outputs worth no more than them.
pub open spec fn spend_ok(m: UtxoMap, t: Transactions) -> bool {
    &&& forall|j: int| 0 <= j < t.inputs@.len() ==> input_ok(m, #[trigger] t.inputs@[j])
    &&& sum_values(t.outputs@) <= spent_value(m, t.inputs@)
}

/// The full check of a block's transactions.
pub open spec fn block_valid(m: UtxoMap, txs: Seq<Transactions>, height: u64) -> bool {
    &&& txs.len() >= 1
    &&& coinbase_ok(m, txs, height)
    &&& forall|t: int| 1 <= t < txs.len() ==> spend_ok(m, #[trigger] txs[t])
}

/// The header with another nonce.
pub open spec fn with_nonce(h: BlockHeader, n: u64) -> BlockHeader {
    BlockHeader { nonce: n, ..h }
}

pub(crate) fn contains_hash(v: &Vec<crate::hashing::Hash>, h: &crate::hashing::Hash) -> (r: bool)
    ensures
        r == v@.contains(*h),
{
    let mut i: usize = 0;
    while i < v.len()
        invariant
            0 <= i <= v@.len(),
            forall|j: int| 0 <= j < i ==> v@[j] != *h,
        decreases v@.len() - i,
    {
        if v[i] == *h {
            assert(v@[i as int] == *h);
            return true;
        }
        i += 1;
    }
    false
}

proof fn lemma_sum_step(s: Seq<TransactionsOutput>, i: int)
    requires
        0 <= i < s.len(),
    ensures
        sum_values(s.take(i + 1)) == sum_values(s.take(i)) + s[i].value,
{
    assert(s.take(i + 1).drop_last() =~= s.take(i));
}

proof fn lemma_spent_step(m: UtxoMap, s: Seq<TransactionsInput>, i: int)
    requires
        0 <= i < s.len(),
    ensures
        spent_value(m, s.take(i + 1)) == spent_value(m, s.take(i)) + m[s[i].prev_transaction_output_hash].1.value,
{
    assert(s.take(i + 1).drop_last() =~= s.take(i));
}

/// The inputs of the transactions after the coinbase.
fn collect_inputs(txs: &Vec<Transactions>) -> (r: Vec<TransactionsInput>)
    ensures
        r@ == flat_inputs(non_coinbase(txs@)),
{
    let mut out: Vec<TransactionsInput> = Vec::new();
    if txs.len() == 0 {
        return out;
    }
    let mut t: usize = 1;
    while t < txs.len()
        invariant
            1 <= t <= txs@.len(),
            out@ == flat_inputs(txs@.subrange(1, t as int)),
        decreases txs@.len() - t,
    {
        let ins = &txs[t].inputs;
        let ghost before = out@;
        let mut j: usize = 0;
        while j < ins.len()
            invariant
                0 <= j <= ins@.len(),
                out@ == before + ins@.take(j as int),
            decreases ins@.len() - j,
        {
            out.push(ins[j]);
            assert(ins@.take(j as int + 1) =~= ins@.take(j as int).push(ins@[j as int]));
            j += 1;
        }
        assert(ins@.take(ins@.len() as int) =~= ins@);
        assert(txs@.subrange(1, t as int + 1).drop_last() =~= txs@.subrange(1, t as int));
        t += 1;
    }
    assert(txs@.subrange(1, txs@.len() as int) =~= txs@.skip(1));
    out
}

/// The outputs of the transactions after the coinbase.
fn collect_outputs(txs: &Vec<Transactions>) -> (r: Vec<TransactionsOutput>)
    ensures
        r@ == flat_outputs(non_coinbase(txs@)),
{
    let mut out: Vec<TransactionsOutput> = Vec::new();
    if txs.len() == 0 {
        return out;
    }
    let mut t: usize = 1;
    while t < txs.len()
        invariant
            1 <= t <= txs@.len(),
            out@ == flat_outputs(txs@.subrange(1, t as int)),
        decreases txs@.len() - t,
    {
        let outs = &txs[t].outputs;
        let ghost before = out@;
        let mut j: usize = 0;
        while j < outs.len()
            invariant
                0 <= j <= outs@.len(),
                out@ == before + outs@.take(j as int),
            decreases outs@.len() - j,
        {
            out.push(outs[j]);
            assert(outs@.take(j as int + 1) =~= outs@.take(j as int).push(outs@[j as int]));
            j += 1;
        }
        assert(outs@.take(outs@.len() as int) =~= outs@);
        assert(txs@.subrange(1, t as int + 1).drop_last() =~= txs@.subrange(1, t as int));
        t += 1;
    }
    assert(txs@.subrange(1, txs@.len() as int) =~= txs@.skip(1));
    out
}

/// The sum of some output values, which always fits in 128 bits.
pub fn total_value(s: &Vec<TransactionsOutput>) -> (r: u128)
    ensures
        r as nat == sum_values(s@),
{
    let mut sum: u128 = 0;
    let mut i: usize = 0;
    while i < s.len()
        invariant
            0 <= i <= s@.len(),
            sum as nat == sum_values(s@.take(i as int)),
            sum <= i as nat * 0xFFFF_FFFF_FFFF_FFFFnat,
        decreases s@.len() - i,
    {
        proof {
            lemma_sum_step(s@, i as int);
            assert((i as nat + 1) * 0xFFFF_FFFF_FFFF_FFFFnat <= 0x1_0000_0000_0000_0000nat * 0xFFFF_FFFF_FFFF_FFFFnat)
                by (nonlinear_arith)
                requires i < 0x1_0000_0000_0000_0000nat;
        }
        sum = sum + s[i].value as u128;
        i += 1;
    }
    assert(s@.take(s@.len() as int) =~= s@);
    sum
}

/// The value that some inputs spend, or `None` when one names no known output.
pub fn total_spent(utxos: &UtxoSet, s: &Vec<TransactionsInput>) -> (r: Option<u128>)
    requires
        utxos.wf(),
    ensures
        r is Some <==> inputs_known(utxos@, s@),
        r matches Some(v) ==> v as nat == spent_value(utxos@, s@),
{
    let mut sum: u128 = 0;
    let mut i: usize = 0;
    while i < s.len()
        invariant
            0 <= i <= s@.len(),
            utxos.wf(),
            inputs_known(utxos@, s@.take(i as int)),
            sum as nat == spent_value(utxos@, s@.take(i as int)),
            sum <= i as nat * 0xFFFF_FFFF_FFFF_FFFFnat,
        decreases s@.len() - i,
    {
        match utxos.get(&s[i].prev_transaction_output_hash) {
            None => {
                assert(!utxos@.contains_key(s@[i as int].prev_transaction_output_hash));
                return None;
            },
            Some((_, o)) => {
                proof {
                    lemma_spent_step(utxos@, s@, i as int);
                    assert((i as nat + 1) * 0xFFFF_FFFF_FFFF_FFFFnat <= 0x1_0000_0000_0000_0000nat
                        * 0xFFFF_FFFF_FFFF_FFFFnat) by (nonlinear_arith)
                        requires i < 0x1_0000_0000_0000_0000nat;
                    assert(s@.take(i as int + 1).drop_last() =~= s@.take(i as int));
                }
                sum = sum + o.value as u128;
                i += 1;
            },
        }
    }
    assert(s@.take(s@.len() as int) =~= s@);
    Some(sum)
}

/// The reward minted at a height.
pub fn reward_at(height: u64) -> (r: u64)
    ensures
        r as nat == block_reward(height),
{
    let halvings: u64 = height / HALVING_INTERVAL;
    let base: u64 = INITIAL_REWARD * 100_000_000;
    if halvings >= 64 {
        proof {
            lemma2_to64();
            if halvings > 64 {
                lemma_pow2_strictly_increases(64, halvings as nat);
            }
            assert(base as nat / pow2(halvings as nat) == 0) by (nonlinear_arith)
                requires (base as nat) < pow2(halvings as nat);
        }
        0
    } else {
        proof {
            lemma_u64_shr_is_div(base, halvings);
        }
        base >> halvings
    }
}

/// Whether a non-coinbase transaction spends validly.
fn check_spend(t: &Transactions, utxos: &UtxoSet) -> (r: bool)
    requires
        utxos.wf(),
    ensures
        r == spend_ok(utxos@, *t),
{
    let mut j: usize = 0;
    while j < t.inputs.len()
        invariant
            0 <= j <= t.inputs@.len(),
            utxos.wf(),
            forall|k: int| 0 <= k < j ==> input_ok(utxos@, #[trigger] t.inputs@[k]),
        decreases t.inputs@.len() - j,
    {
        let input = &t.inputs[j];
        match utxos.get(&input.prev_transaction_output_hash) {
            None => {
                return false;
            },
            Some((_, prev_output)) => {
                if !input.signature.verify(&input.prev_transaction_output_hash, &prev_output.pubkey) {
                    return false;
                }
            },
        }
        j += 1;
    }
    let input_value = match total_spent(utxos, &t.inputs) {
        Some(v) => v,
        None => {
            proof {
                let k = choose|k: int| 0 <= k < t.inputs@.len() && !utxos@.contains_key(
                    #[trigger] t.inputs@[k].prev_transaction_output_hash,
                );
                assert(input_ok(utxos@, t.inputs@[k]));
            }
            return false;
        },
    };
    let output_value = total_value(&t.outputs);
    output_value <= input_value
}

impl BlockHeader {
    /// A header from its fields.
    pub fn new(
        timestamp: u64,
        nonce: u64,
        prev_block_hash: crate::hashing::Hash,
        merkle_root: MerkleRoot,
        target: U256,
    ) -> (r: BlockHeader)
        ensures
            r == (BlockHeader { timestamp, nonce, prev_block_hash, merkle_root, target }),
    {
        BlockHeader { timestamp, nonce, prev_block_hash, merkle_root, target }
    }

    /// Appends the encoding.
    pub fn encode_into(&self, out: &mut Vec<u8>)
        ensures
            final(out)@ == old(out)@ + enc_header(*self),
    {
        write_array_head(out, 5);
        write_uint(out, self.timestamp);
        write_uint(out, self.nonce);
        write_u256(out, &self.prev_block_hash.0);
        write_u256(out, &self.merkle_root.0.0);
        write_u256(out, &self.target);
        assert(final(out)@ =~= old(out)@ + enc_header(*self));
    }

    /// The hash of the header's encoding.
    pub fn hash(&self) -> (r: crate::hashing::Hash)
        ensures
            r == header_hash(*self),
    {
        let mut bytes: Vec<u8> = Vec::new();
        self.encode_into(&mut bytes);
        assert(bytes@ =~= enc_header(*self));
        crate::hashing::Hash::hash_bytes(&bytes)
    }

    /// Up to `steps` attempts to meet the target: each raises the nonce by
    /// one, or on overflow sets it to zero and the timestamp to now. A header
    /// that already meets its target is left alone.
    pub fn mine(&mut self, steps: usize) -> (r: bool)
        ensures
            r == meets_target(*final(self)),
            final(self).prev_block_hash == old(self).prev_block_hash,
            final(self).merkle_root == old(self).merkle_root,
            final(self).target == old(self).target,
            meets_target(*old(self)) ==> *final(self) == *old(self),
            old(self).nonce + steps <= u64::MAX ==> {
                &&& final(self).timestamp == old(self).timestamp
                &&& old(self).nonce <= final(self).nonce <= old(self).nonce + steps
                &&& !r ==> final(self).nonce == old(self).nonce + steps
                &&& forall|n: u64| old(self).nonce <= n < final(self).nonce ==> !meets_target(
                    #[trigger] with_nonce(*old(self), n),
                )
            },
    {
        if self.hash().matches_target(self.target) {
            return true;
        }
        let ghost start = *self;
        let mut i: usize = 0;
        while i < steps
            invariant
                0 <= i <= steps,
                start == *old(self),
                self.prev_block_hash == start.prev_block_hash,
                self.merkle_root == start.merkle_root,
                self.target == start.target,
                !meets_target(*self),
                !meets_target(start),
                start.nonce + steps <= u64::MAX ==> {
                    &&& self.timestamp == start.timestamp
                    &&& self.nonce == start.nonce + i
                    &&& forall|n: u64| start.nonce <= n < self.nonce ==> !meets_target(
                        #[trigger] with_nonce(start, n),
                    )
                },
            decreases steps - i,
        {
            let ghost prev = *self;
            if self.nonce < u64::MAX {
                self.nonce = self.nonce + 1;
            } else {
                self.nonce = 0;
                self.timestamp = crate::clock::now_millis();
            }
            proof {
                if start.nonce + steps <= u64::MAX {
                    assert(prev == with_nonce(start, prev.nonce));
                }
            }
            if self.hash().matches_target(self.target) {
                return true;
            }
            i += 1;
        }
        false
    }
}

/// Reads a header.
#[verifier::rlimit(60)]
pub fn read_header(data: &Vec<u8>, pos: usize) -> (r: Option<(BlockHeader, usize)>)
    ensures
        r matches Some((h, end)) ==> pos < end <= data@.len() && data@.subrange(pos as int, end as int)
            == enc_header(h),
        forall|h: BlockHeader| #[trigger] prefix_at(data@, pos as int, enc_header(h)) ==> r == Some(
            (h, (pos + enc_header(h).len()) as usize),
        ),
{
    proof {
        assert forall|h: BlockHeader| #[trigger] prefix_at(data@, pos as int, enc_header(h)) implies {
            let a = enc_array_head(5);
            let e0 = enc_uint(h.timestamp);
            let e1 = enc_uint(h.nonce);
            let e2 = enc_u256(h.prev_block_hash.0);
            let e3 = enc_u256(h.merkle_root.0.0);
            &&& prefix_at(data@, pos as int, a)
            &&& prefix_at(data@, pos + a.len(), e0)
            &&& prefix_at(data@, pos + a.len() + e0.len(), e1)
            &&& prefix_at(data@, pos + a.len() + e0.len() + e1.len(), e2)
            &&& prefix_at(data@, pos + a.len() + e0.len() + e1.len() + e2.len(), e3)
            &&& prefix_at(data@, pos + a.len() + e0.len() + e1.len() + e2.len() + e3.len(), enc_u256(h.target))
        } by {
            let a = enc_array_head(5);
            let e0 = enc_uint(h.timestamp);
            let e1 = enc_uint(h.nonce);
            let e2 = enc_u256(h.prev_block_hash.0);
            let e3 = enc_u256(h.merkle_root.0.0);
            lemma_prefix_split(data@, pos as int, a + e0 + e1 + e2 + e3, enc_u256(h.target));
            lemma_prefix_split(data@, pos as int, a + e0 + e1 + e2, e3);
            lemma_prefix_split(data@, pos as int, a + e0 + e1, e2);
            lemma_prefix_split(data@, pos as int, a + e0, e1);
            lemma_prefix_split(data@, pos as int, a, e0);
        }
    }
    let p0 = match read_array_head(data, pos, 5) {
        Some(p) => p,
        None => {
            return None;
        },
    };
    let (timestamp, p1) = match read_uint(data, p0) {
        Some(x) => x,
        None => {
            return None;
        },
    };
    let (nonce, p2) = match read_uint(data, p1) {
        Some(x) => x,
        None => {
            return None;
        },
    };
    let (prev, p3) = match read_u256(data, p2) {
        Some(x) => x,
        None => {
            return None;
        },
    };
    let (root, p4) = match read_u256(data, p3) {
        Some(x) => x,
        None => {
            return None;
        },
    };
    let (target, p5) = match read_u256(data, p4) {
        Some(x) => x,
        None => {
            return None;
        },
    };
    let h = BlockHeader {
        timestamp,
        nonce,
        prev_block_hash: crate::hashing::Hash(prev),
        merkle_root: MerkleRoot(crate::hashing::Hash(root)),
        target,
    };
    proof {
        lemma_subrange_split(data@, pos as int, p0 as int, p1 as int);
        lemma_subrange_split(data@, pos as int, p1 as int, p2 as int);
        lemma_subrange_split(data@, pos as int, p2 as int, p3 as int);
        lemma_subrange_split(data@, pos as int, p3 as int, p4 as int);
        lemma_subrange_split(data@, pos as int, p4 as int, p5 as int);
        assert(data@.subrange(pos as int, p5 as int) =~= enc_header(h));
    }
    Some((h, p5))
}

/// Reads `n` transactions one after another.
pub fn read_transactions(data: &Vec<u8>, pos: usize, n: usize) -> (r: Option<(Vec<Transactions>, usize)>)
    requires
        pos <= data@.len(),
    ensures
        r matches Some((v, end)) ==> {
            &&& v@.len() == n
            &&& pos <= end <= data@.len()
            &&& data@.subrange(pos as int, end as int) == enc_transactions(v@)
        },
        forall|s: Seq<Transactions>|
            s.len() == n && #[trigger] prefix_at(data@, pos as int, enc_transactions(s)) ==> (r matches Some((v, end))
                && same_transactions(v@, s) && end == pos + enc_transactions(s).len()),
{
    let mut txs: Vec<Transactions> = Vec::new();
    let mut cur = pos;
    let mut i: usize = 0;
    while i < n
        invariant
            0 <= i <= n,
            txs@.len() == i,
            pos <= cur <= data@.len(),
            data@.subrange(pos as int, cur as int) == enc_transactions(txs@),
            forall|s: Seq<Transactions>|
                s.len() == n && #[trigger] prefix_at(data@, pos as int, enc_transactions(s)) ==> same_transactions(
                    txs@,
                    s.take(i as int),
                ) && cur == pos + enc_transactions(s.take(i as int)).len(),
        decreases n - i,
    {
        proof {
            assert forall|s: Seq<Transactions>|
                s.len() == n && #[trigger] prefix_at(data@, pos as int, enc_transactions(s)) implies prefix_at(
                data@,
                cur as int,
                enc_transaction(s[i as int]),
            ) by {
                lemma_enc_transactions_split(s, i + 1);
                assert(s.take(i + 1).drop_last() =~= s.take(i as int));
                lemma_prefix_split(data@, pos as int, enc_transactions(s.take(i + 1)), enc_transactions(s.skip(i + 1)));
                lemma_prefix_split(data@, pos as int, enc_transactions(s.take(i as int)), enc_transaction(s[i as int]));
            }
        }
        let (t, next) = match read_transaction(data, cur) {
            Some(y) => y,
            None => {
                proof {
                    assert forall|s: Seq<Transactions>| s.len() == n implies !#[trigger] prefix_at(
                        data@,
                        pos as int,
                        enc_transactions(s),
                    ) by {
                        if prefix_at(data@, pos as int, enc_transactions(s)) {
                            assert(prefix_at(data@, cur as int, enc_transaction(s[i as int])));
                        }
                    }
                }
                return None;
            },
        };
        let ghost before = txs@;
        txs.push(t);
        proof {
            lemma_subrange_split(data@, pos as int, cur as int, next as int);
            assert(txs@.drop_last() =~= before);
            assert forall|s: Seq<Transactions>|
                s.len() == n && #[trigger] prefix_at(data@, pos as int, enc_transactions(s)) implies same_transactions(
                txs@,
                s.take(i + 1),
            ) && next == pos + enc_transactions(s.take(i + 1)).len() by {
                assert(prefix_at(data@, cur as int, enc_transaction(s[i as int])));
                assert(s.take(i + 1).drop_last() =~= s.take(i as int));
                assert(s.take(i + 1)[i as int] == s[i as int]);
                assert forall|k: int| 0 <= k < i + 1 implies same_transaction(#[trigger] txs@[k], s.take(i + 1)[k]) by {
                    if k < i {
                        assert(txs@[k] == before[k]);
                        assert(s.take(i + 1)[k] == s.take(i as int)[k]);
                    }
                }
            }
        }
        cur = next;
        i += 1;
    }
    proof {
        assert forall|s: Seq<Transactions>|
            s.len() == n && #[trigger] prefix_at(data@, pos as int, enc_transactions(s)) implies same_transactions(
            txs@,
            s,
        ) && cur == pos + enc_transactions(s).len() by {
            assert(s.take(n as int) =~= s);
        }
    }
    Some((txs, cur))
}

/// Reads a block.
pub fn read_block(data: &Vec<u8>, pos: usize) -> (r: Option<(Block, usize)>)
    ensures
        r matches Some((b, end)) ==> pos < end <= data@.len() && data@.subrange(pos as int, end as int)
            == enc_block(b),
        forall|b: Block| #[trigger] prefix_at(data@, pos as int, enc_block(b)) ==> (r matches Some((y, end))
            && same_block(y, b) && end == pos + enc_block(b).len()),
{
    proof {
        assert forall|b: Block| #[trigger] prefix_at(data@, pos as int, enc_block(b)) implies {
            let a = enc_array_head(2);
            let e0 = enc_header(b.header);
            let e1 = enc_array_head(b.transactions@.len());
            &&& b.transactions@.len() <= usize::MAX
            &&& prefix_at(data@, pos as int, a)
            &&& prefix_at(data@, pos + a.len(), e0)
            &&& prefix_at(data@, pos + a.len() + e0.len(), e1)
            &&& prefix_at(data@, pos + a.len() + e0.len() + e1.len(), enc_transactions(b.transactions@))
        } by {
            assert(b.transactions@.len() == b.transactions.len());
            let a = enc_array_head(2);
            let e0 = enc_header(b.header);
            let e1 = enc_array_head(b.transactions@.len());
            lemma_prefix_split(data@, pos as int, a + e0 + e1, enc_transactions(b.transactions@));
            lemma_prefix_split(data@, pos as int, a + e0, e1);
            lemma_prefix_split(data@, pos as int, a, e0);
        }
    }
    let p0 = match read_array_head(data, pos, 2) {
        Some(p) => p,
        None => {
            return None;
        },
    };
    let (header, p1) = match read_header(data, p0) {
        Some(x) => x,
        None => {
            return None;
        },
    };
    let (n, p2) = match read_array_len(data, p1) {
        Some(x) => x,
        None => {
            return None;
        },
    };
    let (txs, p3) = match read_transactions(data, p2, n) {
        Some(x) => x,
        None => {
            return None;
        },
    };
    let b = Block { header, transactions: txs };
    proof {
        lemma_subrange_split(data@, pos as int, p0 as int, p1 as int);
        lemma_subrange_split(data@, pos as int, p1 as int, p2 as int);
        lemma_subrange_split(data@, pos as int, p2 as int, p3 as int);
        assert(data@.subrange(pos as int, p3 as int) =~= enc_block(b));
    }
    Some((b, p3))
}

impl Block {
    /// A block from its header and transactions.
    pub fn new(header: BlockHeader, transactions: Vec<Transactions>) -> (r: Block)
        ensures
            r.header == header,
            r.transactions@ == transactions@,
    {
        Block { header, transactions }
    }

    /// Appends the encoding.
    pub fn encode_into(&self, out: &mut Vec<u8>)
        ensures
            final(out)@ == old(out)@ + enc_block(*self),
    {
        write_array_head(out, 2);
        self.header.encode_into(out);
        write_array_head(out, self.transactions.len());
        let ghost start = out@;
        let mut i: usize = 0;
        while i < self.transactions.len()
            invariant
                0 <= i <= self.transactions@.len(),
                out@ == start + enc_transactions(self.transactions@.take(i as int)),
            decreases self.transactions@.len() - i,
        {
            self.transactions[i].encode_into(out);
            assert(self.transactions@.take(i as int + 1).drop_last() =~= self.transactions@.take(i as int));
            i += 1;
        }
        assert(self.transactions@.take(self.transactions@.len() as int) =~= self.transactions@);
        assert(final(out)@ =~= old(out)@ + enc_block(*self));
    }

    /// The encoding.
    pub fn encode(&self) -> (r: Vec<u8>)
        ensures
            r@ == enc_block(*self),
    {
        let mut bytes: Vec<u8> = Vec::new();
        self.encode_into(&mut bytes);
        assert(bytes@ =~= enc_block(*self));
        bytes
    }

    /// Decodes a block that fills `bytes` exactly. Decoding gives back
    /// exactly the bytes' block: whatever decodes re-encodes to the same
    /// bytes, and the encoding of any block decodes to that block.
    pub fn decode(bytes: &Vec<u8>) -> (r: Result<Block, BtcError>)
        ensures
            r matches Ok(b) ==> enc_block(b) == bytes@,
            r matches Err(e) ==> e == BtcError::MalformedInput,
            forall|b: Block| #[trigger] enc_block(b) == bytes@ ==> (r matches Ok(y) && same_block(y, b)),
    {
        proof {
            assert forall|b: Block| #[trigger] enc_block(b) == bytes@ implies prefix_at(bytes@, 0, enc_block(b)) by {
                assert(bytes@.subrange(0, bytes@.len() as int) =~= bytes@);
            }
        }
        match read_block(bytes, 0) {
            Some((b, end)) => if end == bytes.len() {
                assert(bytes@.subrange(0, end as int) =~= bytes@);
                Ok(b)
            } else {
                Err(BtcError::MalformedInput)
            },
            None => Err(BtcError::MalformedInput),
        }
    }

    /// The hash of the block's encoding.
    pub fn hash(&self) -> (r: crate::hashing::Hash)
        ensures
            r == digest_of(enc_block(*self)),
    {
        let bytes = self.encode();
        crate::hashing::Hash::hash_bytes(&bytes)
    }
    /// The fees of the non-coinbase transactions: the value their inputs spend
    /// less the value of their outputs. Refused when an input names no known
    /// output, two inputs spend the same output, two outputs share a hash, or
    /// the outputs are worth more than the inputs.
    pub fn calculate_miner_fees(&self, utxos: &UtxoSet) -> (r: Result<u64, BtcError>)
        requires
            utxos.wf(),
        ensures
            r is Ok <==> fees_ok(utxos@, self.transactions@),
            r matches Ok(f) ==> f as int == miner_fees(utxos@, self.transactions@),
            r matches Err(e) ==> e == BtcError::InvalidTransaction,
    {
        let ins = collect_inputs(&self.transactions);
        let outs = collect_outputs(&self.transactions);
        let mut seen: Vec<crate::hashing::Hash> = Vec::new();
        let mut i: usize = 0;
        while i < ins.len()
            invariant
                0 <= i <= ins@.len(),
                ins@ == flat_inputs(non_coinbase(self.transactions@)),
                seen@ == spent_hashes(ins@.take(i as int)),
                seen@.no_duplicates(),
            decreases ins@.len() - i,
        {
            let h = ins[i].prev_transaction_output_hash;
            if contains_hash(&seen, &h) {
                proof {
                    let j = choose|j: int| 0 <= j < seen@.len() && seen@[j] == h;
                    assert(seen@[j] == ins@[j].prev_transaction_output_hash);
                    assert(spent_hashes(ins@)[j] == spent_hashes(ins@)[i as int]);
                    assert(j != i);
                    assert(!spent_hashes(ins@).no_duplicates());
                    assert(ins@ == flat_inputs(non_coinbase(self.transactions@)));
                    assert(!fees_ok(utxos@, self.transactions@));
                }
                return Err(BtcError::InvalidTransaction);
            }
            seen.push(h);
            assert(spent_hashes(ins@.take(i as int + 1)) =~= spent_hashes(ins@.take(i as int)).push(h));
            i += 1;
        }
        assert(ins@.take(ins@.len() as int) =~= ins@);
        let mut hashes: Vec<crate::hashing::Hash> = Vec::new();
        let mut k: usize = 0;
        while k < outs.len()
            invariant
                0 <= k <= outs@.len(),
                outs@ == flat_outputs(non_coinbase(self.transactions@)),
                ins@ == flat_inputs(non_coinbase(self.transactions@)),
                spent_hashes(ins@).no_duplicates(),
                hashes@ == output_hashes(outs@.take(k as int)),
                hashes@.no_duplicates(),
            decreases outs@.len() - k,
        {
            let h = outs[k].hash();
            if contains_hash(&hashes, &h) {
                proof {
                    let j = choose|j: int| 0 <= j < hashes@.len() && hashes@[j] == h;
                    assert(hashes@[j] == output_hash(outs@[j]));
                    assert(output_hashes(outs@)[j] == output_hashes(outs@)[k as int]);
                    assert(j != k);
                    assert(!output_hashes(outs@).no_duplicates());
                }
                return Err(BtcError::InvalidTransaction);
            }
            hashes.push(h);
            assert(output_hashes(outs@.take(k as int + 1)) =~= output_hashes(outs@.take(k as int)).push(h));
            k += 1;
        }
        assert(outs@.take(outs@.len() as int) =~= outs@);
        let input_value = match total_spent(utxos, &ins) {
            Some(v) => v,
            None => {
                return Err(BtcError::InvalidTransaction);
            },
        };
        let output_value = total_value(&outs);
        if output_value > input_value {
            return Err(BtcError::InvalidTransaction);
        }
        if input_value - output_value > u64::MAX as u128 {
            return Err(BtcError::InvalidTransaction);
        }
        Ok((input_value - output_value) as u64)
    }

    /// The coinbase checks: the first transaction has no inputs and some
    /// outputs, the fees are valid, and the coinbase pays exactly the reward
    /// at `predicted_block_height` plus the fees.
    pub fn verify_coinbase_transaction(&self, predicted_block_height: u64, utxos: &UtxoSet) -> (r: Result<
        (),
        BtcError,
    >)
        requires
            utxos.wf(),
            self.transactions@.len() >= 1,
        ensures
            r is Ok <==> coinbase_ok(utxos@, self.transactions@, predicted_block_height),
            r matches Err(e) ==> e == BtcError::InvalidTransaction,
    {
        let coinbase = &self.transactions[0];
        if coinbase.inputs.len() != 0 {
            return Err(BtcError::InvalidTransaction);
        }
        if coinbase.outputs.len() == 0 {
            return Err(BtcError::InvalidTransaction);
        }
        let miner_fees = match self.calculate_miner_fees(utxos) {
            Ok(f) => f,
            Err(e) => {
                return Err(e);
            },
        };
        let block_reward = reward_at(predicted_block_height);
        let total_coinbase_outputs = total_value(&coinbase.outputs);
        if total_coinbase_outputs != block_reward as u128 + miner_fees as u128 {
            return Err(BtcError::InvalidTransaction);
        }
        Ok(())
    }

    /// The full check of the block's transactions at `predicted_block_height`:
    /// a nonempty list, a valid coinbase, and for every other transaction
    /// known inputs with valid signatures and outputs worth no more than them.
    pub fn verify_transaction(&self, predicted_block_height: u64, utxos: &UtxoSet) -> (r: Result<(), BtcError>)
        requires
            utxos.wf(),
        ensures
            r is Ok <==> block_valid(utxos@, self.transactions@, predicted_block_height),
            r matches Err(e) ==> e == BtcError::InvalidTransaction,
    {
        if self.transactions.len() == 0 {
            return Err(BtcError::InvalidTransaction);
        }
        match self.verify_coinbase_transaction(predicted_block_height, utxos) {
            Ok(()) => {},
            Err(e) => {
                return Err(e);
            },
        }
        let mut t: usize = 1;
        while t < self.transactions.len()
            invariant
                1 <= t <= self.transactions@.len(),
                utxos.wf(),
                forall|u: int| 1 <= u < t ==> spend_ok(utxos@, #[trigger] self.transactions@[u]),
            decreases self.transactions@.len() - t,
        {
            if !check_spend(&self.transactions[t], utxos) {
                return Err(BtcError::InvalidTransaction);
            }
            t += 1;
        }
        Ok(())
    }
}

} // verus!
