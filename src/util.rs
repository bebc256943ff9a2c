//! The Merkle root of a list of transactions.

use vstd::prelude::*;
use crate::codec::{enc_array_head, enc_u256, write_array_head, write_u256};
use crate::hashing::digest_of;
use crate::transaction::{Transactions, transaction_hash};

verus! {

/// The root of a binary hash tree over a block's transactions.
#[derive(Clone, Copy, Debug, PartialEq, Eq, Hash, Structural)]
pub struct MerkleRoot(pub crate::hashing::Hash);

/// The hash of a two-element array of hashes.
pub open spec fn pair_hash(l: crate::hashing::Hash, r: crate::hashing::Hash) -> crate::hashing::Hash {
    digest_of(enc_array_head(2) + enc_u256(l.0) + enc_u256(r.0))
}

/// One layer up: consecutive pairs hashed, a trailing odd hash paired with itself.
pub open spec fn next_layer(layer: Seq<crate::hashing::Hash>) -> Seq<crate::hashing::Hash> {
    Seq::new(
        ((layer.len() + 1) / 2) as nat,
        |i: int|
            pair_hash(layer[2 * i], if 2 * i + 1 < layer.len() { layer[2 * i + 1] } else { layer[2 * i] }),
    )
}

/// The single hash that repeated layering leaves.
pub open spec fn fold_layers(layer: Seq<crate::hashing::Hash>) -> crate::hashing::Hash
    decreases layer.len(),
{
    if layer.len() <= 1 {
        layer[0]
    } else {
        fold_layers(next_layer(layer))
    }
}

/// The hashes of some transactions.
pub open spec fn transaction_hashes(txs: Seq<Transactions>) -> Seq<crate::hashing::Hash> {
    txs.map_values(|t: Transactions| transaction_hash(t))
}

/// The Merkle root of a nonempty list of transactions.
pub open spec fn merkle_root_of(txs: Seq<Transactions>) -> MerkleRoot {
    MerkleRoot(fold_layers(transaction_hashes(txs)))
}

/// The root of one transaction is that transaction's hash: no pairing
/// happens, so it is not the hash of a hash.
pub proof fn lemma_single_transaction_root(t: Transactions)
    ensures
        merkle_root_of(seq![t]) == MerkleRoot(transaction_hash(t)),
{
    assert(transaction_hashes(seq![t]) =~= seq![transaction_hash(t)]);
}

fn hash_pair(l: &crate::hashing::Hash, r: &crate::hashing::Hash) -> (h: crate::hashing::Hash)
    ensures
        h == pair_hash(*l, *r),
{
    let mut bytes: Vec<u8> = Vec::new();
    write_array_head(&mut bytes, 2);
    write_u256(&mut bytes, &l.0);
    write_u256(&mut bytes, &r.0);
    assert(bytes@ =~= enc_array_head(2) + enc_u256(l.0) + enc_u256(r.0));
    crate::hashing::Hash::hash_bytes(&bytes)
}

impl MerkleRoot {
    /// The Merkle root of a nonempty list of transactions.
    pub fn calculate(transactions: &[Transactions]) -> (r: MerkleRoot)
        requires
            transactions@.len() >= 1,
        ensures
            r == merkle_root_of(transactions@),
    {
        let mut layer: Vec<crate::hashing::Hash> = Vec::new();
        let mut i: usize = 0;
        while i < transactions.len()
            invariant
                0 <= i <= transactions@.len(),
                layer@ == transaction_hashes(transactions@.take(i as int)),
            decreases transactions@.len() - i,
        {
            let h = transactions[i].hash();
            layer.push(h);
            assert(transaction_hashes(transactions@.take(i as int + 1)) =~= transaction_hashes(
                transactions@.take(i as int),
            ).push(h));
            i += 1;
        }
        assert(transactions@.take(transactions@.len() as int) =~= transactions@);
        while layer.len() > 1
            invariant
                layer@.len() >= 1,
                fold_layers(layer@) == fold_layers(transaction_hashes(transactions@)),
            decreases layer@.len(),
        {
            let mut next: Vec<crate::hashing::Hash> = Vec::new();
            let half: usize = layer.len() / 2 + layer.len() % 2;
            let mut k: usize = 0;
            while k < half
                invariant
                    0 <= k <= half,
                    half == (layer@.len() + 1) / 2,
                    layer@.len() > 1,
                    next@ == next_layer(layer@).take(k as int),
                decreases half - k,
            {
                let j = 2 * k;
                let left = layer[j];
                let right = if j + 1 < layer.len() { layer[j + 1] } else { layer[j] };
                let h = hash_pair(&left, &right);
                next.push(h);
                assert(next_layer(layer@).take(k as int + 1) =~= next_layer(layer@).take(k as int).push(h));
                k += 1;
            }
            assert(next@ =~= next_layer(layer@));
            layer = next;
        }
        MerkleRoot(layer[0])
    }
}

} // verus!
