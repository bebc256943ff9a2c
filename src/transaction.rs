//! Transactions: inputs that spend earlier outputs, and new outputs.

use vstd::prelude::*;
use crate::codec::{
    enc_array_head, enc_bytes, enc_u128, enc_u256, enc_uint, lemma_prefix_split, lemma_subrange_split, prefix_at,
    read_array_head, read_array_len,
    read_bytes, read_u128, read_u256, read_uint, write_array_head, write_bytes, write_u128, write_u256, write_uint,
};
use crate::error::BtcError;
use crate::crypto::{PublicKey, Signature};
use crate::hashing::digest_of;

verus! {

/// Spends the output whose hash it names, with a signature of that hash.
#[derive(Clone, Copy, Debug, PartialEq, Eq)]
pub struct TransactionsInput {
    pub prev_transaction_output_hash: crate::hashing::Hash,
    pub signature: Signature,
}

/// An amount paid to a public key; `unique_id` keeps equal payments apart.
#[derive(Clone, Copy, Debug, PartialEq, Eq)]
pub struct TransactionsOutput {
    pub value: u64,
    pub unique_id: u128,
    pub pubkey: PublicKey,
}

/// An ordered list of inputs and an ordered list of outputs.
#[derive(Clone, Debug, PartialEq, Eq)]
pub struct Transactions {
    pub inputs: Vec<TransactionsInput>,
    pub outputs: Vec<TransactionsOutput>,
}

/// The encoding of an input.
pub open spec fn enc_input(i: TransactionsInput) -> Seq<u8> {
    enc_array_head(2) + enc_u256(i.prev_transaction_output_hash.0) + enc_bytes(i.signature.bytes@)
}

/// The encoding of an output.
pub open spec fn enc_output(o: TransactionsOutput) -> Seq<u8> {
    enc_array_head(3) + enc_uint(o.value) + enc_u128(o.unique_id) + enc_bytes(o.pubkey.bytes@)
}

/// The encodings of some inputs, one after another.
pub open spec fn enc_inputs(s: Seq<TransactionsInput>) -> Seq<u8>
    decreases s.len(),
{
    if s.len() == 0 {
        Seq::empty()
    } else {
        enc_inputs(s.drop_last()) + enc_input(s.last())
    }
}

/// The encodings of some outputs, one after another.
pub open spec fn enc_outputs(s: Seq<TransactionsOutput>) -> Seq<u8>
    decreases s.len(),
{
    if s.len() == 0 {
        Seq::empty()
    } else {
        enc_outputs(s.drop_last()) + enc_output(s.last())
    }
}

/// The encoding of a transaction: its input array, then its output array.
pub open spec fn enc_transaction(t: Transactions) -> Seq<u8> {
    enc_array_head(2) + enc_array_head(t.inputs@.len()) + enc_inputs(t.inputs@) + enc_array_head(
        t.outputs@.len(),
    ) + enc_outputs(t.outputs@)
}

/// The encoding of a list splits at any point.
pub proof fn lemma_enc_inputs_split(s: Seq<TransactionsInput>, i: int)
    requires
        0 <= i <= s.len(),
    ensures
        enc_inputs(s) == enc_inputs(s.take(i)) + enc_inputs(s.skip(i)),
    decreases s.len(),
{
    if i == s.len() {
        assert(s.take(i) =~= s);
        assert(s.skip(i) =~= Seq::<TransactionsInput>::empty());
        assert(enc_inputs(s) + Seq::<u8>::empty() =~= enc_inputs(s));
    } else {
        lemma_enc_inputs_split(s.drop_last(), i);
        assert(s.drop_last().take(i) =~= s.take(i));
        assert(s.skip(i).drop_last() =~= s.drop_last().skip(i));
        assert(s.skip(i).last() == s.last());
        assert(enc_inputs(s) =~= enc_inputs(s.take(i)) + enc_inputs(s.skip(i)));
    }
}

/// The encoding of a list splits at any point.
pub proof fn lemma_enc_outputs_split(s: Seq<TransactionsOutput>, i: int)
    requires
        0 <= i <= s.len(),
    ensures
        enc_outputs(s) == enc_outputs(s.take(i)) + enc_outputs(s.skip(i)),
    decreases s.len(),
{
    if i == s.len() {
        assert(s.take(i) =~= s);
        assert(s.skip(i) =~= Seq::<TransactionsOutput>::empty());
        assert(enc_outputs(s) + Seq::<u8>::empty() =~= enc_outputs(s));
    } else {
        lemma_enc_outputs_split(s.drop_last(), i);
        assert(s.drop_last().take(i) =~= s.take(i));
        assert(s.skip(i).drop_last() =~= s.drop_last().skip(i));
        assert(s.skip(i).last() == s.last());
        assert(enc_outputs(s) =~= enc_outputs(s.take(i)) + enc_outputs(s.skip(i)));
    }
}

/// Two transactions with the same inputs and outputs.
pub open spec fn same_transaction(a: Transactions, b: Transactions) -> bool {
    a.inputs@ == b.inputs@ && a.outputs@ == b.outputs@
}

/// The hash of an output.
pub open spec fn output_hash(o: TransactionsOutput) -> crate::hashing::Hash {
    digest_of(enc_output(o))
}

/// The hash of a transaction.
pub open spec fn transaction_hash(t: Transactions) -> crate::hashing::Hash {
    digest_of(enc_transaction(t))
}

/// The sum of some output values.
pub open spec fn sum_values(s: Seq<TransactionsOutput>) -> nat
    decreases s.len(),
{
    if s.len() == 0 {
        0
    } else {
        sum_values(s.drop_last()) + s.last().value as nat
    }
}

/// The hashes that some inputs spend.
pub open spec fn spent_hashes(s: Seq<TransactionsInput>) -> Seq<crate::hashing::Hash> {
    s.map_values(|i: TransactionsInput| i.prev_transaction_output_hash)
}

/// The bytes of a vector as a fixed-size array.
pub fn to_array<const N: usize>(b: &Vec<u8>) -> (r: [u8; N])
    requires
        b@.len() == N,
    ensures
        r@ == b@,
{
    let mut a = [0u8; N];
    let mut i: usize = 0;
    while i < N
        invariant
            0 <= i <= N,
            b@.len() == N,
            a@.len() == N,
            forall|j: int| 0 <= j < i ==> a@[j] == b@[j],
        decreases N - i,
    {
        a[i] = b[i];
        i += 1;
    }
    assert(a@ =~= b@);
    a
}

/// Reads an input.
pub fn read_input(data: &Vec<u8>, pos: usize) -> (r: Option<(TransactionsInput, usize)>)
    ensures
        r matches Some((x, end)) ==> pos < end <= data@.len() && data@.subrange(pos as int, end as int)
            == enc_input(x),
        forall|x: TransactionsInput| #[trigger] prefix_at(data@, pos as int, enc_input(x)) ==> r == Some(
            (x, (pos + enc_input(x).len()) as usize),
        ),
{
    proof {
        assert forall|x: TransactionsInput| #[trigger] prefix_at(data@, pos as int, enc_input(x)) implies {
            let a = enc_array_head(2);
            let e0 = enc_u256(x.prev_transaction_output_hash.0);
            &&& prefix_at(data@, pos as int, a)
            &&& prefix_at(data@, pos + a.len(), e0)
            &&& prefix_at(data@, pos + a.len() + e0.len(), enc_bytes(x.signature.bytes@))
        } by {
            let a = enc_array_head(2);
            let e0 = enc_u256(x.prev_transaction_output_hash.0);
            lemma_prefix_split(data@, pos as int, a + e0, enc_bytes(x.signature.bytes@));
            lemma_prefix_split(data@, pos as int, a, e0);
        }
    }
    let p0 = match read_array_head(data, pos, 2) {
        Some(p) => p,
        None => {
            return None;
        },
    };
    let (h, p1) = match read_u256(data, p0) {
        Some(x) => x,
        None => {
            return None;
        },
    };
    let (sig, p2) = match read_bytes(data, p1, 64) {
        Some(x) => x,
        None => {
            return None;
        },
    };
    let x = TransactionsInput {
        prev_transaction_output_hash: crate::hashing::Hash(h),
        signature: Signature { bytes: to_array(&sig) },
    };
    proof {
        lemma_subrange_split(data@, pos as int, p0 as int, p1 as int);
        lemma_subrange_split(data@, pos as int, p1 as int, p2 as int);
        assert(data@.subrange(pos as int, p2 as int) =~= enc_input(x));
        assert forall|x2: TransactionsInput| #[trigger] prefix_at(data@, pos as int, enc_input(x2)) implies x2 == x by {
            assert(x2.signature.bytes@.len() == 64);
            assert(x2.signature.bytes =~= x.signature.bytes);
        }
    }
    Some((x, p2))
}

/// Reads an output.
pub fn read_output(data: &Vec<u8>, pos: usize) -> (r: Option<(TransactionsOutput, usize)>)
    ensures
        r matches Some((x, end)) ==> pos < end <= data@.len() && data@.subrange(pos as int, end as int)
            == enc_output(x),
        forall|x: TransactionsOutput| #[trigger] prefix_at(data@, pos as int, enc_output(x)) ==> r == Some(
            (x, (pos + enc_output(x).len()) as usize),
        ),
{
    proof {
        assert forall|x: TransactionsOutput| #[trigger] prefix_at(data@, pos as int, enc_output(x)) implies {
            let a = enc_array_head(3);
            let e0 = enc_uint(x.value);
            let e1 = enc_u128(x.unique_id);
            &&& prefix_at(data@, pos as int, a)
            &&& prefix_at(data@, pos + a.len(), e0)
            &&& prefix_at(data@, pos + a.len() + e0.len(), e1)
            &&& prefix_at(data@, pos + a.len() + e0.len() + e1.len(), enc_bytes(x.pubkey.bytes@))
        } by {
            let a = enc_array_head(3);
            let e0 = enc_uint(x.value);
            let e1 = enc_u128(x.unique_id);
            lemma_prefix_split(data@, pos as int, a + e0 + e1, enc_bytes(x.pubkey.bytes@));
            lemma_prefix_split(data@, pos as int, a + e0, e1);
            lemma_prefix_split(data@, pos as int, a, e0);
        }
    }
    let p0 = match read_array_head(data, pos, 3) {
        Some(p) => p,
        None => {
            return None;
        },
    };
    let (value, p1) = match read_uint(data, p0) {
        Some(x) => x,
        None => {
            return None;
        },
    };
    let (unique_id, p2) = match read_u128(data, p1) {
        Some(x) => x,
        None => {
            return None;
        },
    };
    let (key, p3) = match read_bytes(data, p2, 33) {
        Some(x) => x,
        None => {
            return None;
        },
    };
    let x = TransactionsOutput { value, unique_id, pubkey: PublicKey { bytes: to_array(&key) } };
    proof {
        lemma_subrange_split(data@, pos as int, p0 as int, p1 as int);
        lemma_subrange_split(data@, pos as int, p1 as int, p2 as int);
        lemma_subrange_split(data@, pos as int, p2 as int, p3 as int);
        assert(data@.subrange(pos as int, p3 as int) =~= enc_output(x));
        assert forall|x2: TransactionsOutput| #[trigger] prefix_at(data@, pos as int, enc_output(x2)) implies x2 == x by {
            assert(x2.pubkey.bytes@.len() == 33);
            assert(x2.pubkey.bytes =~= x.pubkey.bytes);
        }
    }
    Some((x, p3))
}

/// Reads `n` inputs one after another.
pub fn read_inputs(data: &Vec<u8>, pos: usize, n: usize) -> (r: Option<(Vec<TransactionsInput>, usize)>)
    requires
        pos <= data@.len(),
    ensures
        r matches Some((v, end)) ==> {
            &&& v@.len() == n
            &&& pos <= end <= data@.len()
            &&& data@.subrange(pos as int, end as int) == enc_inputs(v@)
        },
        forall|s: Seq<TransactionsInput>|
            s.len() == n && #[trigger] prefix_at(data@, pos as int, enc_inputs(s)) ==> (r matches Some((v, end)) && v@ == s
                && end == pos + enc_inputs(s).len()),
{
    let mut v: Vec<TransactionsInput> = Vec::new();
    let mut cur = pos;
    let mut i: usize = 0;
    while i < n
        invariant
            0 <= i <= n,
            v@.len() == i,
            pos <= cur <= data@.len(),
            data@.subrange(pos as int, cur as int) == enc_inputs(v@),
            forall|s: Seq<TransactionsInput>|
                s.len() == n && #[trigger] prefix_at(data@, pos as int, enc_inputs(s)) ==> v@ == s.take(i as int) && cur
                    == pos + enc_inputs(s.take(i as int)).len(),
        decreases n - i,
    {
        proof {
            assert forall|s: Seq<TransactionsInput>| s.len() == n && #[trigger] prefix_at(data@, pos as int, enc_inputs(s)) implies prefix_at(
                data@,
                cur as int,
                enc_input(s[i as int]),
            ) by {
                lemma_enc_inputs_split(s, i + 1);
                assert(s.take(i + 1).drop_last() =~= s.take(i as int));
                lemma_prefix_split(data@, pos as int, enc_inputs(s.take(i + 1)), enc_inputs(s.skip(i + 1)));
                lemma_prefix_split(data@, pos as int, enc_inputs(s.take(i as int)), enc_input(s[i as int]));
            }
        }
        let (x, next) = match read_input(data, cur) {
            Some(y) => y,
            None => {
                proof {
                    assert forall|s: Seq<TransactionsInput>| s.len() == n implies !#[trigger] prefix_at(data@, pos as int, enc_inputs(s)) by {
                        if prefix_at(data@, pos as int, enc_inputs(s)) {
                            assert(prefix_at(data@, cur as int, enc_input(s[i as int])));
                        }
                    }
                }
                return None;
            },
        };
        let ghost before = v@;
        v.push(x);
        proof {
            lemma_subrange_split(data@, pos as int, cur as int, next as int);
            assert(v@.drop_last() =~= before);
            assert forall|s: Seq<TransactionsInput>| s.len() == n && #[trigger] prefix_at(data@, pos as int, enc_inputs(s)) implies v@
                == s.take(i + 1) && next == pos + enc_inputs(s.take(i + 1)).len() by {
                assert(prefix_at(data@, cur as int, enc_input(s[i as int])));
                assert(s.take(i + 1) =~= s.take(i as int).push(s[i as int]));
                assert(s.take(i + 1).drop_last() =~= s.take(i as int));
            }
        }
        cur = next;
        i += 1;
    }
    proof {
        assert forall|s: Seq<TransactionsInput>| s.len() == n && #[trigger] prefix_at(data@, pos as int, enc_inputs(s)) implies v@ == s by {
            assert(s.take(n as int) =~= s);
        }
    }
    Some((v, cur))
}

/// Reads `n` outputs one after another.
pub fn read_outputs(data: &Vec<u8>, pos: usize, n: usize) -> (r: Option<(Vec<TransactionsOutput>, usize)>)
    requires
        pos <= data@.len(),
    ensures
        r matches Some((v, end)) ==> {
            &&& v@.len() == n
            &&& pos <= end <= data@.len()
            &&& data@.subrange(pos as int, end as int) == enc_outputs(v@)
        },
        forall|s: Seq<TransactionsOutput>|
            s.len() == n && #[trigger] prefix_at(data@, pos as int, enc_outputs(s)) ==> (r matches Some((v, end)) && v@ == s
                && end == pos + enc_outputs(s).len()),
{
    let mut v: Vec<TransactionsOutput> = Vec::new();
    let mut cur = pos;
    let mut i: usize = 0;
    while i < n
        invariant
            0 <= i <= n,
            v@.len() == i,
            pos <= cur <= data@.len(),
            data@.subrange(pos as int, cur as int) == enc_outputs(v@),
            forall|s: Seq<TransactionsOutput>|
                s.len() == n && #[trigger] prefix_at(data@, pos as int, enc_outputs(s)) ==> v@ == s.take(i as int) && cur
                    == pos + enc_outputs(s.take(i as int)).len(),
        decreases n - i,
    {
        proof {
            assert forall|s: Seq<TransactionsOutput>| s.len() == n && #[trigger] prefix_at(data@, pos as int, enc_outputs(s)) implies prefix_at(
                data@,
                cur as int,
                enc_output(s[i as int]),
            ) by {
                lemma_enc_outputs_split(s, i + 1);
                assert(s.take(i + 1).drop_last() =~= s.take(i as int));
                lemma_prefix_split(data@, pos as int, enc_outputs(s.take(i + 1)), enc_outputs(s.skip(i + 1)));
                lemma_prefix_split(data@, pos as int, enc_outputs(s.take(i as int)), enc_output(s[i as int]));
            }
        }
        let (x, next) = match read_output(data, cur) {
            Some(y) => y,
            None => {
                proof {
                    assert forall|s: Seq<TransactionsOutput>| s.len() == n implies !#[trigger] prefix_at(data@, pos as int, enc_outputs(s)) by {
                        if prefix_at(data@, pos as int, enc_outputs(s)) {
                            assert(prefix_at(data@, cur as int, enc_output(s[i as int])));
                        }
                    }
                }
                return None;
            },
        };
        let ghost before = v@;
        v.push(x);
        proof {
            lemma_subrange_split(data@, pos as int, cur as int, next as int);
            assert(v@.drop_last() =~= before);
            assert forall|s: Seq<TransactionsOutput>| s.len() == n && #[trigger] prefix_at(data@, pos as int, enc_outputs(s)) implies v@
                == s.take(i + 1) && next == pos + enc_outputs(s.take(i + 1)).len() by {
                assert(prefix_at(data@, cur as int, enc_output(s[i as int])));
                assert(s.take(i + 1) =~= s.take(i as int).push(s[i as int]));
                assert(s.take(i + 1).drop_last() =~= s.take(i as int));
            }
        }
        cur = next;
        i += 1;
    }
    proof {
        assert forall|s: Seq<TransactionsOutput>| s.len() == n && #[trigger] prefix_at(data@, pos as int, enc_outputs(s)) implies v@ == s by {
            assert(s.take(n as int) =~= s);
        }
    }
    Some((v, cur))
}

/// Reads a transaction.
pub fn read_transaction(data: &Vec<u8>, pos: usize) -> (r: Option<(Transactions, usize)>)
    ensures
        r matches Some((t, end)) ==> pos < end <= data@.len() && data@.subrange(pos as int, end as int)
            == enc_transaction(t),
        forall|t: Transactions| #[trigger] prefix_at(data@, pos as int, enc_transaction(t)) ==> (r matches Some((y, end))
            && same_transaction(y, t) && end == pos + enc_transaction(t).len()),
{
    proof {
        assert forall|t: Transactions| #[trigger] prefix_at(data@, pos as int, enc_transaction(t)) implies {
            let a = enc_array_head(2);
            let b = enc_array_head(t.inputs@.len());
            let c = enc_inputs(t.inputs@);
            let d = enc_array_head(t.outputs@.len());
            &&& t.inputs@.len() <= usize::MAX
            &&& t.outputs@.len() <= usize::MAX
            &&& prefix_at(data@, pos as int, a)
            &&& prefix_at(data@, pos + a.len(), b)
            &&& prefix_at(data@, pos + a.len() + b.len(), c)
            &&& prefix_at(data@, pos + a.len() + b.len() + c.len(), d)
            &&& prefix_at(data@, pos + a.len() + b.len() + c.len() + d.len(), enc_outputs(t.outputs@))
        } by {
            assert(t.inputs@.len() == t.inputs.len());
            assert(t.outputs@.len() == t.outputs.len());
            let a = enc_array_head(2);
            let b = enc_array_head(t.inputs@.len());
            let c = enc_inputs(t.inputs@);
            let d = enc_array_head(t.outputs@.len());
            lemma_prefix_split(data@, pos as int, a + b + c + d, enc_outputs(t.outputs@));
            lemma_prefix_split(data@, pos as int, a + b + c, d);
            lemma_prefix_split(data@, pos as int, a + b, c);
            lemma_prefix_split(data@, pos as int, a, b);
        }
    }
    let p0 = match read_array_head(data, pos, 2) {
        Some(p) => p,
        None => {
            return None;
        },
    };
    let (ni, p1) = match read_array_len(data, p0) {
        Some(x) => x,
        None => {
            return None;
        },
    };
    let (inputs, p2) = match read_inputs(data, p1, ni) {
        Some(x) => x,
        None => {
            return None;
        },
    };
    let (no, p3) = match read_array_len(data, p2) {
        Some(x) => x,
        None => {
            return None;
        },
    };
    let (outputs, p4) = match read_outputs(data, p3, no) {
        Some(x) => x,
        None => {
            return None;
        },
    };
    let t = Transactions { inputs, outputs };
    proof {
        lemma_subrange_split(data@, pos as int, p0 as int, p1 as int);
        lemma_subrange_split(data@, pos as int, p1 as int, p2 as int);
        lemma_subrange_split(data@, pos as int, p2 as int, p3 as int);
        lemma_subrange_split(data@, pos as int, p3 as int, p4 as int);
        assert(data@.subrange(pos as int, p4 as int) =~= enc_transaction(t));
    }
    Some((t, p4))
}

impl TransactionsInput {
    /// Appends the encoding.
    pub fn encode_into(&self, out: &mut Vec<u8>)
        ensures
            final(out)@ == old(out)@ + enc_input(*self),
    {
        write_array_head(out, 2);
        write_u256(out, &self.prev_transaction_output_hash.0);
        write_bytes(out, &self.signature.bytes);
        assert(final(out)@ =~= old(out)@ + enc_input(*self));
    }
}

impl TransactionsOutput {
    /// Appends the encoding.
    pub fn encode_into(&self, out: &mut Vec<u8>)
        ensures
            final(out)@ == old(out)@ + enc_output(*self),
    {
        write_array_head(out, 3);
        write_uint(out, self.value);
        write_u128(out, self.unique_id);
        write_bytes(out, &self.pubkey.bytes);
        assert(final(out)@ =~= old(out)@ + enc_output(*self));
    }

    /// The hash of the output's encoding.
    pub fn hash(&self) -> (r: crate::hashing::Hash)
        ensures
            r == output_hash(*self),
    {
        let mut bytes: Vec<u8> = Vec::new();
        self.encode_into(&mut bytes);
        assert(bytes@ =~= enc_output(*self));
        crate::hashing::Hash::hash_bytes(&bytes)
    }
}

/// Appends the encodings of some inputs.
pub fn write_inputs(out: &mut Vec<u8>, s: &Vec<TransactionsInput>)
    ensures
        final(out)@ == old(out)@ + enc_inputs(s@),
{
    let ghost start = out@;
    let mut i: usize = 0;
    while i < s.len()
        invariant
            0 <= i <= s@.len(),
            out@ == start + enc_inputs(s@.take(i as int)),
        decreases s@.len() - i,
    {
        s[i].encode_into(out);
        proof {
            assert(s@.take(i as int + 1).drop_last() =~= s@.take(i as int));
        }
        i += 1;
    }
    assert(s@.take(s@.len() as int) =~= s@);
    assert(start + enc_inputs(s@) =~= old(out)@ + enc_inputs(s@));
}

/// Appends the encodings of some outputs.
pub fn write_outputs(out: &mut Vec<u8>, s: &Vec<TransactionsOutput>)
    ensures
        final(out)@ == old(out)@ + enc_outputs(s@),
{
    let ghost start = out@;
    let mut i: usize = 0;
    while i < s.len()
        invariant
            0 <= i <= s@.len(),
            out@ == start + enc_outputs(s@.take(i as int)),
        decreases s@.len() - i,
    {
        s[i].encode_into(out);
        proof {
            assert(s@.take(i as int + 1).drop_last() =~= s@.take(i as int));
        }
        i += 1;
    }
    assert(s@.take(s@.len() as int) =~= s@);
    assert(start + enc_outputs(s@) =~= old(out)@ + enc_outputs(s@));
}

impl Transactions {
    /// A transaction from its inputs and outputs.
    pub fn new(inputs: Vec<TransactionsInput>, outputs: Vec<TransactionsOutput>) -> (r: Transactions)
        ensures
            r.inputs@ == inputs@,
            r.outputs@ == outputs@,
    {
        Transactions { inputs, outputs }
    }

    /// Appends the encoding.
    pub fn encode_into(&self, out: &mut Vec<u8>)
        ensures
            final(out)@ == old(out)@ + enc_transaction(*self),
    {
        write_array_head(out, 2);
        write_array_head(out, self.inputs.len());
        write_inputs(out, &self.inputs);
        write_array_head(out, self.outputs.len());
        write_outputs(out, &self.outputs);
        assert(final(out)@ =~= old(out)@ + enc_transaction(*self));
    }

    /// The encoding.
    pub fn encode(&self) -> (r: Vec<u8>)
        ensures
            r@ == enc_transaction(*self),
    {
        let mut bytes: Vec<u8> = Vec::new();
        self.encode_into(&mut bytes);
        assert(bytes@ =~= enc_transaction(*self));
        bytes
    }

    /// Decodes a transaction that fills `bytes` exactly. Decoding gives back
    /// exactly the bytes' transaction: whatever decodes re-encodes to the same
    /// bytes, and the encoding of any transaction decodes to that transaction.
    pub fn decode(bytes: &Vec<u8>) -> (r: Result<Transactions, BtcError>)
        ensures
            r matches Ok(t) ==> enc_transaction(t) == bytes@,
            r matches Err(e) ==> e == BtcError::MalformedInput,
            forall|t: Transactions| #[trigger] enc_transaction(t) == bytes@ ==> (r matches Ok(y) && same_transaction(y, t)),
    {
        proof {
            assert forall|t: Transactions| #[trigger] enc_transaction(t) == bytes@ implies prefix_at(bytes@, 0, enc_transaction(t)) by {
                assert(bytes@.subrange(0, bytes@.len() as int) =~= bytes@);
            }
        }
        match read_transaction(bytes, 0) {
            Some((t, end)) => if end == bytes.len() {
                assert(bytes@.subrange(0, end as int) =~= bytes@);
                Ok(t)
            } else {
                Err(BtcError::MalformedInput)
            },
            None => Err(BtcError::MalformedInput),
        }
    }

    /// The hash of the transaction's encoding.
    pub fn hash(&self) -> (r: crate::hashing::Hash)
        ensures
            r == transaction_hash(*self),
    {
        let bytes = self.encode();
        crate::hashing::Hash::hash_bytes(&bytes)
    }
}

} // verus!
