//! Canonical binary encoding of the ledger's data types.
//!
//! The encoding is deterministic: integers are little-endian and fixed
//! width, byte sequences are length-prefixed, variants are tagged, and
//! metadata entries are emitted in their stored (key-sorted) order. The
//! same encoding is used both as the preimage of SHA-256 identifiers and
//! for persistence in the key-value store.

use vstd::prelude::*;
use vstd::bytes::{
    spec_u64_to_le_bytes, lemma_auto_spec_u64_to_from_le_bytes, u64_to_le_bytes,
    u64_from_le_bytes,
};
use vstd::slice::{slice_subrange, slice_to_vec};
use crate::types::{
    PublicKey, TransactionSignature, ContractId, Address, TransactionPayload, Metadata,
    Transaction, Block, ChainState, Account,
};

verus! {

/// Little-endian 8-byte encoding of a 64-bit integer.
pub open spec fn enc_u64(n: u64) -> Seq<u8> {
    spec_u64_to_le_bytes(n)
}

/// Length-prefixed encoding of a byte sequence.
pub open spec fn enc_bytes(b: Seq<u8>) -> Seq<u8> {
    enc_u64(b.len() as u64) + b
}

/// Tagged encoding of an address: a wallet key or a contract id.
pub open spec fn enc_address(a: Address) -> Seq<u8> {
    match a {
        Address::Wallet(pk) => seq![0u8] + pk.bytes@,
        Address::Contract(cid) => seq![1u8] + cid.id@,
    }
}

/// Tagged encoding of a transaction payload.
pub open spec fn enc_payload(p: TransactionPayload) -> Seq<u8> {
    match p {
        TransactionPayload::Transfer { amount } => seq![0u8] + enc_u64(amount),
        TransactionPayload::ContractDeploy { wasm_bytes } => seq![1u8] + enc_bytes(wasm_bytes@),
        TransactionPayload::ContractCall { method, args } => seq![2u8] + enc_bytes(method@)
            + enc_bytes(args@),
        TransactionPayload::Data { data } => seq![3u8] + enc_bytes(data@),
    }
}

/// Encoding of metadata entries, in stored order.
pub open spec fn enc_md_entries(s: Seq<(Vec<u8>, Vec<u8>)>) -> Seq<u8>
    decreases s.len(),
{
    if s.len() == 0 {
        Seq::<u8>::empty()
    } else {
        enc_bytes(s[0].0@) + enc_bytes(s[0].1@) + enc_md_entries(s.drop_first())
    }
}

/// Tagged encoding of optional metadata: absent, or a counted list of
/// length-prefixed key/value entries.
pub open spec fn enc_metadata(m: Option<Metadata>) -> Seq<u8> {
    match m {
        Option::None => seq![0u8],
        Option::Some(md) => seq![1u8] + enc_u64(md.len() as u64) + enc_md_entries(md@),
    }
}

/// The canonical signing bytes of a transaction: every field that the
/// transaction's hash commits to, in order. The hash and signature
/// fields themselves are excluded.
pub open spec fn tx_signing_bytes(t: Transaction) -> Seq<u8> {
    t.sender.bytes@ + enc_u64(t.nonce) + enc_u64(t.timestamp) + enc_address(t.recipient)
        + enc_payload(t.payload) + enc_metadata(t.metadata)
}

/// The full encoding of a transaction, as persisted.
pub open spec fn enc_tx(t: Transaction) -> Seq<u8> {
    t.hash@ + t.sender.bytes@ + enc_u64(t.nonce) + enc_u64(t.timestamp) + enc_address(t.recipient)
        + enc_payload(t.payload) + t.signature.bytes@ + enc_u64(t.gas_limit) + seq![t.priority]
        + enc_metadata(t.metadata)
}

/// Encoding of a sequence of transactions, without a count prefix.
pub open spec fn enc_tx_seq(s: Seq<Transaction>) -> Seq<u8>
    decreases s.len(),
{
    if s.len() == 0 {
        Seq::<u8>::empty()
    } else {
        enc_tx(s[0]) + enc_tx_seq(s.drop_first())
    }
}

/// Counted encoding of a transaction list.
pub open spec fn enc_tx_list(s: Seq<Transaction>) -> Seq<u8> {
    enc_u64(s.len() as u64) + enc_tx_seq(s)
}

/// The canonical signing bytes of a block: every field that the block's
/// hash commits to, in order. The hash field itself is excluded; the
/// included transactions are committed in full.
pub open spec fn block_signing_bytes(b: Block) -> Seq<u8> {
    enc_u64(b.index) + enc_u64(b.timestamp) + b.prev_hash@ + enc_u64(b.nonce) + enc_tx_list(
        b.transactions@,
    ) + enc_metadata(b.metadata)
}

/// The full encoding of a block, as persisted.
pub open spec fn enc_block(b: Block) -> Seq<u8> {
    enc_u64(b.index) + enc_u64(b.timestamp) + b.prev_hash@ + b.hash@ + enc_u64(b.nonce)
        + enc_tx_list(b.transactions@) + enc_metadata(b.metadata)
}

/// Tagged encoding of an account record.
pub open spec fn enc_account(a: Account) -> Seq<u8> {
    match a {
        Account::Wallet { balance, nonce } => seq![0u8] + enc_u64(balance) + enc_u64(nonce),
        Account::Contract { code_hash, storage_root_hash, nonce } => seq![1u8] + code_hash@
            + storage_root_hash@ + enc_u64(nonce),
    }
}

/// Encoding of the chain-state summary.
pub open spec fn enc_chain_state(c: ChainState) -> Seq<u8> {
    c.latest_block_hash@ + enc_u64(c.latest_block_index) + c.accounts_root_hash@ + enc_u64(
        c.total_supply,
    )
}

// ------------------------------------------------------------------
// Executable encoders. Each appends the encoding of one value to an
// output buffer.
// ------------------------------------------------------------------

/// Append the little-endian bytes of a 64-bit integer.
pub fn encode_u64(out: &mut Vec<u8>, n: u64)
    ensures
        final(out)@ == old(out)@ + enc_u64(n),
{
    let mut bs = u64_to_le_bytes(n);
    out.append(&mut bs);
}

/// Append a 32-byte array unchanged.
pub fn encode_array32(out: &mut Vec<u8>, b: &[u8; 32])
    ensures
        final(out)@ == old(out)@ + b@,
{
    out.extend_from_slice(b.as_slice());
    assert(out@ =~= old(out)@ + b@);
}

/// Append a 64-byte array unchanged.
pub fn encode_array64(out: &mut Vec<u8>, b: &[u8; 64])
    ensures
        final(out)@ == old(out)@ + b@,
{
    out.extend_from_slice(b.as_slice());
    assert(out@ =~= old(out)@ + b@);
}

/// Append a length-prefixed byte sequence.
pub fn encode_bytes(out: &mut Vec<u8>, b: &Vec<u8>)
    ensures
        final(out)@ == old(out)@ + enc_bytes(b@),
{
    encode_u64(out, b.len() as u64);
    out.extend_from_slice(b.as_slice());
    assert(out@ =~= old(out)@ + enc_bytes(b@));
}

/// Append the tagged encoding of an address.
pub fn encode_address(out: &mut Vec<u8>, a: &Address)
    ensures
        final(out)@ == old(out)@ + enc_address(*a),
{
    match a {
        Address::Wallet(pk) => {
            out.push(0u8);
            encode_array32(out, &pk.bytes);
        },
        Address::Contract(cid) => {
            out.push(1u8);
            encode_array32(out, &cid.id);
        },
    }
    assert(out@ =~= old(out)@ + enc_address(*a));
}

/// Append the tagged encoding of a payload.
pub fn encode_payload(out: &mut Vec<u8>, p: &TransactionPayload)
    ensures
        final(out)@ == old(out)@ + enc_payload(*p),
{
    match p {
        TransactionPayload::Transfer { amount } => {
            out.push(0u8);
            encode_u64(out, *amount);
        },
        TransactionPayload::ContractDeploy { wasm_bytes } => {
            out.push(1u8);
            encode_bytes(out, wasm_bytes);
        },
        TransactionPayload::ContractCall { method, args } => {
            out.push(2u8);
            encode_bytes(out, method);
            encode_bytes(out, args);
        },
        TransactionPayload::Data { data } => {
            out.push(3u8);
            encode_bytes(out, data);
        },
    }
    assert(out@ =~= old(out)@ + enc_payload(*p));
}

/// The encoding of a metadata prefix grows by one entry at a time.
proof fn lemma_enc_md_entries_snoc(s: Seq<(Vec<u8>, Vec<u8>)>, i: int)
    requires
        0 <= i < s.len(),
    ensures
        enc_md_entries(s.take(i + 1)) == enc_md_entries(s.take(i)) + enc_bytes(s[i].0@)
            + enc_bytes(s[i].1@),
    decreases i,
{
    let t1 = s.take(i + 1);
    if i == 0 {
        assert(t1.drop_first() =~= s.take(0));
        assert(enc_md_entries(s.take(0)) == Seq::<u8>::empty());
        assert(enc_md_entries(t1) =~= enc_bytes(s[0].0@) + enc_bytes(s[0].1@));
        assert(enc_md_entries(s.take(1)) =~= enc_md_entries(s.take(0)) + enc_bytes(s[0].0@)
            + enc_bytes(s[0].1@));
    } else {
        lemma_enc_md_entries_snoc(s.drop_first(), i - 1);
        assert(t1.drop_first() =~= s.drop_first().take(i));
        assert(s.take(i).drop_first() =~= s.drop_first().take(i - 1));
        assert(s.drop_first()[i - 1] == s[i]);
        assert(enc_md_entries(t1) == enc_bytes(s[0].0@) + enc_bytes(s[0].1@) + enc_md_entries(
            s.drop_first().take(i),
        ));
        assert(enc_md_entries(s.take(i)) == enc_bytes(s[0].0@) + enc_bytes(s[0].1@)
            + enc_md_entries(s.drop_first().take(i - 1)));
        assert(enc_md_entries(t1) =~= enc_md_entries(s.take(i)) + enc_bytes(s[i].0@) + enc_bytes(
            s[i].1@,
        ));
    }
}

/// Append the tagged encoding of optional metadata.
pub fn encode_metadata(out: &mut Vec<u8>, m: &Option<Metadata>)
    ensures
        final(out)@ == old(out)@ + enc_metadata(*m),
{
    match m {
        Option::None => {
            out.push(0u8);
            assert(out@ =~= old(out)@ + enc_metadata(Option::None));
        },
        Option::Some(md) => {
            out.push(1u8);
            encode_u64(out, md.len() as u64);
            let ghost base = out@;
            let mut i: usize = 0;
            while i < md.len()
                invariant
                    0 <= i <= md.len(),
                    out@ == base + enc_md_entries(md@.take(i as int)),
                decreases md.len() - i,
            {
                proof {
                    lemma_enc_md_entries_snoc(md@, i as int);
                }
                let (k, v) = &md[i];
                encode_bytes(out, k);
                encode_bytes(out, v);
                assert(out@ =~= base + enc_md_entries(md@.take(i + 1 as int)));
                i = i + 1;
            }
            assert(md@.take(md.len() as int) =~= md@);
            assert(out@ =~= old(out)@ + enc_metadata(Option::Some(*md)));
        },
    }
}

/// Build the canonical signing bytes of a transaction.
pub fn encode_tx_signing(t: &Transaction) -> (r: Vec<u8>)
    ensures
        r@ == tx_signing_bytes(*t),
{
    let mut out: Vec<u8> = Vec::new();
    encode_array32(&mut out, &t.sender.bytes);
    encode_u64(&mut out, t.nonce);
    encode_u64(&mut out, t.timestamp);
    encode_address(&mut out, &t.recipient);
    encode_payload(&mut out, &t.payload);
    encode_metadata(&mut out, &t.metadata);
    assert(out@ =~= tx_signing_bytes(*t));
    out
}

/// Append the full encoding of a transaction.
pub fn encode_tx(out: &mut Vec<u8>, t: &Transaction)
    ensures
        final(out)@ == old(out)@ + enc_tx(*t),
{
    encode_array32(out, &t.hash);
    encode_array32(out, &t.sender.bytes);
    encode_u64(out, t.nonce);
    encode_u64(out, t.timestamp);
    encode_address(out, &t.recipient);
    encode_payload(out, &t.payload);
    encode_array64(out, &t.signature.bytes);
    encode_u64(out, t.gas_limit);
    out.push(t.priority);
    encode_metadata(out, &t.metadata);
    assert(out@ =~= old(out)@ + enc_tx(*t));
}

/// The encoding of a transaction-sequence prefix grows one transaction
/// at a time.
proof fn lemma_enc_tx_seq_snoc(s: Seq<Transaction>, i: int)
    requires
        0 <= i < s.len(),
    ensures
        enc_tx_seq(s.take(i + 1)) == enc_tx_seq(s.take(i)) + enc_tx(s[i]),
    decreases i,
{
    let t1 = s.take(i + 1);
    if i == 0 {
        assert(t1.drop_first() =~= s.take(0));
        assert(t1[0] == s[0]);
        assert(enc_tx_seq(t1) == enc_tx(t1[0]) + enc_tx_seq(t1.drop_first()));
        assert(enc_tx_seq(t1) =~= enc_tx(s[0]));
        assert(enc_tx_seq(s.take(1)) =~= enc_tx_seq(s.take(0)) + enc_tx(s[0]));
    } else {
        lemma_enc_tx_seq_snoc(s.drop_first(), i - 1);
        assert(t1.drop_first() =~= s.drop_first().take(i));
        assert(s.take(i).drop_first() =~= s.drop_first().take(i - 1));
        assert(s.drop_first()[i - 1] == s[i]);
        assert(enc_tx_seq(t1) =~= enc_tx_seq(s.take(i)) + enc_tx(s[i]));
    }
}

/// Append the counted encoding of a transaction list.
pub fn encode_tx_list(out: &mut Vec<u8>, txs: &Vec<Transaction>)
    ensures
        final(out)@ == old(out)@ + enc_tx_list(txs@),
{
    encode_u64(out, txs.len() as u64);
    let ghost base = out@;
    let mut i: usize = 0;
    while i < txs.len()
        invariant
            0 <= i <= txs.len(),
            out@ == base + enc_tx_seq(txs@.take(i as int)),
        decreases txs.len() - i,
    {
        proof {
            lemma_enc_tx_seq_snoc(txs@, i as int);
        }
        encode_tx(out, &txs[i]);
        assert(out@ =~= base + enc_tx_seq(txs@.take(i + 1 as int)));
        i = i + 1;
    }
    assert(txs@.take(txs.len() as int) =~= txs@);
    assert(out@ =~= old(out)@ + enc_tx_list(txs@));
}

/// Build the canonical signing bytes of a block.
pub fn encode_block_signing(b: &Block) -> (r: Vec<u8>)
    ensures
        r@ == block_signing_bytes(*b),
{
    let mut out: Vec<u8> = Vec::new();
    encode_u64(&mut out, b.index);
    encode_u64(&mut out, b.timestamp);
    encode_array32(&mut out, &b.prev_hash);
    encode_u64(&mut out, b.nonce);
    encode_tx_list(&mut out, &b.transactions);
    encode_metadata(&mut out, &b.metadata);
    assert(out@ =~= block_signing_bytes(*b));
    out
}

/// Build the full encoding of a block.
pub fn encode_block(b: &Block) -> (r: Vec<u8>)
    ensures
        r@ == enc_block(*b),
{
    let mut out: Vec<u8> = Vec::new();
    encode_u64(&mut out, b.index);
    encode_u64(&mut out, b.timestamp);
    encode_array32(&mut out, &b.prev_hash);
    encode_array32(&mut out, &b.hash);
    encode_u64(&mut out, b.nonce);
    encode_tx_list(&mut out, &b.transactions);
    encode_metadata(&mut out, &b.metadata);
    assert(out@ =~= enc_block(*b));
    out
}

/// Build the full encoding of a transaction as a fresh buffer.
pub fn tx_to_bytes(t: &Transaction) -> (r: Vec<u8>)
    ensures
        r@ == enc_tx(*t),
{
    let mut out: Vec<u8> = Vec::new();
    encode_tx(&mut out, t);
    assert(out@ =~= enc_tx(*t));
    out
}

/// Build the tagged encoding of an account record.
pub fn encode_account(a: &Account) -> (r: Vec<u8>)
    ensures
        r@ == enc_account(*a),
{
    let mut out: Vec<u8> = Vec::new();
    match a {
        Account::Wallet { balance, nonce } => {
            out.push(0u8);
            encode_u64(&mut out, *balance);
            encode_u64(&mut out, *nonce);
        },
        Account::Contract { code_hash, storage_root_hash, nonce } => {
            out.push(1u8);
            encode_array32(&mut out, code_hash);
            encode_array32(&mut out, storage_root_hash);
            encode_u64(&mut out, *nonce);
        },
    }
    assert(out@ =~= enc_account(*a));
    out
}

/// Build the encoding of the chain-state summary.
pub fn encode_chain_state(c: &ChainState) -> (r: Vec<u8>)
    ensures
        r@ == enc_chain_state(*c),
{
    let mut out: Vec<u8> = Vec::new();
    encode_array32(&mut out, &c.latest_block_hash);
    encode_u64(&mut out, c.latest_block_index);
    encode_array32(&mut out, &c.accounts_root_hash);
    encode_u64(&mut out, c.total_supply);
    assert(out@ =~= enc_chain_state(*c));
    out
}

// ------------------------------------------------------------------
// Decoders. Each decoder's contract is two-way: a parsed value's
// encoding is exactly the bytes consumed, and any value whose encoding
// sits at the given position is the one parsed. The second direction
// makes the canonical encoding unambiguous.
// ------------------------------------------------------------------

/// Whether the byte sequence `e` occurs in `s` starting at `i`.
pub open spec fn is_prefix_at(s: Seq<u8>, i: int, e: Seq<u8>) -> bool {
    0 <= i && i + e.len() <= s.len() && s.subrange(i, i + e.len()) == e
}

/// A prefix made of two parts splits into a prefix and a following one.
pub proof fn lemma_prefix_split(s: Seq<u8>, i: int, a: Seq<u8>, b: Seq<u8>)
    requires
        is_prefix_at(s, i, a + b),
    ensures
        is_prefix_at(s, i, a),
        is_prefix_at(s, i + a.len(), b),
{
    let ab = a + b;
    assert(s.subrange(i, i + a.len() as int) =~= a) by {
        assert forall|k: int| 0 <= k < a.len() implies s.subrange(i, i + a.len() as int)[k] == a[k]
        by {
            assert(s.subrange(i, i + ab.len() as int)[k] == ab[k]);
        }
    }
    assert(s.subrange(i + a.len(), i + a.len() + b.len()) =~= b) by {
        assert forall|k: int| 0 <= k < b.len() implies s.subrange(
            i + a.len(),
            i + a.len() + b.len(),
        )[k] == b[k] by {
            assert(s.subrange(i, i + ab.len() as int)[a.len() + k] == ab[a.len() + k]);
        }
    }
}

/// A sequence is a prefix of itself at its start.
pub proof fn lemma_self_prefix(s: Seq<u8>)
    ensures
        is_prefix_at(s, 0, s),
{
    assert(s.subrange(0, s.len() as int) =~= s);
}

/// Read one little-endian 64-bit integer.
pub fn decode_u64_at(v: &Vec<u8>, pos: usize) -> (r: Option<(u64, usize)>)
    ensures
        r matches Some((x, p)) ==> pos + 8 == p && p <= v@.len() && v@.subrange(
            pos as int,
            p as int,
        ) == enc_u64(x),
        forall|x: u64| is_prefix_at(v@, pos as int, enc_u64(x)) ==> r == Some::<(u64, usize)>(
            (x, (pos + 8) as usize),
        ),
        r is None ==> pos + 8 > v@.len(),
{
    proof {
        lemma_auto_spec_u64_to_from_le_bytes();
    }
    if pos <= v.len() && v.len() - pos >= 8 {
        let sub = slice_subrange(v.as_slice(), pos, pos + 8);
        let x = u64_from_le_bytes(sub);
        assert forall|y: u64| is_prefix_at(v@, pos as int, enc_u64(y)) implies x == y by {
            assert(v@.subrange(pos as int, pos + 8 as int) == enc_u64(y));
        }
        Some((x, pos + 8))
    } else {
        assert forall|y: u64| !is_prefix_at(v@, pos as int, enc_u64(y)) by {
            assert(enc_u64(y).len() == 8);
        }
        None
    }
}

/// Read 32 raw bytes.
pub fn decode_array32_at(v: &Vec<u8>, pos: usize) -> (r: Option<([u8; 32], usize)>)
    ensures
        r matches Some((x, p)) ==> pos + 32 == p && p <= v@.len() && v@.subrange(
            pos as int,
            p as int,
        ) == x@,
        forall|x: [u8; 32]| is_prefix_at(v@, pos as int, x@) ==> (r matches Some((x2, p2)) && x2
            == x && p2 == pos + 32),
        r is None ==> pos + 32 > v@.len(),
{
    if pos <= v.len() && v.len() - pos >= 32 {
        let mut arr = [0u8; 32];
        let mut j: usize = 0;
        while j < 32
            invariant
                0 <= j <= 32,
                pos + 32 <= v.len(),
                forall|k: int| 0 <= k < j ==> arr@[k] == v@[pos + k],
            decreases 32 - j,
        {
            arr[j] = v[pos + j];
            j = j + 1;
        }
        assert(v@.subrange(pos as int, pos + 32 as int) =~= arr@);
        assert forall|x: [u8; 32]| is_prefix_at(v@, pos as int, x@) implies arr == x by {
            assert(x@.len() == 32);
            assert(v@.subrange(pos as int, pos + 32 as int) == x@);
            assert(arr@ =~= x@);
        }
        Some((arr, pos + 32))
    } else {
        assert forall|x: [u8; 32]| !is_prefix_at(v@, pos as int, x@) by {
            assert(x@.len() == 32);
        }
        None
    }
}

/// Read 64 raw bytes.
pub fn decode_array64_at(v: &Vec<u8>, pos: usize) -> (r: Option<([u8; 64], usize)>)
    ensures
        r matches Some((x, p)) ==> pos + 64 == p && p <= v@.len() && v@.subrange(
            pos as int,
            p as int,
        ) == x@,
        forall|x: [u8; 64]| is_prefix_at(v@, pos as int, x@) ==> (r matches Some((x2, p2)) && x2
            == x && p2 == pos + 64),
        r is None ==> pos + 64 > v@.len(),
{
    if pos <= v.len() && v.len() - pos >= 64 {
        let mut arr = [0u8; 64];
        let mut j: usize = 0;
        while j < 64
            invariant
                0 <= j <= 64,
                pos + 64 <= v.len(),
                forall|k: int| 0 <= k < j ==> arr@[k] == v@[pos + k],
            decreases 64 - j,
        {
            arr[j] = v[pos + j];
            j = j + 1;
        }
        assert(v@.subrange(pos as int, pos + 64 as int) =~= arr@);
        assert forall|x: [u8; 64]| is_prefix_at(v@, pos as int, x@) implies arr == x by {
            assert(x@.len() == 64);
            assert(v@.subrange(pos as int, pos + 64 as int) == x@);
            assert(arr@ =~= x@);
        }
        Some((arr, pos + 64))
    } else {
        assert forall|x: [u8; 64]| !is_prefix_at(v@, pos as int, x@) by {
            assert(x@.len() == 64);
        }
        None
    }
}

/// Two payloads carry the same variant and contents. Payloads hold
/// byte vectors, so equality of contents is stated over their views.
pub open spec fn payload_eqv(a: TransactionPayload, b: TransactionPayload) -> bool {
    match (a, b) {
        (
            TransactionPayload::Transfer { amount: x },
            TransactionPayload::Transfer { amount: y },
        ) => x == y,
        (
            TransactionPayload::ContractDeploy { wasm_bytes: x },
            TransactionPayload::ContractDeploy { wasm_bytes: y },
        ) => x@ == y@,
        (
            TransactionPayload::ContractCall { method: xm, args: xa },
            TransactionPayload::ContractCall { method: ym, args: ya },
        ) => xm@ == ym@ && xa@ == ya@,
        (TransactionPayload::Data { data: x }, TransactionPayload::Data { data: y }) => x@ == y@,
        _ => false,
    }
}

/// Two optional metadata mappings hold the same entries, compared by
/// their views.
pub open spec fn md_eqv(a: Option<Metadata>, b: Option<Metadata>) -> bool {
    match (a, b) {
        (Option::None, Option::None) => true,
        (Option::Some(x), Option::Some(y)) => x@.len() == y@.len() && (forall|i: int|
            0 <= i < x@.len() ==> #[trigger] x@[i].0@ == y@[i].0@ && x@[i].1@ == y@[i].1@),
        _ => false,
    }
}

/// Two transactions agree on every field, with byte-vector contents
/// compared by their views.
pub open spec fn tx_eqv(a: Transaction, b: Transaction) -> bool {
    &&& a.hash == b.hash
    &&& a.sender == b.sender
    &&& a.nonce == b.nonce
    &&& a.timestamp == b.timestamp
    &&& a.recipient == b.recipient
    &&& payload_eqv(a.payload, b.payload)
    &&& a.signature == b.signature
    &&& a.gas_limit == b.gas_limit
    &&& a.priority == b.priority
    &&& md_eqv(a.metadata, b.metadata)
}

/// Two blocks agree on every field, with transactions compared by
/// [`tx_eqv`].
pub open spec fn block_eqv(a: Block, b: Block) -> bool {
    &&& a.index == b.index
    &&& a.timestamp == b.timestamp
    &&& a.prev_hash == b.prev_hash
    &&& a.hash == b.hash
    &&& a.nonce == b.nonce
    &&& a.transactions@.len() == b.transactions@.len()
    &&& forall|i: int|
        0 <= i < a.transactions@.len() ==> tx_eqv(
            #[trigger] a.transactions@[i],
            b.transactions@[i],
        )
    &&& md_eqv(a.metadata, b.metadata)
}

/// No payload encoding occurs at position `i` of `s`.
pub open spec fn no_payload_at(s: Seq<u8>, i: int) -> bool {
    forall|x: TransactionPayload| !is_prefix_at(s, i, #[trigger] enc_payload(x))
}

/// Any payload whose encoding occurs at position `i` of `s` has the
/// contents of `x2`, and its encoding ends at `p2`.
pub open spec fn payload_parsed_at(s: Seq<u8>, i: int, x2: TransactionPayload, p2: int) -> bool {
    forall|x: TransactionPayload|
        is_prefix_at(s, i, #[trigger] enc_payload(x)) ==> payload_eqv(x2, x) && p2 == i
            + enc_payload(x).len()
}

/// A prefix of positive length fixes the byte at its start.
proof fn lemma_prefix_first(s: Seq<u8>, i: int, e: Seq<u8>)
    requires
        is_prefix_at(s, i, e),
        e.len() > 0,
    ensures
        s[i] == e[0],
{
    assert(s.subrange(i, i + e.len() as int)[0] == e[0]);
}

/// Read one length-prefixed byte sequence.
pub fn decode_bytes_at(v: &Vec<u8>, pos: usize) -> (r: Option<(Vec<u8>, usize)>)
    ensures
        r matches Some((x, p)) ==> pos <= p <= v@.len() && v@.subrange(pos as int, p as int)
            == enc_bytes(x@),
        forall|b: Seq<u8>| is_prefix_at(v@, pos as int, enc_bytes(b)) ==> (r matches Some((
            x2,
            p2,
        )) && x2@ == b && p2 == pos + enc_bytes(b).len()),
{
    proof {
        lemma_auto_spec_u64_to_from_le_bytes();
    }
    let len_r = decode_u64_at(v, pos);
    match len_r {
        Option::None => {
            assert forall|b: Seq<u8>| !is_prefix_at(v@, pos as int, enc_bytes(b)) by {
                if is_prefix_at(v@, pos as int, enc_bytes(b)) {
                    lemma_prefix_split(v@, pos as int, enc_u64(b.len() as u64), b);
                }
            }
            None
        },
        Option::Some((n, p1)) => {
            if n <= (usize::MAX) as u64 && (n as usize) <= v.len() && v.len() - (n as usize) >= p1
            {
                let n_us = n as usize;
                let sub = slice_subrange(v.as_slice(), p1, p1 + n_us);
                let out = slice_to_vec(sub);
                assert(out@ == v@.subrange(p1 as int, p1 + n as int));
                assert(v@.subrange(pos as int, p1 + n as int) =~= enc_u64(n) + out@);
                assert(enc_bytes(out@) == enc_u64(out@.len() as u64) + out@);
                assert(v@.subrange(pos as int, p1 + n as int) == enc_bytes(out@));
                assert forall|b: Seq<u8>| is_prefix_at(v@, pos as int, enc_bytes(b))
                    implies out@ == b && p1 + n_us == pos + enc_bytes(b).len() by {
                    assert(v.len() == v@.len());
                    assert(b.len() <= usize::MAX);
                    lemma_prefix_split(v@, pos as int, enc_u64(b.len() as u64), b);
                    assert(b.len() as u64 == n);
                    assert(v@.subrange(p1 as int, p1 + b.len() as int) == b);
                }
                Some((out, p1 + n_us))
            } else {
                assert forall|b: Seq<u8>| !is_prefix_at(v@, pos as int, enc_bytes(b)) by {
                    if is_prefix_at(v@, pos as int, enc_bytes(b)) {
                        assert(v.len() == v@.len());
                        assert(b.len() <= usize::MAX);
                        lemma_prefix_split(v@, pos as int, enc_u64(b.len() as u64), b);
                        assert(b.len() as u64 == n);
                        assert(pos + 8 + b.len() <= v.len());
                        assert(false);
                    }
                }
                None
            }
        },
    }
}

/// Read one tagged address.
pub fn decode_address_at(v: &Vec<u8>, pos: usize) -> (r: Option<(Address, usize)>)
    ensures
        r matches Some((a, p)) ==> pos <= p <= v@.len() && v@.subrange(pos as int, p as int)
            == enc_address(a),
        forall|a: Address| is_prefix_at(v@, pos as int, enc_address(a)) ==> (r matches Some(
            (a2, p2),
        ) && a2 == a && p2 == pos + enc_address(a).len()),
{
    if pos < v.len() {
        let tag = v[pos];
        if tag == 0 {
            match decode_array32_at(v, pos + 1) {
                Option::Some((bytes, p)) => {
                    let a = Address::Wallet(PublicKey { bytes });
                    assert(v@.subrange(pos as int, p as int) =~= seq![0u8] + bytes@);
                    assert forall|x: Address| is_prefix_at(v@, pos as int, enc_address(x))
                        implies x == a && pos + enc_address(x).len() == p by {
                        reveal_with_fuel(enc_address, 1);
                        match x {
                            Address::Wallet(pk) => {
                                lemma_prefix_split(v@, pos as int, seq![0u8], pk.bytes@);
                                assert(is_prefix_at(v@, pos + 1 as int, pk.bytes@));
                                assert(pk.bytes == bytes);
                            },
                            Address::Contract(cid) => {
                                lemma_prefix_first(v@, pos as int, enc_address(x));
                                assert((seq![1u8] + cid.id@)[0] == 1u8);
                                assert(false);
                            },
                        }
                    }
                    Some((a, p))
                },
                Option::None => {
                    assert forall|x: Address| !is_prefix_at(v@, pos as int, enc_address(x)) by {
                        if is_prefix_at(v@, pos as int, enc_address(x)) {
                            match x {
                                Address::Wallet(pk) => {
                                    lemma_prefix_split(v@, pos as int, seq![0u8], pk.bytes@);
                                    assert(false);
                                },
                                Address::Contract(cid) => {
                                    lemma_prefix_first(v@, pos as int, enc_address(x));
                                    assert((seq![1u8] + cid.id@)[0] == 1u8);
                                    assert(false);
                                },
                            }
                        }
                    }
                    None
                },
            }
        } else if tag == 1 {
            match decode_array32_at(v, pos + 1) {
                Option::Some((bytes, p)) => {
                    let a = Address::Contract(ContractId { id: bytes });
                    assert(v@.subrange(pos as int, p as int) =~= seq![1u8] + bytes@);
                    assert forall|x: Address| is_prefix_at(v@, pos as int, enc_address(x))
                        implies x == a && pos + enc_address(x).len() == p by {
                        match x {
                            Address::Contract(cid) => {
                                lemma_prefix_split(v@, pos as int, seq![1u8], cid.id@);
                                assert(is_prefix_at(v@, pos + 1 as int, cid.id@));
                                assert(cid.id == bytes);
                            },
                            Address::Wallet(pk) => {
                                lemma_prefix_first(v@, pos as int, enc_address(x));
                                assert((seq![0u8] + pk.bytes@)[0] == 0u8);
                                assert(false);
                            },
                        }
                    }
                    Some((a, p))
                },
                Option::None => {
                    assert forall|x: Address| !is_prefix_at(v@, pos as int, enc_address(x)) by {
                        if is_prefix_at(v@, pos as int, enc_address(x)) {
                            match x {
                                Address::Contract(cid) => {
                                    lemma_prefix_split(v@, pos as int, seq![1u8], cid.id@);
                                    assert(false);
                                },
                                Address::Wallet(pk) => {
                                    lemma_prefix_first(v@, pos as int, enc_address(x));
                                    assert((seq![0u8] + pk.bytes@)[0] == 0u8);
                                    assert(false);
                                },
                            }
                        }
                    }
                    None
                },
            }
        } else {
            assert forall|x: Address| !is_prefix_at(v@, pos as int, enc_address(x)) by {
                if is_prefix_at(v@, pos as int, enc_address(x)) {
                    lemma_prefix_first(v@, pos as int, enc_address(x));
                    match x {
                        Address::Wallet(pk) => {
                            assert((seq![0u8] + pk.bytes@)[0] == 0u8);
                        },
                        Address::Contract(cid) => {
                            assert((seq![1u8] + cid.id@)[0] == 1u8);
                        },
                    }
                }
            }
            None
        }
    } else {
        assert forall|x: Address| !is_prefix_at(v@, pos as int, enc_address(x)) by {
            assert(enc_address(x).len() >= 33);
        }
        None
    }
}

/// The first byte of a payload encoding is its variant tag.
proof fn lemma_payload_tag(s: Seq<u8>, i: int, y: TransactionPayload)
    requires
        is_prefix_at(s, i, enc_payload(y)),
    ensures
        i < s.len(),
        s[i] == match y {
            TransactionPayload::Transfer { .. } => 0u8,
            TransactionPayload::ContractDeploy { .. } => 1u8,
            TransactionPayload::ContractCall { .. } => 2u8,
            TransactionPayload::Data { .. } => 3u8,
        },
{
    lemma_prefix_first(s, i, enc_payload(y));
    match y {
        TransactionPayload::Transfer { amount } => {
            assert((seq![0u8] + enc_u64(amount))[0] == 0u8);
        },
        TransactionPayload::ContractDeploy { wasm_bytes } => {
            assert((seq![1u8] + enc_bytes(wasm_bytes@))[0] == 1u8);
        },
        TransactionPayload::ContractCall { method, args } => {
            assert((seq![2u8] + enc_bytes(method@) + enc_bytes(args@))[0] == 2u8);
        },
        TransactionPayload::Data { data } => {
            assert((seq![3u8] + enc_bytes(data@))[0] == 3u8);
        },
    }
}

/// Read a transfer payload after its tag.
fn decode_payload_transfer(v: &Vec<u8>, pos: usize) -> (r: Option<(TransactionPayload, usize)>)
    requires
        pos < v.len(),
        v@[pos as int] == 0u8,
    ensures
        r matches Some((x, p)) ==> pos <= p <= v@.len() && v@.subrange(pos as int, p as int)
            == enc_payload(x),
        r is None ==> no_payload_at(v@, pos as int),
        r matches Some((x2, p2)) ==> payload_parsed_at(v@, pos as int, x2, p2 as int),
{
    match decode_u64_at(v, pos + 1) {
        Option::Some((amount, p)) => {
            let x = TransactionPayload::Transfer { amount };
            assert(v@.subrange(pos as int, p as int) =~= seq![0u8] + enc_u64(amount)) by {
                lemma_auto_spec_u64_to_from_le_bytes();
                assert(v@.subrange(pos + 1 as int, p as int) == enc_u64(amount));
            }
            assert forall|y: TransactionPayload| is_prefix_at(v@, pos as int, enc_payload(y))
                implies payload_eqv(x, y) && pos + enc_payload(y).len() == p by {
                lemma_payload_tag(v@, pos as int, y);
                match y {
                    TransactionPayload::Transfer { amount: am } => {
                        lemma_prefix_split(v@, pos as int, seq![0u8], enc_u64(am));
                        assert(am == amount);
                    },
                    _ => {
                        assert(false);
                    },
                }
            }
            assert(payload_parsed_at(v@, pos as int, x, p as int));
            Some((x, p))
        },
        Option::None => {
            assert forall|y: TransactionPayload| !is_prefix_at(v@, pos as int, enc_payload(y)) by {
                if is_prefix_at(v@, pos as int, enc_payload(y)) {
                    lemma_payload_tag(v@, pos as int, y);
                    match y {
                        TransactionPayload::Transfer { amount: am } => {
                            lemma_prefix_split(v@, pos as int, seq![0u8], enc_u64(am));
                            assert(false);
                        },
                        _ => {
                            assert(false);
                        },
                    }
                }
            }
            assert(no_payload_at(v@, pos as int));
            None
        },
    }
}

/// Read a contract-deployment payload after its tag.
fn decode_payload_deploy(v: &Vec<u8>, pos: usize) -> (r: Option<(TransactionPayload, usize)>)
    requires
        pos < v.len(),
        v@[pos as int] == 1u8,
    ensures
        r matches Some((x, p)) ==> pos <= p <= v@.len() && v@.subrange(pos as int, p as int)
            == enc_payload(x),
        r is None ==> no_payload_at(v@, pos as int),
        r matches Some((x2, p2)) ==> payload_parsed_at(v@, pos as int, x2, p2 as int),
{
    match decode_bytes_at(v, pos + 1) {
        Option::Some((wasm, p)) => {
            let x = TransactionPayload::ContractDeploy { wasm_bytes: wasm };
            assert(v@.subrange(pos as int, p as int) =~= seq![1u8] + enc_bytes(wasm@)) by {
                assert(v@.subrange(pos + 1 as int, p as int) == enc_bytes(wasm@));
            }
            assert forall|y: TransactionPayload| is_prefix_at(v@, pos as int, enc_payload(y))
                implies payload_eqv(x, y) && pos + enc_payload(y).len() == p by {
                lemma_payload_tag(v@, pos as int, y);
                match y {
                    TransactionPayload::ContractDeploy { wasm_bytes } => {
                        lemma_prefix_split(v@, pos as int, seq![1u8], enc_bytes(wasm_bytes@));
                        assert(wasm@ == wasm_bytes@);
                    },
                    _ => {
                        assert(false);
                    },
                }
            }
            assert(payload_parsed_at(v@, pos as int, x, p as int));
            Some((x, p))
        },
        Option::None => {
            assert forall|y: TransactionPayload| !is_prefix_at(v@, pos as int, enc_payload(y)) by {
                if is_prefix_at(v@, pos as int, enc_payload(y)) {
                    lemma_payload_tag(v@, pos as int, y);
                    match y {
                        TransactionPayload::ContractDeploy { wasm_bytes } => {
                            lemma_prefix_split(v@, pos as int, seq![1u8], enc_bytes(wasm_bytes@));
                            assert(false);
                        },
                        _ => {
                            assert(false);
                        },
                    }
                }
            }
            assert(no_payload_at(v@, pos as int));
            None
        },
    }
}

/// Read a contract-call payload after its tag.
#[verifier::rlimit(100)]
#[verifier::spinoff_prover]
fn decode_payload_call(v: &Vec<u8>, pos: usize) -> (r: Option<(TransactionPayload, usize)>)
    requires
        pos < v.len(),
        v@[pos as int] == 2u8,
    ensures
        r matches Some((x, p)) ==> pos <= p <= v@.len() && v@.subrange(pos as int, p as int)
            == enc_payload(x),
        r is None ==> no_payload_at(v@, pos as int),
        r matches Some((x2, p2)) ==> payload_parsed_at(v@, pos as int, x2, p2 as int),
{
    let m_r = decode_bytes_at(v, pos + 1);
    match m_r {
        Option::Some((method, p1)) => {
            match decode_bytes_at(v, p1) {
                Option::Some((args, p)) => {
                    let x = TransactionPayload::ContractCall { method, args };
                    assert(v@.subrange(pos as int, p as int) =~= seq![2u8] + enc_bytes(method@)
                        + enc_bytes(args@)) by {
                        assert(v@.subrange(pos + 1 as int, p1 as int) == enc_bytes(method@));
                        assert(v@.subrange(p1 as int, p as int) == enc_bytes(args@));
                    }
                    assert forall|y: TransactionPayload| is_prefix_at(
                        v@,
                        pos as int,
                        enc_payload(y),
                    ) implies payload_eqv(x, y) && pos + enc_payload(y).len() == p by {
                        lemma_payload_tag(v@, pos as int, y);
                        match y {
                            TransactionPayload::ContractCall { method: ym, args: ya } => {
                                assert(enc_payload(y) =~= seq![2u8] + (enc_bytes(ym@) + enc_bytes(
                                    ya@,
                                )));
                                lemma_prefix_split(v@, pos as int, seq![2u8], enc_bytes(ym@)
                                    + enc_bytes(ya@));
                                lemma_prefix_split(v@, pos + 1 as int, enc_bytes(ym@), enc_bytes(
                                    ya@,
                                ));
                                assert(ym@ == method@);
                                assert(ya@ == args@);
                            },
                            _ => {
                                assert(false);
                            },
                        }
                    }
                    assert(payload_parsed_at(v@, pos as int, x, p as int));
                    Some((x, p))
                },
                Option::None => {
                    assert forall|y: TransactionPayload| !is_prefix_at(
                        v@,
                        pos as int,
                        enc_payload(y),
                    ) by {
                        if is_prefix_at(v@, pos as int, enc_payload(y)) {
                            lemma_payload_tag(v@, pos as int, y);
                            match y {
                                TransactionPayload::ContractCall { method: ym, args: ya } => {
                                    assert(enc_payload(y) =~= seq![2u8] + (enc_bytes(ym@)
                                        + enc_bytes(ya@)));
                                    lemma_prefix_split(v@, pos as int, seq![2u8], enc_bytes(ym@)
                                        + enc_bytes(ya@));
                                    lemma_prefix_split(v@, pos + 1 as int, enc_bytes(ym@),
                                        enc_bytes(ya@));
                                    assert(ym@ == method@);
                                    assert(false);
                                },
                                _ => {
                                    assert(false);
                                },
                            }
                        }
                    }
                    assert(no_payload_at(v@, pos as int));
                    None
                },
            }
        },
        Option::None => {
            assert forall|y: TransactionPayload| !is_prefix_at(v@, pos as int, enc_payload(y)) by {
                if is_prefix_at(v@, pos as int, enc_payload(y)) {
                    lemma_payload_tag(v@, pos as int, y);
                    match y {
                        TransactionPayload::ContractCall { method: ym, args: ya } => {
                            assert(enc_payload(y) =~= seq![2u8] + (enc_bytes(ym@) + enc_bytes(
                                ya@,
                            )));
                            lemma_prefix_split(v@, pos as int, seq![2u8], enc_bytes(ym@)
                                + enc_bytes(ya@));
                            lemma_prefix_split(v@, pos + 1 as int, enc_bytes(ym@), enc_bytes(
                                ya@,
                            ));
                            assert(false);
                        },
                        _ => {
                            assert(false);
                        },
                    }
                }
            }
            assert(no_payload_at(v@, pos as int));
            None
        },
    }
}

/// Read a data payload after its tag.
fn decode_payload_data(v: &Vec<u8>, pos: usize) -> (r: Option<(TransactionPayload, usize)>)
    requires
        pos < v.len(),
        v@[pos as int] == 3u8,
    ensures
        r matches Some((x, p)) ==> pos <= p <= v@.len() && v@.subrange(pos as int, p as int)
            == enc_payload(x),
        r is None ==> no_payload_at(v@, pos as int),
        r matches Some((x2, p2)) ==> payload_parsed_at(v@, pos as int, x2, p2 as int),
{
    match decode_bytes_at(v, pos + 1) {
        Option::Some((data, p)) => {
            let x = TransactionPayload::Data { data };
            assert(v@.subrange(pos as int, p as int) =~= seq![3u8] + enc_bytes(data@)) by {
                assert(v@.subrange(pos + 1 as int, p as int) == enc_bytes(data@));
            }
            assert forall|y: TransactionPayload| is_prefix_at(v@, pos as int, enc_payload(y))
                implies payload_eqv(x, y) && pos + enc_payload(y).len() == p by {
                lemma_payload_tag(v@, pos as int, y);
                match y {
                    TransactionPayload::Data { data: yd } => {
                        lemma_prefix_split(v@, pos as int, seq![3u8], enc_bytes(yd@));
                        assert(yd@ == data@);
                    },
                    _ => {
                        assert(false);
                    },
                }
            }
            assert(payload_parsed_at(v@, pos as int, x, p as int));
            Some((x, p))
        },
        Option::None => {
            assert forall|y: TransactionPayload| !is_prefix_at(v@, pos as int, enc_payload(y)) by {
                if is_prefix_at(v@, pos as int, enc_payload(y)) {
                    lemma_payload_tag(v@, pos as int, y);
                    match y {
                        TransactionPayload::Data { data: yd } => {
                            lemma_prefix_split(v@, pos as int, seq![3u8], enc_bytes(yd@));
                            assert(false);
                        },
                        _ => {
                            assert(false);
                        },
                    }
                }
            }
            assert(no_payload_at(v@, pos as int));
            None
        },
    }
}

/// Read one tagged payload.
pub fn decode_payload_at(v: &Vec<u8>, pos: usize) -> (r: Option<(TransactionPayload, usize)>)
    ensures
        r matches Some((x, p)) ==> pos <= p <= v@.len() && v@.subrange(pos as int, p as int)
            == enc_payload(x),
        r is None ==> no_payload_at(v@, pos as int),
        r matches Some((x2, p2)) ==> payload_parsed_at(v@, pos as int, x2, p2 as int),
{
    if pos >= v.len() {
        assert forall|x: TransactionPayload| !is_prefix_at(v@, pos as int, enc_payload(x)) by {
            if is_prefix_at(v@, pos as int, enc_payload(x)) {
                lemma_payload_tag(v@, pos as int, x);
            }
        }
        assert(no_payload_at(v@, pos as int));
        return None;
    }
    let tag = v[pos];
    if tag == 0 {
        decode_payload_transfer(v, pos)
    } else if tag == 1 {
        decode_payload_deploy(v, pos)
    } else if tag == 2 {
        decode_payload_call(v, pos)
    } else if tag == 3 {
        decode_payload_data(v, pos)
    } else {
        assert forall|y: TransactionPayload| !is_prefix_at(v@, pos as int, enc_payload(y)) by {
            if is_prefix_at(v@, pos as int, enc_payload(y)) {
                lemma_payload_tag(v@, pos as int, y);
            }
        }
        assert(no_payload_at(v@, pos as int));
        None
    }
}

/// No optional-metadata encoding occurs at position `i` of `s`.
pub open spec fn no_metadata_at(s: Seq<u8>, i: int) -> bool {
    forall|m: Option<Metadata>| !is_prefix_at(s, i, #[trigger] enc_metadata(m))
}

/// Any optional metadata whose encoding occurs at position `i` of `s`
/// has the contents of `m2`, and its encoding ends at `p2`.
pub open spec fn metadata_parsed_at(s: Seq<u8>, i: int, m2: Option<Metadata>, p2: int) -> bool {
    forall|m: Option<Metadata>|
        is_prefix_at(s, i, #[trigger] enc_metadata(m)) ==> md_eqv(m2, m) && p2 == i
            + enc_metadata(m).len()
}

/// The encoding of a sequence of metadata entries splits at any point.
proof fn lemma_enc_md_entries_split(s: Seq<(Vec<u8>, Vec<u8>)>, k: int)
    requires
        0 <= k <= s.len(),
    ensures
        enc_md_entries(s) == enc_md_entries(s.take(k)) + enc_md_entries(s.skip(k)),
    decreases k,
{
    if k == 0 {
        assert(s.take(0).len() == 0);
        assert(s.skip(0) =~= s);
        assert(enc_md_entries(s) =~= enc_md_entries(s.take(0)) + enc_md_entries(s.skip(0)));
    } else {
        lemma_enc_md_entries_split(s, k - 1);
        lemma_enc_md_entries_snoc(s, k - 1);
        let rest = s.skip(k - 1);
        assert(rest.len() > 0);
        assert(rest[0] == s[k - 1]);
        assert(rest.drop_first() =~= s.skip(k));
        assert(enc_md_entries(rest) == enc_bytes(s[k - 1].0@) + enc_bytes(s[k - 1].1@)
            + enc_md_entries(s.skip(k)));
        assert(enc_md_entries(s) =~= enc_md_entries(s.take(k)) + enc_md_entries(s.skip(k)));
    }
}

/// One metadata entry heads the encoding of the entries from `k` on.
proof fn lemma_enc_md_entries_head(s: Seq<(Vec<u8>, Vec<u8>)>, k: int)
    requires
        0 <= k < s.len(),
    ensures
        enc_md_entries(s.skip(k)) == enc_bytes(s[k].0@) + (enc_bytes(s[k].1@) + enc_md_entries(
            s.skip(k + 1),
        )),
{
    let rest = s.skip(k);
    assert(rest.len() > 0);
    assert(rest[0] == s[k]);
    assert(rest.drop_first() =~= s.skip(k + 1));
    assert(enc_md_entries(rest) == enc_bytes(s[k].0@) + enc_bytes(s[k].1@) + enc_md_entries(
        s.skip(k + 1),
    ));
    assert(enc_md_entries(rest) =~= enc_bytes(s[k].0@) + (enc_bytes(s[k].1@) + enc_md_entries(
        s.skip(k + 1),
    )));
}

/// Read one optional-metadata encoding.
#[verifier::rlimit(100)]
#[verifier::spinoff_prover]
pub fn decode_metadata_at(v: &Vec<u8>, pos: usize) -> (r: Option<(Option<Metadata>, usize)>)
    ensures
        r matches Some((m, p)) ==> pos <= p <= v@.len() && v@.subrange(pos as int, p as int)
            == enc_metadata(m),
        r is None ==> no_metadata_at(v@, pos as int),
        r matches Some((m2, p2)) ==> metadata_parsed_at(v@, pos as int, m2, p2 as int),
{
    proof {
        lemma_auto_spec_u64_to_from_le_bytes();
    }
    if pos >= v.len() {
        assert forall|m: Option<Metadata>| !is_prefix_at(v@, pos as int, enc_metadata(m)) by {
            if is_prefix_at(v@, pos as int, enc_metadata(m)) {
                assert(enc_metadata(m).len() >= 1);
            }
        }
        assert(no_metadata_at(v@, pos as int));
        return None;
    }
    let tag = v[pos];
    if tag == 0 {
        let m: Option<Metadata> = None;
        assert(v@.subrange(pos as int, pos + 1 as int) =~= seq![0u8]);
        assert forall|y: Option<Metadata>| is_prefix_at(v@, pos as int, enc_metadata(y))
            implies md_eqv(m, y) && pos + 1 == pos + enc_metadata(y).len() by {
            lemma_prefix_first(v@, pos as int, enc_metadata(y));
            match y {
                Option::None => {
                },
                Option::Some(md) => {
                    assert((seq![1u8] + enc_u64(md.len() as u64) + enc_md_entries(md@))[0] == 1u8);
                    assert(false);
                },
            }
        }
        assert(metadata_parsed_at(v@, pos as int, m, pos + 1 as int));
        Some((m, pos + 1))
    } else if tag == 1 {
        let count_r = decode_u64_at(v, pos + 1);
        match count_r {
            Option::None => {
                assert forall|y: Option<Metadata>| !is_prefix_at(v@, pos as int, enc_metadata(y))
                by {
                    if is_prefix_at(v@, pos as int, enc_metadata(y)) {
                        lemma_prefix_first(v@, pos as int, enc_metadata(y));
                        match y {
                            Option::None => {
                                assert((seq![0u8])[0] == 0u8);
                                assert(false);
                            },
                            Option::Some(md) => {
                                assert(enc_metadata(y) =~= seq![1u8] + (enc_u64(md.len() as u64)
                                    + enc_md_entries(md@)));
                                lemma_prefix_split(v@, pos as int, seq![1u8], enc_u64(
                                    md.len() as u64,
                                ) + enc_md_entries(md@));
                                lemma_prefix_split(v@, pos + 1 as int, enc_u64(md.len() as u64),
                                    enc_md_entries(md@));
                                assert(false);
                            },
                        }
                    }
                }
                assert(no_metadata_at(v@, pos as int));
                None
            },
            Option::Some((count, p1)) => {
                if count > (usize::MAX as u64) {
                    assert forall|y: Option<Metadata>| !is_prefix_at(
                        v@,
                        pos as int,
                        enc_metadata(y),
                    ) by {
                        if is_prefix_at(v@, pos as int, enc_metadata(y)) {
                            lemma_prefix_first(v@, pos as int, enc_metadata(y));
                            match y {
                                Option::None => {
                                    assert((seq![0u8])[0] == 0u8);
                                    assert(false);
                                },
                                Option::Some(md) => {
                                    assert(enc_metadata(y) =~= seq![1u8] + (enc_u64(
                                        md.len() as u64,
                                    ) + enc_md_entries(md@)));
                                    lemma_prefix_split(v@, pos as int, seq![1u8], enc_u64(
                                        md.len() as u64,
                                    ) + enc_md_entries(md@));
                                    lemma_prefix_split(v@, pos + 1 as int, enc_u64(
                                        md.len() as u64,
                                    ), enc_md_entries(md@));
                                    assert(md.len() as u64 == count);
                                    assert(md@.len() <= usize::MAX);
                                    assert(false);
                                },
                            }
                        }
                    }
                    assert(no_metadata_at(v@, pos as int));
                    return None;
                }
                let count_us = count as usize;
                let ghost epos = p1 as int;
                let mut out: Metadata = Vec::new();
                let mut cur: usize = p1;
                let mut i: usize = 0;
                let mut failed: bool = false;
                while i < count_us && !failed
                    invariant
                        0 <= i <= count_us,
                        count_us as u64 == count,
                        pos + 9 == epos,
                        epos <= cur <= v.len(),
                        !failed ==> out@.len() == i,
                        !failed ==> v@.subrange(epos, cur as int) == enc_md_entries(out@),
                        !failed ==> forall|mds: Seq<(Vec<u8>, Vec<u8>)>|
                            (mds.len() == count && is_prefix_at(v@, epos, enc_md_entries(mds)))
                                ==> cur == epos + enc_md_entries(mds.take(i as int)).len() && (
                            forall|j: int|
                                0 <= j < i ==> (#[trigger] mds[j]).0@ == out@[j].0@ && mds[j].1@
                                    == out@[j].1@),
                        failed ==> forall|mds: Seq<(Vec<u8>, Vec<u8>)>|
                            !(mds.len() == count && is_prefix_at(v@, epos, enc_md_entries(mds))),
                    decreases count_us - i, (if failed { 0int } else { 1int }),
                {
                    let k_r = decode_bytes_at(v, cur);
                    match k_r {
                        Option::None => {
                            assert forall|mds: Seq<(Vec<u8>, Vec<u8>)>|
                                !(mds.len() == count && is_prefix_at(v@, epos, enc_md_entries(
                                    mds,
                                ))) by {
                                if mds.len() == count && is_prefix_at(v@, epos, enc_md_entries(
                                    mds,
                                )) {
                                    lemma_enc_md_entries_split(mds, i as int);
                                    lemma_prefix_split(v@, epos, enc_md_entries(
                                        mds.take(i as int),
                                    ), enc_md_entries(mds.skip(i as int)));
                                    lemma_enc_md_entries_head(mds, i as int);
                                    lemma_prefix_split(v@, cur as int, enc_bytes(mds[i as int].0@),
                                        enc_bytes(mds[i as int].1@) + enc_md_entries(mds.skip(
                                        i + 1)));
                                    assert(false);
                                }
                            }
                            failed = true;
                        },
                        Option::Some((key, pk)) => {
                            let v_r = decode_bytes_at(v, pk);
                            match v_r {
                                Option::None => {
                                    assert forall|mds: Seq<(Vec<u8>, Vec<u8>)>|
                                        !(mds.len() == count && is_prefix_at(v@, epos,
                                            enc_md_entries(mds))) by {
                                        if mds.len() == count && is_prefix_at(v@, epos,
                                            enc_md_entries(mds)) {
                                            lemma_enc_md_entries_split(mds, i as int);
                                            lemma_prefix_split(v@, epos, enc_md_entries(
                                                mds.take(i as int),
                                            ), enc_md_entries(mds.skip(i as int)));
                                            lemma_enc_md_entries_head(mds, i as int);
                                            lemma_prefix_split(v@, cur as int, enc_bytes(
                                                mds[i as int].0@,
                                            ), enc_bytes(mds[i as int].1@) + enc_md_entries(
                                                mds.skip(i + 1)));
                                            lemma_prefix_split(v@, pk as int, enc_bytes(
                                                mds[i as int].1@,
                                            ), enc_md_entries(mds.skip(i + 1)));
                                            assert(false);
                                        }
                                    }
                                    failed = true;
                                },
                                Option::Some((val, pv)) => {
                                    assert forall|mds: Seq<(Vec<u8>, Vec<u8>)>|
                                        (mds.len() == count && is_prefix_at(v@, epos,
                                            enc_md_entries(mds))) implies pv == epos
                                        + enc_md_entries(mds.take(i + 1)).len() && mds[
                                    i as int].0@ == key@ && mds[i as int].1@ == val@ by {
                                        lemma_enc_md_entries_split(mds, i as int);
                                        lemma_prefix_split(v@, epos, enc_md_entries(
                                            mds.take(i as int),
                                        ), enc_md_entries(mds.skip(i as int)));
                                        lemma_enc_md_entries_head(mds, i as int);
                                        lemma_prefix_split(v@, cur as int, enc_bytes(
                                            mds[i as int].0@,
                                        ), enc_bytes(mds[i as int].1@) + enc_md_entries(
                                            mds.skip(i + 1)));
                                        lemma_prefix_split(v@, pk as int, enc_bytes(
                                            mds[i as int].1@,
                                        ), enc_md_entries(mds.skip(i + 1)));
                                        lemma_enc_md_entries_snoc(mds, i as int);
                                    }
                                    let ghost old_out = out@;
                                    out.push((key, val));
                                    proof {
                                        assert(out@.take(i as int) =~= old_out);
                                        lemma_enc_md_entries_snoc(out@, i as int);
                                        assert(out@.take(i + 1) =~= out@);
                                    }
                                    assert(v@.subrange(epos, pv as int) =~= enc_md_entries(
                                        old_out,
                                    ) + enc_bytes(key@) + enc_bytes(val@)) by {
                                        assert(v@.subrange(cur as int, pk as int) == enc_bytes(
                                            key@,
                                        ));
                                        assert(v@.subrange(pk as int, pv as int) == enc_bytes(
                                            val@,
                                        ));
                                    }
                                    assert(v@.subrange(epos, pv as int) == enc_md_entries(out@));
                                    cur = pv;
                                    i = i + 1;
                                },
                            }
                        },
                    }
                }
                if failed {
                    assert forall|y: Option<Metadata>| !is_prefix_at(
                        v@,
                        pos as int,
                        enc_metadata(y),
                    ) by {
                        if is_prefix_at(v@, pos as int, enc_metadata(y)) {
                            lemma_prefix_first(v@, pos as int, enc_metadata(y));
                            match y {
                                Option::None => {
                                    assert((seq![0u8])[0] == 0u8);
                                    assert(false);
                                },
                                Option::Some(md) => {
                                    assert(enc_metadata(y) =~= seq![1u8] + (enc_u64(
                                        md.len() as u64,
                                    ) + enc_md_entries(md@)));
                                    lemma_prefix_split(v@, pos as int, seq![1u8], enc_u64(
                                        md.len() as u64,
                                    ) + enc_md_entries(md@));
                                    lemma_prefix_split(v@, pos + 1 as int, enc_u64(
                                        md.len() as u64,
                                    ), enc_md_entries(md@));
                                    assert(md.len() as u64 == count);
                                    assert(md@.len() == count);
                                    assert(false);
                                },
                            }
                        }
                    }
                    assert(no_metadata_at(v@, pos as int));
                    None
                } else {
                    let m: Option<Metadata> = Some(out);
                    assert forall|y: Option<Metadata>| is_prefix_at(
                        v@,
                        pos as int,
                        enc_metadata(y),
                    ) implies md_eqv(m, y) && cur == pos + enc_metadata(y).len() by {
                        lemma_prefix_first(v@, pos as int, enc_metadata(y));
                        match y {
                            Option::None => {
                                assert((seq![0u8])[0] == 0u8);
                                assert(false);
                            },
                            Option::Some(md) => {
                                assert(enc_metadata(y) =~= seq![1u8] + (enc_u64(md.len() as u64)
                                    + enc_md_entries(md@)));
                                lemma_prefix_split(v@, pos as int, seq![1u8], enc_u64(
                                    md.len() as u64,
                                ) + enc_md_entries(md@));
                                lemma_prefix_split(v@, pos + 1 as int, enc_u64(md.len() as u64),
                                    enc_md_entries(md@));
                                assert(md.len() as u64 == count);
                                assert(md@.len() == count);
                                assert(md@.take(count_us as int) =~= md@);
                                assert(enc_metadata(y).len() == 9 + enc_md_entries(md@).len());
                            },
                        }
                    }
                    assert(metadata_parsed_at(v@, pos as int, m, cur as int));
                    let ghost mview = out@;
                    assert(v@.subrange(pos as int, cur as int) =~= seq![1u8] + enc_u64(count)
                        + enc_md_entries(mview)) by {
                        assert(v@.subrange(pos + 1 as int, p1 as int) == enc_u64(count));
                        assert(v@.subrange(epos, cur as int) == enc_md_entries(mview));
                    }
                    assert(enc_metadata(m) == seq![1u8] + enc_u64(count) + enc_md_entries(mview));
                    Some((m, cur))
                }
            },
        }
    } else {
        assert forall|y: Option<Metadata>| !is_prefix_at(v@, pos as int, enc_metadata(y)) by {
            if is_prefix_at(v@, pos as int, enc_metadata(y)) {
                lemma_prefix_first(v@, pos as int, enc_metadata(y));
                match y {
                    Option::None => {
                        assert((seq![0u8])[0] == 0u8);
                    },
                    Option::Some(md) => {
                        assert((seq![1u8] + enc_u64(md.len() as u64) + enc_md_entries(md@))[0]
                            == 1u8);
                    },
                }
            }
        }
        assert(no_metadata_at(v@, pos as int));
        None
    }
}

/// Decode a whole buffer as one account record.
#[verifier::rlimit(60)]
pub fn decode_account(v: &Vec<u8>) -> (r: Option<Account>)
    ensures
        r matches Some(a) ==> v@ == enc_account(a),
        r is None ==> forall|a: Account| v@ != enc_account(a),
        r matches Some(a2) ==> forall|a: Account| v@ == enc_account(a) ==> a == a2,
{
    proof {
        lemma_auto_spec_u64_to_from_le_bytes();
    }
    if v.len() == 0 {
        assert forall|a: Account| v@ != enc_account(a) by {
            assert(enc_account(a).len() >= 17);
        }
        return None;
    }
    let tag = v[0];
    if tag == 0 {
        if v.len() != 17 {
            assert forall|a: Account| v@ != enc_account(a) by {
                if v@ == enc_account(a) {
                    match a {
                        Account::Wallet { balance, nonce } => {
                            assert(enc_account(a).len() == 17);
                        },
                        Account::Contract { code_hash, storage_root_hash, nonce } => {
                            assert((seq![1u8] + code_hash@ + storage_root_hash@ + enc_u64(
                                nonce,
                            ))[0] == 1u8);
                            assert(v@[0] == 1u8);
                        },
                    }
                }
            }
            return None;
        }
        let balance = match decode_u64_at(v, 1) {
            Option::Some((x, _)) => x,
            Option::None => {
                proof {
                    assert(false);
                }
                0
            },
        };
        let nonce = match decode_u64_at(v, 9) {
            Option::Some((x, _)) => x,
            Option::None => {
                proof {
                    assert(false);
                }
                0
            },
        };
        let a2 = Account::Wallet { balance, nonce };
        assert(v@ =~= enc_account(a2)) by {
            assert(v@.subrange(1, 9) == enc_u64(balance));
            assert(v@.subrange(9, 17) == enc_u64(nonce));
        }
        assert forall|a: Account| v@ == enc_account(a) implies a == a2 by {
            match a {
                Account::Wallet { balance: b, nonce: n } => {
                    assert(enc_account(a) =~= seq![0u8] + (enc_u64(b) + enc_u64(n)));
                    lemma_self_prefix(v@);
                    lemma_prefix_split(v@, 0, seq![0u8], enc_u64(b) + enc_u64(n));
                    lemma_prefix_split(v@, 1, enc_u64(b), enc_u64(n));
                    assert(b == balance && n == nonce);
                },
                Account::Contract { code_hash, storage_root_hash, nonce: n } => {
                    assert((seq![1u8] + code_hash@ + storage_root_hash@ + enc_u64(n))[0] == 1u8);
                    assert(false);
                },
            }
        }
        Some(a2)
    } else if tag == 1 {
        if v.len() != 73 {
            assert forall|a: Account| v@ != enc_account(a) by {
                if v@ == enc_account(a) {
                    match a {
                        Account::Wallet { balance, nonce } => {
                            assert((seq![0u8] + enc_u64(balance) + enc_u64(nonce))[0] == 0u8);
                            assert(v@[0] == 0u8);
                        },
                        Account::Contract { code_hash, storage_root_hash, nonce } => {
                            assert(enc_account(a).len() == 73);
                        },
                    }
                }
            }
            return None;
        }
        let code_hash = match decode_array32_at(v, 1) {
            Option::Some((x, _)) => x,
            Option::None => {
                proof {
                    assert(false);
                }
                [0u8; 32]
            },
        };
        let storage_root_hash = match decode_array32_at(v, 33) {
            Option::Some((x, _)) => x,
            Option::None => {
                proof {
                    assert(false);
                }
                [0u8; 32]
            },
        };
        let nonce = match decode_u64_at(v, 65) {
            Option::Some((x, _)) => x,
            Option::None => {
                proof {
                    assert(false);
                }
                0
            },
        };
        let a2 = Account::Contract { code_hash, storage_root_hash, nonce };
        assert(v@ =~= enc_account(a2)) by {
            assert(v@.subrange(1, 33) == code_hash@);
            assert(v@.subrange(33, 65) == storage_root_hash@);
            assert(v@.subrange(65, 73) == enc_u64(nonce));
        }
        assert forall|a: Account| v@ == enc_account(a) implies a == a2 by {
            match a {
                Account::Contract { code_hash: c, storage_root_hash: s, nonce: n } => {
                    assert(enc_account(a) =~= seq![1u8] + (c@ + (s@ + enc_u64(n))));
                    lemma_self_prefix(v@);
                    lemma_prefix_split(v@, 0, seq![1u8], c@ + (s@ + enc_u64(n)));
                    lemma_prefix_split(v@, 1, c@, s@ + enc_u64(n));
                    lemma_prefix_split(v@, 33, s@, enc_u64(n));
                    assert(v@.subrange(1, 33) == c@);
                    assert(v@.subrange(33, 65) == s@);
                    assert(v@.subrange(65, 73) == enc_u64(n));
                    assert(c@ =~= code_hash@);
                    assert(s@ =~= storage_root_hash@);
                    assert(c == code_hash && s == storage_root_hash && n == nonce);
                },
                Account::Wallet { balance, nonce: n } => {
                    assert((seq![0u8] + enc_u64(balance) + enc_u64(n))[0] == 0u8);
                    assert(false);
                },
            }
        }
        Some(a2)
    } else {
        assert forall|a: Account| v@ != enc_account(a) by {
            if v@ == enc_account(a) {
                match a {
                    Account::Wallet { balance, nonce } => {
                        assert((seq![0u8] + enc_u64(balance) + enc_u64(nonce))[0] == 0u8);
                        assert(v@[0] == 0u8);
                    },
                    Account::Contract { code_hash, storage_root_hash, nonce } => {
                        assert((seq![1u8] + code_hash@ + storage_root_hash@ + enc_u64(nonce))[0]
                            == 1u8);
                        assert(v@[0] == 1u8);
                    },
                }
            }
        }
        None
    }
}

/// Decode a whole buffer as the chain-state summary.
pub fn decode_chain_state(v: &Vec<u8>) -> (r: Option<ChainState>)
    ensures
        r matches Some(c) ==> v@ == enc_chain_state(c),
        r is None ==> forall|c: ChainState| v@ != enc_chain_state(c),
        r matches Some(c2) ==> forall|c: ChainState| v@ == enc_chain_state(c) ==> c == c2,
{
    proof {
        lemma_auto_spec_u64_to_from_le_bytes();
    }
    if v.len() != 80 {
        assert forall|c: ChainState| v@ != enc_chain_state(c) by {
            assert(enc_chain_state(c).len() == 80);
        }
        return None;
    }
    let latest_block_hash = match decode_array32_at(v, 0) {
        Option::Some((x, _)) => x,
        Option::None => {
            proof {
                assert(false);
            }
            [0u8; 32]
        },
    };
    let latest_block_index = match decode_u64_at(v, 32) {
        Option::Some((x, _)) => x,
        Option::None => {
            proof {
                assert(false);
            }
            0
        },
    };
    let accounts_root_hash = match decode_array32_at(v, 40) {
        Option::Some((x, _)) => x,
        Option::None => {
            proof {
                assert(false);
            }
            [0u8; 32]
        },
    };
    let total_supply = match decode_u64_at(v, 72) {
        Option::Some((x, _)) => x,
        Option::None => {
            proof {
                assert(false);
            }
            0
        },
    };
    let c2 = ChainState { latest_block_hash, latest_block_index, accounts_root_hash, total_supply };
    assert(v@ =~= enc_chain_state(c2)) by {
        assert(v@.subrange(0, 32) == latest_block_hash@);
        assert(v@.subrange(32, 40) == enc_u64(latest_block_index));
        assert(v@.subrange(40, 72) == accounts_root_hash@);
        assert(v@.subrange(72, 80) == enc_u64(total_supply));
    }
    assert forall|c: ChainState| v@ == enc_chain_state(c) implies c == c2 by {
        assert(enc_chain_state(c) =~= c.latest_block_hash@ + (enc_u64(c.latest_block_index) + (
        c.accounts_root_hash@ + enc_u64(c.total_supply))));
        lemma_self_prefix(v@);
        lemma_prefix_split(v@, 0, c.latest_block_hash@, enc_u64(c.latest_block_index) + (
        c.accounts_root_hash@ + enc_u64(c.total_supply)));
        lemma_prefix_split(v@, 32, enc_u64(c.latest_block_index), c.accounts_root_hash@ + enc_u64(
            c.total_supply,
        ));
        lemma_prefix_split(v@, 40, c.accounts_root_hash@, enc_u64(c.total_supply));
        assert(v@.subrange(0, 32) == c.latest_block_hash@);
        assert(v@.subrange(40, 72) == c.accounts_root_hash@);
        assert(c.latest_block_hash@ =~= latest_block_hash@);
        assert(c.accounts_root_hash@ =~= accounts_root_hash@);
        assert(c.latest_block_hash == latest_block_hash);
        assert(c.accounts_root_hash == accounts_root_hash);
    }
    Some(c2)
}

/// Two transaction sequences agree pairwise under [`tx_eqv`].
pub open spec fn txs_eqv(a: Seq<Transaction>, b: Seq<Transaction>) -> bool {
    a.len() == b.len() && (forall|i: int| 0 <= i < a.len() ==> tx_eqv(#[trigger] a[i], b[i]))
}

/// No transaction encoding occurs at position `i` of `s`.
pub open spec fn no_tx_at(s: Seq<u8>, i: int) -> bool {
    forall|t: Transaction| !is_prefix_at(s, i, #[trigger] enc_tx(t))
}

/// Any transaction whose encoding occurs at position `i` of `s` has the
/// contents of `t2`, and its encoding ends at `p2`.
pub open spec fn tx_parsed_at(s: Seq<u8>, i: int, t2: Transaction, p2: int) -> bool {
    forall|t: Transaction|
        is_prefix_at(s, i, #[trigger] enc_tx(t)) ==> tx_eqv(t2, t) && p2 == i + enc_tx(t).len()
}

/// A transaction encoding at a position places each field at its
/// offset.
proof fn lemma_tx_fields_at(s: Seq<u8>, i: int, t: Transaction)
    requires
        is_prefix_at(s, i, enc_tx(t)),
    ensures
        is_prefix_at(s, i, t.hash@),
        is_prefix_at(s, i + 32, t.sender.bytes@),
        is_prefix_at(s, i + 64, enc_u64(t.nonce)),
        is_prefix_at(s, i + 72, enc_u64(t.timestamp)),
        is_prefix_at(s, i + 80, enc_address(t.recipient)),
        is_prefix_at(s, i + 80 + enc_address(t.recipient).len(), enc_payload(t.payload)),
        is_prefix_at(
            s,
            i + 80 + enc_address(t.recipient).len() + enc_payload(t.payload).len(),
            t.signature.bytes@,
        ),
        is_prefix_at(
            s,
            i + 144 + enc_address(t.recipient).len() + enc_payload(t.payload).len(),
            enc_u64(t.gas_limit),
        ),
        is_prefix_at(
            s,
            i + 152 + enc_address(t.recipient).len() + enc_payload(t.payload).len(),
            seq![t.priority],
        ),
        is_prefix_at(
            s,
            i + 153 + enc_address(t.recipient).len() + enc_payload(t.payload).len(),
            enc_metadata(t.metadata),
        ),
        enc_tx(t).len() == 153 + enc_address(t.recipient).len() + enc_payload(t.payload).len()
            + enc_metadata(t.metadata).len(),
{
    lemma_auto_spec_u64_to_from_le_bytes();
    let alen = enc_address(t.recipient).len() as int;
    let plen = enc_payload(t.payload).len() as int;
    let rest9 = enc_metadata(t.metadata);
    let rest8 = seq![t.priority] + rest9;
    let rest7 = enc_u64(t.gas_limit) + rest8;
    let rest6 = t.signature.bytes@ + rest7;
    let rest5 = enc_payload(t.payload) + rest6;
    let rest4 = enc_address(t.recipient) + rest5;
    let rest3 = enc_u64(t.timestamp) + rest4;
    let rest2 = enc_u64(t.nonce) + rest3;
    let rest1 = t.sender.bytes@ + rest2;
    assert(enc_tx(t) =~= t.hash@ + rest1);
    lemma_prefix_split(s, i, t.hash@, rest1);
    lemma_prefix_split(s, i + 32, t.sender.bytes@, rest2);
    lemma_prefix_split(s, i + 64, enc_u64(t.nonce), rest3);
    lemma_prefix_split(s, i + 72, enc_u64(t.timestamp), rest4);
    lemma_prefix_split(s, i + 80, enc_address(t.recipient), rest5);
    lemma_prefix_split(s, i + 80 + alen, enc_payload(t.payload), rest6);
    lemma_prefix_split(s, i + 80 + alen + plen, t.signature.bytes@, rest7);
    lemma_prefix_split(s, i + 144 + alen + plen, enc_u64(t.gas_limit), rest8);
    lemma_prefix_split(s, i + 152 + alen + plen, seq![t.priority], rest9);
}

/// Read one full transaction encoding.
#[verifier::rlimit(100)]
#[verifier::spinoff_prover]
pub fn decode_tx_at(v: &Vec<u8>, pos: usize) -> (r: Option<(Transaction, usize)>)
    ensures
        r matches Some((t, p)) ==> pos <= p <= v@.len() && v@.subrange(pos as int, p as int)
            == enc_tx(t),
        r is None ==> no_tx_at(v@, pos as int),
        r matches Some((t2, p2)) ==> tx_parsed_at(v@, pos as int, t2, p2 as int),
{
    let hash_r = decode_array32_at(v, pos);
    let hash = match hash_r {
        Option::Some((x, _)) => x,
        Option::None => {
            assert forall|t: Transaction| !is_prefix_at(v@, pos as int, enc_tx(t)) by {
                if is_prefix_at(v@, pos as int, enc_tx(t)) {
                    lemma_tx_fields_at(v@, pos as int, t);
                }
            }
            assert(no_tx_at(v@, pos as int));
            return None;
        },
    };
    let sender_r = decode_array32_at(v, pos + 32);
    let sender_bytes = match sender_r {
        Option::Some((x, _)) => x,
        Option::None => {
            assert forall|t: Transaction| !is_prefix_at(v@, pos as int, enc_tx(t)) by {
                if is_prefix_at(v@, pos as int, enc_tx(t)) {
                    lemma_tx_fields_at(v@, pos as int, t);
                }
            }
            assert(no_tx_at(v@, pos as int));
            return None;
        },
    };
    let nonce_r = decode_u64_at(v, pos + 64);
    let nonce = match nonce_r {
        Option::Some((x, _)) => x,
        Option::None => {
            assert forall|t: Transaction| !is_prefix_at(v@, pos as int, enc_tx(t)) by {
                if is_prefix_at(v@, pos as int, enc_tx(t)) {
                    lemma_tx_fields_at(v@, pos as int, t);
                }
            }
            assert(no_tx_at(v@, pos as int));
            return None;
        },
    };
    let ts_r = decode_u64_at(v, pos + 72);
    let timestamp = match ts_r {
        Option::Some((x, _)) => x,
        Option::None => {
            assert forall|t: Transaction| !is_prefix_at(v@, pos as int, enc_tx(t)) by {
                if is_prefix_at(v@, pos as int, enc_tx(t)) {
                    lemma_tx_fields_at(v@, pos as int, t);
                }
            }
            assert(no_tx_at(v@, pos as int));
            return None;
        },
    };
    let addr_r = decode_address_at(v, pos + 80);
    let (recipient, pa) = match addr_r {
        Option::Some(x) => x,
        Option::None => {
            assert forall|t: Transaction| !is_prefix_at(v@, pos as int, enc_tx(t)) by {
                if is_prefix_at(v@, pos as int, enc_tx(t)) {
                    lemma_tx_fields_at(v@, pos as int, t);
                }
            }
            assert(no_tx_at(v@, pos as int));
            return None;
        },
    };
    let pay_r = decode_payload_at(v, pa);
    let (payload, pp) = match pay_r {
        Option::Some(x) => x,
        Option::None => {
            assert forall|t: Transaction| !is_prefix_at(v@, pos as int, enc_tx(t)) by {
                if is_prefix_at(v@, pos as int, enc_tx(t)) {
                    lemma_tx_fields_at(v@, pos as int, t);
                    assert(pa == pos + 80 + enc_address(t.recipient).len());
                }
            }
            assert(no_tx_at(v@, pos as int));
            return None;
        },
    };
    let sig_r = decode_array64_at(v, pp);
    let sig_bytes = match sig_r {
        Option::Some((x, _)) => x,
        Option::None => {
            assert forall|t: Transaction| !is_prefix_at(v@, pos as int, enc_tx(t)) by {
                if is_prefix_at(v@, pos as int, enc_tx(t)) {
                    lemma_tx_fields_at(v@, pos as int, t);
                    assert(pa == pos + 80 + enc_address(t.recipient).len());
                    assert(pp == pa + enc_payload(t.payload).len());
                }
            }
            assert(no_tx_at(v@, pos as int));
            return None;
        },
    };
    let gas_r = decode_u64_at(v, pp + 64);
    let gas_limit = match gas_r {
        Option::Some((x, _)) => x,
        Option::None => {
            assert forall|t: Transaction| !is_prefix_at(v@, pos as int, enc_tx(t)) by {
                if is_prefix_at(v@, pos as int, enc_tx(t)) {
                    lemma_tx_fields_at(v@, pos as int, t);
                    assert(pa == pos + 80 + enc_address(t.recipient).len());
                    assert(pp == pa + enc_payload(t.payload).len());
                }
            }
            assert(no_tx_at(v@, pos as int));
            return None;
        },
    };
    if pp + 72 >= v.len() {
        assert forall|t: Transaction| !is_prefix_at(v@, pos as int, enc_tx(t)) by {
            if is_prefix_at(v@, pos as int, enc_tx(t)) {
                lemma_tx_fields_at(v@, pos as int, t);
                assert(pa == pos + 80 + enc_address(t.recipient).len());
                assert(pp == pa + enc_payload(t.payload).len());
            }
        }
        assert(no_tx_at(v@, pos as int));
        return None;
    }
    let priority = v[pp + 72];
    let md_r = decode_metadata_at(v, pp + 73);
    let (metadata, pm) = match md_r {
        Option::Some(x) => x,
        Option::None => {
            assert forall|t: Transaction| !is_prefix_at(v@, pos as int, enc_tx(t)) by {
                if is_prefix_at(v@, pos as int, enc_tx(t)) {
                    lemma_tx_fields_at(v@, pos as int, t);
                    assert(pa == pos + 80 + enc_address(t.recipient).len());
                    assert(pp == pa + enc_payload(t.payload).len());
                }
            }
            assert(no_tx_at(v@, pos as int));
            return None;
        },
    };
    let t2 = Transaction {
        hash,
        sender: PublicKey { bytes: sender_bytes },
        nonce,
        timestamp,
        recipient,
        payload,
        signature: TransactionSignature { bytes: sig_bytes },
        gas_limit,
        priority,
        metadata,
    };
    assert(v@.subrange(pos as int, pm as int) =~= enc_tx(t2)) by {
        assert(v@.subrange(pos as int, pos + 32 as int) == hash@);
        assert(v@.subrange(pos + 32 as int, pos + 64 as int) == sender_bytes@);
        assert(v@.subrange(pos + 64 as int, pos + 72 as int) == enc_u64(nonce));
        assert(v@.subrange(pos + 72 as int, pos + 80 as int) == enc_u64(timestamp));
        assert(v@.subrange(pos + 80 as int, pa as int) == enc_address(recipient));
        assert(v@.subrange(pa as int, pp as int) == enc_payload(payload));
        assert(v@.subrange(pp as int, pp + 64 as int) == sig_bytes@);
        assert(v@.subrange(pp + 64 as int, pp + 72 as int) == enc_u64(gas_limit));
        assert(v@.subrange(pp + 72 as int, pp + 73 as int) =~= seq![priority]);
        assert(v@.subrange(pp + 73 as int, pm as int) == enc_metadata(metadata));
    }
    assert forall|t: Transaction| is_prefix_at(v@, pos as int, enc_tx(t)) implies tx_eqv(t2, t)
        && pm == pos + enc_tx(t).len() by {
        lemma_tx_fields_at(v@, pos as int, t);
        assert(t.hash == hash);
        assert(t.sender.bytes == sender_bytes);
        assert(t.sender == PublicKey { bytes: sender_bytes });
        assert(pa == pos + 80 + enc_address(t.recipient).len());
        assert(t.recipient == recipient);
        assert(pp == pa + enc_payload(t.payload).len());
        assert(payload_eqv(payload, t.payload));
        assert(t.signature.bytes == sig_bytes);
        assert(t.signature == TransactionSignature { bytes: sig_bytes });
        assert(is_prefix_at(v@, pp + 72 as int, seq![t.priority]));
        lemma_prefix_first(v@, pp + 72 as int, seq![t.priority]);
        assert(t.priority == priority);
        assert(md_eqv(metadata, t.metadata));
        assert(pm == pp + 73 + enc_metadata(t.metadata).len());
    }
    assert(tx_parsed_at(v@, pos as int, t2, pm as int));
    Some((t2, pm))
}

/// The encoding of a transaction-sequence prefix splits at any point.
proof fn lemma_enc_tx_seq_split(s: Seq<Transaction>, k: int)
    requires
        0 <= k <= s.len(),
    ensures
        enc_tx_seq(s) == enc_tx_seq(s.take(k)) + enc_tx_seq(s.skip(k)),
    decreases k,
{
    if k == 0 {
        assert(s.take(0).len() == 0);
        assert(s.skip(0) =~= s);
        assert(enc_tx_seq(s) =~= enc_tx_seq(s.take(0)) + enc_tx_seq(s.skip(0)));
    } else {
        lemma_enc_tx_seq_split(s, k - 1);
        lemma_enc_tx_seq_snoc(s, k - 1);
        let rest = s.skip(k - 1);
        assert(rest.len() > 0);
        assert(rest[0] == s[k - 1]);
        assert(rest.drop_first() =~= s.skip(k));
        assert(enc_tx_seq(rest) == enc_tx(s[k - 1]) + enc_tx_seq(s.skip(k)));
        assert(enc_tx_seq(s) =~= enc_tx_seq(s.take(k)) + enc_tx_seq(s.skip(k)));
    }
}

/// One transaction heads the encoding of the transactions from `k` on.
proof fn lemma_enc_tx_seq_head(s: Seq<Transaction>, k: int)
    requires
        0 <= k < s.len(),
    ensures
        enc_tx_seq(s.skip(k)) == enc_tx(s[k]) + enc_tx_seq(s.skip(k + 1)),
{
    let rest = s.skip(k);
    assert(rest.len() > 0);
    assert(rest[0] == s[k]);
    assert(rest.drop_first() =~= s.skip(k + 1));
}

/// No counted transaction-list encoding occurs at position `i` of `s`.
pub open spec fn no_txlist_at(s: Seq<u8>, i: int) -> bool {
    forall|ts: Seq<Transaction>| !is_prefix_at(s, i, #[trigger] enc_tx_list(ts))
}

/// Any transaction list whose encoding occurs at position `i` of `s`
/// has the contents of `ts2`, and its encoding ends at `p2`.
pub open spec fn txlist_parsed_at(s: Seq<u8>, i: int, ts2: Seq<Transaction>, p2: int) -> bool {
    forall|ts: Seq<Transaction>|
        is_prefix_at(s, i, #[trigger] enc_tx_list(ts)) ==> txs_eqv(ts2, ts) && p2 == i
            + enc_tx_list(ts).len()
}

/// Read one counted transaction list.
#[verifier::rlimit(100)]
#[verifier::spinoff_prover]
pub fn decode_tx_list_at(v: &Vec<u8>, pos: usize) -> (r: Option<(Vec<Transaction>, usize)>)
    ensures
        r matches Some((ts, p)) ==> pos <= p <= v@.len() && v@.subrange(pos as int, p as int)
            == enc_tx_list(ts@),
        r is None ==> no_txlist_at(v@, pos as int),
        r matches Some((ts2, p2)) ==> txlist_parsed_at(v@, pos as int, ts2@, p2 as int),
{
    proof {
        lemma_auto_spec_u64_to_from_le_bytes();
    }
    let count_r = decode_u64_at(v, pos);
    let (count, p1) = match count_r {
        Option::Some(x) => x,
        Option::None => {
            assert forall|ts: Seq<Transaction>| !is_prefix_at(v@, pos as int, enc_tx_list(ts)) by {
                if is_prefix_at(v@, pos as int, enc_tx_list(ts)) {
                    lemma_prefix_split(v@, pos as int, enc_u64(ts.len() as u64), enc_tx_seq(ts));
                }
            }
            assert(no_txlist_at(v@, pos as int));
            return None;
        },
    };
    if count > (usize::MAX as u64) {
        assert forall|ts: Seq<Transaction>| !is_prefix_at(v@, pos as int, enc_tx_list(ts)) by {
            if is_prefix_at(v@, pos as int, enc_tx_list(ts)) {
                lemma_prefix_split(v@, pos as int, enc_u64(ts.len() as u64), enc_tx_seq(ts));
                assert(ts.len() as u64 == count);
                assert(v.len() == v@.len());
                lemma_enc_tx_seq_len(ts);
                assert(false);
            }
        }
        assert(no_txlist_at(v@, pos as int));
        return None;
    }
    let count_us = count as usize;
    let ghost epos = p1 as int;
    let mut out: Vec<Transaction> = Vec::new();
    let mut cur: usize = p1;
    let mut i: usize = 0;
    let mut failed: bool = false;
    while i < count_us && !failed
        invariant
            0 <= i <= count_us,
            count_us as u64 == count,
            pos + 8 == epos,
            epos <= cur <= v.len(),
            !failed ==> out@.len() == i,
            !failed ==> v@.subrange(epos, cur as int) == enc_tx_seq(out@),
            !failed ==> forall|ts: Seq<Transaction>|
                #![trigger enc_tx_seq(ts)]
                (ts.len() == count && is_prefix_at(v@, epos, enc_tx_seq(ts))) ==> cur == epos
                    + enc_tx_seq(ts.take(i as int)).len() && (forall|j: int|
                    0 <= j < i ==> tx_eqv(out@[j], #[trigger] ts[j])),
            failed ==> forall|ts: Seq<Transaction>|
                #![trigger enc_tx_seq(ts)]
                !(ts.len() == count && is_prefix_at(v@, epos, enc_tx_seq(ts))),
        decreases count_us - i, (if failed { 0int } else { 1int }),
    {
        let t_r = decode_tx_at(v, cur);
        match t_r {
            Option::None => {
                assert forall|ts: Seq<Transaction>|
                    #![trigger enc_tx_seq(ts)]
                    !(ts.len() == count && is_prefix_at(v@, epos, enc_tx_seq(ts))) by {
                    if ts.len() == count && is_prefix_at(v@, epos, enc_tx_seq(ts)) {
                        lemma_enc_tx_seq_split(ts, i as int);
                        lemma_prefix_split(v@, epos, enc_tx_seq(ts.take(i as int)), enc_tx_seq(
                            ts.skip(i as int),
                        ));
                        lemma_enc_tx_seq_head(ts, i as int);
                        lemma_prefix_split(v@, cur as int, enc_tx(ts[i as int]), enc_tx_seq(
                            ts.skip(i + 1),
                        ));
                        assert(false);
                    }
                }
                failed = true;
            },
            Option::Some((t, pt)) => {
                assert forall|ts: Seq<Transaction>|
                    #![trigger enc_tx_seq(ts)]
                    (ts.len() == count && is_prefix_at(v@, epos, enc_tx_seq(ts))) implies pt
                    == epos + enc_tx_seq(ts.take(i + 1)).len() && tx_eqv(t, ts[i as int]) by {
                    lemma_enc_tx_seq_split(ts, i as int);
                    lemma_prefix_split(v@, epos, enc_tx_seq(ts.take(i as int)), enc_tx_seq(
                        ts.skip(i as int),
                    ));
                    lemma_enc_tx_seq_head(ts, i as int);
                    lemma_prefix_split(v@, cur as int, enc_tx(ts[i as int]), enc_tx_seq(ts.skip(
                        i + 1,
                    )));
                    lemma_enc_tx_seq_snoc(ts, i as int);
                }
                let ghost old_out = out@;
                out.push(t);
                proof {
                    assert(out@.take(i as int) =~= old_out);
                    lemma_enc_tx_seq_snoc(out@, i as int);
                    assert(out@.take(i + 1) =~= out@);
                }
                assert(v@.subrange(epos, pt as int) =~= enc_tx_seq(old_out) + enc_tx(
                    out@[i as int],
                )) by {
                    assert(v@.subrange(cur as int, pt as int) == enc_tx(out@[i as int]));
                }
                assert(v@.subrange(epos, pt as int) == enc_tx_seq(out@));
                cur = pt;
                i = i + 1;
            },
        }
    }
    if failed {
        assert forall|ts: Seq<Transaction>| !is_prefix_at(v@, pos as int, enc_tx_list(ts)) by {
            if is_prefix_at(v@, pos as int, enc_tx_list(ts)) {
                lemma_prefix_split(v@, pos as int, enc_u64(ts.len() as u64), enc_tx_seq(ts));
                assert(ts.len() as u64 == count);
                lemma_enc_tx_seq_len(ts);
                assert(ts.len() == count);
                assert(false);
            }
        }
        assert(no_txlist_at(v@, pos as int));
        None
    } else {
        assert forall|ts: Seq<Transaction>| is_prefix_at(v@, pos as int, enc_tx_list(ts))
            implies txs_eqv(out@, ts) && cur == pos + enc_tx_list(ts).len() by {
            lemma_prefix_split(v@, pos as int, enc_u64(ts.len() as u64), enc_tx_seq(ts));
            assert(ts.len() as u64 == count);
            lemma_enc_tx_seq_len(ts);
            assert(ts.len() == count);
            assert(ts.take(count_us as int) =~= ts);
        }
        assert(txlist_parsed_at(v@, pos as int, out@, cur as int));
        let ghost oview = out@;
        assert(v@.subrange(pos as int, cur as int) =~= enc_tx_list(oview)) by {
            assert(v@.subrange(pos as int, epos) == enc_u64(count));
            assert(v@.subrange(epos, cur as int) == enc_tx_seq(oview));
            assert(oview.len() as u64 == count);
        }
        Some((out, cur))
    }
}

/// A transaction sequence of bounded length fits in memory.
proof fn lemma_enc_tx_seq_len(s: Seq<Transaction>)
    ensures
        enc_tx_seq(s).len() >= s.len(),
    decreases s.len(),
{
    if s.len() > 0 {
        lemma_enc_tx_seq_len(s.drop_first());
        lemma_auto_spec_u64_to_from_le_bytes();
        assert(enc_tx(s[0]).len() >= 1) by {
            assert(enc_tx(s[0]).len() >= s[0].hash@.len());
        }
    }
}

/// No full-buffer block encoding matches `s`.
pub open spec fn no_block_full(s: Seq<u8>) -> bool {
    forall|b: Block| s != #[trigger] enc_block(b)
}

/// Any block whose encoding is exactly `s` has the contents of `b2`.
pub open spec fn block_full_parsed(s: Seq<u8>, b2: Block) -> bool {
    forall|b: Block| s == #[trigger] enc_block(b) ==> block_eqv(b2, b)
}

/// A block encoding at a position places each field at its offset.
proof fn lemma_block_fields(s: Seq<u8>, b: Block)
    requires
        s == enc_block(b),
    ensures
        is_prefix_at(s, 0, enc_u64(b.index)),
        is_prefix_at(s, 8, enc_u64(b.timestamp)),
        is_prefix_at(s, 16, b.prev_hash@),
        is_prefix_at(s, 48, b.hash@),
        is_prefix_at(s, 80, enc_u64(b.nonce)),
        is_prefix_at(s, 88, enc_tx_list(b.transactions@)),
        is_prefix_at(s, 88 + enc_tx_list(b.transactions@).len() as int, enc_metadata(b.metadata)),
        enc_block(b).len() == 88 + enc_tx_list(b.transactions@).len() + enc_metadata(
            b.metadata,
        ).len(),
{
    lemma_auto_spec_u64_to_from_le_bytes();
    let rest6 = enc_metadata(b.metadata);
    let rest5 = enc_tx_list(b.transactions@) + rest6;
    let rest4 = enc_u64(b.nonce) + rest5;
    let rest3 = b.hash@ + rest4;
    let rest2 = b.prev_hash@ + rest3;
    let rest1 = enc_u64(b.timestamp) + rest2;
    assert(enc_block(b) =~= enc_u64(b.index) + rest1);
    lemma_self_prefix(s);
    lemma_prefix_split(s, 0, enc_u64(b.index), rest1);
    lemma_prefix_split(s, 8, enc_u64(b.timestamp), rest2);
    lemma_prefix_split(s, 16, b.prev_hash@, rest3);
    lemma_prefix_split(s, 48, b.hash@, rest4);
    lemma_prefix_split(s, 80, enc_u64(b.nonce), rest5);
    lemma_prefix_split(s, 88, enc_tx_list(b.transactions@), rest6);
}

/// Decode a whole buffer as one block.
#[verifier::rlimit(100)]
#[verifier::spinoff_prover]
pub fn decode_block(v: &Vec<u8>) -> (r: Option<Block>)
    ensures
        r matches Some(b) ==> v@ == enc_block(b),
        r is None ==> no_block_full(v@),
        r matches Some(b2) ==> block_full_parsed(v@, b2),
{
    proof {
        lemma_auto_spec_u64_to_from_le_bytes();
    }
    let index_r = decode_u64_at(v, 0);
    let index = match index_r {
        Option::Some((x, _)) => x,
        Option::None => {
            assert forall|b: Block| v@ != enc_block(b) by {
                if v@ == enc_block(b) {
                    lemma_block_fields(v@, b);
                }
            }
            assert(no_block_full(v@));
            return None;
        },
    };
    let ts_r = decode_u64_at(v, 8);
    let timestamp = match ts_r {
        Option::Some((x, _)) => x,
        Option::None => {
            assert forall|b: Block| v@ != enc_block(b) by {
                if v@ == enc_block(b) {
                    lemma_block_fields(v@, b);
                }
            }
            assert(no_block_full(v@));
            return None;
        },
    };
    let prev_r = decode_array32_at(v, 16);
    let prev_hash = match prev_r {
        Option::Some((x, _)) => x,
        Option::None => {
            assert forall|b: Block| v@ != enc_block(b) by {
                if v@ == enc_block(b) {
                    lemma_block_fields(v@, b);
                }
            }
            assert(no_block_full(v@));
            return None;
        },
    };
    let hash_r = decode_array32_at(v, 48);
    let hash = match hash_r {
        Option::Some((x, _)) => x,
        Option::None => {
            assert forall|b: Block| v@ != enc_block(b) by {
                if v@ == enc_block(b) {
                    lemma_block_fields(v@, b);
                }
            }
            assert(no_block_full(v@));
            return None;
        },
    };
    let nonce_r = decode_u64_at(v, 80);
    let nonce = match nonce_r {
        Option::Some((x, _)) => x,
        Option::None => {
            assert forall|b: Block| v@ != enc_block(b) by {
                if v@ == enc_block(b) {
                    lemma_block_fields(v@, b);
                }
            }
            assert(no_block_full(v@));
            return None;
        },
    };
    let txs_r = decode_tx_list_at(v, 88);
    let (transactions, pt) = match txs_r {
        Option::Some(x) => x,
        Option::None => {
            assert forall|b: Block| v@ != enc_block(b) by {
                if v@ == enc_block(b) {
                    lemma_block_fields(v@, b);
                }
            }
            assert(no_block_full(v@));
            return None;
        },
    };
    let md_r = decode_metadata_at(v, pt);
    let (metadata, pm) = match md_r {
        Option::Some(x) => x,
        Option::None => {
            assert forall|b: Block| v@ != enc_block(b) by {
                if v@ == enc_block(b) {
                    lemma_block_fields(v@, b);
                    assert(pt == 88 + enc_tx_list(b.transactions@).len());
                }
            }
            assert(no_block_full(v@));
            return None;
        },
    };
    if pm != v.len() {
        assert forall|b: Block| v@ != enc_block(b) by {
            if v@ == enc_block(b) {
                lemma_block_fields(v@, b);
                assert(pt == 88 + enc_tx_list(b.transactions@).len());
                assert(pm == pt + enc_metadata(b.metadata).len());
            }
        }
        assert(no_block_full(v@));
        return None;
    }
    let b2 = Block { index, timestamp, prev_hash, hash, nonce, transactions, metadata };
    assert(v@ =~= enc_block(b2)) by {
        assert(v@.subrange(0, 8) == enc_u64(index));
        assert(v@.subrange(8, 16) == enc_u64(timestamp));
        assert(v@.subrange(16, 48) == prev_hash@);
        assert(v@.subrange(48, 80) == hash@);
        assert(v@.subrange(80, 88) == enc_u64(nonce));
        assert(v@.subrange(88, pt as int) == enc_tx_list(b2.transactions@));
        assert(v@.subrange(pt as int, pm as int) == enc_metadata(metadata));
    }
    assert forall|b: Block| v@ == enc_block(b) implies block_eqv(b2, b) by {
        lemma_block_fields(v@, b);
        assert(b.index == index);
        assert(b.timestamp == timestamp);
        assert(b.prev_hash == prev_hash);
        assert(b.hash == hash);
        assert(b.nonce == nonce);
        assert(txs_eqv(transactions@, b.transactions@));
        assert(pt == 88 + enc_tx_list(b.transactions@).len());
        assert(md_eqv(metadata, b.metadata));
    }
    assert(block_full_parsed(v@, b2));
    Some(b2)
}

/// Decode a whole buffer as one transaction.
pub fn decode_tx(v: &Vec<u8>) -> (r: Option<Transaction>)
    ensures
        r matches Some(t) ==> v@ == enc_tx(t),
        r is None ==> forall|t: Transaction| v@ != #[trigger] enc_tx(t),
        r matches Some(t2) ==> forall|t: Transaction| v@ == #[trigger] enc_tx(t) ==> tx_eqv(t2, t),
{
    match decode_tx_at(v, 0) {
        Option::Some((t, p)) => {
            if p == v.len() {
                assert(v@.subrange(0, p as int) =~= v@);
                assert forall|t0: Transaction| v@ == enc_tx(t0) implies tx_eqv(t, t0) by {
                    lemma_self_prefix(v@);
                }
                Some(t)
            } else {
                assert forall|t0: Transaction| v@ != enc_tx(t0) by {
                    if v@ == enc_tx(t0) {
                        lemma_self_prefix(v@);
                    }
                }
                None
            }
        },
        Option::None => {
            assert forall|t0: Transaction| v@ != enc_tx(t0) by {
                if v@ == enc_tx(t0) {
                    lemma_self_prefix(v@);
                }
            }
            None
        },
    }
}

// ------------------------------------------------------------------
// Congruence: the canonical encoding depends only on the views of the
// byte vectors inside a value, so equivalent values encode equally.
// ------------------------------------------------------------------

/// Payloads with the same variant and contents encode equally.
pub proof fn lemma_enc_payload_eqv(a: TransactionPayload, b: TransactionPayload)
    requires
        payload_eqv(a, b),
    ensures
        enc_payload(a) == enc_payload(b),
{
}

/// Metadata entry sequences with pairwise equal views encode equally.
pub proof fn lemma_enc_md_entries_eqv(a: Seq<(Vec<u8>, Vec<u8>)>, b: Seq<(Vec<u8>, Vec<u8>)>)
    requires
        a.len() == b.len(),
        forall|i: int| 0 <= i < a.len() ==> (#[trigger] a[i]).0@ == b[i].0@ && a[i].1@ == b[i].1@,
    ensures
        enc_md_entries(a) == enc_md_entries(b),
    decreases a.len(),
{
    if a.len() > 0 {
        lemma_enc_md_entries_eqv(a.drop_first(), b.drop_first());
    }
}

/// Equivalent optional metadata encodes equally.
pub proof fn lemma_enc_metadata_eqv(a: Option<Metadata>, b: Option<Metadata>)
    requires
        md_eqv(a, b),
    ensures
        enc_metadata(a) == enc_metadata(b),
{
    match (a, b) {
        (Option::Some(x), Option::Some(y)) => {
            lemma_enc_md_entries_eqv(x@, y@);
        },
        _ => {
        },
    }
}

/// Equivalent transactions have equal signing bytes, given equal
/// signed fields.
pub proof fn lemma_tx_signing_bytes_eqv(a: Transaction, b: Transaction)
    requires
        a.sender == b.sender,
        a.nonce == b.nonce,
        a.timestamp == b.timestamp,
        a.recipient == b.recipient,
        payload_eqv(a.payload, b.payload),
        md_eqv(a.metadata, b.metadata),
    ensures
        tx_signing_bytes(a) == tx_signing_bytes(b),
{
    lemma_enc_payload_eqv(a.payload, b.payload);
    lemma_enc_metadata_eqv(a.metadata, b.metadata);
}

/// Equivalent transactions encode equally.
pub proof fn lemma_enc_tx_eqv(a: Transaction, b: Transaction)
    requires
        tx_eqv(a, b),
    ensures
        enc_tx(a) == enc_tx(b),
{
    lemma_enc_payload_eqv(a.payload, b.payload);
    lemma_enc_metadata_eqv(a.metadata, b.metadata);
}

/// Pairwise equivalent transaction sequences encode equally.
pub proof fn lemma_enc_tx_seq_eqv(a: Seq<Transaction>, b: Seq<Transaction>)
    requires
        txs_eqv(a, b),
    ensures
        enc_tx_seq(a) == enc_tx_seq(b),
    decreases a.len(),
{
    if a.len() > 0 {
        assert(tx_eqv(a[0], b[0]));
        lemma_enc_tx_eqv(a[0], b[0]);
        assert(txs_eqv(a.drop_first(), b.drop_first())) by {
            assert forall|i: int| 0 <= i < a.drop_first().len() implies tx_eqv(
                #[trigger] a.drop_first()[i],
                b.drop_first()[i],
            ) by {
                assert(a.drop_first()[i] == a[i + 1]);
                assert(b.drop_first()[i] == b[i + 1]);
                assert(tx_eqv(a[i + 1], b[i + 1]));
            }
        }
        lemma_enc_tx_seq_eqv(a.drop_first(), b.drop_first());
    }
}

/// Equivalent blocks have equal signing bytes, given equal signed
/// fields.
pub proof fn lemma_block_signing_bytes_eqv(a: Block, b: Block)
    requires
        a.index == b.index,
        a.timestamp == b.timestamp,
        a.prev_hash == b.prev_hash,
        a.nonce == b.nonce,
        txs_eqv(a.transactions@, b.transactions@),
        md_eqv(a.metadata, b.metadata),
    ensures
        block_signing_bytes(a) == block_signing_bytes(b),
{
    lemma_enc_tx_seq_eqv(a.transactions@, b.transactions@);
    lemma_enc_metadata_eqv(a.metadata, b.metadata);
}

/// Equivalent blocks encode equally.
pub proof fn lemma_enc_block_eqv(a: Block, b: Block)
    requires
        block_eqv(a, b),
    ensures
        enc_block(a) == enc_block(b),
{
    assert(txs_eqv(a.transactions@, b.transactions@));
    lemma_enc_tx_seq_eqv(a.transactions@, b.transactions@);
    lemma_enc_metadata_eqv(a.metadata, b.metadata);
}

} // verus!
