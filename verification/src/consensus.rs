//! Proof-of-authority consensus: block production from the pending
//! transactions, and validation of a block's authority signature.
//!
//! The authority signature is carried in block metadata under a
//! reserved key; it signs the block's hash, which is derived with that
//! reserved entry left out, so attaching the signature does not change
//! what it signs.

use vstd::prelude::*;
use crate::crypto::{
    CryptoError, ed25519_public_of, ed25519_signature_of, ed25519_valid_pubkey, ed25519_verifies,
    derive_public_bytes, sign_bytes, verify_signature_bytes, sha256, sha256_of,
};
use crate::types::{
    Block, ChainState, Metadata, PublicKey, Transaction, duplicate_transactions, md_wf,
    lemma_md_wf_eqv,
};
use crate::codec::{
    block_signing_bytes, enc_md_entries, enc_metadata, enc_tx_list, enc_u64, encode_metadata,
    encode_tx_list, encode_u64, encode_array32, txs_eqv, lemma_enc_md_entries_eqv,
};
use crate::storage::{bytes_eq, bytes32_eq, copy_bytes};

verus! {

/// Errors from the consensus strategy.
#[derive(Debug, Clone, Copy, PartialEq, Eq)]
pub enum ConsensusError {
    ValidationFailed,
    InvalidSignature(CryptoError),
    UnauthorizedSigner,
    InvalidTimestamp,
    MismatchedPrevHash,
    InvalidNonce,
    NoPendingTransactions,
}

/// Relies on std::time::SystemTime::now: the number of whole seconds
/// since the Unix epoch, or zero for a clock before it. Nothing can be
/// promised of the clock's value.
#[verifier::external_body]
pub fn now_seconds() -> u64 {
    match std::time::SystemTime::now().duration_since(std::time::UNIX_EPOCH) {
        Ok(d) => d.as_secs(),
        Err(_) => 0,
    }
}

/// The reserved metadata key carrying the authority signature,
/// `poa_signature` in ascii.
pub open spec fn poa_sig_key() -> Seq<u8> {
    seq![112u8, 111u8, 97u8, 95u8, 115u8, 105u8, 103u8, 110u8, 97u8, 116u8, 117u8, 114u8, 101u8]
}

/// Build the reserved metadata key.
pub fn poa_sig_key_bytes() -> (r: Vec<u8>)
    ensures
        r@ == poa_sig_key(),
{
    let mut out: Vec<u8> = Vec::new();
    out.push(112);
    out.push(111);
    out.push(97);
    out.push(95);
    out.push(115);
    out.push(105);
    out.push(103);
    out.push(110);
    out.push(97);
    out.push(116);
    out.push(117);
    out.push(114);
    out.push(101);
    assert(out@ =~= poa_sig_key());
    out
}

/// The first metadata value stored under a key, if any.
pub open spec fn md_lookup(entries: Seq<(Vec<u8>, Vec<u8>)>, key: Seq<u8>) -> Option<Seq<u8>>
    decreases entries.len(),
{
    if entries.len() == 0 {
        Option::None
    } else if entries[0].0@ == key {
        Option::Some(entries[0].1@)
    } else {
        md_lookup(entries.drop_first(), key)
    }
}

/// The metadata entries with the reserved signature key left out.
pub open spec fn md_stripped(entries: Seq<(Vec<u8>, Vec<u8>)>) -> Seq<(Vec<u8>, Vec<u8>)> {
    entries.filter(|e: (Vec<u8>, Vec<u8>)| e.0@ != poa_sig_key())
}

/// Two metadata entry sequences agree pairwise on their key and value
/// contents.
pub open spec fn entries_eqv(a: Seq<(Vec<u8>, Vec<u8>)>, b: Seq<(Vec<u8>, Vec<u8>)>) -> bool {
    a.len() == b.len() && (forall|j: int|
        0 <= j < a.len() ==> (#[trigger] a[j]).0@ == b[j].0@ && a[j].1@ == b[j].1@)
}

/// Find the first metadata value stored under a key.
fn md_find(entries: &Metadata, key: &Vec<u8>) -> (r: Option<Vec<u8>>)
    ensures
        r matches Some(v) ==> md_lookup(entries@, key@) == Option::Some(v@),
        r is None ==> md_lookup(entries@, key@) is None,
{
    let mut i: usize = 0;
    proof {
        assert(entries@.skip(0) =~= entries@);
    }
    while i < entries.len()
        invariant
            0 <= i <= entries@.len(),
            md_lookup(entries@, key@) == md_lookup(entries@.skip(i as int), key@),
        decreases entries@.len() - i,
    {
        proof {
            assert(entries@.skip(i as int)[0] == entries@[i as int]);
            assert(entries@.skip(i as int).drop_first() =~= entries@.skip(i + 1));
        }
        let (k, v) = &entries[i];
        if bytes_eq(k, key) {
            return Some(copy_bytes(v));
        }
        i = i + 1;
    }
    proof {
        assert(entries@.skip(entries@.len() as int).len() == 0);
    }
    None
}

/// Copy the entries that do not carry the reserved signature key, in
/// order; the copies agree with [`md_stripped`] by contents.
fn strip_reserved(md: &Metadata) -> (r: Metadata)
    ensures
        entries_eqv(r@, md_stripped(md@)),
{
    let key = poa_sig_key_bytes();
    let mut out: Metadata = Vec::new();
    proof {
        reveal_with_fuel(Seq::filter, 1);
        assert(md@.take(0).filter(|e: (Vec<u8>, Vec<u8>)| e.0@ != poa_sig_key()) =~= Seq::<
            (Vec<u8>, Vec<u8>),
        >::empty());
    }
    let mut i: usize = 0;
    while i < md.len()
        invariant
            0 <= i <= md@.len(),
            key@ == poa_sig_key(),
            entries_eqv(
                out@,
                md@.take(i as int).filter(|e: (Vec<u8>, Vec<u8>)| e.0@ != poa_sig_key()),
            ),
        decreases md@.len() - i,
    {
        let ghost pre = md@.take(i as int);
        let ghost post = md@.take(i + 1);
        proof {
            reveal_with_fuel(Seq::filter, 2);
            assert(post.drop_last() =~= pre);
            assert(post.last() == md@[i as int]);
        }
        let ghost out_pre = out@;
        let (k, v) = &md[i];
        if !bytes_eq(k, &key) {
            out.push((copy_bytes(k), copy_bytes(v)));
            proof {
                assert(post.filter(|e: (Vec<u8>, Vec<u8>)| e.0@ != poa_sig_key()) == pre.filter(
                    |e: (Vec<u8>, Vec<u8>)| e.0@ != poa_sig_key(),
                ).push(md@[i as int]));
                assert(out@.drop_last() =~= out_pre);
                assert(out@.last().0@ == md@[i as int].0@);
                assert(out@.last().1@ == md@[i as int].1@);
                assert(entries_eqv(
                    out@,
                    post.filter(|e: (Vec<u8>, Vec<u8>)| e.0@ != poa_sig_key()),
                ));
            }
        } else {
            proof {
                assert(post.filter(|e: (Vec<u8>, Vec<u8>)| e.0@ != poa_sig_key()) == pre.filter(
                    |e: (Vec<u8>, Vec<u8>)| e.0@ != poa_sig_key(),
                ));
                assert(entries_eqv(
                    out@,
                    post.filter(|e: (Vec<u8>, Vec<u8>)| e.0@ != poa_sig_key()),
                ));
            }
        }
        i = i + 1;
    }
    proof {
        assert(md@.take(md@.len() as int) =~= md@);
    }
    out
}

/// The encoding of a block's metadata with the reserved signature
/// entry left out. Metadata holding nothing but the signature counts
/// as absent, so signing a block with no other metadata does not
/// change what its authority hash covers.
pub open spec fn enc_metadata_stripped(m: Option<Metadata>) -> Seq<u8> {
    match m {
        Option::None => seq![0u8],
        Option::Some(md) => if md_stripped(md@).len() == 0 {
            seq![0u8]
        } else {
            seq![1u8] + enc_u64(md_stripped(md@).len() as u64) + enc_md_entries(md_stripped(md@))
        },
    }
}

/// The authority hash of a block: the SHA-256 digest of its signing
/// bytes with the reserved signature entry left out of the metadata.
pub open spec fn poa_block_hash(b: Block) -> Seq<u8> {
    sha256_of(
        enc_u64(b.index) + enc_u64(b.timestamp) + b.prev_hash@ + enc_u64(b.nonce) + enc_tx_list(
            b.transactions@,
        ) + enc_metadata_stripped(b.metadata),
    )
}

/// The verdict of proof-of-authority validation: the block's stored
/// hash must equal its authority hash, the reserved entry must be
/// present, 64 bytes long and a valid signature of the stored hash
/// under the authorized key, and the block's timestamp must move past
/// the committed predecessor's.
pub open spec fn spec_poa_validate(
    authorized: PublicKey,
    b: Block,
    prev_timestamp: u64,
) -> Result<(), ConsensusError> {
    if b.hash@ != poa_block_hash(b) {
        Err(ConsensusError::ValidationFailed)
    } else {
        let entry = match b.metadata {
            Option::None => Option::<Seq<u8>>::None,
            Option::Some(md) => md_lookup(md@, poa_sig_key()),
        };
        match entry {
            Option::None => Err(ConsensusError::UnauthorizedSigner),
            Option::Some(sig) => {
                if sig.len() != 64 {
                    Err(ConsensusError::InvalidSignature(CryptoError::InvalidSignature))
                } else if !(ed25519_valid_pubkey(authorized.bytes@) && ed25519_verifies(
                    authorized.bytes@,
                    b.hash@,
                    sig,
                )) {
                    Err(ConsensusError::InvalidSignature(CryptoError::SignatureVerificationFailed))
                } else if b.timestamp <= prev_timestamp {
                    Err(ConsensusError::InvalidTimestamp)
                } else {
                    Ok(())
                }
            },
        }
    }
}

/// Proof-of-authority: a single authorized signer produces all blocks.
/// The strategy holds only the verifying key; a holder of the signing
/// key attaches the authority signature with [`PoAConsensus::sign_block`],
/// and [`PoAConsensus::validate_block`] checks it.
pub struct PoAConsensus {
    pub authorized_signer_key: PublicKey,
    pub block_time_interval_ms: u64,
}

impl PoAConsensus {
    /// Configure the strategy with the authorized signer's key and a
    /// target block interval.
    pub fn new(authorized_signer_key: PublicKey, block_time_interval_ms: u64) -> (r: Self)
        ensures
            r.authorized_signer_key == authorized_signer_key,
            r.block_time_interval_ms == block_time_interval_ms,
    {
        PoAConsensus { authorized_signer_key, block_time_interval_ms }
    }

    /// Assemble a candidate block from the pending transactions and
    /// the previous block: the next index, a timestamp strictly past
    /// the previous block's, the previous block's hash as the link,
    /// and a freshly derived hash. An empty pending set is refused.
    pub fn generate_block(
        &self,
        pending_transactions: &Vec<Transaction>,
        prev_block: &Block,
        chain_state: &ChainState,
    ) -> (r: Result<Block, ConsensusError>)
        requires
            prev_block.index < u64::MAX,
            prev_block.timestamp < u64::MAX,
            forall|j: int|
                0 <= j < pending_transactions@.len() ==> md_wf(
                    (#[trigger] pending_transactions@[j]).metadata,
                ),
        ensures
            r is Err <==> pending_transactions@.len() == 0,
            r is Err ==> r == Err::<Block, ConsensusError>(ConsensusError::NoPendingTransactions),
            r matches Ok(b) ==> {
                &&& b.index as int == prev_block.index as int + 1
                &&& b.prev_hash@ == prev_block.hash@
                &&& b.timestamp > prev_block.timestamp
                &&& b.nonce == 0
                &&& b.metadata is None
                &&& txs_eqv(b.transactions@, pending_transactions@)
                &&& b.hash@ == b.spec_hash()
            },
    {
        if pending_transactions.len() == 0 {
            return Err(ConsensusError::NoPendingTransactions);
        }
        let index = prev_block.index + 1;
        let now = now_seconds();
        let timestamp: u64 = if now > prev_block.timestamp {
            now
        } else {
            prev_block.timestamp + 1
        };
        let transactions = duplicate_transactions(pending_transactions);
        let mut block = Block {
            index,
            timestamp,
            prev_hash: prev_block.hash,
            hash: [0u8; 32],
            nonce: 0,
            transactions,
            metadata: None,
        };
        proof {
            assert forall|j: int| 0 <= j < block.transactions@.len() implies md_wf(
                (#[trigger] block.transactions@[j]).metadata,
            ) by {
                lemma_md_wf_eqv(
                    block.transactions@[j].metadata,
                    pending_transactions@[j].metadata,
                );
            }
        }
        let h = match block.calculate_hash() {
            Result::Ok(h) => h,
            Result::Err(_) => {
                proof {
                    assert(false);
                }
                [0u8; 32]
            },
        };
        let ghost before = block;
        block.hash = h;
        proof {
            assert(block_signing_bytes(block) == block_signing_bytes(before));
        }
        Ok(block)
    }

    /// Validate a block's authority: re-derive its hash with the
    /// reserved signature entry left out, check the embedded signature
    /// of that hash under the authorized key, and require the
    /// timestamp to move past the committed predecessor's, which the
    /// caller looks up. The verdict equals [`spec_poa_validate`].
    #[verifier::rlimit(100)]
    #[verifier::spinoff_prover]
    pub fn validate_block(
        &self,
        block: &Block,
        _chain_state: &ChainState,
        prev_timestamp: u64,
    ) -> (r: Result<(), ConsensusError>)
        ensures
            r == spec_poa_validate(self.authorized_signer_key, *block, prev_timestamp),
    {
        // Re-derive the authority hash with the reserved entry out;
        // metadata holding nothing else counts as absent.
        let stripped: Option<Metadata> = match &block.metadata {
            Option::None => None,
            Option::Some(md) => {
                let s = strip_reserved(md);
                if s.len() == 0 {
                    None
                } else {
                    Some(s)
                }
            },
        };
        let mut bytes: Vec<u8> = Vec::new();
        encode_u64(&mut bytes, block.index);
        encode_u64(&mut bytes, block.timestamp);
        encode_array32(&mut bytes, &block.prev_hash);
        encode_u64(&mut bytes, block.nonce);
        encode_tx_list(&mut bytes, &block.transactions);
        encode_metadata(&mut bytes, &stripped);
        proof {
            match (&stripped, &block.metadata) {
                (Option::Some(sv), Option::Some(md)) => {
                    lemma_enc_md_entries_eqv(sv@, md_stripped(md@));
                    assert(enc_metadata(stripped) == enc_metadata_stripped(block.metadata));
                },
                (Option::None, Option::Some(md)) => {
                    assert(md_stripped(md@).len() == 0);
                    assert(enc_metadata(stripped) == enc_metadata_stripped(block.metadata));
                },
                (Option::None, Option::None) => {
                },
                _ => {
                    assert(false);
                },
            }
            assert(bytes@ =~= enc_u64(block.index) + enc_u64(block.timestamp) + block.prev_hash@
                + enc_u64(block.nonce) + enc_tx_list(block.transactions@)
                + enc_metadata_stripped(block.metadata));
        }
        let derived = sha256(&bytes);
        if !bytes32_eq(&derived, &block.hash) {
            return Err(ConsensusError::ValidationFailed);
        }
        // Find the reserved signature entry.
        let key = poa_sig_key_bytes();
        let sig: Option<Vec<u8>> = match &block.metadata {
            Option::None => None,
            Option::Some(md) => md_find(md, &key),
        };
        let ghost entry_spec = match &block.metadata {
            Option::None => Option::<Seq<u8>>::None,
            Option::Some(md) => md_lookup(md@, poa_sig_key()),
        };
        match sig {
            Option::None => {
                proof {
                    assert(entry_spec is None);
                }
                Err(ConsensusError::UnauthorizedSigner)
            },
            Option::Some(sigv) => {
                proof {
                    assert(entry_spec == Option::Some(sigv@));
                }
                if sigv.len() != 64 {
                    return Err(ConsensusError::InvalidSignature(CryptoError::InvalidSignature));
                }
                let mut sig_arr = [0u8; 64];
                let mut j: usize = 0;
                while j < 64
                    invariant
                        0 <= j <= 64,
                        sigv@.len() == 64,
                        forall|x: int| 0 <= x < j ==> sig_arr@[x] == sigv@[x],
                    decreases 64 - j,
                {
                    sig_arr[j] = sigv[j];
                    j = j + 1;
                }
                proof {
                    assert(sig_arr@ =~= sigv@);
                }
                let msg = crate::keys::hash_key(&block.hash);
                if !verify_signature_bytes(&self.authorized_signer_key.bytes, &msg, &sig_arr) {
                    return Err(
                        ConsensusError::InvalidSignature(CryptoError::SignatureVerificationFailed),
                    );
                }
                if block.timestamp <= prev_timestamp {
                    return Err(ConsensusError::InvalidTimestamp);
                }
                Ok(())
            },
        }
    }

    /// Sign a block as the authority: refuse a key that is not the
    /// authorized signer's, then attach an Ed25519 signature of the
    /// block's hash to the metadata under the reserved key. The
    /// reserved entry is appended; any previous one is removed first,
    /// so signing is idempotent in effect.
    pub fn sign_block(&self, block: &mut Block, private_key: &[u8; 32]) -> (r: Result<
        (),
        ConsensusError,
    >)
        ensures
            r is Ok <==> ed25519_public_of(private_key@) == self.authorized_signer_key.bytes@,
            r is Err ==> r == Err::<(), ConsensusError>(ConsensusError::UnauthorizedSigner)
                && *final(block) == *old(block),
            r is Ok ==> {
                &&& final(block).index == old(block).index
                &&& final(block).timestamp == old(block).timestamp
                &&& final(block).prev_hash == old(block).prev_hash
                &&& final(block).hash == old(block).hash
                &&& final(block).nonce == old(block).nonce
                &&& final(block).transactions == old(block).transactions
                &&& final(block).metadata matches Some(md) && md_lookup(md@, poa_sig_key())
                    == Option::Some(
                    ed25519_signature_of(private_key@, old(block).hash@),
                ) && entries_eqv(
                    md_stripped(md@),
                    match old(block).metadata {
                        Option::None => Seq::<(Vec<u8>, Vec<u8>)>::empty(),
                        Option::Some(omd) => md_stripped(omd@),
                    },
                )
            },
    {
        let derived = derive_public_bytes(private_key);
        if !bytes32_eq(&derived, &self.authorized_signer_key.bytes) {
            return Err(ConsensusError::UnauthorizedSigner);
        }
        let msg = crate::keys::hash_key(&block.hash);
        let sig = sign_bytes(private_key, &msg);
        let sig_vec = crate::keys::hash64_key(&sig);
        let key = poa_sig_key_bytes();
        let mut entries: Metadata = match &block.metadata {
            Option::None => Vec::new(),
            Option::Some(md) => strip_reserved(md),
        };
        let ghost stripped_entries = entries@;
        entries.push((key, sig_vec));
        proof {
            assert(entries@.drop_last() =~= stripped_entries);
            match old(block).metadata {
                Option::Some(omd) => {
                    omd@.filter_lemma(|e: (Vec<u8>, Vec<u8>)| e.0@ != poa_sig_key());
                },
                Option::None => {},
            }
            assert(forall|j: int|
                0 <= j < stripped_entries.len() ==> (#[trigger] stripped_entries[j]).0@
                    != poa_sig_key());
            lemma_md_lookup_last(entries@, poa_sig_key());
            lemma_md_stripped_push_sig(stripped_entries, entries@[entries@.len() - 1]);
            assert(md_stripped(entries@) == md_stripped(stripped_entries));
            assert(entries_eqv(md_stripped(stripped_entries), stripped_entries)) by {
                stripped_entries.filter_lemma(|e: (Vec<u8>, Vec<u8>)| e.0@ != poa_sig_key());
                lemma_filter_id(stripped_entries);
            }
        }
        block.metadata = Some(entries);
        Ok(())
    }
}

/// Looking a key up in entries ending with that key finds its value,
/// when no earlier entry carries the key.
proof fn lemma_md_lookup_last(entries: Seq<(Vec<u8>, Vec<u8>)>, key: Seq<u8>)
    requires
        entries.len() > 0,
        entries.last().0@ == key,
        forall|j: int| 0 <= j < entries.len() - 1 ==> (#[trigger] entries[j]).0@ != key,
    ensures
        md_lookup(entries, key) == Option::Some(entries.last().1@),
    decreases entries.len(),
{
    if entries.len() == 1 {
    } else {
        assert(entries[0].0@ != key);
        assert(entries.drop_first().last() == entries.last());
        assert(forall|j: int|
            0 <= j < entries.drop_first().len() - 1 ==> (#[trigger] entries.drop_first()[j]).0@
                != key) by {
            assert(forall|j: int|
                0 <= j < entries.drop_first().len() ==> entries.drop_first()[j] == entries[j + 1]);
        }
        lemma_md_lookup_last(entries.drop_first(), key);
    }
}

/// Stripping entries that carry no reserved key changes nothing.
proof fn lemma_filter_id(entries: Seq<(Vec<u8>, Vec<u8>)>)
    requires
        forall|j: int| 0 <= j < entries.len() ==> (#[trigger] entries[j]).0@ != poa_sig_key(),
    ensures
        md_stripped(entries) == entries,
    decreases entries.len(),
{
    reveal_with_fuel(Seq::filter, 2);
    if entries.len() > 0 {
        assert(forall|j: int|
            0 <= j < entries.drop_last().len() ==> #[trigger] entries.drop_last()[j]
                == entries[j]);
        lemma_filter_id(entries.drop_last());
        assert(entries.last() == entries[entries.len() - 1]);
        assert(md_stripped(entries) =~= entries);
    } else {
        assert(md_stripped(entries) =~= entries);
    }
}

/// Appending the reserved entry does not change the stripped entries.
proof fn lemma_md_stripped_push_sig(entries: Seq<(Vec<u8>, Vec<u8>)>, e: (Vec<u8>, Vec<u8>))
    requires
        e.0@ == poa_sig_key(),
    ensures
        md_stripped(entries.push(e)) == md_stripped(entries),
{
    reveal_with_fuel(Seq::filter, 2);
    assert(entries.push(e).drop_last() =~= entries);
    assert(entries.push(e).last() == e);
}

} // verus!
