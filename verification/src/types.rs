//! Core data structures of the ledger: blocks, transactions, accounts,
//! addresses and the chain-state summary.
//!
//! Hashes, public keys and signatures are held as plain byte arrays;
//! metadata is an ordered mapping of byte strings, kept sorted by key so
//! that its canonical encoding is deterministic.

use vstd::prelude::*;
use vstd::slice::slice_to_vec;
use crate::storage::{KvTree, kv_map, sorted_keys};
use crate::crypto::{
    CryptoError, ed25519_valid_pubkey, ed25519_verifies, ed25519_public_of,
    ed25519_signature_of, pubkey_bytes_valid, verify_signature_bytes, sign_bytes, sha256,
    sha256_of, derive_public_bytes,
};
use crate::codec::{
    tx_signing_bytes, block_signing_bytes, encode_tx_signing, encode_block_signing,
    payload_eqv, md_eqv, tx_eqv, txs_eqv, lemma_tx_signing_bytes_eqv,
    lemma_block_signing_bytes_eqv,
};

verus! {

/// A 32-byte Ed25519 verifying key, held as its raw bytes.
#[derive(Debug, Clone, Copy, PartialEq, Eq, Hash)]
pub struct PublicKey {
    pub bytes: [u8; 32],
}

impl PublicKey {
    /// Whether the bytes decompress to a curve point.
    pub open spec fn spec_valid(self) -> bool {
        ed25519_valid_pubkey(self.bytes@)
    }

    /// Accept 32 bytes as a verifying key, failing on bytes that are not
    /// a curve point.
    pub fn from_bytes(bytes: &[u8; 32]) -> (r: Result<Self, CryptoError>)
        ensures
            r is Ok <==> ed25519_valid_pubkey(bytes@),
            r matches Ok(pk) ==> pk.bytes@ == bytes@,
            r is Err ==> r == Err::<Self, CryptoError>(CryptoError::InvalidPublicKey),
    {
        if pubkey_bytes_valid(bytes) {
            Ok(PublicKey { bytes: *bytes })
        } else {
            Err(CryptoError::InvalidPublicKey)
        }
    }

    pub fn to_bytes(&self) -> (r: [u8; 32])
        ensures
            r@ == self.bytes@,
    {
        self.bytes
    }

    pub fn as_bytes(&self) -> (r: &[u8; 32])
        ensures
            r@ == self.bytes@,
    {
        &self.bytes
    }

    /// Check an Ed25519 signature over a message under this key.
    pub fn verify(&self, message: &Vec<u8>, signature: &TransactionSignature) -> (r: Result<
        (),
        CryptoError,
    >)
        ensures
            r is Ok <==> (ed25519_valid_pubkey(self.bytes@) && ed25519_verifies(
                self.bytes@,
                message@,
                signature.bytes@,
            )),
            r is Err ==> r == Err::<(), CryptoError>(CryptoError::SignatureVerificationFailed),
    {
        if verify_signature_bytes(&self.bytes, message, &signature.bytes) {
            Ok(())
        } else {
            Err(CryptoError::SignatureVerificationFailed)
        }
    }
}

/// A 64-byte Ed25519 signature, held as its raw bytes.
#[derive(Debug, Clone, Copy, PartialEq, Eq)]
pub struct TransactionSignature {
    pub bytes: [u8; 64],
}

impl TransactionSignature {
    pub fn from_bytes(bytes: &[u8; 64]) -> (r: Result<Self, CryptoError>)
        ensures
            r matches Ok(s) && s.bytes@ == bytes@,
    {
        Ok(TransactionSignature { bytes: *bytes })
    }

    pub fn to_bytes(&self) -> (r: [u8; 64])
        ensures
            r@ == self.bytes@,
    {
        self.bytes
    }
}

/// A 32-byte identifier of a deployed contract, derived as the SHA-256
/// digest of the deployer's key bytes followed by the contract code.
#[derive(Debug, Clone, Copy, PartialEq, Eq)]
pub struct ContractId {
    pub id: [u8; 32],
}

impl ContractId {
    pub fn from_bytes(bytes: &[u8; 32]) -> (r: Self)
        ensures
            r.id@ == bytes@,
    {
        ContractId { id: *bytes }
    }

    pub fn to_bytes(&self) -> (r: [u8; 32])
        ensures
            r@ == self.id@,
    {
        self.id
    }
}

/// A transaction recipient: either a wallet keyed by a public key or a
/// contract keyed by its identifier.
#[derive(Debug, Clone, Copy, PartialEq, Eq)]
pub enum Address {
    Wallet(PublicKey),
    Contract(ContractId),
}

/// The payload of a transaction, one variant per transaction kind.
#[derive(Debug, Clone, PartialEq, Eq)]
pub enum TransactionPayload {
    Transfer { amount: u64 },
    ContractDeploy { wasm_bytes: Vec<u8> },
    ContractCall { method: Vec<u8>, args: Vec<u8> },
    Data { data: Vec<u8> },
}

/// An optional ordered mapping of byte strings, used for extensibility.
/// Entries are encoded in the stored order; well-formed metadata keeps
/// its keys strictly sorted, which the canonical encoding presumes.
pub type Metadata = Vec<(Vec<u8>, Vec<u8>)>;

/// Well-formed metadata: absent, or entries in strictly ascending key
/// order. Strict order makes keys unique, so two well-formed metadata
/// values holding the same mapping are the same entry list and encode
/// identically — the ordered-mapping promise of the canonical
/// encoding.
pub open spec fn md_wf(m: Option<Metadata>) -> bool {
    match m {
        Option::None => true,
        Option::Some(md) => sorted_keys(md@),
    }
}

/// Insert one entry into well-formed metadata, keeping the keys in
/// strictly ascending order; an existing key is overwritten.
pub fn metadata_insert(md: Metadata, key: Vec<u8>, value: Vec<u8>) -> (r: Metadata)
    requires
        sorted_keys(md@),
    ensures
        sorted_keys(r@),
        kv_map(r@) == kv_map(md@).insert(key@, value@),
{
    let mut tree = KvTree { entries: md };
    tree.put(key, value);
    tree.entries
}

/// Well-formedness carries across metadata with equal contents.
pub proof fn lemma_md_wf_eqv(a: Option<Metadata>, b: Option<Metadata>)
    requires
        md_eqv(a, b),
        md_wf(b),
    ensures
        md_wf(a),
{
    match (a, b) {
        (Option::Some(x), Option::Some(y)) => {
            assert forall|i: int, j: int| 0 <= i < j < x@.len() implies crate::storage::lex_lt(
                (#[trigger] x@[i]).0@,
                (#[trigger] x@[j]).0@,
            ) by {
                assert(x@[i].0@ == y@[i].0@);
                assert(x@[j].0@ == y@[j].0@);
            }
        },
        _ => {
        },
    }
}

/// A signed state change: a transfer, a contract deployment or call, or
/// an arbitrary data record.
#[derive(Debug, Clone, PartialEq, Eq)]
pub struct Transaction {
    /// SHA-256 digest of the canonical encoding of the signed fields.
    pub hash: [u8; 32],
    /// Public key of the transaction sender.
    pub sender: PublicKey,
    /// Sender's replay counter; strictly monotone with step 1.
    pub nonce: u64,
    /// Unix timestamp in seconds.
    pub timestamp: u64,
    /// Recipient address (wallet or contract).
    pub recipient: Address,
    /// Payload, one of the transaction kinds.
    pub payload: TransactionPayload,
    /// Ed25519 signature of `hash` by the sender.
    pub signature: TransactionSignature,
    /// Maximum gas to consume for contract execution.
    pub gas_limit: u64,
    /// Priority hint; higher is processed first.
    pub priority: u8,
    /// Optional metadata, ordered for deterministic encoding.
    pub metadata: Option<Metadata>,
}

/// An immutable unit of ledger progress: an ordered list of transactions
/// with a hash link to the previous block.
#[derive(Debug, Clone, PartialEq, Eq)]
pub struct Block {
    /// Sequential block number starting from 0 (genesis).
    pub index: u64,
    /// Unix timestamp in seconds.
    pub timestamp: u64,
    /// Hash of the previous block; all zero for genesis.
    pub prev_hash: [u8; 32],
    /// SHA-256 digest of the canonical encoding of the other fields.
    pub hash: [u8; 32],
    /// Reserved proof nonce, unused under proof-of-authority.
    pub nonce: u64,
    /// Transactions included in this block, in application order.
    pub transactions: Vec<Transaction>,
    /// Optional metadata, ordered for deterministic encoding.
    pub metadata: Option<Metadata>,
}

/// The singleton summary of the chain tip.
#[derive(Debug, Clone, Copy, PartialEq, Eq)]
pub struct ChainState {
    pub latest_block_hash: [u8; 32],
    pub latest_block_index: u64,
    /// Reserved for a future accounts commitment; all zero for now.
    pub accounts_root_hash: [u8; 32],
    pub total_supply: u64,
}

/// A persistent account record: a wallet with a balance, or a contract
/// with a code reference. Every account has a replay counter.
#[derive(Debug, Clone, Copy, PartialEq, Eq)]
pub enum Account {
    Wallet { balance: u64, nonce: u64 },
    Contract { code_hash: [u8; 32], storage_root_hash: [u8; 32], nonce: u64 },
}

impl Account {
    /// The account's replay counter, whatever its kind.
    pub open spec fn spec_nonce(self) -> u64 {
        match self {
            Account::Wallet { nonce, .. } => nonce,
            Account::Contract { nonce, .. } => nonce,
        }
    }

    pub fn nonce(&self) -> (r: u64)
        ensures
            r == self.spec_nonce(),
    {
        match self {
            Account::Wallet { nonce, .. } => *nonce,
            Account::Contract { nonce, .. } => *nonce,
        }
    }

    /// The same account with its replay counter replaced.
    pub open spec fn spec_with_nonce(self, new_nonce: u64) -> Account {
        match self {
            Account::Wallet { balance, .. } => Account::Wallet { balance, nonce: new_nonce },
            Account::Contract { code_hash, storage_root_hash, .. } => Account::Contract {
                code_hash,
                storage_root_hash,
                nonce: new_nonce,
            },
        }
    }

    pub fn set_nonce(&mut self, new_nonce: u64)
        ensures
            *final(self) == old(self).spec_with_nonce(new_nonce),
    {
        match self {
            Account::Wallet { nonce, .. } => {
                *nonce = new_nonce;
            },
            Account::Contract { nonce, .. } => {
                *nonce = new_nonce;
            },
        }
    }
}

impl Block {
    /// The SHA-256 digest of the block's canonical signing bytes.
    pub open spec fn spec_hash(self) -> Seq<u8> {
        sha256_of(block_signing_bytes(self))
    }

    /// Whether the stored hash field matches the canonical digest.
    pub open spec fn hash_consistent(self) -> bool {
        self.hash@ == self.spec_hash()
    }

    /// Well-formed metadata throughout the block: the block's own
    /// mapping and every included transaction's mapping keep their
    /// keys strictly sorted, as the canonical encoding presumes.
    pub open spec fn md_wf_all(self) -> bool {
        &&& md_wf(self.metadata)
        &&& forall|i: int|
            0 <= i < self.transactions@.len() ==> md_wf(
                (#[trigger] self.transactions@[i]).metadata,
            )
    }

    /// Calculate the SHA-256 hash of the block from its canonical
    /// encoding. The hash commits to every field except the hash
    /// itself.
    pub fn calculate_hash(&self) -> (r: Result<[u8; 32], CryptoError>)
        requires
            self.md_wf_all(),
        ensures
            r matches Ok(h) && h@ == self.spec_hash(),
    {
        let bytes = encode_block_signing(self);
        Ok(sha256(&bytes))
    }
}

impl Transaction {
    /// The SHA-256 digest of the transaction's canonical signing bytes.
    pub open spec fn spec_hash(self) -> Seq<u8> {
        sha256_of(tx_signing_bytes(self))
    }

    /// Whether the stored hash field matches the canonical digest.
    pub open spec fn hash_consistent(self) -> bool {
        self.hash@ == self.spec_hash()
    }

    /// Whether the transaction's signature check passes: the stored
    /// hash is the canonical digest, and the signature is a valid
    /// Ed25519 signature of it under the sender's key.
    pub open spec fn spec_signature_valid(self) -> bool {
        &&& self.hash_consistent()
        &&& ed25519_valid_pubkey(self.sender.bytes@)
        &&& ed25519_verifies(self.sender.bytes@, self.hash@, self.signature.bytes@)
    }

    /// Calculate the SHA-256 hash of the transaction from its
    /// canonical encoding. The hash commits to every field except the
    /// hash and signature.
    pub fn calculate_hash(&self) -> (r: Result<[u8; 32], CryptoError>)
        requires
            md_wf(self.metadata),
        ensures
            r matches Ok(h) && h@ == self.spec_hash(),
    {
        let bytes = encode_tx_signing(self);
        Ok(sha256(&bytes))
    }

    /// Sign the transaction with a 32-byte Ed25519 secret key: the
    /// canonical hash is recomputed and stored, and the signature is an
    /// Ed25519 signature of that hash.
    ///
    /// When the transaction's sender is the verifying key of `sk`, the
    /// signed transaction passes its own signature check: this is the
    /// signature round trip.
    pub fn sign(&mut self, sk: &[u8; 32]) -> (r: Result<(), CryptoError>)
        requires
            md_wf(old(self).metadata),
        ensures
            r is Ok,
            final(self).hash@ == sha256_of(tx_signing_bytes(*old(self))),
            final(self).signature.bytes@ == ed25519_signature_of(sk@, final(self).hash@),
            final(self).sender == old(self).sender,
            final(self).nonce == old(self).nonce,
            final(self).timestamp == old(self).timestamp,
            final(self).recipient == old(self).recipient,
            final(self).payload == old(self).payload,
            final(self).gas_limit == old(self).gas_limit,
            final(self).priority == old(self).priority,
            final(self).metadata == old(self).metadata,
            old(self).sender.bytes@ == ed25519_public_of(sk@)
                ==> final(self).spec_signature_valid(),
    {
        let bytes = encode_tx_signing(self);
        let digest = sha256(&bytes);
        self.hash = digest;
        let msg = slice_to_vec(self.hash.as_slice());
        // Deriving the verifying key records that it is a valid curve
        // point, which the signature round trip depends on.
        let _derived = derive_public_bytes(sk);
        let sig = sign_bytes(sk, &msg);
        self.signature = TransactionSignature { bytes: sig };
        assert(tx_signing_bytes(*self) == tx_signing_bytes(*old(self)));
        Ok(())
    }

    /// Verify the transaction's signature: recompute the canonical
    /// hash, require it to match the stored hash, and check the
    /// Ed25519 signature under the sender's key.
    pub fn verify_signature(&self) -> (r: Result<bool, CryptoError>)
        requires
            md_wf(self.metadata),
        ensures
            r matches Ok(b) && b == self.spec_signature_valid(),
    {
        let expected = self.calculate_hash()?;
        let mut matches_hash = true;
        let mut i: usize = 0;
        while i < 32
            invariant
                0 <= i <= 32,
                matches_hash == (forall|k: int| 0 <= k < i ==> self.hash@[k] == expected@[k]),
            decreases 32 - i,
        {
            if self.hash[i] != expected[i] {
                matches_hash = false;
            }
            i = i + 1;
        }
        assert(matches_hash == (self.hash@ =~= expected@));
        if !matches_hash {
            return Ok(false);
        }
        let msg = slice_to_vec(self.hash.as_slice());
        Ok(verify_signature_bytes(&self.sender.bytes, &msg, &self.signature.bytes))
    }
}

/// Hash determinism for transactions: the canonical hash depends only
/// on the signed fields, so transactions that agree on them (byte
/// vectors compared by contents) have the same hash.
pub proof fn lemma_tx_hash_deterministic(a: Transaction, b: Transaction)
    requires
        a.sender == b.sender,
        a.nonce == b.nonce,
        a.timestamp == b.timestamp,
        a.recipient == b.recipient,
        payload_eqv(a.payload, b.payload),
        md_eqv(a.metadata, b.metadata),
    ensures
        a.spec_hash() == b.spec_hash(),
{
    lemma_tx_signing_bytes_eqv(a, b);
}

/// Hash determinism for blocks: the canonical hash depends only on the
/// committed fields, so blocks that agree on them (transactions
/// compared by contents) have the same hash.
pub proof fn lemma_block_hash_deterministic(a: Block, b: Block)
    requires
        a.index == b.index,
        a.timestamp == b.timestamp,
        a.prev_hash == b.prev_hash,
        a.nonce == b.nonce,
        txs_eqv(a.transactions@, b.transactions@),
        md_eqv(a.metadata, b.metadata),
    ensures
        a.spec_hash() == b.spec_hash(),
{
    lemma_block_signing_bytes_eqv(a, b);
}

/// Copy a byte vector, element by element.
fn dup_bytes(v: &Vec<u8>) -> (r: Vec<u8>)
    ensures
        r@ == v@,
{
    let mut out: Vec<u8> = Vec::new();
    let mut i: usize = 0;
    while i < v.len()
        invariant
            0 <= i <= v@.len(),
            out@ == v@.take(i as int),
        decreases v@.len() - i,
    {
        out.push(v[i]);
        assert(out@ =~= v@.take(i + 1 as int));
        i = i + 1;
    }
    assert(v@.take(v@.len() as int) =~= v@);
    out
}

impl TransactionPayload {
    /// Copy a payload; the copy carries the same variant and contents.
    pub fn duplicate(&self) -> (r: TransactionPayload)
        ensures
            payload_eqv(r, *self),
    {
        match self {
            TransactionPayload::Transfer { amount } => TransactionPayload::Transfer {
                amount: *amount,
            },
            TransactionPayload::ContractDeploy { wasm_bytes } => {
                TransactionPayload::ContractDeploy { wasm_bytes: dup_bytes(wasm_bytes) }
            },
            TransactionPayload::ContractCall { method, args } => TransactionPayload::ContractCall {
                method: dup_bytes(method),
                args: dup_bytes(args),
            },
            TransactionPayload::Data { data } => TransactionPayload::Data {
                data: dup_bytes(data),
            },
        }
    }
}

/// Copy optional metadata; the copy carries the same entries.
pub fn duplicate_metadata(m: &Option<Metadata>) -> (r: Option<Metadata>)
    ensures
        md_eqv(r, *m),
{
    match m {
        Option::None => None,
        Option::Some(md) => {
            let mut out: Metadata = Vec::new();
            let mut i: usize = 0;
            while i < md.len()
                invariant
                    0 <= i <= md@.len(),
                    out@.len() == i,
                    forall|j: int|
                        0 <= j < i ==> (#[trigger] out@[j]).0@ == md@[j].0@ && out@[j].1@
                            == md@[j].1@,
                decreases md@.len() - i,
            {
                let (k, v) = &md[i];
                out.push((dup_bytes(k), dup_bytes(v)));
                i = i + 1;
            }
            Some(out)
        },
    }
}

impl Transaction {
    /// Copy a transaction; the copy agrees on every field, with byte
    /// vectors compared by contents.
    pub fn duplicate(&self) -> (r: Transaction)
        ensures
            tx_eqv(r, *self),
    {
        Transaction {
            hash: self.hash,
            sender: self.sender,
            nonce: self.nonce,
            timestamp: self.timestamp,
            recipient: self.recipient,
            payload: self.payload.duplicate(),
            signature: self.signature,
            gas_limit: self.gas_limit,
            priority: self.priority,
            metadata: duplicate_metadata(&self.metadata),
        }
    }
}

/// Copy a transaction list; the copy agrees pairwise.
pub fn duplicate_transactions(v: &Vec<Transaction>) -> (r: Vec<Transaction>)
    ensures
        txs_eqv(r@, v@),
{
    let mut out: Vec<Transaction> = Vec::new();
    let mut i: usize = 0;
    while i < v.len()
        invariant
            0 <= i <= v@.len(),
            out@.len() == i,
            forall|j: int| 0 <= j < i ==> tx_eqv(#[trigger] out@[j], v@[j]),
        decreases v@.len() - i,
    {
        out.push(v[i].duplicate());
        i = i + 1;
    }
    out
}

/// Signature validity depends only on the fields that [`tx_eqv`]
/// compares: equivalent transactions pass or fail together.
pub proof fn lemma_signature_valid_eqv(a: Transaction, b: Transaction)
    requires
        tx_eqv(a, b),
    ensures
        a.spec_signature_valid() == b.spec_signature_valid(),
{
    lemma_tx_signing_bytes_eqv(a, b);
}

} // verus!