//! The ledger core: block validation, the per-transaction state
//! transition, and the atomic commit of a block.
//!
//! The state transition is defined as a specification over an account
//! map and the contract-code map; the executable validator and applier
//! are proved to implement it exactly, and the commit is a single
//! atomic batch: a failed commit leaves every tree and the cached
//! chain state unchanged.

use vstd::prelude::*;
use crate::crypto::{CryptoError, sha256_of};
use crate::types::{
    Account, Address, Block, ChainState, PublicKey, Transaction, TransactionPayload, md_wf,
};
use crate::codec::{
    txs_eqv, enc_account, enc_block, enc_chain_state, enc_tx, encode_account, encode_block,
    encode_chain_state, tx_to_bytes, no_block_full, block_eqv, tx_eqv, block_signing_bytes,
};
use crate::storage::{
    KvStore, StorageBatch, StorageError, StorageOperation, TreeId, bytes32_eq, copy_bytes,
    tree_after_ops, apply_op, op_is_put, lemma_tree_after_ops_push, lemma_apply_op_put,
};
use crate::keys::{
    chain_state_key, chain_state_key_spec, height_key, height_key_spec, block_tx_key,
    block_tx_key_spec, hash_key, lemma_height_key_injective,
};
use crate::contracts::{BaaLSContractEngine, ContractError};

verus! {

/// Reasons a block header or its transactions fail validation.
#[derive(Debug, Clone, Copy, PartialEq, Eq)]
pub enum BlockValidationError {
    /// The block's index is not one past the current tip.
    WrongIndex { expected: u64, got: u64 },
    /// The block does not link to the current tip's hash.
    WrongPrevHash,
    /// The block's stored hash is not the hash of its contents.
    WrongHash,
    /// The block's timestamp does not move forward.
    StaleTimestamp,
    /// A transaction's signature check failed.
    BadSignature { tx_hash: [u8; 32] },
}

/// Reasons a transaction's state transition is refused.
#[derive(Debug, Clone, Copy, PartialEq, Eq)]
pub enum StateTransitionError {
    /// The sender of a transfer is not a wallet account.
    SenderNotWallet,
    /// The recipient of a transfer is not a wallet account.
    RecipientNotWallet,
    /// Native tokens cannot be sent to a contract address.
    TransferToContract,
    /// Crediting the recipient would overflow its balance.
    BalanceOverflow,
}

/// Errors from the ledger.
#[derive(Debug, Clone, Copy, PartialEq, Eq)]
pub enum LedgerError {
    StorageError(StorageError),
    CryptoError(CryptoError),
    BlockValidation(BlockValidationError),
    StateTransition(StateTransitionError),
    /// The sender account does not exist; only recipients are created
    /// implicitly.
    AccountNotFound(PublicKey),
    /// The sender's balance does not cover the transfer.
    InsufficientBalance(PublicKey),
    /// The transaction's nonce is not one past the sender's. Fields:
    /// the sender, the expected nonce, the nonce given.
    InvalidNonce(PublicKey, u64, u64),
    ContractNotFound,
    InvalidTransactionPayload,
    SerializationError,
    ContractError(ContractError),
    NotFound,
}

/// The all-zero 32-byte hash.
pub open spec fn zero_hash() -> Seq<u8> {
    Seq::new(32, |i: int| 0u8)
}

/// The nonce reported in an `InvalidNonce` error, saturating at the
/// largest representable value.
pub open spec fn reported_expected_nonce(a: Account) -> u64 {
    if a.spec_nonce() == u64::MAX {
        u64::MAX
    } else {
        (a.spec_nonce() + 1) as u64
    }
}

/// The ledger state a block application works on: the decoded account
/// map keyed by 32 key bytes, and the raw contract-code map.
pub struct LedgerState {
    pub accounts: Map<Seq<u8>, Account>,
    pub code: Map<Seq<u8>, Seq<u8>>,
}

/// The state transition of one transaction: check the sender and its
/// nonce, then dispatch on the payload.
pub open spec fn spec_apply_tx(st: LedgerState, tx: Transaction) -> Result<
    LedgerState,
    LedgerError,
> {
    let sk = tx.sender.bytes@;
    if !st.accounts.contains_key(sk) {
        Err(LedgerError::AccountNotFound(tx.sender))
    } else {
        let sender0 = st.accounts[sk];
        if !(sender0.spec_nonce() < u64::MAX && tx.nonce == sender0.spec_nonce() + 1) {
            Err(LedgerError::InvalidNonce(tx.sender, reported_expected_nonce(sender0), tx.nonce))
        } else {
            let sender1 = sender0.spec_with_nonce(tx.nonce);
            let st1 = LedgerState {
                accounts: st.accounts.insert(sk, sender1),
                code: st.code,
            };
            match tx.payload {
                TransactionPayload::Transfer { amount } => spec_apply_transfer(st1, tx, amount),
                TransactionPayload::ContractDeploy { wasm_bytes } => {
                    let cid = sha256_of(sk + wasm_bytes@);
                    Ok(
                        LedgerState {
                            accounts: st1.accounts.insert(
                                sk,
                                Account::Contract {
                                    code_hash: seq_to_code_hash(cid),
                                    storage_root_hash: seq_to_code_hash(zero_hash()),
                                    nonce: tx.nonce,
                                },
                            ),
                            code: st1.code.insert(cid, wasm_bytes@),
                        },
                    )
                },
                TransactionPayload::ContractCall { .. } => {
                    match tx.recipient {
                        Address::Contract(_) => Ok(st1),
                        Address::Wallet(_) => Err(LedgerError::InvalidTransactionPayload),
                    }
                },
                TransactionPayload::Data { .. } => Ok(st1),
            }
        }
    }
}

/// The 32-byte array whose view is a given 32-byte sequence. Used only
/// in specifications, where an array cannot be written down directly.
pub open spec fn seq_to_code_hash(s: Seq<u8>) -> [u8; 32] {
    choose|a: [u8; 32]| a@ == s
}

/// The transfer step: the sender, already charged its nonce, must be a
/// wallet with enough balance; the recipient must be a wallet address
/// and is created on first credit.
pub open spec fn spec_apply_transfer(st1: LedgerState, tx: Transaction, amount: u64) -> Result<
    LedgerState,
    LedgerError,
> {
    let sk = tx.sender.bytes@;
    match st1.accounts[sk] {
        Account::Contract { .. } => Err(
            LedgerError::StateTransition(StateTransitionError::SenderNotWallet),
        ),
        Account::Wallet { balance, nonce } => {
            if balance < amount {
                Err(LedgerError::InsufficientBalance(tx.sender))
            } else {
                let st2 = LedgerState {
                    accounts: st1.accounts.insert(
                        sk,
                        Account::Wallet { balance: (balance - amount) as u64, nonce },
                    ),
                    code: st1.code,
                };
                match tx.recipient {
                    Address::Contract(_) => Err(
                        LedgerError::StateTransition(StateTransitionError::TransferToContract),
                    ),
                    Address::Wallet(rpk) => {
                        let rk = rpk.bytes@;
                        if st2.accounts.contains_key(rk) {
                            match st2.accounts[rk] {
                                Account::Contract { .. } => Err(
                                    LedgerError::StateTransition(
                                        StateTransitionError::RecipientNotWallet,
                                    ),
                                ),
                                Account::Wallet { balance: rb, nonce: rn } => {
                                    if rb as int + amount as int > u64::MAX as int {
                                        Err(
                                            LedgerError::StateTransition(
                                                StateTransitionError::BalanceOverflow,
                                            ),
                                        )
                                    } else {
                                        Ok(
                                            LedgerState {
                                                accounts: st2.accounts.insert(
                                                    rk,
                                                    Account::Wallet {
                                                        balance: (rb + amount) as u64,
                                                        nonce: rn,
                                                    },
                                                ),
                                                code: st2.code,
                                            },
                                        )
                                    }
                                },
                            }
                        } else {
                            Ok(
                                LedgerState {
                                    accounts: st2.accounts.insert(
                                        rk,
                                        Account::Wallet { balance: amount, nonce: 0 },
                                    ),
                                    code: st2.code,
                                },
                            )
                        }
                    },
                }
            }
        },
    }
}

/// The state transition of a transaction sequence, in order; the first
/// refused transaction aborts the whole application.
pub open spec fn spec_apply_txs(st: LedgerState, txs: Seq<Transaction>) -> Result<
    LedgerState,
    LedgerError,
>
    decreases txs.len(),
{
    if txs.len() == 0 {
        Ok(st)
    } else {
        match spec_apply_tx(st, txs[0]) {
            Ok(st1) => spec_apply_txs(st1, txs.drop_first()),
            Err(e) => Err(e),
        }
    }
}

/// Applying one more transaction extends the transition by one step.
pub proof fn lemma_spec_apply_txs_snoc(st: LedgerState, txs: Seq<Transaction>, i: int)
    requires
        0 <= i < txs.len(),
        spec_apply_txs(st, txs.take(i)) is Ok,
    ensures
        spec_apply_txs(st, txs.take(i + 1)) == spec_apply_tx(
            spec_apply_txs(st, txs.take(i)).unwrap(),
            txs[i],
        ),
    decreases i,
{
    let t1 = txs.take(i + 1);
    if i == 0 {
        assert(txs.take(0).len() == 0);
        assert(spec_apply_txs(st, txs.take(0)) == Ok::<LedgerState, LedgerError>(st));
        assert(t1.len() == 1);
        assert(t1[0] == txs[0]);
        assert(t1.drop_first() =~= txs.take(0));
        match spec_apply_tx(st, txs[0]) {
            Ok(st1) => {
                assert(spec_apply_txs(st, t1) == spec_apply_txs(st1, t1.drop_first()));
                assert(spec_apply_txs(st1, t1.drop_first()) == Ok::<LedgerState, LedgerError>(
                    st1,
                ));
            },
            Err(e) => {
                assert(spec_apply_txs(st, t1) == Err::<LedgerState, LedgerError>(e));
            },
        }
    } else {
        assert(t1.len() == i + 1);
        assert(t1[0] == txs[0]);
        assert(txs.take(i)[0] == txs[0]);
        assert(txs.take(i).len() == i);
        assert(spec_apply_tx(st, txs[0]) is Ok) by {
            if spec_apply_tx(st, txs[0]) is Err {
                assert(spec_apply_txs(st, txs.take(i)) is Err);
            }
        }
        let st1 = spec_apply_tx(st, txs[0]).unwrap();
        assert(t1.drop_first() =~= txs.drop_first().take(i));
        assert(txs.take(i).drop_first() =~= txs.drop_first().take(i - 1));
        assert(txs.drop_first()[i - 1] == txs[i]);
        assert(spec_apply_txs(st, t1) == spec_apply_txs(st1, txs.drop_first().take(i)));
        assert(spec_apply_txs(st, txs.take(i)) == spec_apply_txs(
            st1,
            txs.drop_first().take(i - 1),
        ));
        lemma_spec_apply_txs_snoc(st1, txs.drop_first(), i - 1);
    }
}

/// A failing step fails the whole sequence.
pub proof fn lemma_spec_apply_txs_fail(st: LedgerState, txs: Seq<Transaction>, i: int, e: LedgerError)
    requires
        0 <= i < txs.len(),
        spec_apply_txs(st, txs.take(i)) is Ok,
        spec_apply_tx(spec_apply_txs(st, txs.take(i)).unwrap(), txs[i]) == Err::<
            LedgerState,
            LedgerError,
        >(e),
    ensures
        spec_apply_txs(st, txs) == Err::<LedgerState, LedgerError>(e),
    decreases i,
{
    if i == 0 {
        assert(txs.take(0).len() == 0);
        assert(spec_apply_txs(st, txs.take(0)) == Ok::<LedgerState, LedgerError>(st));
        assert(spec_apply_tx(st, txs[0]) == Err::<LedgerState, LedgerError>(e));
    } else {
        assert(txs.take(i)[0] == txs[0]);
        assert(spec_apply_tx(st, txs[0]) is Ok) by {
            if spec_apply_tx(st, txs[0]) is Err {
                assert(spec_apply_txs(st, txs.take(i)) is Err);
            }
        }
        let st1 = spec_apply_tx(st, txs[0]).unwrap();
        assert(txs.take(i).drop_first() =~= txs.drop_first().take(i - 1));
        assert(txs.drop_first()[i - 1] == txs[i]);
        lemma_spec_apply_txs_fail(st1, txs.drop_first(), i - 1, e);
    }
}

/// Validation of the transactions of a block: every signature must
/// check; the first failure is reported with its transaction hash.
pub open spec fn spec_validate_txs(txs: Seq<Transaction>) -> Result<(), LedgerError>
    decreases txs.len(),
{
    if txs.len() == 0 {
        Ok(())
    } else if !txs[0].spec_signature_valid() {
        Err(
            LedgerError::BlockValidation(
                BlockValidationError::BadSignature { tx_hash: txs[0].hash },
            ),
        )
    } else {
        spec_validate_txs(txs.drop_first())
    }
}

/// A prefix of valid signatures does not change the verdict.
pub proof fn lemma_spec_validate_txs_skip(txs: Seq<Transaction>, i: int)
    requires
        0 <= i <= txs.len(),
        forall|k: int| 0 <= k < i ==> (#[trigger] txs[k]).spec_signature_valid(),
    ensures
        spec_validate_txs(txs) == spec_validate_txs(txs.skip(i)),
    decreases i,
{
    if i == 0 {
        assert(txs.skip(0) =~= txs);
    } else {
        assert(txs[0].spec_signature_valid());
        assert(txs.len() > 0);
        assert(forall|k: int|
            0 <= k < i - 1 ==> (#[trigger] txs.drop_first()[k]).spec_signature_valid()) by {
            assert(forall|k: int| 0 <= k < i - 1 ==> txs.drop_first()[k] == txs[k + 1]);
        }
        lemma_spec_validate_txs_skip(txs.drop_first(), i - 1);
        assert(txs.drop_first().skip(i - 1) =~= txs.skip(i));
        assert(spec_validate_txs(txs) == spec_validate_txs(txs.drop_first()));
    }
}

/// Header and signature validation of a candidate block against the
/// current tip. `prev_timestamp` is the committed tip's timestamp.
pub open spec fn spec_validate_block(
    b: Block,
    cs: ChainState,
    prev_timestamp: u64,
) -> Result<(), LedgerError> {
    if b.index as int != cs.latest_block_index as int + 1 {
        Err(
            LedgerError::BlockValidation(
                BlockValidationError::WrongIndex {
                    expected: reported_next_index(cs),
                    got: b.index,
                },
            ),
        )
    } else if b.prev_hash@ != cs.latest_block_hash@ {
        Err(LedgerError::BlockValidation(BlockValidationError::WrongPrevHash))
    } else if b.hash@ != b.spec_hash() {
        Err(LedgerError::BlockValidation(BlockValidationError::WrongHash))
    } else if b.index > 0 && b.timestamp <= prev_timestamp {
        Err(LedgerError::BlockValidation(BlockValidationError::StaleTimestamp))
    } else {
        spec_validate_txs(b.transactions@)
    }
}

/// The index reported in a `WrongIndex` error, saturating at the
/// largest representable value.
pub open spec fn reported_next_index(cs: ChainState) -> u64 {
    if cs.latest_block_index == u64::MAX {
        u64::MAX
    } else {
        (cs.latest_block_index + 1) as u64
    }
}

/// The raw accounts tree holds exactly the encodings of a decoded
/// account map.
pub open spec fn accounts_abstracted(
    tree: Map<Seq<u8>, Seq<u8>>,
    m: Map<Seq<u8>, Account>,
) -> bool {
    &&& tree.dom() == m.dom()
    &&& forall|k: Seq<u8>|
        m.contains_key(k) ==> tree.contains_key(k) && #[trigger] tree[k] == enc_account(m[k])
}

/// The value stored under a hash key is a block encoding whose hash
/// field is that hash.
pub open spec fn hash_entry_ok(store: KvStore, h: Seq<u8>) -> bool {
    exists|b2: Block|
        store.tree_map(TreeId::Blocks).index(h) == #[trigger] enc_block(b2) && b2.hash@ == h
}

/// One committed block of the chain is stored and linked correctly.
pub open spec fn chain_entry_ok(store: KvStore, chain: Seq<Block>, i: int) -> bool {
    let b = chain[i];
    &&& b.index as int == i
    &&& store.tree_map(TreeId::Blocks).contains_key(height_key_spec(i as u64))
    &&& store.tree_map(TreeId::Blocks).index(height_key_spec(i as u64)) == enc_block(b)
    &&& store.tree_map(TreeId::Blocks).contains_key(b.hash@)
    &&& hash_entry_ok(store, b.hash@)
    &&& b.hash@ == b.spec_hash()
    &&& if i == 0 {
        b.prev_hash@ == zero_hash()
    } else {
        b.prev_hash@ == chain[i - 1].hash@
    }
}

/// The committed chain is linear, indexed by height, and summarized by
/// the chain state: block `i` links to block `i - 1`, every height up
/// to the tip is indexed, and the tip matches the cached summary.
pub open spec fn chain_ok(store: KvStore, chain: Seq<Block>, cs: ChainState) -> bool {
    &&& chain.len() == cs.latest_block_index as int + 1
    &&& chain.last().hash@ == cs.latest_block_hash@
    &&& store.tree_map(TreeId::ChainStateTree).contains_key(chain_state_key_spec())
    &&& store.tree_map(TreeId::ChainStateTree).index(chain_state_key_spec()) == enc_chain_state(
        cs,
    )
    &&& forall|i: int| 0 <= i < chain.len() ==> #[trigger] chain_entry_ok(store, chain, i)
    &&& store.tree_map(TreeId::Blocks).index(cs.latest_block_hash@) == enc_block(chain.last())
}

/// The ledger: the store, the contract engine, and the ghost model of
/// the decoded accounts and the committed chain.
pub struct Ledger {
    pub store: KvStore,
    pub engine: BaaLSContractEngine,
    pub accounts_model: Ghost<Map<Seq<u8>, Account>>,
    pub chain: Ghost<Seq<Block>>,
}

impl Ledger {
    /// The ledger's invariant relative to the cached chain state: the
    /// store is well formed, the accounts tree abstracts to the ghost
    /// account map, and the committed chain is linear and indexed.
    pub open spec fn inv(self, cs: ChainState) -> bool {
        &&& self.store.wf()
        &&& accounts_abstracted(
            self.store.tree_map(TreeId::Accounts),
            self.accounts_model@,
        )
        &&& chain_ok(self.store, self.chain@, cs)
    }

    /// The ledger state the next block application starts from.
    pub open spec fn state(self) -> LedgerState {
        LedgerState {
            accounts: self.accounts_model@,
            code: self.store.tree_map(TreeId::ContractCode),
        }
    }

    /// Wrap a store and a contract engine.
    pub fn new(store: KvStore, engine: BaaLSContractEngine) -> (r: Ledger)
        ensures
            r.store == store,
            r.engine == engine,
    {
        Ledger { store, engine, accounts_model: Ghost(Map::empty()), chain: Ghost(Seq::empty()) }
    }

    /// Create and commit the genesis block and the initial chain state,
    /// unless a chain state is already present; in that case nothing
    /// changes. Two successive calls therefore leave the same on-disk
    /// state as one: genesis is idempotent.
    pub fn initialize_chain(&mut self) -> (r: Result<(), LedgerError>)
        requires
            old(self).store.wf(),
            accounts_abstracted(
                old(self).store.tree_map(TreeId::Accounts),
                old(self).accounts_model@,
            ),
        ensures
            final(self).store.wf(),
            final(self).engine == old(self).engine,
            old(self).store.tree_map(TreeId::ChainStateTree).contains_key(chain_state_key_spec())
                ==> r is Ok && KvStore::same_trees(final(self).store, old(self).store) && final(self).accounts_model == old(self).accounts_model && final(self).chain == old(self).chain
                && final(self).store.fail_next_batch == old(self).store.fail_next_batch,
            !old(self).store.tree_map(TreeId::ChainStateTree).contains_key(chain_state_key_spec())
                && old(self).store.fail_next_batch ==> r == Err::<(), LedgerError>(
                LedgerError::StorageError(StorageError::DatabaseError),
            ) && KvStore::same_trees(final(self).store, old(self).store) && final(self).accounts_model == old(self).accounts_model,
            !old(self).store.tree_map(TreeId::ChainStateTree).contains_key(chain_state_key_spec())
                && !old(self).store.fail_next_batch ==> r is Ok && initialized_from(
                *old(self),
                *final(self),
            ),
            !final(self).store.fail_next_batch || (old(self).store.fail_next_batch && old(self).store.tree_map(TreeId::ChainStateTree).contains_key(chain_state_key_spec())),
    {
        match self.store.get_chain_state() {
            Result::Ok(Option::Some(_)) => {
                return Ok(());
            },
            Result::Err(_) => {
                // A present but undecodable chain state also counts as
                // initialized: nothing is overwritten.
                return Ok(());
            },
            Result::Ok(Option::None) => {},
        }
        let zero = [0u8; 32];
        let genesis = Block {
            index: 0,
            timestamp: 0,
            prev_hash: zero,
            hash: zero,
            nonce: 0,
            transactions: Vec::new(),
            metadata: None,
        };
        proof {
            assert(genesis.md_wf_all());
        }
        let ghash = match genesis.calculate_hash() {
            Result::Ok(h) => h,
            Result::Err(_) => {
                proof {
                    assert(false);
                }
                zero
            },
        };
        let genesis = Block { hash: ghash, ..genesis };
        let initial_state = ChainState {
            latest_block_hash: ghash,
            latest_block_index: 0,
            accounts_root_hash: zero,
            total_supply: 0,
        };
        let mut batch = StorageBatch::new();
        let enc_g = encode_block(&genesis);
        let enc_g2 = copy_bytes(&enc_g);
        batch.ops.push(StorageOperation::Put(TreeId::Blocks, hash_key(&genesis.hash), enc_g));
        batch.ops.push(StorageOperation::Put(TreeId::Blocks, height_key(0), enc_g2));
        batch.ops.push(
            StorageOperation::Put(
                TreeId::ChainStateTree,
                chain_state_key(),
                encode_chain_state(&initial_state),
            ),
        );
        let ghost ops = batch.ops@;
        match self.store.apply_batch(batch) {
            Result::Err(e) => {
                return Err(LedgerError::StorageError(e));
            },
            Result::Ok(()) => {},
        }
        proof {
            assert(zero@ =~= zero_hash());
            self.chain@ = seq![genesis];
            assert forall|t: TreeId| true implies #[trigger] self.store.tree_map(t)
                == three_put_effect(old(self).store.tree_map(t), t, ops) by {
                lemma_three_puts(old(self).store.tree_map(t), t, ops);
            }
            assert(self.store.tree_map(TreeId::Blocks) == old(self).store.tree_map(
                TreeId::Blocks,
            ).insert(genesis.hash@, enc_block(genesis)).insert(
                height_key_spec(0),
                enc_block(genesis),
            ));
            assert(self.store.tree_map(TreeId::ChainStateTree) == old(self).store.tree_map(
                TreeId::ChainStateTree,
            ).insert(chain_state_key_spec(), enc_chain_state(initial_state)));
            assert(initialized_from(*old(self), *self)) by {
                let chain = self.chain@;
                let gb = chain[0];
                assert(gb == genesis);
                assert(height_key_spec(0).len() == 27);
                assert(genesis.hash@.len() == 32);
                assert(chain_entry_ok(self.store, chain, 0)) by {
                    assert(self.store.tree_map(TreeId::Blocks).index(genesis.hash@) == enc_block(
                        genesis,
                    ));
                    assert(hash_entry_ok(self.store, genesis.hash@));
                }
                assert(chain_ok(self.store, chain, initial_state));
                assert(accounts_abstracted(
                    self.store.tree_map(TreeId::Accounts),
                    self.accounts_model@,
                ));
                assert(self.inv(initial_state));
                assert(self.inv_of_initial());
                assert(initial_state.latest_block_index == 0 && initial_state.total_supply == 0
                    && initial_state.accounts_root_hash@ == zero_hash()
                    && initial_state.latest_block_hash@ == self.chain@[0].hash@);
                assert(block_signing_bytes(genesis) == block_signing_bytes(
                    Block {
                        index: 0,
                        timestamp: 0,
                        prev_hash: zero,
                        hash: zero,
                        nonce: 0,
                        transactions: genesis.transactions,
                        metadata: None,
                    },
                ));
            }
        }
        Ok(())
    }
}

/// What a fresh initialization guarantees: a one-block chain whose
/// genesis block has index zero, timestamp zero, an all-zero previous
/// hash, no transactions and no metadata; a chain state summarizing it
/// with zero total supply; and no other tree touched.
pub open spec fn initialized_from(pre: Ledger, post: Ledger) -> bool {
    &&& post.chain@.len() == 1
    &&& post.chain@[0].index == 0
    &&& post.chain@[0].timestamp == 0
    &&& post.chain@[0].prev_hash@ == zero_hash()
    &&& post.chain@[0].nonce == 0
    &&& post.chain@[0].transactions@.len() == 0
    &&& post.chain@[0].metadata is None
    &&& post.chain@[0].hash@ == post.chain@[0].spec_hash()
    &&& post.accounts_model == pre.accounts_model
    &&& exists|cs: ChainState|
        {
            &&& #[trigger] chain_ok(post.store, post.chain@, cs)
            &&& cs.latest_block_index == 0
            &&& cs.latest_block_hash@ == post.chain@[0].hash@
            &&& cs.accounts_root_hash@ == zero_hash()
            &&& cs.total_supply == 0
        }
    &&& post.inv_of_initial()
    &&& forall|t: TreeId|
        t != TreeId::Blocks && t != TreeId::ChainStateTree ==> #[trigger] post.store.tree_map(t)
            == pre.store.tree_map(t)
    &&& post.store.tree_map(TreeId::Blocks) == pre.store.tree_map(TreeId::Blocks).insert(
        post.chain@[0].hash@,
        enc_block(post.chain@[0]),
    ).insert(height_key_spec(0), enc_block(post.chain@[0]))
    &&& post.store.tree_map(TreeId::ChainStateTree).contains_key(chain_state_key_spec())
}

impl Ledger {
    /// After a fresh initialization the invariant holds for the chain
    /// state that summarizes the genesis block.
    pub open spec fn inv_of_initial(self) -> bool {
        exists|cs: ChainState| #[trigger] self.inv(cs) && cs.latest_block_index == 0
    }
}

/// A store holds a committed chain that a ledger can be rebuilt over:
/// some chain and summary satisfy the chain invariant on it.
pub open spec fn restorable(store: KvStore) -> bool {
    exists|chain: Seq<Block>, cs: ChainState| #[trigger] chain_ok(store, chain, cs)
}

/// The combined effect of the three genesis puts on one tree.
pub open spec fn three_put_effect(
    m: Map<Seq<u8>, Seq<u8>>,
    t: TreeId,
    ops: Seq<StorageOperation>,
) -> Map<Seq<u8>, Seq<u8>> {
    apply_op(apply_op(apply_op(m, t, ops[0]), t, ops[1]), t, ops[2])
}

/// A three-element batch applies as three steps.
proof fn lemma_three_puts(m: Map<Seq<u8>, Seq<u8>>, t: TreeId, ops: Seq<StorageOperation>)
    requires
        ops.len() == 3,
    ensures
        tree_after_ops(m, t, ops) == three_put_effect(m, t, ops),
{
    let m1 = apply_op(m, t, ops[0]);
    let m2 = apply_op(m1, t, ops[1]);
    assert(ops.drop_first().len() == 2);
    assert(ops.drop_first()[0] == ops[1]);
    assert(ops.drop_first().drop_first().len() == 1);
    assert(ops.drop_first().drop_first()[0] == ops[2]);
    assert(ops.drop_first().drop_first().drop_first().len() == 0);
    assert(tree_after_ops(m, t, ops) == tree_after_ops(m1, t, ops.drop_first()));
    assert(tree_after_ops(m1, t, ops.drop_first()) == tree_after_ops(
        m2,
        t,
        ops.drop_first().drop_first(),
    ));
    let dd = ops.drop_first().drop_first();
    assert(tree_after_ops(m2, t, dd) == tree_after_ops(apply_op(m2, t, ops[2]), t,
        dd.drop_first()));
    assert(dd.drop_first().len() == 0);
    assert(tree_after_ops(apply_op(m2, t, ops[2]), t, dd.drop_first()) == apply_op(m2, t,
        ops[2]));
}

impl Ledger {
    /// Validate a candidate block against the current tip: its index
    /// and previous-hash link, its recomputed hash, its timestamp
    /// against the committed tip's, and every transaction signature.
    /// The verdict equals [`spec_validate_block`], with the first
    /// failing check reported.
    pub fn validate_block(&self, block: &Block, current_chain_state: &ChainState) -> (r: Result<
        (),
        LedgerError,
    >)
        requires
            self.inv(*current_chain_state),
            block.md_wf_all(),
        ensures
            r == spec_validate_block(
                *block,
                *current_chain_state,
                self.chain@.last().timestamp,
            ),
    {
        let cs = current_chain_state;
        if cs.latest_block_index == u64::MAX || block.index != cs.latest_block_index + 1 {
            let expected: u64 = if cs.latest_block_index == u64::MAX {
                u64::MAX
            } else {
                cs.latest_block_index + 1
            };
            return Err(
                LedgerError::BlockValidation(
                    BlockValidationError::WrongIndex { expected, got: block.index },
                ),
            );
        }
        if !bytes32_eq(&block.prev_hash, &cs.latest_block_hash) {
            return Err(LedgerError::BlockValidation(BlockValidationError::WrongPrevHash));
        }
        let calculated = match block.calculate_hash() {
            Result::Ok(h) => h,
            Result::Err(_) => {
                proof {
                    assert(false);
                }
                [0u8; 32]
            },
        };
        if !bytes32_eq(&calculated, &block.hash) {
            return Err(LedgerError::BlockValidation(BlockValidationError::WrongHash));
        }
        let prev = match self.store.get_block(&block.prev_hash) {
            Result::Ok(Option::Some(b)) => b,
            Result::Ok(Option::None) => {
                proof {
                    assert(self.store.tree_map(TreeId::Blocks).contains_key(
                        cs.latest_block_hash@,
                    )) by {
                        assert(chain_entry_ok(
                            self.store,
                            self.chain@,
                            self.chain@.len() - 1,
                        ));
                    }
                    assert(false);
                }
                return Err(LedgerError::NotFound);
            },
            Result::Err(e) => {
                proof {
                    let tip = self.chain@.last();
                    assert(chain_entry_ok(self.store, self.chain@, self.chain@.len() - 1));
                    assert(self.store.tree_map(TreeId::Blocks).index(cs.latest_block_hash@)
                        == enc_block(tip));
                    assert(!no_block_full(self.store.tree_map(TreeId::Blocks).index(
                        cs.latest_block_hash@,
                    ))) by {
                        assert(self.store.tree_map(TreeId::Blocks).index(cs.latest_block_hash@)
                            == enc_block(tip));
                    }
                    assert(false);
                }
                return Err(LedgerError::StorageError(e));
            },
        };
        proof {
            let tip = self.chain@.last();
            assert(self.store.tree_map(TreeId::Blocks).index(cs.latest_block_hash@) == enc_block(
                tip,
            ));
            assert(block_eqv(prev, tip));
            assert(prev.timestamp == tip.timestamp);
        }
        if block.index > 0 && block.timestamp <= prev.timestamp {
            return Err(LedgerError::BlockValidation(BlockValidationError::StaleTimestamp));
        }
        let txs = &block.transactions;
        proof {
            assert(spec_validate_block(
                *block,
                *current_chain_state,
                self.chain@.last().timestamp,
            ) == spec_validate_txs(txs@));
        }
        let mut i: usize = 0;
        while i < txs.len()
            invariant
                0 <= i <= txs@.len(),
                forall|k: int| 0 <= k < i ==> (#[trigger] txs@[k]).spec_signature_valid(),
                txs == block.transactions,
                block.md_wf_all(),
                spec_validate_block(
                    *block,
                    *current_chain_state,
                    self.chain@.last().timestamp,
                ) == spec_validate_txs(txs@),
            decreases txs@.len() - i,
        {
            let ok = match txs[i].verify_signature() {
                Result::Ok(b) => b,
                Result::Err(_) => {
                    proof {
                        assert(false);
                    }
                    false
                },
            };
            if !ok {
                proof {
                    lemma_spec_validate_txs_skip(txs@, i as int);
                    assert(txs@.skip(i as int)[0] == txs@[i as int]);
                    assert(txs@.skip(i as int).len() > 0);
                    assert(spec_validate_txs(txs@.skip(i as int)) == Err::<(), LedgerError>(
                        LedgerError::BlockValidation(
                            BlockValidationError::BadSignature { tx_hash: txs@[i as int].hash },
                        ),
                    ));
                    assert(spec_validate_block(
                        *block,
                        *current_chain_state,
                        self.chain@.last().timestamp,
                    ) == spec_validate_txs(txs@));
                }
                return Err(
                    LedgerError::BlockValidation(
                        BlockValidationError::BadSignature { tx_hash: txs[i].hash },
                    ),
                );
            }
            i = i + 1;
        }
        proof {
            lemma_spec_validate_txs_skip(txs@, txs@.len() as int);
            assert(txs@.skip(txs@.len() as int).len() == 0);
        }
        Ok(())
    }
}

/// The buffered account mutations of a block, applied over a base map
/// in order; a later entry for the same key wins.
pub open spec fn updates_map(
    base: Map<Seq<u8>, Account>,
    ups: Seq<(PublicKey, Account)>,
) -> Map<Seq<u8>, Account>
    decreases ups.len(),
{
    if ups.len() == 0 {
        base
    } else {
        updates_map(base, ups.drop_last()).insert(ups.last().0.bytes@, ups.last().1)
    }
}

/// The same buffered mutations, staged as encoded puts over the raw
/// accounts tree.
pub open spec fn enc_updates(
    m: Map<Seq<u8>, Seq<u8>>,
    ups: Seq<(PublicKey, Account)>,
) -> Map<Seq<u8>, Seq<u8>>
    decreases ups.len(),
{
    if ups.len() == 0 {
        m
    } else {
        enc_updates(m, ups.drop_last()).insert(
            ups.last().0.bytes@,
            enc_account(ups.last().1),
        )
    }
}

/// Flushing the buffered mutations keeps the tree abstracting to the
/// account map.
pub proof fn lemma_updates_abstracted(
    m: Map<Seq<u8>, Seq<u8>>,
    base: Map<Seq<u8>, Account>,
    ups: Seq<(PublicKey, Account)>,
)
    requires
        accounts_abstracted(m, base),
    ensures
        accounts_abstracted(enc_updates(m, ups), updates_map(base, ups)),
    decreases ups.len(),
{
    if ups.len() > 0 {
        lemma_updates_abstracted(m, base, ups.drop_last());
        assert(enc_updates(m, ups).dom() =~= updates_map(base, ups).dom());
    }
}

/// The last buffered entry for a key decides its account.
pub proof fn lemma_updates_map_hit(
    base: Map<Seq<u8>, Account>,
    ups: Seq<(PublicKey, Account)>,
    j: int,
)
    requires
        0 <= j < ups.len(),
        forall|j2: int| j < j2 < ups.len() ==> (#[trigger] ups[j2]).0.bytes@ != ups[j].0.bytes@,
    ensures
        updates_map(base, ups).contains_key(ups[j].0.bytes@),
        updates_map(base, ups).index(ups[j].0.bytes@) == ups[j].1,
    decreases ups.len(),
{
    if j == ups.len() - 1 {
        assert(ups.last() == ups[j]);
    } else {
        assert(ups.last() == ups[ups.len() - 1]);
        assert(ups.last().0.bytes@ != ups[j].0.bytes@);
        assert(forall|j2: int|
            j < j2 < ups.drop_last().len() ==> (#[trigger] ups.drop_last()[j2]).0.bytes@
                != ups.drop_last()[j].0.bytes@) by {
            assert(forall|j2: int|
                0 <= j2 < ups.drop_last().len() ==> #[trigger] ups.drop_last()[j2] == ups[j2]);
        }
        lemma_updates_map_hit(base, ups.drop_last(), j);
        assert(ups.drop_last()[j] == ups[j]);
    }
}

/// A key with no buffered entry reads from the base map.
pub proof fn lemma_updates_map_miss(
    base: Map<Seq<u8>, Account>,
    ups: Seq<(PublicKey, Account)>,
    k: Seq<u8>,
)
    requires
        forall|j: int| 0 <= j < ups.len() ==> (#[trigger] ups[j]).0.bytes@ != k,
    ensures
        updates_map(base, ups).contains_key(k) == base.contains_key(k),
        base.contains_key(k) ==> updates_map(base, ups).index(k) == base.index(k),
    decreases ups.len(),
{
    if ups.len() > 0 {
        assert(forall|j: int|
            0 <= j < ups.drop_last().len() ==> (#[trigger] ups.drop_last()[j]).0.bytes@ != k) by {
            assert(forall|j: int|
                0 <= j < ups.drop_last().len() ==> #[trigger] ups.drop_last()[j] == ups[j]);
        }
        lemma_updates_map_miss(base, ups.drop_last(), k);
        assert(ups.last() == ups[ups.len() - 1]);
    }
}

/// The mempool tree after the transactions of a block are consumed.
pub open spec fn mempool_minus(m: Map<Seq<u8>, Seq<u8>>, txs: Seq<Transaction>) -> Map<
    Seq<u8>,
    Seq<u8>,
>
    decreases txs.len(),
{
    if txs.len() == 0 {
        m
    } else {
        mempool_minus(m, txs.drop_last()).remove(txs.last().hash@)
    }
}

/// The transactions tree after the transactions of a block are stored.
pub open spec fn txs_inserted(m: Map<Seq<u8>, Seq<u8>>, txs: Seq<Transaction>) -> Map<
    Seq<u8>,
    Seq<u8>,
>
    decreases txs.len(),
{
    if txs.len() == 0 {
        m
    } else {
        txs_inserted(m, txs.drop_last()).insert(txs.last().hash@, enc_tx(txs.last()))
    }
}

/// The per-block index tree after the transactions of a block are
/// indexed by position.
pub open spec fn txbb_inserted(
    m: Map<Seq<u8>, Seq<u8>>,
    block_hash: Seq<u8>,
    txs: Seq<Transaction>,
) -> Map<Seq<u8>, Seq<u8>>
    decreases txs.len(),
{
    if txs.len() == 0 {
        m
    } else {
        txbb_inserted(m, block_hash, txs.drop_last()).insert(
            block_tx_key_spec(block_hash, txs.last().hash@, (txs.len() - 1) as u64),
            txs.last().hash@,
        )
    }
}

/// Find the most recent buffered mutation for a key.
fn find_update(ups: &Vec<(PublicKey, Account)>, pk: &PublicKey) -> (r: Option<usize>)
    ensures
        r matches Some(j) ==> j < ups@.len() && ups@[j as int].0.bytes@ == pk.bytes@ && (
        forall|j2: int| j < j2 < ups@.len() ==> (#[trigger] ups@[j2]).0.bytes@ != pk.bytes@),
        r is None ==> forall|j: int|
            0 <= j < ups@.len() ==> (#[trigger] ups@[j]).0.bytes@ != pk.bytes@,
{
    let mut i: usize = ups.len();
    while i > 0
        invariant
            0 <= i <= ups@.len(),
            forall|j2: int| i <= j2 < ups@.len() ==> (#[trigger] ups@[j2]).0.bytes@ != pk.bytes@,
        decreases i,
    {
        i = i - 1;
        if bytes32_eq(&ups[i].0.bytes, &pk.bytes) {
            return Some(i);
        }
    }
    None
}

/// What a committed block guarantees: the account model advances by
/// the block's transition, the block and its transactions are stored
/// and indexed, the consumed transactions leave the mempool tree, the
/// chain grows by the block, and the invariant holds for the advanced
/// chain state.
pub open spec fn applied_block(
    pre: Ledger,
    pre_cs: ChainState,
    block: Block,
    post: Ledger,
    post_cs: ChainState,
) -> bool {
    let st1 = spec_apply_txs(pre.state(), block.transactions@).unwrap();
    &&& spec_apply_txs(pre.state(), block.transactions@) is Ok
    &&& post.accounts_model@ == st1.accounts
    &&& post.store.tree_map(TreeId::ContractCode) == st1.code
    &&& post.chain@ == pre.chain@.push(block)
    &&& post_cs.latest_block_hash@ == block.hash@
    &&& post_cs.latest_block_index == block.index
    &&& post_cs.accounts_root_hash == pre_cs.accounts_root_hash
    &&& post_cs.total_supply == pre_cs.total_supply
    &&& post.inv(post_cs)
    &&& post.store.tree_map(TreeId::Mempool) == mempool_minus(
        pre.store.tree_map(TreeId::Mempool),
        block.transactions@,
    )
    &&& post.store.tree_map(TreeId::Transactions) == txs_inserted(
        pre.store.tree_map(TreeId::Transactions),
        block.transactions@,
    )
    &&& post.store.tree_map(TreeId::TxByBlock) == txbb_inserted(
        pre.store.tree_map(TreeId::TxByBlock),
        block.hash@,
        block.transactions@,
    )
    &&& post.store.tree_map(TreeId::Blocks) == pre.store.tree_map(TreeId::Blocks).insert(
        block.hash@,
        enc_block(block),
    ).insert(height_key_spec(block.index), enc_block(block))
    &&& post.store.tree_map(TreeId::ContractStorage) == pre.store.tree_map(
        TreeId::ContractStorage,
    )
    &&& post.store.tree_map(TreeId::ChainStateTree) == pre.store.tree_map(
        TreeId::ChainStateTree,
    ).insert(chain_state_key_spec(), enc_chain_state(post_cs))
}

impl Ledger {
    /// Apply a validated block: run every transaction's state
    /// transition over the buffered account map, stage every mutation
    /// into one batch, and commit it atomically. A refused transaction
    /// or a failed commit leaves every tree, the ghost model and the
    /// cached chain state exactly as they were.
    #[verifier::rlimit(100)]
    #[verifier::spinoff_prover]
    pub fn apply_block(&mut self, block: &Block, current_chain_state: &mut ChainState) -> (r:
        Result<(), LedgerError>)
        requires
            old(self).inv(*old(current_chain_state)),
            block.index as int == old(current_chain_state).latest_block_index as int + 1,
            block.prev_hash@ == old(current_chain_state).latest_block_hash@,
            block.hash@ == block.spec_hash(),
            block.timestamp > old(self).chain@.last().timestamp,
        ensures
            final(self).engine == old(self).engine,
            final(self).store.wf(),
            (match spec_apply_txs(old(self).state(), block.transactions@) {
                Result::Err(e) => r == Err::<(), LedgerError>(e),
                Result::Ok(st1) => if old(self).store.fail_next_batch {
                    r == Err::<(), LedgerError>(
                        LedgerError::StorageError(StorageError::DatabaseError),
                    )
                } else {
                    r is Ok
                },
            }),
            r is Err ==> KvStore::same_trees(final(self).store, old(self).store) && *final(current_chain_state) == *old(current_chain_state) && final(self).accounts_model == old(
                self,
            ).accounts_model && final(self).chain == old(self).chain && final(self).inv(
                *final(current_chain_state),
            ),
            r is Ok ==> applied_block(
                *old(self),
                *old(current_chain_state),
                *block,
                *final(self),
                *final(current_chain_state),
            ),
    {
        let ghost st0 = old(self).state();
        let ghost model0 = old(self).accounts_model@;
        let txs = &block.transactions;
        let mut batch = StorageBatch::new();
        let mut updates: Vec<(PublicKey, Account)> = Vec::new();
        proof {
            assert(txs@.take(0).len() == 0);
            assert(spec_apply_txs(st0, txs@.take(0)) == Ok::<LedgerState, LedgerError>(st0));
            assert(st0.accounts == updates_map(model0, updates@));
            assert(st0.code == tree_after_ops(
                old(self).store.tree_map(TreeId::ContractCode),
                TreeId::ContractCode,
                batch.ops@,
            ));
            assert(mempool_minus(old(self).store.tree_map(TreeId::Mempool), txs@.take(0)) == old(
                self,
            ).store.tree_map(TreeId::Mempool));
        }
        let mut i: usize = 0;
        while i < txs.len()
            invariant
                0 <= i <= txs@.len(),
                txs@ == block.transactions@,
                *self == *old(self),
                *current_chain_state == *old(current_chain_state),
                old(self).inv(*old(current_chain_state)),
                st0 == old(self).state(),
                model0 == old(self).accounts_model@,
                spec_apply_txs(st0, txs@.take(i as int)) == Ok::<LedgerState, LedgerError>(
                    LedgerState {
                        accounts: updates_map(model0, updates@),
                        code: tree_after_ops(
                            old(self).store.tree_map(TreeId::ContractCode),
                            TreeId::ContractCode,
                            batch.ops@,
                        ),
                    },
                ),
                tree_after_ops(
                    old(self).store.tree_map(TreeId::Mempool),
                    TreeId::Mempool,
                    batch.ops@,
                ) == mempool_minus(
                    old(self).store.tree_map(TreeId::Mempool),
                    txs@.take(i as int),
                ),
                forall|t: TreeId|
                    t != TreeId::ContractCode && t != TreeId::Mempool
                        ==> #[trigger] tree_after_ops(
                        old(self).store.tree_map(t),
                        t,
                        batch.ops@,
                    ) == old(self).store.tree_map(t),
            decreases txs@.len() - i,
        {
            let ghost pre_ops = batch.ops@;
            let ghost pre_ups = updates@;
            let ghost cur = LedgerState {
                accounts: updates_map(model0, pre_ups),
                code: tree_after_ops(
                    old(self).store.tree_map(TreeId::ContractCode),
                    TreeId::ContractCode,
                    pre_ops,
                ),
            };
            let tx = &txs[i];
            let ghost stx = txs@[i as int];
            // Load the sender, preferring the buffered mutations of
            // this block over the stored account.
            let sender0: Account;
            match find_update(&updates, &tx.sender) {
                Option::Some(j) => {
                    sender0 = updates[j].1;
                    proof {
                        lemma_updates_map_hit(model0, pre_ups, j as int);
                    }
                },
                Option::None => {
                    proof {
                        lemma_updates_map_miss(model0, pre_ups, tx.sender.bytes@);
                    }
                    match self.store.get_account(&tx.sender) {
                        Result::Ok(Option::Some(a)) => {
                            sender0 = a;
                            proof {
                                assert(model0.contains_key(stx.sender.bytes@));
                                assert(old(self).store.tree_map(TreeId::Accounts).index(
                                    stx.sender.bytes@,
                                ) == enc_account(model0[stx.sender.bytes@]));
                                assert(a == model0[stx.sender.bytes@]);
                            }
                        },
                        Result::Ok(Option::None) => {
                            proof {
                                assert(!model0.contains_key(stx.sender.bytes@));
                                assert(!cur.accounts.contains_key(stx.sender.bytes@));
                                assert(spec_apply_tx(cur, stx) == Err::<LedgerState, LedgerError>(
                                    LedgerError::AccountNotFound(stx.sender),
                                ));
                                lemma_spec_apply_txs_fail(
                                    st0,
                                    txs@,
                                    i as int,
                                    LedgerError::AccountNotFound(stx.sender),
                                );
                            }
                            return Err(LedgerError::AccountNotFound(tx.sender));
                        },
                        Result::Err(_) => {
                            proof {
                                assert(old(self).store.tree_map(TreeId::Accounts).contains_key(
                                    stx.sender.bytes@,
                                ));
                                assert(model0.contains_key(stx.sender.bytes@));
                                assert(old(self).store.tree_map(TreeId::Accounts).index(
                                    stx.sender.bytes@,
                                ) == enc_account(model0[stx.sender.bytes@]));
                                assert(false);
                            }
                            return Err(LedgerError::NotFound);
                        },
                    }
                },
            }
            proof {
                assert(cur.accounts.contains_key(stx.sender.bytes@));
                assert(cur.accounts.index(stx.sender.bytes@) == sender0);
            }
            // Nonce check: the transaction must carry the next nonce.
            let snonce = sender0.nonce();
            if snonce == u64::MAX || tx.nonce != snonce + 1 {
                let expected: u64 = if snonce == u64::MAX {
                    u64::MAX
                } else {
                    snonce + 1
                };
                proof {
                    assert(spec_apply_tx(cur, stx) == Err::<LedgerState, LedgerError>(
                        LedgerError::InvalidNonce(
                            stx.sender,
                            reported_expected_nonce(sender0),
                            stx.nonce,
                        ),
                    ));
                    lemma_spec_apply_txs_fail(
                        st0,
                        txs@,
                        i as int,
                        LedgerError::InvalidNonce(
                            stx.sender,
                            reported_expected_nonce(sender0),
                            stx.nonce,
                        ),
                    );
                }
                return Err(LedgerError::InvalidNonce(tx.sender, expected, tx.nonce));
            }
            let mut sender1 = sender0;
            sender1.set_nonce(tx.nonce);
            updates.push((tx.sender, sender1));
            let ghost ups1 = updates@;
            proof {
                assert(ups1.drop_last() =~= pre_ups);
                assert(updates_map(model0, ups1) == cur.accounts.insert(
                    stx.sender.bytes@,
                    sender1,
                ));
            }
            let ghost st1g = LedgerState {
                accounts: cur.accounts.insert(stx.sender.bytes@, sender1),
                code: cur.code,
            };
            match &tx.payload {
                TransactionPayload::Transfer { amount } => {
                    let amount = *amount;
                    match sender1 {
                        Account::Contract { .. } => {
                            proof {
                                assert(spec_apply_tx(cur, stx) == Err::<LedgerState, LedgerError>(
                                    LedgerError::StateTransition(
                                        StateTransitionError::SenderNotWallet,
                                    ),
                                ));
                                lemma_spec_apply_txs_fail(
                                    st0,
                                    txs@,
                                    i as int,
                                    LedgerError::StateTransition(
                                        StateTransitionError::SenderNotWallet,
                                    ),
                                );
                            }
                            return Err(
                                LedgerError::StateTransition(StateTransitionError::SenderNotWallet),
                            );
                        },
                        Account::Wallet { balance, nonce } => {
                            if balance < amount {
                                proof {
                                    assert(spec_apply_tx(cur, stx) == Err::<
                                        LedgerState,
                                        LedgerError,
                                    >(LedgerError::InsufficientBalance(stx.sender)));
                                    lemma_spec_apply_txs_fail(
                                        st0,
                                        txs@,
                                        i as int,
                                        LedgerError::InsufficientBalance(stx.sender),
                                    );
                                }
                                return Err(LedgerError::InsufficientBalance(tx.sender));
                            }
                            let debited = Account::Wallet { balance: balance - amount, nonce };
                            updates.push((tx.sender, debited));
                            let ghost ups2 = updates@;
                            proof {
                                assert(ups2.drop_last() =~= ups1);
                                assert(updates_map(model0, ups2) == st1g.accounts.insert(
                                    stx.sender.bytes@,
                                    debited,
                                ));
                            }
                            let ghost st2g = LedgerState {
                                accounts: st1g.accounts.insert(stx.sender.bytes@, debited),
                                code: st1g.code,
                            };
                            match &tx.recipient {
                                Address::Contract(_) => {
                                    proof {
                                        assert(spec_apply_tx(cur, stx) == Err::<
                                            LedgerState,
                                            LedgerError,
                                        >(LedgerError::StateTransition(
                                            StateTransitionError::TransferToContract,
                                        )));
                                        lemma_spec_apply_txs_fail(
                                            st0,
                                            txs@,
                                            i as int,
                                            LedgerError::StateTransition(
                                                StateTransitionError::TransferToContract,
                                            ),
                                        );
                                    }
                                    return Err(
                                        LedgerError::StateTransition(
                                            StateTransitionError::TransferToContract,
                                        ),
                                    );
                                },
                                Address::Wallet(rpk) => {
                                    let recipient0: Option<Account>;
                                    match find_update(&updates, rpk) {
                                        Option::Some(j2) => {
                                            recipient0 = Some(updates[j2].1);
                                            proof {
                                                lemma_updates_map_hit(model0, ups2, j2 as int);
                                            }
                                        },
                                        Option::None => {
                                            proof {
                                                lemma_updates_map_miss(model0, ups2, rpk.bytes@);
                                            }
                                            match self.store.get_account(rpk) {
                                                Result::Ok(opt) => {
                                                    recipient0 = opt;
                                                    proof {
                                                        match opt {
                                                            Option::Some(a) => {
                                                                assert(a == model0[rpk.bytes@]);
                                                            },
                                                            Option::None => {
                                                                assert(!model0.contains_key(
                                                                    rpk.bytes@,
                                                                ));
                                                            },
                                                        }
                                                    }
                                                },
                                                Result::Err(_) => {
                                                    proof {
                                                        assert(model0.contains_key(rpk.bytes@));
                                                        assert(old(self).store.tree_map(
                                                            TreeId::Accounts,
                                                        ).index(rpk.bytes@) == enc_account(
                                                            model0[rpk.bytes@],
                                                        ));
                                                        assert(false);
                                                    }
                                                    return Err(LedgerError::NotFound);
                                                },
                                            }
                                        },
                                    }
                                    proof {
                                        match recipient0 {
                                            Option::Some(a) => {
                                                assert(st2g.accounts.contains_key(rpk.bytes@));
                                                assert(st2g.accounts.index(rpk.bytes@) == a);
                                            },
                                            Option::None => {
                                                assert(!st2g.accounts.contains_key(rpk.bytes@));
                                            },
                                        }
                                    }
                                    match recipient0 {
                                        Option::Some(Account::Contract { .. }) => {
                                            proof {
                                                assert(spec_apply_tx(cur, stx) == Err::<
                                                    LedgerState,
                                                    LedgerError,
                                                >(LedgerError::StateTransition(
                                                    StateTransitionError::RecipientNotWallet,
                                                )));
                                                lemma_spec_apply_txs_fail(
                                                    st0,
                                                    txs@,
                                                    i as int,
                                                    LedgerError::StateTransition(
                                                        StateTransitionError::RecipientNotWallet,
                                                    ),
                                                );
                                            }
                                            return Err(
                                                LedgerError::StateTransition(
                                                    StateTransitionError::RecipientNotWallet,
                                                ),
                                            );
                                        },
                                        Option::Some(Account::Wallet { balance: rb, nonce: rn }) => {
                                            if amount > u64::MAX - rb {
                                                proof {
                                                    assert(spec_apply_tx(cur, stx) == Err::<
                                                        LedgerState,
                                                        LedgerError,
                                                    >(LedgerError::StateTransition(
                                                        StateTransitionError::BalanceOverflow,
                                                    )));
                                                    lemma_spec_apply_txs_fail(
                                                        st0,
                                                        txs@,
                                                        i as int,
                                                        LedgerError::StateTransition(
                                                            StateTransitionError::BalanceOverflow,
                                                        ),
                                                    );
                                                }
                                                return Err(
                                                    LedgerError::StateTransition(
                                                        StateTransitionError::BalanceOverflow,
                                                    ),
                                                );
                                            }
                                            updates.push(
                                                (
                                                    *rpk,
                                                    Account::Wallet {
                                                        balance: rb + amount,
                                                        nonce: rn,
                                                    },
                                                ),
                                            );
                                            proof {
                                                assert(updates@.drop_last() =~= ups2);
                                            }
                                        },
                                        Option::None => {
                                            updates.push(
                                                (*rpk, Account::Wallet { balance: amount, nonce: 0 }),
                                            );
                                            proof {
                                                assert(updates@.drop_last() =~= ups2);
                                            }
                                        },
                                    }
                                    proof {
                                        assert(spec_apply_tx(cur, stx) == Ok::<
                                            LedgerState,
                                            LedgerError,
                                        >(LedgerState {
                                            accounts: updates_map(model0, updates@),
                                            code: cur.code,
                                        }));
                                    }
                                },
                            }
                        },
                    }
                },
                TransactionPayload::ContractDeploy { wasm_bytes } => {
                    let cid = match self.engine.deploy_contract(
                        &tx.sender,
                        wasm_bytes,
                        None,
                        &mut batch,
                        tx.gas_limit,
                    ) {
                        Result::Ok(c) => c,
                        Result::Err(_) => {
                            proof {
                                assert(false);
                            }
                            return Err(LedgerError::ContractNotFound);
                        },
                    };
                    let newacct = Account::Contract {
                        code_hash: cid.id,
                        storage_root_hash: [0u8; 32],
                        nonce: tx.nonce,
                    };
                    updates.push((tx.sender, newacct));
                    proof {
                        assert(updates@.drop_last() =~= ups1);
                        let cidseq = sha256_of(stx.sender.bytes@ + wasm_bytes@);
                        assert(cid.id@ == cidseq);
                        assert(seq_to_code_hash(cidseq) == cid.id) by {
                            assert(cid.id@ == cidseq);
                            let a = seq_to_code_hash(cidseq);
                            assert(a@ == cidseq);
                            assert(a =~= cid.id);
                        }
                        assert(seq_to_code_hash(zero_hash()) == newacct->Contract_storage_root_hash)
                            by {
                            let z: [u8; 32] = newacct->Contract_storage_root_hash;
                            assert(z@ =~= zero_hash());
                            let a = seq_to_code_hash(zero_hash());
                            assert(a@ == zero_hash());
                            assert(a =~= z);
                        }
                        // one staged put of the contract code
                        let op = batch.ops@[pre_ops.len() as int];
                        assert(batch.ops@ =~= pre_ops.push(op));
                        assert(op_is_put(op, TreeId::ContractCode, cid.id@, wasm_bytes@));
                        assert forall|t: TreeId| true implies #[trigger] tree_after_ops(
                            old(self).store.tree_map(t),
                            t,
                            batch.ops@,
                        ) == apply_op(
                            tree_after_ops(old(self).store.tree_map(t), t, pre_ops),
                            t,
                            op,
                        ) by {
                            lemma_tree_after_ops_push(
                                old(self).store.tree_map(t),
                                t,
                                pre_ops,
                                op,
                            );
                        }
                        assert(tree_after_ops(
                            old(self).store.tree_map(TreeId::ContractCode),
                            TreeId::ContractCode,
                            batch.ops@,
                        ) == cur.code.insert(cidseq, wasm_bytes@)) by {
                            lemma_apply_op_put(
                                tree_after_ops(
                                    old(self).store.tree_map(TreeId::ContractCode),
                                    TreeId::ContractCode,
                                    pre_ops,
                                ),
                                TreeId::ContractCode,
                                op,
                                TreeId::ContractCode,
                                cid.id@,
                                wasm_bytes@,
                            );
                        }
                        assert(spec_apply_tx(cur, stx) == Ok::<LedgerState, LedgerError>(
                            LedgerState {
                                accounts: updates_map(model0, updates@),
                                code: cur.code.insert(cidseq, wasm_bytes@),
                            },
                        ));
                    }
                },
                TransactionPayload::ContractCall { method, args } => {
                    match &tx.recipient {
                        Address::Contract(cid) => {
                            let _execution_result = self.engine.call_contract(
                                &tx.sender,
                                cid,
                                method,
                                args,
                                &self.store,
                            );
                            proof {
                                assert(spec_apply_tx(cur, stx) == Ok::<LedgerState, LedgerError>(
                                    st1g,
                                ));
                            }
                        },
                        Address::Wallet(_) => {
                            proof {
                                assert(spec_apply_tx(cur, stx) == Err::<LedgerState, LedgerError>(
                                    LedgerError::InvalidTransactionPayload,
                                ));
                                lemma_spec_apply_txs_fail(
                                    st0,
                                    txs@,
                                    i as int,
                                    LedgerError::InvalidTransactionPayload,
                                );
                            }
                            return Err(LedgerError::InvalidTransactionPayload);
                        },
                    }
                },
                TransactionPayload::Data { .. } => {
                    proof {
                        assert(spec_apply_tx(cur, stx) == Ok::<LedgerState, LedgerError>(st1g));
                    }
                },
            }
            // Consume the transaction from the mempool tree.
            let ghost ops_bd = batch.ops@;
            batch.ops.push(StorageOperation::Delete(TreeId::Mempool, hash_key(&tx.hash)));
            proof {
                let del_op = batch.ops@[ops_bd.len() as int];
                assert(batch.ops@ =~= ops_bd.push(del_op));
                assert forall|t: TreeId| true implies #[trigger] tree_after_ops(
                    old(self).store.tree_map(t),
                    t,
                    batch.ops@,
                ) == apply_op(tree_after_ops(old(self).store.tree_map(t), t, ops_bd), t, del_op)
                by {
                    lemma_tree_after_ops_push(old(self).store.tree_map(t), t, ops_bd, del_op);
                }
                lemma_spec_apply_txs_snoc(st0, txs@, i as int);
                assert(txs@.take(i + 1).drop_last() =~= txs@.take(i as int));
            }
            i = i + 1;
        }
        proof {
            assert(txs@.take(txs@.len() as int) =~= txs@);
        }
        let ghost st_final = spec_apply_txs(st0, txs@).unwrap();
        let ghost ops_a = batch.ops@;
        // Flush the buffered account mutations.
        let ghost accounts0 = old(self).store.tree_map(TreeId::Accounts);
        let mut j: usize = 0;
        proof {
            assert(enc_updates(accounts0, updates@.take(0)) == accounts0);
        }
        while j < updates.len()
            invariant
                0 <= j <= updates@.len(),
                *self == *old(self),
                *current_chain_state == *old(current_chain_state),
                old(self).inv(*old(current_chain_state)),
                accounts0 == old(self).store.tree_map(TreeId::Accounts),
                tree_after_ops(accounts0, TreeId::Accounts, batch.ops@) == enc_updates(
                    accounts0,
                    updates@.take(j as int),
                ),
                forall|t: TreeId|
                    t != TreeId::Accounts ==> #[trigger] tree_after_ops(
                        old(self).store.tree_map(t),
                        t,
                        batch.ops@,
                    ) == tree_after_ops(old(self).store.tree_map(t), t, ops_a),
            decreases updates@.len() - j,
        {
            let ghost ops_b = batch.ops@;
            let encoded = encode_account(&updates[j].1);
            let keyv = hash_key(&updates[j].0.bytes);
            batch.ops.push(StorageOperation::Put(TreeId::Accounts, keyv, encoded));
            proof {
                let op = batch.ops@[ops_b.len() as int];
                assert(batch.ops@ =~= ops_b.push(op));
                assert forall|t: TreeId| true implies #[trigger] tree_after_ops(
                    old(self).store.tree_map(t),
                    t,
                    batch.ops@,
                ) == apply_op(tree_after_ops(old(self).store.tree_map(t), t, ops_b), t, op) by {
                    lemma_tree_after_ops_push(old(self).store.tree_map(t), t, ops_b, op);
                }
                assert(updates@.take(j + 1).drop_last() =~= updates@.take(j as int));
                assert(updates@.take(j + 1).last() == updates@[j as int]);
            }
            j = j + 1;
        }
        proof {
            assert(updates@.take(updates@.len() as int) =~= updates@);
        }
        // Stage the block under its hash and height keys.
        let ghost ops_c = batch.ops@;
        batch.ops.push(
            StorageOperation::Put(TreeId::Blocks, hash_key(&block.hash), encode_block(block)),
        );
        batch.ops.push(
            StorageOperation::Put(TreeId::Blocks, height_key(block.index), encode_block(block)),
        );
        proof {
            let op1 = batch.ops@[ops_c.len() as int];
            let op2 = batch.ops@[(ops_c.len() + 1) as int];
            assert(batch.ops@ =~= ops_c.push(op1).push(op2));
            assert forall|t: TreeId| true implies #[trigger] tree_after_ops(
                old(self).store.tree_map(t),
                t,
                batch.ops@,
            ) == apply_op(
                apply_op(tree_after_ops(old(self).store.tree_map(t), t, ops_c), t, op1),
                t,
                op2,
            ) by {
                lemma_tree_after_ops_push(old(self).store.tree_map(t), t, ops_c, op1);
                lemma_tree_after_ops_push(old(self).store.tree_map(t), t, ops_c.push(op1), op2);
            }
        }
        // Stage the transactions and the per-block index.
        let ghost ops_d = batch.ops@;
        let ghost txtree0 = old(self).store.tree_map(TreeId::Transactions);
        let ghost txbb0 = old(self).store.tree_map(TreeId::TxByBlock);
        let mut k: usize = 0;
        proof {
            assert(txs_inserted(txtree0, txs@.take(0)) == txtree0);
            assert(txbb_inserted(txbb0, block.hash@, txs@.take(0)) == txbb0);
        }
        while k < txs.len()
            invariant
                0 <= k <= txs@.len(),
                txs@ == block.transactions@,
                *self == *old(self),
                *current_chain_state == *old(current_chain_state),
                old(self).inv(*old(current_chain_state)),
                txtree0 == old(self).store.tree_map(TreeId::Transactions),
                txbb0 == old(self).store.tree_map(TreeId::TxByBlock),
                tree_after_ops(txtree0, TreeId::Transactions, batch.ops@) == txs_inserted(
                    tree_after_ops(txtree0, TreeId::Transactions, ops_d),
                    txs@.take(k as int),
                ),
                tree_after_ops(txbb0, TreeId::TxByBlock, batch.ops@) == txbb_inserted(
                    tree_after_ops(txbb0, TreeId::TxByBlock, ops_d),
                    block.hash@,
                    txs@.take(k as int),
                ),
                forall|t: TreeId|
                    t != TreeId::Transactions && t != TreeId::TxByBlock ==> #[trigger]
                    tree_after_ops(old(self).store.tree_map(t), t, batch.ops@) == tree_after_ops(
                        old(self).store.tree_map(t),
                        t,
                        ops_d,
                    ),
                k <= u64::MAX,
            decreases txs@.len() - k,
        {
            let ghost ops_e = batch.ops@;
            let tx = &txs[k];
            batch.ops.push(
                StorageOperation::Put(TreeId::Transactions, hash_key(&tx.hash), tx_to_bytes(tx)),
            );
            batch.ops.push(
                StorageOperation::Put(
                    TreeId::TxByBlock,
                    block_tx_key(&block.hash, &tx.hash, k as u64),
                    hash_key(&tx.hash),
                ),
            );
            proof {
                let op1 = batch.ops@[ops_e.len() as int];
                let op2 = batch.ops@[(ops_e.len() + 1) as int];
                assert(batch.ops@ =~= ops_e.push(op1).push(op2));
                assert forall|t: TreeId| true implies #[trigger] tree_after_ops(
                    old(self).store.tree_map(t),
                    t,
                    batch.ops@,
                ) == apply_op(
                    apply_op(tree_after_ops(old(self).store.tree_map(t), t, ops_e), t, op1),
                    t,
                    op2,
                ) by {
                    lemma_tree_after_ops_push(old(self).store.tree_map(t), t, ops_e, op1);
                    lemma_tree_after_ops_push(
                        old(self).store.tree_map(t),
                        t,
                        ops_e.push(op1),
                        op2,
                    );
                }
                assert(txs@.take(k + 1).drop_last() =~= txs@.take(k as int));
                assert(txs@.take(k + 1).last() == txs@[k as int]);
                assert((txs@.take(k + 1).len() - 1) as u64 == k as u64);
            }
            k = k + 1;
        }
        proof {
            assert(txs@.take(txs@.len() as int) =~= txs@);
        }
        // Stage the advanced chain state.
        let new_cs = ChainState {
            latest_block_hash: block.hash,
            latest_block_index: block.index,
            accounts_root_hash: current_chain_state.accounts_root_hash,
            total_supply: current_chain_state.total_supply,
        };
        let ghost ops_f = batch.ops@;
        batch.ops.push(
            StorageOperation::Put(
                TreeId::ChainStateTree,
                chain_state_key(),
                encode_chain_state(&new_cs),
            ),
        );
        proof {
            let op = batch.ops@[ops_f.len() as int];
            assert(batch.ops@ =~= ops_f.push(op));
            assert forall|t: TreeId| true implies #[trigger] tree_after_ops(
                old(self).store.tree_map(t),
                t,
                batch.ops@,
            ) == apply_op(tree_after_ops(old(self).store.tree_map(t), t, ops_f), t, op) by {
                lemma_tree_after_ops_push(old(self).store.tree_map(t), t, ops_f, op);
            }
        }
        // Commit atomically.
        match self.store.apply_batch(batch) {
            Result::Err(e) => {
                proof {
                    assert(KvStore::same_trees(self.store, old(self).store));
                    assert(self.store.tree_map(TreeId::Accounts) == old(self).store.tree_map(
                        TreeId::Accounts,
                    ));
                    assert(self.store.tree_map(TreeId::Blocks) == old(self).store.tree_map(
                        TreeId::Blocks,
                    ));
                    assert(self.store.tree_map(TreeId::ChainStateTree) == old(
                        self,
                    ).store.tree_map(TreeId::ChainStateTree));
                    assert(accounts_abstracted(
                        self.store.tree_map(TreeId::Accounts),
                        self.accounts_model@,
                    ));
                    assert(chain_ok(
                        self.store,
                        self.chain@,
                        *old(current_chain_state),
                    )) by {
                        assert forall|ci: int| 0 <= ci < self.chain@.len()
                            implies #[trigger] chain_entry_ok(self.store, self.chain@, ci) by {
                            assert(chain_entry_ok(old(self).store, self.chain@, ci));
                            if chain_entry_ok(old(self).store, self.chain@, ci)
                                && !chain_entry_ok(self.store, self.chain@, ci) {
                                let w = choose|b2: Block|
                                    old(self).store.tree_map(TreeId::Blocks).index(
                                        self.chain@[ci].hash@,
                                    ) == #[trigger] enc_block(b2) && b2.hash@
                                        == self.chain@[ci].hash@;
                                assert(hash_entry_ok(self.store, self.chain@[ci].hash@));
                            }
                        }
                    }
                    assert(self.inv(*old(current_chain_state)));
                }
                return Err(LedgerError::StorageError(e));
            },
            Result::Ok(()) => {},
        }
        *current_chain_state = new_cs;
        proof {
            self.accounts_model@ = updates_map(model0, updates@);
            self.chain@ = old(self).chain@.push(*block);
            lemma_updates_abstracted(accounts0, model0, updates@);
            let newchain = self.chain@;
            let chain0 = old(self).chain@;
            let pre_cs = *old(current_chain_state);
            assert(st_final.accounts == updates_map(model0, updates@));
            assert(chain_ok(self.store, newchain, new_cs)) by {
                assert forall|ci: int| 0 <= ci < newchain.len() implies #[trigger] chain_entry_ok(
                    self.store,
                    newchain,
                    ci,
                ) by {
                    if ci == newchain.len() - 1 {
                        assert(newchain[ci] == *block);
                        assert(block.hash@.len() == 32);
                        assert(height_key_spec(block.index).len() == 27);
                        assert(self.store.tree_map(TreeId::Blocks).index(block.hash@)
                            == enc_block(*block));
                        assert(hash_entry_ok(self.store, block.hash@));
                        assert(newchain[ci - 1] == chain0.last());
                    } else {
                        assert(chain_entry_ok(old(self).store, chain0, ci));
                        let b = chain0[ci];
                        assert(newchain[ci] == b);
                        assert(b.index as int == ci);
                        assert(height_key_spec(ci as u64).len() == 27);
                        assert(height_key_spec(ci as u64) != block.hash@);
                        assert(height_key_spec(ci as u64) != height_key_spec(block.index)) by {
                            if height_key_spec(ci as u64) == height_key_spec(block.index) {
                                lemma_height_key_injective(ci as u64, block.index);
                            }
                        }
                        assert(self.store.tree_map(TreeId::Blocks).index(
                            height_key_spec(ci as u64),
                        ) == enc_block(b));
                        assert(b.hash@.len() == 32);
                        assert(b.hash@ != height_key_spec(block.index));
                        if b.hash@ == block.hash@ {
                            assert(self.store.tree_map(TreeId::Blocks).index(b.hash@)
                                == enc_block(*block));
                            assert(hash_entry_ok(self.store, b.hash@));
                        } else {
                            assert(self.store.tree_map(TreeId::Blocks).index(b.hash@) == old(
                                self,
                            ).store.tree_map(TreeId::Blocks).index(b.hash@));
                            assert(hash_entry_ok(old(self).store, b.hash@));
                            let w = choose|b2: Block|
                                old(self).store.tree_map(TreeId::Blocks).index(b.hash@)
                                    == #[trigger] enc_block(b2) && b2.hash@ == b.hash@;
                            assert(hash_entry_ok(self.store, b.hash@));
                        }
                        if ci > 0 {
                            assert(newchain[ci - 1] == chain0[ci - 1]);
                        }
                    }
                }
                assert(newchain.last() == *block);
                assert(self.store.tree_map(TreeId::Blocks).index(new_cs.latest_block_hash@)
                    == enc_block(*block));
            }
            assert(self.inv(new_cs));
            assert(applied_block(*old(self), pre_cs, *block, *self, new_cs));
        }
        Ok(())
    }
}

// ------------------------------------------------------------------
// Laws of the state transition.
// ------------------------------------------------------------------

/// How many transactions of a sequence a given sender signed.
pub open spec fn count_sender(txs: Seq<Transaction>, k: Seq<u8>) -> int
    decreases txs.len(),
{
    if txs.len() == 0 {
        0
    } else {
        (if txs[0].sender.bytes@ == k {
            1int
        } else {
            0int
        }) + count_sender(txs.drop_first(), k)
    }
}

/// The replay counter an account starts a block from: its stored
/// nonce, or zero for an account not yet created.
pub open spec fn base_nonce(st: LedgerState, k: Seq<u8>) -> int {
    if st.accounts.contains_key(k) {
        st.accounts[k].spec_nonce() as int
    } else {
        0
    }
}

/// The balance of a wallet account; contract accounts hold none.
pub open spec fn wallet_balance(a: Account) -> int {
    match a {
        Account::Wallet { balance, .. } => balance as int,
        Account::Contract { .. } => 0,
    }
}

/// One applied transaction moves its sender's replay counter forward
/// by exactly one and leaves every other account's counter alone;
/// an account created by the transaction starts at counter zero.
pub proof fn lemma_step_nonce(st: LedgerState, tx: Transaction, st1: LedgerState, k: Seq<u8>)
    requires
        spec_apply_tx(st, tx) == Ok::<LedgerState, LedgerError>(st1),
    ensures
        tx.sender.bytes@ == k ==> st.accounts.contains_key(k) && st1.accounts.contains_key(k)
            && st1.accounts[k].spec_nonce() as int == st.accounts[k].spec_nonce() + 1
            && tx.nonce as int == st.accounts[k].spec_nonce() + 1,
        tx.sender.bytes@ != k && st.accounts.contains_key(k) ==> st1.accounts.contains_key(k)
            && st1.accounts[k].spec_nonce() == st.accounts[k].spec_nonce(),
        tx.sender.bytes@ != k && !st.accounts.contains_key(k) && st1.accounts.contains_key(k)
            ==> st1.accounts[k].spec_nonce() == 0,
        st.accounts.contains_key(k) ==> st1.accounts.contains_key(k),
{
}

/// Every prefix of an applied sequence applies.
pub proof fn lemma_prefix_ok(st: LedgerState, txs: Seq<Transaction>, i: int)
    requires
        spec_apply_txs(st, txs) is Ok,
        0 <= i <= txs.len(),
    ensures
        spec_apply_txs(st, txs.take(i)) is Ok,
    decreases i,
{
    if i == 0 {
        assert(txs.take(0).len() == 0);
    } else {
        assert(txs.len() > 0);
        assert(spec_apply_tx(st, txs[0]) is Ok) by {
            if spec_apply_tx(st, txs[0]) is Err {
                assert(spec_apply_txs(st, txs) is Err);
            }
        }
        let st1 = spec_apply_tx(st, txs[0]).unwrap();
        lemma_prefix_ok(st1, txs.drop_first(), i - 1);
        assert(txs.take(i)[0] == txs[0]);
        assert(txs.take(i).drop_first() =~= txs.drop_first().take(i - 1));
        assert(txs.take(i).len() == i);
    }
}

/// Nonce advance: across an applied block, each account's replay
/// counter grows by exactly the number of transactions it signed, and
/// an account created inside the block ends at that count.
pub proof fn lemma_nonce_advance(st: LedgerState, txs: Seq<Transaction>, st1: LedgerState, k: Seq<u8>)
    requires
        spec_apply_txs(st, txs) == Ok::<LedgerState, LedgerError>(st1),
    ensures
        st.accounts.contains_key(k) ==> st1.accounts.contains_key(k) && st1.accounts[
            k
        ].spec_nonce() as int == st.accounts[k].spec_nonce() + count_sender(txs, k),
        !st.accounts.contains_key(k) && st1.accounts.contains_key(k) ==> st1.accounts[
            k
        ].spec_nonce() as int == count_sender(txs, k),
    decreases txs.len(),
{
    if txs.len() == 0 {
    } else {
        assert(spec_apply_tx(st, txs[0]) is Ok) by {
            if spec_apply_tx(st, txs[0]) is Err {
                assert(spec_apply_txs(st, txs) is Err);
            }
        }
        let stm = spec_apply_tx(st, txs[0]).unwrap();
        lemma_step_nonce(st, txs[0], stm, k);
        lemma_nonce_advance(stm, txs.drop_first(), st1, k);
    }
}

/// Nonce contiguity: in an applied block, the `i`-th transaction of a
/// sender carries exactly the sender's starting counter plus the
/// number of its earlier transactions in the block, plus one. Nonces
/// of one sender are therefore consecutive; any gap is refused with
/// `InvalidNonce` by the transition itself.
pub proof fn lemma_nonce_contiguous(st: LedgerState, txs: Seq<Transaction>, i: int)
    requires
        spec_apply_txs(st, txs) is Ok,
        0 <= i < txs.len(),
    ensures
        txs[i].nonce as int == base_nonce(st, txs[i].sender.bytes@) + count_sender(
            txs.take(i),
            txs[i].sender.bytes@,
        ) + 1,
{
    let k = txs[i].sender.bytes@;
    lemma_prefix_ok(st, txs, i);
    lemma_prefix_ok(st, txs, i + 1);
    let sti = spec_apply_txs(st, txs.take(i)).unwrap();
    lemma_spec_apply_txs_snoc(st, txs, i);
    let stn = spec_apply_tx(sti, txs[i]).unwrap();
    lemma_step_nonce(sti, txs[i], stn, k);
    lemma_nonce_advance(st, txs.take(i), sti, k);
}

/// Balance conservation for transfers: one applied transfer moves the
/// amount from the sender's wallet to the recipient's, so the sum of
/// the two balances is unchanged (a transfer to self changes nothing),
/// every other account is untouched, and the contract-code map is
/// untouched. Total supply over all wallets is therefore invariant
/// under transfers.
pub proof fn lemma_transfer_conserves(st: LedgerState, tx: Transaction, st1: LedgerState, amount: u64)
    requires
        tx.payload == (TransactionPayload::Transfer { amount }),
        spec_apply_tx(st, tx) == Ok::<LedgerState, LedgerError>(st1),
    ensures
        tx.recipient is Wallet,
        st1.code == st.code,
        forall|k2: Seq<u8>|
            k2 != tx.sender.bytes@ && k2 != tx.recipient->Wallet_0.bytes@ ==> (
            #[trigger] st1.accounts.contains_key(k2) == st.accounts.contains_key(k2) && (
            st.accounts.contains_key(k2) ==> st1.accounts[k2] == st.accounts[k2])),
        tx.sender.bytes@ != tx.recipient->Wallet_0.bytes@ ==> wallet_balance(
            st1.accounts[tx.sender.bytes@],
        ) + wallet_balance(st1.accounts[tx.recipient->Wallet_0.bytes@]) == wallet_balance(
            st.accounts[tx.sender.bytes@],
        ) + (if st.accounts.contains_key(tx.recipient->Wallet_0.bytes@) {
            wallet_balance(st.accounts[tx.recipient->Wallet_0.bytes@])
        } else {
            0
        }),
        tx.sender.bytes@ == tx.recipient->Wallet_0.bytes@ ==> wallet_balance(
            st1.accounts[tx.sender.bytes@],
        ) == wallet_balance(st.accounts[tx.sender.bytes@]),
{
    let sk = tx.sender.bytes@;
    match tx.recipient {
        Address::Wallet(rpk) => {
            let rk = rpk.bytes@;
            let sender0 = st.accounts[sk];
            let sender1 = sender0.spec_with_nonce(tx.nonce);
            let st1x = LedgerState { accounts: st.accounts.insert(sk, sender1), code: st.code };
            assert(spec_apply_transfer(st1x, tx, amount) == Ok::<LedgerState, LedgerError>(st1));
        },
        Address::Contract(_) => {
            assert(false);
        },
    }
}

/// The state transition depends only on the fields that [`tx_eqv`]
/// compares: equivalent transactions drive it to the same result.
pub proof fn lemma_spec_apply_tx_eqv(st: LedgerState, a: Transaction, b: Transaction)
    requires
        tx_eqv(a, b),
    ensures
        spec_apply_tx(st, a) == spec_apply_tx(st, b),
{
}

/// Pairwise equivalent transaction sequences drive the transition to
/// the same result.
pub proof fn lemma_spec_apply_txs_eqv(st: LedgerState, a: Seq<Transaction>, b: Seq<Transaction>)
    requires
        txs_eqv(a, b),
    ensures
        spec_apply_txs(st, a) == spec_apply_txs(st, b),
    decreases a.len(),
{
    if a.len() > 0 {
        assert(tx_eqv(a[0], b[0]));
        lemma_spec_apply_tx_eqv(st, a[0], b[0]);
        match spec_apply_tx(st, a[0]) {
            Ok(st1) => {
                assert(txs_eqv(a.drop_first(), b.drop_first())) by {
                    assert(forall|i: int|
                        0 <= i < a.drop_first().len() ==> a.drop_first()[i] == a[i + 1]
                            && b.drop_first()[i] == b[i + 1]);
                    assert(forall|i: int|
                        0 <= i < a.drop_first().len() ==> tx_eqv(
                            #[trigger] a.drop_first()[i],
                            b.drop_first()[i],
                        ));
                }
                lemma_spec_apply_txs_eqv(st1, a.drop_first(), b.drop_first());
            },
            Err(_) => {
            },
        }
    }
}

/// A block whose signatures all check validates its transactions.
pub proof fn lemma_all_sigs_ok(txs: Seq<Transaction>)
    requires
        forall|k: int| 0 <= k < txs.len() ==> (#[trigger] txs[k]).spec_signature_valid(),
    ensures
        spec_validate_txs(txs) is Ok,
{
    lemma_spec_validate_txs_skip(txs, txs.len() as int);
    assert(txs.skip(txs.len() as int).len() == 0);
}

/// Chain linearity: under the chain invariant, every committed block
/// past genesis links to its predecessor's hash and carries the next
/// index.
pub proof fn lemma_chain_linearity(store: KvStore, chain: Seq<Block>, cs: ChainState, i: int)
    requires
        chain_ok(store, chain, cs),
        0 < i < chain.len(),
    ensures
        chain[i].prev_hash@ == chain[i - 1].hash@,
        chain[i].index as int == chain[i - 1].index as int + 1,
{
    assert(chain_entry_ok(store, chain, i));
    assert(chain_entry_ok(store, chain, i - 1));
}

/// Height index consistency: under the chain invariant, the block
/// stored under each height key up to the tip is also stored under its
/// own hash, with that same hash field.
pub proof fn lemma_height_index_consistent(
    store: KvStore,
    chain: Seq<Block>,
    cs: ChainState,
    i: int,
)
    requires
        chain_ok(store, chain, cs),
        0 <= i <= cs.latest_block_index as int,
    ensures
        store.tree_map(TreeId::Blocks).contains_key(height_key_spec(i as u64)),
        store.tree_map(TreeId::Blocks).index(height_key_spec(i as u64)) == enc_block(chain[i]),
        store.tree_map(TreeId::Blocks).contains_key(chain[i].hash@),
        exists|b2: Block|
            store.tree_map(TreeId::Blocks).index(chain[i].hash@) == #[trigger] enc_block(b2)
                && b2.hash@ == chain[i].hash@,
{
    assert(chain_entry_ok(store, chain, i));
    assert(hash_entry_ok(store, chain[i].hash@));
}

/// Two transfers from one sender in one block: with the buffered
/// mutations preferred over storage, consecutive nonces apply in
/// order, the sender pays both amounts, and each (fresh, distinct)
/// recipient is created with its credit. A per-transaction reload
/// from storage would instead refuse the second nonce.
#[verifier::rlimit(100)]
#[verifier::spinoff_prover]
pub proof fn lemma_two_transfers_one_sender(
    st: LedgerState,
    t1: Transaction,
    t2: Transaction,
    balance: u64,
    nonce: u64,
)
    requires
        st.accounts.contains_key(t1.sender.bytes@),
        st.accounts[t1.sender.bytes@] == (Account::Wallet { balance, nonce }),
        t2.sender == t1.sender,
        nonce as int + 2 <= u64::MAX,
        t1.nonce as int == nonce as int + 1,
        t2.nonce as int == nonce as int + 2,
        t1.payload matches TransactionPayload::Transfer { amount: a1 } && t2.payload matches
            TransactionPayload::Transfer { amount: a2 } && a1 as int + a2 as int
            <= balance as int,
        t1.recipient is Wallet && t2.recipient is Wallet,
        t1.recipient->Wallet_0.bytes@ != t1.sender.bytes@,
        t2.recipient->Wallet_0.bytes@ != t1.sender.bytes@,
        t1.recipient->Wallet_0.bytes@ != t2.recipient->Wallet_0.bytes@,
        !st.accounts.contains_key(t1.recipient->Wallet_0.bytes@),
        !st.accounts.contains_key(t2.recipient->Wallet_0.bytes@),
    ensures
        spec_apply_txs(st, seq![t1, t2]) is Ok,
        ({
            let a1 = t1.payload->Transfer_amount;
            let a2 = t2.payload->Transfer_amount;
            let st2 = spec_apply_txs(st, seq![t1, t2]).unwrap();
            &&& st2.accounts[t1.sender.bytes@] == (Account::Wallet {
                balance: (balance - a1 - a2) as u64,
                nonce: (nonce + 2) as u64,
            })
            &&& st2.accounts[t1.recipient->Wallet_0.bytes@] == (Account::Wallet {
                balance: a1,
                nonce: 0,
            })
            &&& st2.accounts[t2.recipient->Wallet_0.bytes@] == (Account::Wallet {
                balance: a2,
                nonce: 0,
            })
            &&& st2.code == st.code
        }),
{
    let sk = t1.sender.bytes@;
    let r1k = t1.recipient->Wallet_0.bytes@;
    let r2k = t2.recipient->Wallet_0.bytes@;
    let a1 = t1.payload->Transfer_amount;
    let a2 = t2.payload->Transfer_amount;
    // First transfer.
    let sender1 = Account::Wallet { balance, nonce: (nonce + 1) as u64 };
    assert(st.accounts[sk].spec_with_nonce(t1.nonce) == sender1);
    let stx = LedgerState { accounts: st.accounts.insert(sk, sender1), code: st.code };
    assert(spec_apply_tx(st, t1) == spec_apply_transfer(stx, t1, a1));
    let debited1 = Account::Wallet { balance: (balance - a1) as u64, nonce: (nonce + 1) as u64 };
    let sty = LedgerState { accounts: stx.accounts.insert(sk, debited1), code: st.code };
    assert(!sty.accounts.contains_key(r1k));
    let stm = LedgerState {
        accounts: sty.accounts.insert(r1k, Account::Wallet { balance: a1, nonce: 0 }),
        code: st.code,
    };
    assert(spec_apply_transfer(stx, t1, a1) == Ok::<LedgerState, LedgerError>(stm));
    // Second transfer, reading the buffered sender.
    assert(stm.accounts[sk] == debited1);
    let sender2 = Account::Wallet { balance: (balance - a1) as u64, nonce: (nonce + 2) as u64 };
    assert(stm.accounts[sk].spec_with_nonce(t2.nonce) == sender2);
    let stx2 = LedgerState { accounts: stm.accounts.insert(sk, sender2), code: st.code };
    assert(spec_apply_tx(stm, t2) == spec_apply_transfer(stx2, t2, a2));
    let debited2 = Account::Wallet {
        balance: (balance - a1 - a2) as u64,
        nonce: (nonce + 2) as u64,
    };
    let sty2 = LedgerState { accounts: stx2.accounts.insert(sk, debited2), code: st.code };
    assert(!sty2.accounts.contains_key(r2k));
    let stf = LedgerState {
        accounts: sty2.accounts.insert(r2k, Account::Wallet { balance: a2, nonce: 0 }),
        code: st.code,
    };
    assert(spec_apply_transfer(stx2, t2, a2) == Ok::<LedgerState, LedgerError>(stf));
    // The sequence of the two.
    let s = seq![t1, t2];
    assert(s[0] == t1);
    assert(s.drop_first() =~= seq![t2]);
    assert(seq![t2][0] == t2);
    assert(seq![t2].drop_first() =~= Seq::<Transaction>::empty());
    assert(spec_apply_txs(stf, Seq::<Transaction>::empty()) == Ok::<LedgerState, LedgerError>(
        stf,
    ));
    assert(spec_apply_txs(stm, seq![t2]) == Ok::<LedgerState, LedgerError>(stf));
    assert(spec_apply_txs(st, s) == Ok::<LedgerState, LedgerError>(stf));
    assert(stf.accounts[sk] == debited2);
    assert(stf.accounts[r1k] == (Account::Wallet { balance: a1, nonce: 0 }));
    assert(stf.accounts[r2k] == (Account::Wallet { balance: a2, nonce: 0 }));
}

} // verus!