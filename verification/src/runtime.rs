//! The runtime orchestrator: it wires the store, the ledger and the
//! consensus strategy, holds the mempool and the cached chain state,
//! and exposes the submit, produce and query operations.
//!
//! The cached chain state always summarizes the committed chain: every
//! operation preserves the ledger's invariant, and a failed block
//! production leaves the mempool, the store and the cache untouched.

use vstd::prelude::*;
use crate::crypto::{
    CryptoError, ed25519_public_of, ed25519_valid_pubkey, derive_public_bytes, random_seed,
};
use crate::types::{
    Account, Block, ChainState, ContractId, PublicKey, Transaction, lemma_signature_valid_eqv,
    md_wf,
};
use crate::codec::{enc_account, enc_block, enc_chain_state, enc_tx, no_block_full, txs_eqv};
use crate::storage::{KvStore, StorageError, TreeId};
use crate::keys::chain_state_key_spec;
use crate::ledger::{
    Ledger, LedgerError, accounts_abstracted, applied_block, chain_entry_ok, chain_ok,
    spec_apply_txs, spec_validate_block, lemma_spec_apply_txs_eqv, lemma_all_sigs_ok,
    restorable, zero_hash,
};
use crate::consensus::{ConsensusError, PoAConsensus, now_seconds};
use crate::contracts::BaaLSContractEngine;

verus! {

/// Why a submitted transaction was refused at admission.
#[derive(Debug, Clone, Copy, PartialEq, Eq)]
pub enum InvalidTransactionReason {
    /// The signature check failed.
    BadSignature,
    /// The nonce does not exceed the sender's current nonce. Fields:
    /// the sender's current nonce, the nonce given.
    NonceTooLow { current: u64, got: u64 },
}

/// Errors from the runtime.
#[derive(Debug, Clone, Copy, PartialEq, Eq)]
pub enum RuntimeError {
    StorageError(StorageError),
    LedgerError(LedgerError),
    ConsensusError(ConsensusError),
    CryptoError(CryptoError),
    ChainInitializationError,
    KeypairGenerationError,
    InvalidTransaction(InvalidTransactionReason),
    AlreadyRunning,
    NotRunning,
}

/// A freshly generated Ed25519 keypair: the 32-byte secret and the
/// verifying key it derives.
#[derive(Debug, Clone, Copy, PartialEq, Eq)]
pub struct Keypair {
    pub secret: [u8; 32],
    pub public: PublicKey,
}

/// The account a submission is checked against: the stored account,
/// or an empty wallet for an unknown sender.
pub open spec fn admission_account(m: Map<Seq<u8>, Account>, k: Seq<u8>) -> Account {
    if m.contains_key(k) {
        m[k]
    } else {
        Account::Wallet { balance: 0, nonce: 0 }
    }
}

/// The runtime.
pub struct Runtime {
    pub ledger: Ledger,
    pub consensus: PoAConsensus,
    pub mempool: Vec<Transaction>,
    pub chain_state: ChainState,
    pub is_running: bool,
}

impl Runtime {
    /// The runtime's invariant: the ledger invariant holds for the
    /// cached chain state, and every pending transaction passed its
    /// signature check at admission.
    pub open spec fn wf(self) -> bool {
        &&& self.ledger.inv(self.chain_state)
        &&& forall|j: int|
            0 <= j < self.mempool@.len() ==> (#[trigger] self.mempool@[j]).spec_signature_valid()
        &&& forall|j: int|
            0 <= j < self.mempool@.len() ==> md_wf((#[trigger] self.mempool@[j]).metadata)
    }

    /// Build a runtime over a store: create the genesis block when no
    /// chain state is present (a pre-seeded accounts tree is kept), or
    /// reopen a store that already holds a committed chain, and load
    /// the current chain state into the cache.
    pub fn new(
        store: KvStore,
        consensus: PoAConsensus,
        contract_engine: BaaLSContractEngine,
    ) -> (r: Result<Runtime, RuntimeError>)
        requires
            store.wf(),
            !store.fail_next_batch,
            store.tree_map(TreeId::ChainStateTree).contains_key(chain_state_key_spec())
                ==> restorable(store),
            exists|m: Map<Seq<u8>, Account>|
                #[trigger] accounts_abstracted(store.tree_map(TreeId::Accounts), m),
        ensures
            r is Ok,
            r matches Ok(rt) ==> {
                &&& rt.wf()
                &&& rt.mempool@.len() == 0
                &&& rt.consensus == consensus
                &&& !rt.is_running
                &&& !rt.ledger.store.fail_next_batch
                &&& accounts_abstracted(
                    store.tree_map(TreeId::Accounts),
                    rt.ledger.accounts_model@,
                )
            },
            r matches Ok(rt) ==> (!store.tree_map(TreeId::ChainStateTree).contains_key(
                chain_state_key_spec(),
            ) ==> {
                &&& rt.ledger.chain@.len() == 1
                &&& rt.chain_state.latest_block_index == 0
                &&& rt.chain_state.total_supply == 0
                &&& rt.chain_state.accounts_root_hash@ == zero_hash()
                &&& rt.chain_state.latest_block_hash@ == rt.ledger.chain@[0].hash@
                &&& rt.chain_state.latest_block_hash@ == rt.ledger.chain@[0].spec_hash()
                &&& rt.ledger.chain@[0].index == 0
                &&& rt.ledger.chain@[0].timestamp == 0
                &&& rt.ledger.chain@[0].nonce == 0
                &&& rt.ledger.chain@[0].prev_hash@ == zero_hash()
                &&& rt.ledger.chain@[0].transactions@.len() == 0
                &&& rt.ledger.chain@[0].metadata is None
            }),
            r matches Ok(rt) ==> (store.tree_map(TreeId::ChainStateTree).contains_key(
                chain_state_key_spec(),
            ) ==> {
                &&& KvStore::same_trees(rt.ledger.store, store)
                &&& store.tree_map(TreeId::ChainStateTree).index(chain_state_key_spec())
                    == enc_chain_state(rt.chain_state)
            }),
    {
        let ghost was_present = store.tree_map(TreeId::ChainStateTree).contains_key(
            chain_state_key_spec(),
        );
        let mut ledger = Ledger::new(store, contract_engine);
        proof {
            ledger.accounts_model@ = choose|m: Map<Seq<u8>, Account>|
                #[trigger] accounts_abstracted(store.tree_map(TreeId::Accounts), m);
            if was_present {
                let (chain0, cs0) = choose|chain0: Seq<Block>, cs0: ChainState|
                    #[trigger] chain_ok(store, chain0, cs0);
                ledger.chain@ = chain0;
            }
        }
        match ledger.initialize_chain() {
            Result::Ok(()) => {},
            Result::Err(_) => {
                proof {
                    assert(false);
                }
                return Err(RuntimeError::ChainInitializationError);
            },
        }
        proof {
            if was_present {
                // The initialization was a no-op: carry the stored
                // chain's invariant over to the wrapped store.
                let (chain0, cs0) = choose|chain0: Seq<Block>, cs0: ChainState|
                    #[trigger] chain_ok(store, chain0, cs0);
                assert(ledger.chain@ == chain0);
                assert(KvStore::same_trees(ledger.store, store));
                assert(chain_ok(ledger.store, chain0, cs0)) by {
                    assert forall|ci: int| 0 <= ci < chain0.len()
                        implies #[trigger] chain_entry_ok(ledger.store, chain0, ci) by {
                        assert(chain_entry_ok(store, chain0, ci));
                        let b = chain0[ci];
                        let w = choose|b2: Block|
                            store.tree_map(TreeId::Blocks).index(b.hash@) == #[trigger] enc_block(
                                b2,
                            ) && b2.hash@ == b.hash@;
                        assert(crate::ledger::hash_entry_ok(ledger.store, b.hash@));
                    }
                }
            }
        }
        let initial_chain_state = match ledger.store.get_chain_state() {
            Result::Ok(Option::Some(cs)) => cs,
            _ => {
                proof {
                    if was_present {
                        let (chain0, cs0) = choose|chain0: Seq<Block>, cs0: ChainState|
                            #[trigger] chain_ok(store, chain0, cs0);
                        assert(ledger.store.tree_map(TreeId::ChainStateTree).index(
                            chain_state_key_spec(),
                        ) == crate::codec::enc_chain_state(cs0));
                    } else {
                        let cs0 = choose|cs0: ChainState|
                            {
                                &&& #[trigger] chain_ok(ledger.store, ledger.chain@, cs0)
                                &&& cs0.latest_block_index == 0
                                &&& cs0.latest_block_hash@ == ledger.chain@[0].hash@
                                &&& cs0.accounts_root_hash@ == crate::ledger::zero_hash()
                                &&& cs0.total_supply == 0
                            };
                        assert(ledger.store.tree_map(TreeId::ChainStateTree).index(
                            chain_state_key_spec(),
                        ) == crate::codec::enc_chain_state(cs0));
                    }
                    assert(false);
                }
                return Err(RuntimeError::ChainInitializationError);
            },
        };
        proof {
            if was_present {
                let (chain0, cs0) = choose|chain0: Seq<Block>, cs0: ChainState|
                    #[trigger] chain_ok(store, chain0, cs0);
                assert(ledger.store.tree_map(TreeId::ChainStateTree).index(
                    chain_state_key_spec(),
                ) == crate::codec::enc_chain_state(cs0));
                assert(initial_chain_state == cs0);
                assert(ledger.inv(initial_chain_state));
            } else {
                let cs0 = choose|cs0: ChainState|
                    {
                        &&& #[trigger] chain_ok(ledger.store, ledger.chain@, cs0)
                        &&& cs0.latest_block_index == 0
                        &&& cs0.latest_block_hash@ == ledger.chain@[0].hash@
                        &&& cs0.accounts_root_hash@ == crate::ledger::zero_hash()
                        &&& cs0.total_supply == 0
                    };
                assert(ledger.store.tree_map(TreeId::ChainStateTree).index(
                    chain_state_key_spec(),
                ) == crate::codec::enc_chain_state(cs0));
                assert(initial_chain_state == cs0);
                assert(ledger.inv(initial_chain_state));
            }
        }
        Ok(
            Runtime {
                ledger,
                consensus,
                mempool: Vec::new(),
                chain_state: initial_chain_state,
                is_running: false,
            },
        )
    }

    /// Generate a fresh Ed25519 keypair from operating-system entropy.
    pub fn generate_keypair() -> (r: Result<Keypair, RuntimeError>)
        ensures
            r matches Ok(kp) ==> kp.public.bytes@ == ed25519_public_of(kp.secret@)
                && ed25519_valid_pubkey(kp.public.bytes@),
            r is Ok,
    {
        let secret = random_seed();
        let public_bytes = derive_public_bytes(&secret);
        Ok(Keypair { secret, public: PublicKey { bytes: public_bytes } })
    }

    /// Generate a fresh Ed25519 signing key from operating-system
    /// entropy.
    pub fn generate_signing_key() -> (r: Result<[u8; 32], RuntimeError>)
        ensures
            r is Ok,
    {
        Ok(random_seed())
    }

    /// Mark the runtime running.
    pub fn start(&mut self) -> (r: Result<(), RuntimeError>)
        requires
            old(self).wf(),
        ensures
            final(self).wf(),
            r is Ok,
            final(self).is_running,
            final(self).ledger == old(self).ledger,
            final(self).chain_state == old(self).chain_state,
            final(self).mempool == old(self).mempool,
    {
        self.is_running = true;
        Ok(())
    }

    /// Mark the runtime stopped.
    pub fn stop(&mut self) -> (r: Result<(), RuntimeError>)
        requires
            old(self).wf(),
        ensures
            final(self).wf(),
            r is Ok,
            !final(self).is_running,
            final(self).ledger == old(self).ledger,
            final(self).chain_state == old(self).chain_state,
            final(self).mempool == old(self).mempool,
    {
        self.is_running = false;
        Ok(())
    }

    /// Admit a transaction to the mempool: its signature must check,
    /// and its nonce must exceed the sender's current nonce (an
    /// unknown sender counts as an empty wallet). Replaying a
    /// committed transaction is therefore refused here.
    pub fn submit_transaction(&mut self, transaction: Transaction) -> (r: Result<
        (),
        RuntimeError,
    >)
        requires
            old(self).wf(),
            md_wf(transaction.metadata),
        ensures
            final(self).wf(),
            final(self).ledger == old(self).ledger,
            final(self).chain_state == old(self).chain_state,
            !transaction.spec_signature_valid() ==> r == Err::<(), RuntimeError>(
                RuntimeError::InvalidTransaction(InvalidTransactionReason::BadSignature),
            ) && final(self).mempool == old(self).mempool,
            transaction.spec_signature_valid() && transaction.nonce <= admission_account(
                old(self).ledger.accounts_model@,
                transaction.sender.bytes@,
            ).spec_nonce() ==> (r matches Err(e) && e matches
                RuntimeError::InvalidTransaction(InvalidTransactionReason::NonceTooLow {
                    current,
                    got,
                }) && current == admission_account(
                old(self).ledger.accounts_model@,
                transaction.sender.bytes@,
            ).spec_nonce() && got == transaction.nonce) && final(self).mempool == old(self).mempool,
            transaction.spec_signature_valid() && transaction.nonce > admission_account(
                old(self).ledger.accounts_model@,
                transaction.sender.bytes@,
            ).spec_nonce() ==> r is Ok && final(self).mempool@ == old(self).mempool@.push(
                transaction,
            ),
    {
        let valid = match transaction.verify_signature() {
            Result::Ok(b) => b,
            Result::Err(_) => {
                proof {
                    assert(false);
                }
                false
            },
        };
        if !valid {
            return Err(RuntimeError::InvalidTransaction(InvalidTransactionReason::BadSignature));
        }
        let sender_account = match self.ledger.store.get_account(&transaction.sender) {
            Result::Ok(Option::Some(a)) => {
                proof {
                    assert(self.ledger.accounts_model@.contains_key(transaction.sender.bytes@));
                    assert(self.ledger.store.tree_map(TreeId::Accounts).index(
                        transaction.sender.bytes@,
                    ) == enc_account(self.ledger.accounts_model@[transaction.sender.bytes@]));
                }
                a
            },
            Result::Ok(Option::None) => Account::Wallet { balance: 0, nonce: 0 },
            Result::Err(_) => {
                proof {
                    assert(self.ledger.accounts_model@.contains_key(transaction.sender.bytes@));
                    assert(self.ledger.store.tree_map(TreeId::Accounts).index(
                        transaction.sender.bytes@,
                    ) == enc_account(self.ledger.accounts_model@[transaction.sender.bytes@]));
                    assert(false);
                }
                return Err(RuntimeError::StorageError(StorageError::NotFound));
            },
        };
        let current = sender_account.nonce();
        if transaction.nonce <= current {
            return Err(
                RuntimeError::InvalidTransaction(
                    InvalidTransactionReason::NonceTooLow { current, got: transaction.nonce },
                ),
            );
        }
        self.mempool.push(transaction);
        Ok(())
    }

    /// Produce a block: assemble a candidate from the mempool snapshot
    /// and the committed tip, validate it, and apply it atomically.
    /// On success the included transactions leave the mempool and the
    /// cached chain state advances; on any failure nothing changes and
    /// the mempool keeps its transactions.
    #[verifier::rlimit(100)]
    #[verifier::spinoff_prover]
    pub fn produce_block(&mut self) -> (r: Result<Block, RuntimeError>)
        requires
            old(self).wf(),
        ensures
            final(self).wf(),
            final(self).consensus == old(self).consensus,
            r is Err ==> final(self).ledger.chain == old(self).ledger.chain && final(self).chain_state == old(self).chain_state && final(self).mempool == old(self).mempool
                && final(self).ledger.accounts_model == old(self).ledger.accounts_model
                && KvStore::same_trees(final(self).ledger.store, old(self).ledger.store),
            old(self).mempool@.len() == 0 ==> r == Err::<Block, RuntimeError>(
                RuntimeError::ConsensusError(ConsensusError::NoPendingTransactions),
            ),
            r matches Ok(b) ==> {
                &&& final(self).ledger.chain@ == old(self).ledger.chain@.push(b)
                &&& b.index as int == old(self).chain_state.latest_block_index as int + 1
                &&& b.prev_hash@ == old(self).chain_state.latest_block_hash@
                &&& b.hash@ == b.spec_hash()
                &&& txs_eqv(b.transactions@, old(self).mempool@)
                &&& final(self).chain_state.latest_block_index == b.index
                &&& final(self).chain_state.latest_block_hash@ == b.hash@
                &&& final(self).mempool@.len() == 0
                &&& final(self).ledger.accounts_model@ == spec_apply_txs(
                    old(self).ledger.state(),
                    old(self).mempool@,
                ).unwrap().accounts
                &&& spec_apply_txs(old(self).ledger.state(), old(self).mempool@) is Ok
                &&& applied_block(
                    old(self).ledger,
                    old(self).chain_state,
                    b,
                    final(self).ledger,
                    final(self).chain_state,
                )
            },
            old(self).mempool@.len() > 0 && old(self).chain_state.latest_block_index < u64::MAX
                && old(self).ledger.chain@.last().timestamp < u64::MAX && !old(self).ledger.store.fail_next_batch && spec_apply_txs(
                old(self).ledger.state(),
                old(self).mempool@,
            ) is Ok ==> r is Ok,
            old(self).mempool@.len() > 0 && old(self).chain_state.latest_block_index < u64::MAX
                && old(self).ledger.chain@.last().timestamp < u64::MAX ==> (match spec_apply_txs(
                old(self).ledger.state(),
                old(self).mempool@,
            ) {
                Result::Err(e) => r == Err::<Block, RuntimeError>(RuntimeError::LedgerError(e)),
                Result::Ok(_) => true,
            }),
    {
        if self.mempool.len() == 0 {
            return Err(RuntimeError::ConsensusError(ConsensusError::NoPendingTransactions));
        }
        if self.chain_state.latest_block_index == u64::MAX {
            return Err(RuntimeError::ConsensusError(ConsensusError::ValidationFailed));
        }
        // Load the committed tip.
        let prev_block = match self.ledger.store.get_block(&self.chain_state.latest_block_hash) {
            Result::Ok(Option::Some(b)) => b,
            Result::Ok(Option::None) => {
                proof {
                    assert(chain_entry_ok(
                        self.ledger.store,
                        self.ledger.chain@,
                        self.ledger.chain@.len() - 1,
                    ));
                    assert(false);
                }
                return Err(RuntimeError::StorageError(StorageError::NotFound));
            },
            Result::Err(e) => {
                proof {
                    let tip = self.ledger.chain@.last();
                    assert(chain_entry_ok(
                        self.ledger.store,
                        self.ledger.chain@,
                        self.ledger.chain@.len() - 1,
                    ));
                    assert(self.ledger.store.tree_map(TreeId::Blocks).index(
                        self.chain_state.latest_block_hash@,
                    ) == enc_block(tip));
                    assert(false);
                }
                return Err(RuntimeError::StorageError(e));
            },
        };
        proof {
            let tip = self.ledger.chain@.last();
            assert(self.ledger.store.tree_map(TreeId::Blocks).index(
                self.chain_state.latest_block_hash@,
            ) == enc_block(tip));
            assert(crate::codec::block_eqv(prev_block, tip));
        }
        if prev_block.timestamp == u64::MAX {
            return Err(RuntimeError::ConsensusError(ConsensusError::ValidationFailed));
        }
        proof {
            assert(prev_block.index == self.chain_state.latest_block_index) by {
                assert(chain_entry_ok(
                    self.ledger.store,
                    self.ledger.chain@,
                    self.ledger.chain@.len() - 1,
                ));
            }
        }
        let new_block = match self.consensus.generate_block(
            &self.mempool,
            &prev_block,
            &self.chain_state,
        ) {
            Result::Ok(b) => b,
            Result::Err(_) => {
                proof {
                    assert(false);
                }
                return Err(RuntimeError::ConsensusError(ConsensusError::NoPendingTransactions));
            },
        };
        proof {
            assert forall|k: int| 0 <= k < new_block.transactions@.len() implies (
            #[trigger] new_block.transactions@[k]).spec_signature_valid() by {
                lemma_signature_valid_eqv(new_block.transactions@[k], self.mempool@[k]);
            }
            lemma_all_sigs_ok(new_block.transactions@);
            assert(new_block.timestamp > self.ledger.chain@.last().timestamp);
            assert forall|k: int| 0 <= k < new_block.transactions@.len() implies md_wf(
                (#[trigger] new_block.transactions@[k]).metadata,
            ) by {
                crate::types::lemma_md_wf_eqv(
                    new_block.transactions@[k].metadata,
                    self.mempool@[k].metadata,
                );
            }
            assert(new_block.md_wf_all());
        }
        // Validate and apply.
        match self.ledger.validate_block(&new_block, &self.chain_state) {
            Result::Ok(()) => {},
            Result::Err(e) => {
                proof {
                    assert(spec_validate_block(
                        new_block,
                        self.chain_state,
                        self.ledger.chain@.last().timestamp,
                    ) is Ok);
                    assert(false);
                }
                return Err(RuntimeError::LedgerError(e));
            },
        }
        let ghost pre_ledger = self.ledger;
        let ghost pre_cs = self.chain_state;
        proof {
            lemma_spec_apply_txs_eqv(
                self.ledger.state(),
                new_block.transactions@,
                self.mempool@,
            );
        }
        let applied = {
            let runtime_ledger = &mut self.ledger;
            let cs = &mut self.chain_state;
            runtime_ledger.apply_block(&new_block, cs)
        };
        match applied {
            Result::Ok(()) => {},
            Result::Err(e) => {
                return Err(RuntimeError::LedgerError(e));
            },
        }
        // All included transactions are committed: remove them.
        self.mempool.clear();
        Ok(new_block)
    }

    /// The cached chain state.
    pub fn get_chain_state(&self) -> (r: Result<ChainState, RuntimeError>)
        ensures
            r == Ok::<ChainState, RuntimeError>(self.chain_state),
    {
        Ok(self.chain_state)
    }

    /// Retrieve a block by its hash.
    pub fn get_block(&self, hash: &[u8; 32]) -> (r: Result<Option<Block>, RuntimeError>)
        requires
            self.wf(),
        ensures
            r matches Ok(Some(b)) ==> self.ledger.store.tree_map(TreeId::Blocks).contains_key(
                hash@,
            ) && self.ledger.store.tree_map(TreeId::Blocks).index(hash@) == enc_block(b),
            r == Ok::<Option<Block>, RuntimeError>(Option::None) <==> !self.ledger.store.tree_map(
                TreeId::Blocks,
            ).contains_key(hash@),
            r is Err <==> self.ledger.store.tree_map(TreeId::Blocks).contains_key(hash@)
                && no_block_full(self.ledger.store.tree_map(TreeId::Blocks).index(hash@)),
    {
        match self.ledger.store.get_block(hash) {
            Result::Ok(b) => Ok(b),
            Result::Err(e) => Err(RuntimeError::StorageError(e)),
        }
    }

    /// Retrieve a block by its height.
    pub fn get_block_by_height(&self, height: u64) -> (r: Result<Option<Block>, RuntimeError>)
        requires
            self.wf(),
        ensures
            r matches Ok(Some(b)) ==> self.ledger.store.tree_map(TreeId::Blocks).contains_key(
                crate::keys::height_key_spec(height),
            ) && self.ledger.store.tree_map(TreeId::Blocks).index(
                crate::keys::height_key_spec(height),
            ) == enc_block(b),
            r == Ok::<Option<Block>, RuntimeError>(Option::None) <==> !self.ledger.store.tree_map(
                TreeId::Blocks,
            ).contains_key(crate::keys::height_key_spec(height)),
            height <= self.chain_state.latest_block_index ==> (r matches Ok(Some(b))
                && crate::codec::block_eqv(b, self.ledger.chain@[height as int])),
    {
        proof {
            if height <= self.chain_state.latest_block_index {
                assert(chain_entry_ok(self.ledger.store, self.ledger.chain@, height as int));
            }
        }
        match self.ledger.store.get_block_by_height(height) {
            Result::Ok(b) => Ok(b),
            Result::Err(e) => {
                proof {
                    if height <= self.chain_state.latest_block_index {
                        assert(false);
                    }
                }
                Err(RuntimeError::StorageError(e))
            },
        }
    }

    /// Retrieve a transaction by its hash.
    pub fn get_transaction(&self, tx_hash: &[u8; 32]) -> (r: Result<
        Option<Transaction>,
        RuntimeError,
    >)
        requires
            self.wf(),
        ensures
            r matches Ok(Some(t)) ==> self.ledger.store.tree_map(
                TreeId::Transactions,
            ).contains_key(tx_hash@) && self.ledger.store.tree_map(TreeId::Transactions).index(
                tx_hash@,
            ) == enc_tx(t),
            r == Ok::<Option<Transaction>, RuntimeError>(Option::None)
                <==> !self.ledger.store.tree_map(TreeId::Transactions).contains_key(tx_hash@),
            r is Err <==> self.ledger.store.tree_map(TreeId::Transactions).contains_key(tx_hash@)
                && (forall|t0: Transaction|
                self.ledger.store.tree_map(TreeId::Transactions).index(tx_hash@) != #[trigger]
                enc_tx(t0)),
    {
        match self.ledger.store.get_transaction(tx_hash) {
            Result::Ok(t) => Ok(t),
            Result::Err(e) => Err(RuntimeError::StorageError(e)),
        }
    }

    /// Retrieve an account's record.
    pub fn get_account(&self, address: &PublicKey) -> (r: Result<Option<Account>, RuntimeError>)
        requires
            self.wf(),
        ensures
            r == Ok::<Option<Account>, RuntimeError>(
                if self.ledger.accounts_model@.contains_key(address.bytes@) {
                    Option::Some(self.ledger.accounts_model@[address.bytes@])
                } else {
                    Option::None
                },
            ),
    {
        match self.ledger.store.get_account(address) {
            Result::Ok(Option::Some(a)) => {
                proof {
                    assert(self.ledger.accounts_model@.contains_key(address.bytes@));
                    assert(self.ledger.store.tree_map(TreeId::Accounts).index(address.bytes@)
                        == enc_account(self.ledger.accounts_model@[address.bytes@]));
                }
                Ok(Some(a))
            },
            Result::Ok(Option::None) => Ok(None),
            Result::Err(e) => {
                proof {
                    assert(self.ledger.accounts_model@.contains_key(address.bytes@));
                    assert(self.ledger.store.tree_map(TreeId::Accounts).index(address.bytes@)
                        == enc_account(self.ledger.accounts_model@[address.bytes@]));
                    assert(false);
                }
                Err(RuntimeError::StorageError(e))
            },
        }
    }

    /// Read one contract-storage cell.
    pub fn contract_storage_read(&self, contract_id: &ContractId, key: &Vec<u8>) -> (r: Result<
        Option<Vec<u8>>,
        RuntimeError,
    >)
        requires
            self.wf(),
        ensures
            r matches Ok(Some(v)) ==> v@ == self.ledger.store.tree_map(
                TreeId::ContractStorage,
            ).index(crate::keys::contract_state_key_spec(contract_id.id@, key@)),
            r matches Ok(None) <==> !self.ledger.store.tree_map(
                TreeId::ContractStorage,
            ).contains_key(crate::keys::contract_state_key_spec(contract_id.id@, key@)),
            r is Ok,
    {
        match self.ledger.store.contract_storage_read(contract_id, key) {
            Result::Ok(v) => Ok(v),
            Result::Err(e) => Err(RuntimeError::StorageError(e)),
        }
    }

    /// The wall clock, in whole seconds since the Unix epoch.
    pub fn get_current_timestamp(&self) -> u64 {
        now_seconds()
    }

    /// Pre-seed an account, for provisioning and tests: the record is
    /// stored and the account model advances with it.
    pub fn seed_account(&mut self, address: &PublicKey, account: &Account)
        requires
            old(self).wf(),
        ensures
            final(self).wf(),
            final(self).ledger.accounts_model@ == old(self).ledger.accounts_model@.insert(
                address.bytes@,
                *account,
            ),
            final(self).chain_state == old(self).chain_state,
            final(self).mempool == old(self).mempool,
            final(self).ledger.chain == old(self).ledger.chain,
    {
        let runtime_ledger = &mut self.ledger;
        runtime_ledger.store.put_account(address, account);
        proof {
            runtime_ledger.accounts_model@ = runtime_ledger.accounts_model@.insert(
                address.bytes@,
                *account,
            );
            assert(accounts_abstracted(
                runtime_ledger.store.tree_map(TreeId::Accounts),
                runtime_ledger.accounts_model@,
            )) by {
                assert(runtime_ledger.store.tree_map(TreeId::Accounts).dom()
                    =~= runtime_ledger.accounts_model@.dom());
            }
            assert(chain_ok(runtime_ledger.store, runtime_ledger.chain@, self.chain_state)) by {
                assert forall|ci: int| 0 <= ci < runtime_ledger.chain@.len()
                    implies #[trigger] chain_entry_ok(
                    runtime_ledger.store,
                    runtime_ledger.chain@,
                    ci,
                ) by {
                    assert(chain_entry_ok(
                        old(self).ledger.store,
                        runtime_ledger.chain@,
                        ci,
                    ));
                    let b = runtime_ledger.chain@[ci];
                    let w = choose|b2: Block|
                        old(self).ledger.store.tree_map(TreeId::Blocks).index(b.hash@)
                            == #[trigger] enc_block(b2) && b2.hash@ == b.hash@;
                    assert(crate::ledger::hash_entry_ok(runtime_ledger.store, b.hash@));
                }
            }
        }
    }

    /// The contract engine.
    pub fn contract_engine(&self) -> (r: &BaaLSContractEngine)
        ensures
            r == &self.ledger.engine,
    {
        &self.ledger.engine
    }

    /// The underlying store.
    pub fn storage(&self) -> (r: &KvStore)
        ensures
            r == &self.ledger.store,
    {
        &self.ledger.store
    }
}

} // verus!