//! End-to-end scenarios over a fresh store: genesis, transfers, the
//! admission and nonce rules, commit atomicity and genesis
//! idempotence.

use baals::consensus::{ConsensusError, PoAConsensus};
use baals::contracts::BaaLSContractEngine;
use baals::ledger::{Ledger, LedgerError, StateTransitionError};
use baals::runtime::{InvalidTransactionReason, Runtime, RuntimeError};
use baals::storage::{KvStore, StorageError};
use baals::sync::{MessageFrame, SyncError};
use baals::types::{
    Account, Address, ContractId, PublicKey, Transaction, TransactionPayload,
    TransactionSignature, metadata_insert,
};
use ed25519_dalek::SigningKey;
use sha2::{Digest, Sha256};

fn public_of(secret: &[u8; 32]) -> PublicKey {
    let signing_key = SigningKey::from_bytes(secret);
    PublicKey::from_bytes(&signing_key.verifying_key().to_bytes()).unwrap()
}

fn key_a() -> ([u8; 32], PublicKey) {
    let secret = [11u8; 32];
    (secret, public_of(&secret))
}

fn key_b() -> ([u8; 32], PublicKey) {
    let secret = [22u8; 32];
    (secret, public_of(&secret))
}

fn new_runtime(seeds: &[(PublicKey, Account)]) -> Runtime {
    let mut store = KvStore::new();
    for (pk, account) in seeds {
        store.put_account(pk, account);
    }
    let (_, authority) = key_a();
    let consensus = PoAConsensus::new(authority, 1000);
    Runtime::new(store, consensus, BaaLSContractEngine::new()).unwrap()
}

fn transfer(
    secret: &[u8; 32],
    from: PublicKey,
    to: PublicKey,
    amount: u64,
    nonce: u64,
) -> Transaction {
    let mut tx = Transaction {
        hash: [0; 32],
        sender: from,
        nonce,
        timestamp: 1000 + nonce,
        recipient: Address::Wallet(to),
        payload: TransactionPayload::Transfer { amount },
        signature: TransactionSignature::from_bytes(&[0; 64]).unwrap(),
        gas_limit: 0,
        priority: 0,
        metadata: None,
    };
    tx.sign(secret).unwrap();
    tx
}

#[test]
fn genesis_only_chain_state() {
    let rt = new_runtime(&[]);
    let cs = rt.get_chain_state().unwrap();
    assert_eq!(cs.latest_block_index, 0);
    assert_eq!(cs.total_supply, 0);
    assert_eq!(cs.accounts_root_hash, [0; 32]);
    let genesis = rt.get_block_by_height(0).unwrap().unwrap();
    assert_eq!(genesis.index, 0);
    assert_eq!(genesis.timestamp, 0);
    assert_eq!(genesis.prev_hash, [0; 32]);
    assert_eq!(genesis.transactions.len(), 0);
    let preimage = baals::codec::encode_block_signing(&genesis);
    let expected: [u8; 32] = Sha256::digest(&preimage).into();
    assert_eq!(cs.latest_block_hash, expected);
    assert_eq!(genesis.hash, expected);
}

#[test]
fn single_transfer_commits() {
    let (sa, a) = key_a();
    let (_, b) = key_b();
    let mut rt = new_runtime(&[(a, Account::Wallet { balance: 100, nonce: 0 })]);
    let tx = transfer(&sa, a, b, 40, 1);
    let tx_hash = tx.hash;
    rt.submit_transaction(tx).unwrap();
    let block = rt.produce_block().unwrap();
    assert_eq!(block.index, 1);
    assert_eq!(rt.get_account(&a).unwrap(), Some(Account::Wallet { balance: 60, nonce: 1 }));
    assert_eq!(rt.get_account(&b).unwrap(), Some(Account::Wallet { balance: 40, nonce: 0 }));
    let cs = rt.get_chain_state().unwrap();
    assert_eq!(cs.latest_block_index, 1);
    assert_eq!(cs.latest_block_hash, block.hash);
    // The transaction is stored and indexed under the block.
    let stored = rt.get_transaction(&tx_hash).unwrap().unwrap();
    assert_eq!(stored.hash, tx_hash);
    let indexed = rt.storage().get_transactions_by_block(&block.hash).unwrap();
    assert_eq!(indexed.len(), 1);
    assert_eq!(indexed[0].hash, tx_hash);
    // The committed block is also retrievable by hash and height.
    assert_eq!(rt.get_block(&block.hash).unwrap().unwrap().hash, block.hash);
    assert_eq!(rt.get_block_by_height(1).unwrap().unwrap().hash, block.hash);
}

#[test]
fn insufficient_balance_rejects_block() {
    let (sa, a) = key_a();
    let (_, b) = key_b();
    let mut rt = new_runtime(&[(a, Account::Wallet { balance: 10, nonce: 0 })]);
    rt.submit_transaction(transfer(&sa, a, b, 50, 1)).unwrap();
    let r = rt.produce_block();
    assert_eq!(r.unwrap_err(), RuntimeError::LedgerError(LedgerError::InsufficientBalance(a)));
    // The mempool keeps the transaction; the chain did not move.
    assert_eq!(rt.mempool.len(), 1);
    assert_eq!(rt.get_chain_state().unwrap().latest_block_index, 0);
    assert_eq!(rt.get_account(&a).unwrap(), Some(Account::Wallet { balance: 10, nonce: 0 }));
}

#[test]
fn nonce_gap_rejects_block() {
    let (sa, a) = key_a();
    let (_, b) = key_b();
    let mut rt = new_runtime(&[(a, Account::Wallet { balance: 100, nonce: 0 })]);
    rt.submit_transaction(transfer(&sa, a, b, 10, 1)).unwrap();
    rt.submit_transaction(transfer(&sa, a, b, 10, 3)).unwrap();
    let r = rt.produce_block();
    assert_eq!(r.unwrap_err(), RuntimeError::LedgerError(LedgerError::InvalidNonce(a, 2, 3)));
    assert_eq!(rt.mempool.len(), 2);
    assert_eq!(rt.get_chain_state().unwrap().latest_block_index, 0);
    assert_eq!(rt.get_account(&a).unwrap(), Some(Account::Wallet { balance: 100, nonce: 0 }));
}

#[test]
fn transfer_creates_recipient() {
    let (sa, a) = key_a();
    let (_, b) = key_b();
    let mut rt = new_runtime(&[(a, Account::Wallet { balance: 100, nonce: 0 })]);
    assert_eq!(rt.get_account(&b).unwrap(), None);
    rt.submit_transaction(transfer(&sa, a, b, 25, 1)).unwrap();
    rt.produce_block().unwrap();
    assert_eq!(rt.get_account(&b).unwrap(), Some(Account::Wallet { balance: 25, nonce: 0 }));
    assert_eq!(rt.get_account(&a).unwrap(), Some(Account::Wallet { balance: 75, nonce: 1 }));
}

#[test]
fn replayed_transaction_is_refused_at_admission() {
    let (sa, a) = key_a();
    let (_, b) = key_b();
    let mut rt = new_runtime(&[(a, Account::Wallet { balance: 100, nonce: 0 })]);
    let tx = transfer(&sa, a, b, 40, 1);
    rt.submit_transaction(tx.clone()).unwrap();
    rt.produce_block().unwrap();
    let r = rt.submit_transaction(tx);
    assert_eq!(
        r.unwrap_err(),
        RuntimeError::InvalidTransaction(InvalidTransactionReason::NonceTooLow {
            current: 1,
            got: 1,
        }),
    );
}

#[test]
fn two_transfers_same_sender_in_one_block() {
    let (sa, a) = key_a();
    let (_, b) = key_b();
    let mut rt = new_runtime(&[(a, Account::Wallet { balance: 100, nonce: 0 })]);
    rt.submit_transaction(transfer(&sa, a, b, 10, 1)).unwrap();
    rt.submit_transaction(transfer(&sa, a, b, 20, 2)).unwrap();
    let block = rt.produce_block().unwrap();
    assert_eq!(block.transactions.len(), 2);
    assert_eq!(rt.get_account(&a).unwrap(), Some(Account::Wallet { balance: 70, nonce: 2 }));
    assert_eq!(rt.get_account(&b).unwrap(), Some(Account::Wallet { balance: 30, nonce: 0 }));
    assert_eq!(rt.mempool.len(), 0);
}

#[test]
fn balance_sum_invariant_under_transfers() {
    let (sa, a) = key_a();
    let (_, b) = key_b();
    let mut rt = new_runtime(&[
        (a, Account::Wallet { balance: 70, nonce: 0 }),
        (b, Account::Wallet { balance: 30, nonce: 0 }),
    ]);
    rt.submit_transaction(transfer(&sa, a, b, 15, 1)).unwrap();
    rt.produce_block().unwrap();
    let bal = |acc: Option<Account>| match acc {
        Some(Account::Wallet { balance, .. }) => balance,
        _ => 0,
    };
    let total = bal(rt.get_account(&a).unwrap()) + bal(rt.get_account(&b).unwrap());
    assert_eq!(total, 100);
}

#[test]
fn failed_commit_changes_nothing() {
    let (sa, a) = key_a();
    let (_, b) = key_b();
    let mut rt = new_runtime(&[(a, Account::Wallet { balance: 100, nonce: 0 })]);
    rt.submit_transaction(transfer(&sa, a, b, 40, 1)).unwrap();
    let before = rt.storage().clone();
    let cs_before = rt.get_chain_state().unwrap();
    rt.ledger.store.arm_failure();
    let r = rt.produce_block();
    assert_eq!(
        r.unwrap_err(),
        RuntimeError::LedgerError(LedgerError::StorageError(StorageError::DatabaseError)),
    );
    // Every tree and the cached chain state are exactly as before.
    let after = rt.storage();
    assert_eq!(after.blocks, before.blocks);
    assert_eq!(after.transactions, before.transactions);
    assert_eq!(after.mempool, before.mempool);
    assert_eq!(after.accounts, before.accounts);
    assert_eq!(after.contract_code, before.contract_code);
    assert_eq!(after.contract_storage, before.contract_storage);
    assert_eq!(after.chain_state, before.chain_state);
    assert_eq!(after.tx_by_block, before.tx_by_block);
    assert_eq!(rt.get_chain_state().unwrap(), cs_before);
    assert_eq!(rt.mempool.len(), 1);
    // The next commit, with the failure disarmed, succeeds.
    rt.produce_block().unwrap();
    assert_eq!(rt.get_account(&b).unwrap(), Some(Account::Wallet { balance: 40, nonce: 0 }));
}

#[test]
fn genesis_is_idempotent() {
    let mut ledger = Ledger::new(KvStore::new(), BaaLSContractEngine::new());
    ledger.initialize_chain().unwrap();
    let snapshot = ledger.store.clone();
    ledger.initialize_chain().unwrap();
    assert_eq!(ledger.store.blocks, snapshot.blocks);
    assert_eq!(ledger.store.chain_state, snapshot.chain_state);
    assert_eq!(ledger.store.transactions, snapshot.transactions);
    assert_eq!(ledger.store.mempool, snapshot.mempool);
    assert_eq!(ledger.store.accounts, snapshot.accounts);
    assert_eq!(ledger.store.contract_code, snapshot.contract_code);
    assert_eq!(ledger.store.contract_storage, snapshot.contract_storage);
    assert_eq!(ledger.store.tx_by_block, snapshot.tx_by_block);
}

#[test]
fn chain_links_and_height_index_stay_consistent() {
    let (sa, a) = key_a();
    let (_, b) = key_b();
    let mut rt = new_runtime(&[(a, Account::Wallet { balance: 100, nonce: 0 })]);
    rt.submit_transaction(transfer(&sa, a, b, 5, 1)).unwrap();
    let b1 = rt.produce_block().unwrap();
    rt.submit_transaction(transfer(&sa, a, b, 5, 2)).unwrap();
    let b2 = rt.produce_block().unwrap();
    // Chain linearity over the committed blocks.
    let h0 = rt.get_block_by_height(0).unwrap().unwrap();
    let h1 = rt.get_block_by_height(1).unwrap().unwrap();
    let h2 = rt.get_block_by_height(2).unwrap().unwrap();
    assert_eq!(h1.prev_hash, h0.hash);
    assert_eq!(h2.prev_hash, h1.hash);
    assert_eq!(h1.index, h0.index + 1);
    assert_eq!(h2.index, h1.index + 1);
    assert_eq!(h1.hash, b1.hash);
    assert_eq!(h2.hash, b2.hash);
    // Height index consistency: the block under each height key is
    // found under its own hash with the same hash.
    for i in 0..3u64 {
        let by_height = rt.get_block_by_height(i).unwrap().unwrap();
        let by_hash = rt.get_block(&by_height.hash).unwrap().unwrap();
        assert_eq!(by_hash.hash, by_height.hash);
    }
}

#[test]
fn transfer_to_contract_address_is_refused() {
    let (sa, a) = key_a();
    let mut rt = new_runtime(&[(a, Account::Wallet { balance: 100, nonce: 0 })]);
    let mut tx = Transaction {
        hash: [0; 32],
        sender: a,
        nonce: 1,
        timestamp: 5,
        recipient: Address::Contract(ContractId::from_bytes(&[9; 32])),
        payload: TransactionPayload::Transfer { amount: 1 },
        signature: TransactionSignature::from_bytes(&[0; 64]).unwrap(),
        gas_limit: 0,
        priority: 0,
        metadata: None,
    };
    tx.sign(&sa).unwrap();
    rt.submit_transaction(tx).unwrap();
    let r = rt.produce_block();
    assert_eq!(
        r.unwrap_err(),
        RuntimeError::LedgerError(LedgerError::StateTransition(
            StateTransitionError::TransferToContract,
        )),
    );
}

#[test]
fn unknown_sender_is_refused_at_apply() {
    let (sa, a) = key_a();
    let (_, b) = key_b();
    // A is not seeded: admission treats it as an empty wallet, but the
    // apply step requires the sender to exist.
    let mut rt = new_runtime(&[]);
    rt.submit_transaction(transfer(&sa, a, b, 1, 1)).unwrap();
    let r = rt.produce_block();
    assert_eq!(r.unwrap_err(), RuntimeError::LedgerError(LedgerError::AccountNotFound(a)));
}

#[test]
fn contract_deploy_stores_code_and_converts_account() {
    let (sa, a) = key_a();
    let mut rt = new_runtime(&[(a, Account::Wallet { balance: 100, nonce: 0 })]);
    let wasm = vec![0u8, 97, 115, 109];
    let mut tx = Transaction {
        hash: [0; 32],
        sender: a,
        nonce: 1,
        timestamp: 5,
        recipient: Address::Wallet(a),
        payload: TransactionPayload::ContractDeploy { wasm_bytes: wasm.clone() },
        signature: TransactionSignature::from_bytes(&[0; 64]).unwrap(),
        gas_limit: 10,
        priority: 0,
        metadata: None,
    };
    tx.sign(&sa).unwrap();
    rt.submit_transaction(tx).unwrap();
    rt.produce_block().unwrap();
    // The contract id is the digest of the deployer key and the code.
    let mut hasher = Sha256::new();
    hasher.update(a.to_bytes());
    hasher.update(&wasm);
    let cid = ContractId::from_bytes(&hasher.finalize().into());
    let code = rt.storage().get_contract_code(&cid).unwrap();
    assert_eq!(code, Some(wasm));
    assert_eq!(
        rt.get_account(&a).unwrap(),
        Some(Account::Contract { code_hash: cid.to_bytes(), storage_root_hash: [0; 32], nonce: 1 }),
    );
}

#[test]
fn empty_mempool_refuses_production() {
    let mut rt = new_runtime(&[]);
    let r = rt.produce_block();
    assert_eq!(
        r.unwrap_err(),
        RuntimeError::ConsensusError(ConsensusError::NoPendingTransactions),
    );
}

#[test]
fn bad_signature_is_refused_at_admission() {
    let (sa, a) = key_a();
    let (_, b) = key_b();
    let mut rt = new_runtime(&[(a, Account::Wallet { balance: 100, nonce: 0 })]);
    let mut tx = transfer(&sa, a, b, 1, 1);
    tx.signature = TransactionSignature::from_bytes(&[1; 64]).unwrap();
    let r = rt.submit_transaction(tx);
    assert_eq!(
        r.unwrap_err(),
        RuntimeError::InvalidTransaction(InvalidTransactionReason::BadSignature),
    );
}

#[test]
fn poa_sign_and_validate_round_trip() {
    let (sa, a) = key_a();
    let (sb, _) = key_b();
    let (_, b) = key_b();
    let mut rt = new_runtime(&[(a, Account::Wallet { balance: 100, nonce: 0 })]);
    rt.submit_transaction(transfer(&sa, a, b, 1, 1)).unwrap();
    let mut block = rt.produce_block().unwrap();
    let consensus = PoAConsensus::new(a, 1000);
    let cs = rt.get_chain_state().unwrap();
    // The committed predecessor of this block is genesis, at time 0.
    let prev_timestamp = 0;
    // Unsigned blocks are refused.
    assert_eq!(
        consensus.validate_block(&block, &cs, prev_timestamp).unwrap_err(),
        ConsensusError::UnauthorizedSigner,
    );
    // Only the authorized key may sign.
    assert_eq!(
        consensus.sign_block(&mut block, &sb).unwrap_err(),
        ConsensusError::UnauthorizedSigner,
    );
    // Signed by the authority, the block validates.
    consensus.sign_block(&mut block, &sa).unwrap();
    assert!(consensus.validate_block(&block, &cs, prev_timestamp).is_ok());
    // A timestamp that does not move forward is refused.
    assert_eq!(
        consensus.validate_block(&block, &cs, block.timestamp).unwrap_err(),
        ConsensusError::InvalidTimestamp,
    );
    // Tampering with a field breaks the re-derived hash.
    let mut tampered = block.clone();
    tampered.timestamp += 1;
    assert_eq!(
        consensus.validate_block(&tampered, &cs, prev_timestamp).unwrap_err(),
        ConsensusError::ValidationFailed,
    );
}

#[test]
fn message_frame_round_trips() {
    let frame = MessageFrame::new(vec![1, 2, 3, 4, 5]).unwrap();
    assert_eq!(frame.length, 5);
    let wire = frame.to_bytes().unwrap();
    assert_eq!(wire.len(), 9);
    let parsed = MessageFrame::from_bytes(&wire).unwrap();
    assert_eq!(parsed, frame);
    // A truncated buffer is an invalid message.
    assert_eq!(
        MessageFrame::from_bytes(&vec![1, 2, 3]).unwrap_err(),
        SyncError::InvalidMessage,
    );
    assert_eq!(
        MessageFrame::from_bytes(&vec![5, 0, 0, 0, 1]).unwrap_err(),
        SyncError::InvalidMessage,
    );
}

#[test]
fn pending_transactions_survive_in_mempool_tree() {
    // The mempool tree and its scan: store one transaction, read it
    // back, remove it.
    let (sa, a) = key_a();
    let (_, b) = key_b();
    let tx = transfer(&sa, a, b, 1, 1);
    let mut store = KvStore::new();
    store.put(
        baals::storage::TreeId::Mempool,
        tx.hash.to_vec(),
        baals::codec::tx_to_bytes(&tx),
    );
    let pending = store.get_pending_transactions().unwrap();
    assert_eq!(pending.len(), 1);
    assert_eq!(pending[0], tx);
    store.remove_pending_transaction(&tx.hash);
    assert_eq!(store.get_pending_transactions().unwrap().len(), 0);
}

#[test]
fn contract_call_to_wallet_address_is_refused() {
    let (sa, a) = key_a();
    let mut rt = new_runtime(&[(a, Account::Wallet { balance: 100, nonce: 0 })]);
    let mut tx = Transaction {
        hash: [0; 32],
        sender: a,
        nonce: 1,
        timestamp: 5,
        recipient: Address::Wallet(a),
        payload: TransactionPayload::ContractCall { method: b"run".to_vec(), args: vec![] },
        signature: TransactionSignature::from_bytes(&[0; 64]).unwrap(),
        gas_limit: 0,
        priority: 0,
        metadata: None,
    };
    tx.sign(&sa).unwrap();
    rt.submit_transaction(tx).unwrap();
    let r = rt.produce_block();
    assert_eq!(
        r.unwrap_err(),
        RuntimeError::LedgerError(LedgerError::InvalidTransactionPayload),
    );
}

#[test]
fn overflowing_credit_is_refused() {
    let (sa, a) = key_a();
    let (_, b) = key_b();
    let mut rt = new_runtime(&[
        (a, Account::Wallet { balance: 100, nonce: 0 }),
        (b, Account::Wallet { balance: u64::MAX, nonce: 0 }),
    ]);
    rt.submit_transaction(transfer(&sa, a, b, 1, 1)).unwrap();
    let r = rt.produce_block();
    assert_eq!(
        r.unwrap_err(),
        RuntimeError::LedgerError(LedgerError::StateTransition(
            StateTransitionError::BalanceOverflow,
        )),
    );
    // Nothing moved.
    assert_eq!(rt.get_account(&a).unwrap(), Some(Account::Wallet { balance: 100, nonce: 0 }));
    assert_eq!(
        rt.get_account(&b).unwrap(),
        Some(Account::Wallet { balance: u64::MAX, nonce: 0 }),
    );
}

#[test]
fn latest_block_and_height_follow_the_tip() {
    let (sa, a) = key_a();
    let (_, b) = key_b();
    // An uninitialized store has no tip.
    let empty = KvStore::new();
    assert_eq!(empty.get_latest_block().unwrap(), None);
    assert_eq!(empty.get_chain_height().unwrap(), 0);
    // After genesis the tip is the genesis block.
    let mut rt = new_runtime(&[(a, Account::Wallet { balance: 100, nonce: 0 })]);
    let tip0 = rt.storage().get_latest_block().unwrap().unwrap();
    assert_eq!(tip0.index, 0);
    assert_eq!(rt.storage().get_chain_height().unwrap(), 0);
    // After a committed block the tip advances with it.
    rt.submit_transaction(transfer(&sa, a, b, 5, 1)).unwrap();
    let block = rt.produce_block().unwrap();
    let tip1 = rt.storage().get_latest_block().unwrap().unwrap();
    assert_eq!(tip1.hash, block.hash);
    assert_eq!(tip1.index, 1);
    assert_eq!(rt.storage().get_chain_height().unwrap(), 1);
}

#[test]
fn latest_block_follows_height_entries_without_a_summary() {
    // A block stored under its height key is the latest block, even
    // when no chain-state summary exists yet.
    let (sa, a) = key_a();
    let (_, b) = key_b();
    let mut tx = transfer(&sa, a, b, 1, 1);
    tx.timestamp = 7;
    let block = baals::types::Block {
        index: 3,
        timestamp: 9,
        prev_hash: [1; 32],
        hash: [2; 32],
        nonce: 0,
        transactions: vec![tx],
        metadata: None,
    };
    let mut store = KvStore::new();
    store.put_block(&block);
    let latest = store.get_latest_block().unwrap().unwrap();
    assert_eq!(latest, block);
    assert_eq!(store.get_chain_height().unwrap(), 3);
}

#[test]
fn runtime_reopens_an_initialized_store() {
    let (sa, a) = key_a();
    let (_, b) = key_b();
    let mut rt = new_runtime(&[(a, Account::Wallet { balance: 100, nonce: 0 })]);
    rt.submit_transaction(transfer(&sa, a, b, 40, 1)).unwrap();
    let block = rt.produce_block().unwrap();
    let store = rt.storage().clone();
    // Reopen over the committed store: the cached state is the stored
    // summary, and the accounts are still visible.
    let consensus = PoAConsensus::new(a, 1000);
    let reopened = Runtime::new(store, consensus, BaaLSContractEngine::new()).unwrap();
    let cs = reopened.get_chain_state().unwrap();
    assert_eq!(cs.latest_block_index, 1);
    assert_eq!(cs.latest_block_hash, block.hash);
    assert_eq!(
        reopened.get_account(&a).unwrap(),
        Some(Account::Wallet { balance: 60, nonce: 1 }),
    );
    assert_eq!(
        reopened.get_account(&b).unwrap(),
        Some(Account::Wallet { balance: 40, nonce: 0 }),
    );
}

#[test]
fn sorted_metadata_signs_and_verifies() {
    let (sa, a) = key_a();
    // Insert out of key order; the builder keeps the entries sorted.
    let md = metadata_insert(Vec::new(), vec![122u8], vec![2u8]);
    let md = metadata_insert(md, vec![97u8], vec![1u8]);
    assert_eq!(md[0].0, vec![97u8]);
    assert_eq!(md[1].0, vec![122u8]);
    // Overwriting a key keeps one entry.
    let md = metadata_insert(md, vec![97u8], vec![9u8]);
    assert_eq!(md.len(), 2);
    assert_eq!(md[0].1, vec![9u8]);
    let mut tx = Transaction {
        hash: [0; 32],
        sender: a,
        nonce: 1,
        timestamp: 5,
        recipient: Address::Wallet(a),
        payload: TransactionPayload::Data { data: vec![1] },
        signature: TransactionSignature::from_bytes(&[0; 64]).unwrap(),
        gas_limit: 0,
        priority: 0,
        metadata: Some(md),
    };
    tx.sign(&sa).unwrap();
    assert!(tx.verify_signature().unwrap());
}
