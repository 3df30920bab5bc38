//! The contract engine: deterministic contract identifiers and code
//! storage. Execution itself is a stub that returns empty output, to
//! be replaced by a sandboxed interpreter; deployment and identifier
//! derivation are the part the ledger depends on.

use vstd::prelude::*;
use crate::crypto::{sha256, sha256_of};
use crate::types::{ContractId, PublicKey};
use crate::storage::{KvStore, StorageBatch, StorageOperation, TreeId, copy_bytes, op_is_put};
use crate::keys::{contract_state_key, contract_state_key_spec, hash_key};

verus! {

/// Errors from contract deployment and execution.
#[derive(Debug, Clone, Copy, PartialEq, Eq)]
pub enum ContractError {
    StorageError,
    ExecutionError,
    ContractNotFound,
    InvalidWasm,
}

/// The outcome of one contract execution.
#[derive(Debug, Clone, PartialEq, Eq)]
pub struct ContractExecutionResult {
    pub success: bool,
    pub output_data: Option<Vec<u8>>,
    pub gas_used: u64,
    pub error_message: Option<Vec<u8>>,
}

/// Placeholder for a sandboxed execution runtime.
pub struct WasmtimeRuntime;

impl WasmtimeRuntime {
    pub fn new() -> (r: Result<Self, ContractError>)
        ensures
            r is Ok,
    {
        Ok(WasmtimeRuntime)
    }
}

/// The key under which a deployment's initial payload is stored.
pub open spec fn init_payload_key() -> Seq<u8> {
    seq![105u8, 110u8, 105u8, 116u8, 95u8, 112u8, 97u8, 121u8, 108u8, 111u8, 97u8, 100u8]
}

/// Build the `init_payload` key bytes.
pub fn init_payload_key_bytes() -> (r: Vec<u8>)
    ensures
        r@ == init_payload_key(),
{
    let mut out: Vec<u8> = Vec::new();
    out.push(105);
    out.push(110);
    out.push(105);
    out.push(116);
    out.push(95);
    out.push(112);
    out.push(97);
    out.push(121);
    out.push(108);
    out.push(111);
    out.push(97);
    out.push(100);
    assert(out@ =~= init_payload_key());
    out
}

/// The contract identifier a deployment derives: the SHA-256 digest of
/// the deployer's key bytes followed by the contract code.
pub open spec fn contract_id_of(deployer: Seq<u8>, wasm: Seq<u8>) -> Seq<u8> {
    sha256_of(deployer + wasm)
}

/// The contract engine.
pub struct BaaLSContractEngine {}

impl BaaLSContractEngine {
    pub fn new() -> (r: Self) {
        BaaLSContractEngine {  }
    }

    /// Derive the contract identifier and stage the contract code
    /// (and, when given, the initial payload) into the write batch.
    /// The writes become durable only when the batch commits.
    pub fn deploy_contract(
        &self,
        deployer: &PublicKey,
        wasm_bytes: &Vec<u8>,
        init_payload: Option<&Vec<u8>>,
        batch: &mut StorageBatch,
        gas_limit: u64,
    ) -> (r: Result<ContractId, ContractError>)
        ensures
            r matches Ok(cid) ==> cid.id@ == contract_id_of(deployer.bytes@, wasm_bytes@),
            r is Ok,
            final(batch).ops@.len() == old(batch).ops@.len() + (
            if init_payload is Some {
                2int
            } else {
                1int
            }),
            forall|j: int| 0 <= j < old(batch).ops@.len() ==> #[trigger] final(batch).ops@[j]
                == old(batch).ops@[j],
            r matches Ok(cid) ==> op_is_put(
                final(batch).ops@[old(batch).ops@.len() as int],
                TreeId::ContractCode,
                cid.id@,
                wasm_bytes@,
            ),
            r matches Ok(cid) && init_payload matches Some(p) ==> op_is_put(
                final(batch).ops@[(old(batch).ops@.len() + 1) as int],
                TreeId::ContractStorage,
                contract_state_key_spec(cid.id@, init_payload_key()),
                p@,
            ),
    {
        let mut preimage = hash_key(&deployer.bytes);
        let mut wasm_copy = copy_bytes(wasm_bytes);
        preimage.append(&mut wasm_copy);
        assert(preimage@ =~= deployer.bytes@ + wasm_bytes@);
        let digest = sha256(&preimage);
        let cid = ContractId { id: digest };
        batch.ops.push(
            StorageOperation::Put(TreeId::ContractCode, hash_key(&cid.id), copy_bytes(wasm_bytes)),
        );
        match init_payload {
            Option::Some(payload) => {
                let key = contract_state_key(&cid.id, &init_payload_key_bytes());
                batch.ops.push(
                    StorageOperation::Put(TreeId::ContractStorage, key, copy_bytes(payload)),
                );
            },
            Option::None => {
            },
        }
        Ok(cid)
    }

    /// Execute a contract call. Execution is a stub: it returns empty
    /// output and changes no state.
    pub fn call_contract(
        &self,
        caller: &PublicKey,
        contract_id: &ContractId,
        method_name: &Vec<u8>,
        args: &Vec<u8>,
        store: &KvStore,
    ) -> (r: Result<Vec<u8>, ContractError>)
        ensures
            r matches Ok(v) && v@ == Seq::<u8>::empty(),
    {
        Ok(Vec::new())
    }

    /// Query a contract. Querying is a stub: it returns empty output.
    pub fn query_contract(
        &self,
        contract_id: &ContractId,
        payload: &Vec<u8>,
        store: &KvStore,
    ) -> (r: Result<Vec<u8>, ContractError>)
        ensures
            r matches Ok(v) && v@ == Seq::<u8>::empty(),
    {
        Ok(Vec::new())
    }
}

} // verus!
