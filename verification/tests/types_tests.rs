//! Hashing and signing behaviour of blocks and transactions, checked
//! against directly computed digests and signatures.

use baals::codec::{decode_account, decode_block, decode_tx, encode_account, encode_block,
    encode_block_signing, encode_tx_signing, tx_to_bytes};
use baals::crypto::format_hex;
use baals::types::{
    Account, Address, Block, PublicKey, Transaction, TransactionPayload, TransactionSignature,
};
use ed25519_dalek::SigningKey;
use sha2::{Digest, Sha256};

fn random_secret() -> [u8; 32] {
    let mut rng = rand::rngs::OsRng;
    let mut secret_bytes = [0u8; 32];
    rand::Rng::fill(&mut rng, &mut secret_bytes);
    secret_bytes
}

fn public_of(secret: &[u8; 32]) -> PublicKey {
    let signing_key = SigningKey::from_bytes(secret);
    PublicKey::from_bytes(&signing_key.verifying_key().to_bytes()).unwrap()
}

fn data_tx(sender: PublicKey, nonce: u64, timestamp: u64, data: Vec<u8>) -> Transaction {
    Transaction {
        hash: [0; 32],
        sender,
        nonce,
        timestamp,
        recipient: Address::Wallet(sender),
        payload: TransactionPayload::Data { data },
        signature: TransactionSignature::from_bytes(&[0; 64]).unwrap(),
        gas_limit: 0,
        priority: 0,
        metadata: None,
    }
}

#[test]
fn test_block_hash_calculation() {
    let secret = random_secret();
    let sender_pk = public_of(&secret);

    let tx1 = data_tx(sender_pk, 1, 1234567890, vec![1, 2, 3]);
    let tx2 = data_tx(sender_pk, 2, 1234567891, vec![4, 5, 6]);

    let block = Block {
        index: 0,
        timestamp: 1234567890,
        prev_hash: [0; 32],
        hash: [0; 32],
        nonce: 0,
        transactions: vec![tx1.clone(), tx2.clone()],
        metadata: None,
    };

    let hash1 = block.calculate_hash().unwrap();
    // Changing a field should change the hash
    let mut block_modified = block.clone();
    block_modified.index = 1;
    let hash2 = block_modified.calculate_hash().unwrap();
    assert_ne!(hash1, hash2);

    // Same content should yield same hash
    let block_copy = block.clone();
    let hash3 = block_copy.calculate_hash().unwrap();
    assert_eq!(hash1, hash3);
}

#[test]
fn test_transaction_signing_and_verification() {
    let secret = random_secret();
    let public_key = public_of(&secret);

    let mut tx = data_tx(public_key, 1, 1234567890, vec![1, 2, 3]);

    // Before signing, hash is default and verification should fail
    assert!(!tx.verify_signature().unwrap());

    // Sign the transaction
    tx.sign(&secret).unwrap();
    assert_ne!(tx.hash, [0; 32]); // Hash should be calculated

    // After signing, verification should pass
    assert!(tx.verify_signature().unwrap());

    // Tampering with payload should make verification fail
    let mut tampered_tx = tx.clone();
    if let TransactionPayload::Data { data } = &mut tampered_tx.payload {
        data.push(99);
    }
    // Recalculate hash for tampering, but don't re-sign
    tampered_tx.hash = tampered_tx.calculate_hash().unwrap();
    assert!(!tampered_tx.verify_signature().unwrap());

    // Tampering with signature should make verification fail
    let mut tampered_sig_tx = tx.clone();
    tampered_sig_tx.signature = TransactionSignature::from_bytes(&[1; 64]).unwrap();
    assert!(!tampered_sig_tx.verify_signature().unwrap());
}

#[test]
fn tx_hash_matches_direct_sha256_of_signing_bytes() {
    let secret = [7u8; 32];
    let sender = public_of(&secret);
    let mut tx = data_tx(sender, 3, 42, vec![9, 8, 7]);
    tx.sign(&secret).unwrap();
    let preimage = encode_tx_signing(&tx);
    let expected: [u8; 32] = Sha256::digest(&preimage).into();
    assert_eq!(tx.hash, expected);
    assert_eq!(tx.calculate_hash().unwrap(), expected);
}

#[test]
fn block_hash_matches_direct_sha256_of_signing_bytes() {
    let block = Block {
        index: 5,
        timestamp: 99,
        prev_hash: [3; 32],
        hash: [0; 32],
        nonce: 0,
        transactions: vec![],
        metadata: None,
    };
    let preimage = encode_block_signing(&block);
    let expected: [u8; 32] = Sha256::digest(&preimage).into();
    assert_eq!(block.calculate_hash().unwrap(), expected);
}

#[test]
fn signature_matches_direct_ed25519() {
    let secret = [5u8; 32];
    let sender = public_of(&secret);
    let mut tx = data_tx(sender, 1, 7, vec![1]);
    tx.sign(&secret).unwrap();
    let signing_key = SigningKey::from_bytes(&secret);
    let expected = ed25519_dalek::Signer::sign(&signing_key, &tx.hash).to_bytes();
    assert_eq!(tx.signature.to_bytes(), expected);
}

#[test]
fn format_hex_spells_bytes_lowercase() {
    let mut bytes = [0u8; 32];
    bytes[0] = 0xab;
    bytes[1] = 0x01;
    bytes[31] = 0xff;
    let s = format_hex(&bytes);
    assert_eq!(&s[0..4], "ab01");
    assert_eq!(&s[62..64], "ff");
    assert_eq!(s.len(), 64);
    assert_eq!(s, hex::encode(bytes));
}

#[test]
fn public_key_from_bytes_rejects_off_curve() {
    // Not every 32-byte string decompresses to a curve point; this one
    // does not.
    let mut bad = [0xffu8; 32];
    bad[31] = 0x7f;
    let ok = ed25519_dalek::VerifyingKey::from_bytes(&bad).is_ok();
    assert_eq!(PublicKey::from_bytes(&bad).is_ok(), ok);
    // A derived key always parses.
    let pk = public_of(&[9u8; 32]);
    assert!(PublicKey::from_bytes(&pk.to_bytes()).is_ok());
}

#[test]
fn account_encoding_round_trips() {
    let wallet = Account::Wallet { balance: 12345, nonce: 7 };
    let contract = Account::Contract { code_hash: [1; 32], storage_root_hash: [0; 32], nonce: 2 };
    assert_eq!(decode_account(&encode_account(&wallet)), Some(wallet));
    assert_eq!(decode_account(&encode_account(&contract)), Some(contract));
    assert_eq!(decode_account(&vec![9, 9, 9]), None);
}

#[test]
fn block_and_tx_encodings_round_trip() {
    let secret = [3u8; 32];
    let sender = public_of(&secret);
    let mut tx = data_tx(sender, 1, 10, vec![1, 2]);
    tx.sign(&secret).unwrap();
    let encoded_tx = tx_to_bytes(&tx);
    assert_eq!(decode_tx(&encoded_tx), Some(tx.clone()));

    let block = Block {
        index: 1,
        timestamp: 11,
        prev_hash: [2; 32],
        hash: [4; 32],
        nonce: 0,
        transactions: vec![tx],
        metadata: Some(vec![(vec![107u8], vec![118u8])]),
    };
    let encoded = encode_block(&block);
    assert_eq!(decode_block(&encoded), Some(block));
    assert_eq!(decode_block(&vec![0u8; 3]), None);
}

#[test]
fn keypair_generation_derives_matching_public_key() {
    let kp = baals::runtime::Runtime::generate_keypair().unwrap();
    let expected = SigningKey::from_bytes(&kp.secret).verifying_key().to_bytes();
    assert_eq!(kp.public.to_bytes(), expected);
}
