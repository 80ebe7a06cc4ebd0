use blockchain::models::block::Block;
use blockchain::models::encoding::{append_json_str, append_json_u64, sha256_hex, to_lower_hex};
use blockchain::models::transaction::{Transaction, UTXO};
use sha2::{Digest, Sha256};

fn sample_block() -> Block {
    Block {
        index: 1,
        timestamp: 2,
        proof_of_work: 3,
        previous_hash: "0".to_string(),
        hash: "stale".to_string(),
        transactions: Transaction {
            inputs: vec![UTXO { value: 5, receiver: "A".to_string() }],
            outputs: vec![],
        },
    }
}

fn hex_sha256(text: &str) -> String {
    format!("{:x}", Sha256::digest(text.as_bytes()))
}

#[test]
fn block_hash_is_sha256_of_json_without_hash() {
    let block = sample_block();
    let preimage = r#"{"index":1,"timestamp":2,"proof_of_work":3,"previous_hash":"0","hash":"","transactions":{"inputs":[{"value":5,"receiver":"A"}],"outputs":[]}}"#;
    let hash = block.generate_block_hash();
    assert_eq!(hash, hex_sha256(preimage));
    assert_eq!(hash.len(), 64);
}

#[test]
fn block_hash_ignores_hash_field() {
    let mut block = sample_block();
    let first = block.generate_block_hash();
    block.hash = "something else".to_string();
    assert_eq!(block.generate_block_hash(), first);
    block.proof_of_work = 4;
    assert_ne!(block.generate_block_hash(), first);
}

#[test]
fn block_hash_lists_several_outputs() {
    let mut block = sample_block();
    block.transactions.outputs =
        vec![UTXO { value: 1, receiver: "B".to_string() }, UTXO { value: 0, receiver: "C".to_string() }];
    let preimage = r#"{"index":1,"timestamp":2,"proof_of_work":3,"previous_hash":"0","hash":"","transactions":{"inputs":[{"value":5,"receiver":"A"}],"outputs":[{"value":1,"receiver":"B"},{"value":0,"receiver":"C"}]}}"#;
    assert_eq!(block.generate_block_hash(), hex_sha256(preimage));
}

#[test]
fn json_strings_are_escaped() {
    let mut out = String::from("x");
    append_json_str(&mut out, "a\"b\\c\nd\u{1}\u{8}\u{c}\t\r é");
    assert_eq!(out, r#"x"a\"b\\c\nd\u0001\b\f\t\r é""#);
}

#[test]
fn json_numbers_are_decimal() {
    let mut out = String::new();
    append_json_u64(&mut out, 0);
    append_json_u64(&mut out, 12345);
    append_json_u64(&mut out, u64::MAX);
    assert_eq!(out, format!("012345{}", u64::MAX));
}

#[test]
fn hex_is_lower_case_two_digits_a_byte() {
    assert_eq!(to_lower_hex(&vec![0x00, 0xab, 0x10, 0xff]), "00ab10ff");
    assert_eq!(to_lower_hex(&vec![]), "");
    assert_eq!(
        sha256_hex("abc"),
        "ba7816bf8f01cfea414140de5dae2223b00361a396177a9cb410ff61f20015ad"
    );
}

#[test]
fn proof_of_work_checks_leading_zeros() {
    let mut block = sample_block();
    block.hash = "00ab".to_string();
    assert!(block.is_valid_proof_of_work(0));
    assert!(block.is_valid_proof_of_work(2));
    assert!(!block.is_valid_proof_of_work(3));
    assert!(!block.is_valid_proof_of_work(5));
    block.hash = String::new();
    assert!(block.is_valid_proof_of_work(0));
    assert!(!block.is_valid_proof_of_work(1));
}

#[test]
fn mining_finds_the_first_valid_nonce() {
    let mut block = sample_block();
    block.proof_of_work = 0;
    block.hash = String::new();
    block.mine(2);
    assert!(block.hash.starts_with("00"));
    assert!(block.is_valid_proof_of_work(2));
    assert_eq!(block.hash, block.generate_block_hash());
    let mut probe = sample_block();
    for nonce in 1..block.proof_of_work {
        probe.proof_of_work = nonce;
        assert!(!probe.generate_block_hash().starts_with("00"));
    }
    assert_eq!(block.index, 1);
    assert_eq!(block.timestamp, 2);
    assert_eq!(block.previous_hash, "0");
}

#[test]
fn mining_a_valid_block_changes_nothing() {
    let mut block = sample_block();
    block.hash = "0abc".to_string();
    block.mine(1);
    assert_eq!(block.proof_of_work, 3);
    assert_eq!(block.hash, "0abc");
    let mut fresh = sample_block();
    fresh.hash = String::new();
    fresh.mine(0);
    assert_eq!(fresh.proof_of_work, 3);
    assert_eq!(fresh.hash, "");
}

#[test]
fn mining_stops_at_the_largest_nonce() {
    let mut block = sample_block();
    block.proof_of_work = u64::MAX - 1;
    block.hash = String::new();
    block.mine(64);
    assert_eq!(block.proof_of_work, u64::MAX);
    assert_eq!(block.hash, block.generate_block_hash());
}

#[test]
fn new_block_has_its_hash_set() {
    let block = Block::with_timestamp(1, "0".to_string(), Transaction::empty(), 2);
    assert_eq!(block.timestamp, 2);
    assert_eq!(block.proof_of_work, 0);
    let preimage = r#"{"index":1,"timestamp":2,"proof_of_work":0,"previous_hash":"0","hash":"","transactions":{"inputs":[],"outputs":[]}}"#;
    assert_eq!(block.hash, hex_sha256(preimage));
}

#[test]
fn new_block_is_stamped_and_hashed() {
    let block = Block::new(7, "prev".to_string(), Transaction::empty());
    assert_eq!(block.index, 7);
    assert_eq!(block.previous_hash, "prev");
    assert_eq!(block.proof_of_work, 0);
    assert_eq!(block.hash, block.generate_block_hash());
    assert!(block.timestamp > 0);
    let copy = block.clone();
    assert_eq!(copy.timestamp, block.timestamp);
    assert_eq!(copy.generate_block_hash(), block.generate_block_hash());
}
