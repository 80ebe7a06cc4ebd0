use blockchain::models::block::Block;
use blockchain::models::blockchain::Blockchain;
use blockchain::models::transaction::{Transaction, Transfer, UTXO};

fn utxo(value: u64, receiver: &str) -> UTXO {
    UTXO { value, receiver: receiver.to_string() }
}

fn tx(inputs: Vec<UTXO>, outputs: Vec<UTXO>) -> Transaction {
    Transaction { inputs, outputs }
}

#[test]
fn new_chain_has_genesis_and_grouped_outputs() {
    let chain = Blockchain::new(4, vec![utxo(50, "Alice"), utxo(20, "Bob"), utxo(30, "Alice")]);
    assert_eq!(chain.chain.len(), 1);
    assert_eq!(chain.chain[0].index, 0);
    assert_eq!(chain.chain[0].previous_hash, "0");
    assert_eq!(chain.chain[0].hash, chain.chain[0].generate_block_hash());
    assert_eq!(chain.chain[0].proof_of_work, 0);
    assert!(chain.chain[0].transactions.inputs.is_empty());
    assert_eq!(chain.difficulty, 4);
    assert_eq!(chain.get_balance("Alice"), 80);
    assert_eq!(chain.get_balance("Bob"), 20);
    assert_eq!(chain.get_balance("Carol"), 0);
    assert_eq!(
        chain.utxo_set.get(&"Alice".to_string()),
        Some(&vec![utxo(50, "Alice"), utxo(30, "Alice")])
    );
    assert!(chain.pending_transactions.inputs.is_empty());
    assert!(chain.pending_transactions.outputs.is_empty());
}

#[test]
fn every_output_is_filed_under_its_receiver() {
    let mut chain = Blockchain::new(1, vec![utxo(1, "A"), utxo(2, "B"), utxo(3, "A")]);
    chain.update_utxo_set(&vec![utxo(1, "A")], &vec![utxo(4, "C"), utxo(5, "A")]);
    for addr in chain.utxo_set.addresses() {
        for u in chain.utxo_set.get(&addr).unwrap() {
            assert_eq!(u.receiver, addr);
        }
    }
}

#[test]
fn add_transaction_accepts_spendable_inputs() {
    let mut chain = Blockchain::new(4, vec![utxo(50, "Alice"), utxo(30, "Alice")]);
    assert!(chain.add_transaction(tx(vec![utxo(50, "Alice")], vec![utxo(50, "Bob")])));
    assert_eq!(chain.pending_transactions.inputs, vec![utxo(50, "Alice")]);
    assert_eq!(chain.pending_transactions.outputs, vec![utxo(50, "Bob")]);
    assert_eq!(chain.get_balance("Alice"), 80);
    assert_eq!(chain.get_balance("Bob"), 0);
    assert_eq!(chain.chain.len(), 1);
}

#[test]
fn add_transaction_rejects_a_double_spend() {
    let mut chain = Blockchain::new(4, vec![utxo(50, "Alice"), utxo(30, "Alice")]);
    assert!(chain.add_transaction(tx(vec![utxo(50, "Alice")], vec![utxo(50, "Bob")])));
    assert!(!chain.add_transaction(tx(vec![utxo(50, "Alice")], vec![utxo(50, "Carol")])));
    assert_eq!(chain.pending_transactions.inputs, vec![utxo(50, "Alice")]);
    assert_eq!(chain.pending_transactions.outputs, vec![utxo(50, "Bob")]);
}

#[test]
fn add_transaction_rejects_unknown_outputs() {
    let mut chain = Blockchain::new(4, vec![utxo(50, "Alice")]);
    assert!(!chain.add_transaction(tx(vec![utxo(10, "Alice")], vec![])));
    assert!(!chain.add_transaction(tx(vec![utxo(50, "Nobody")], vec![])));
    assert!(chain.pending_transactions.inputs.is_empty());
}

#[test]
fn accepted_outputs_accumulate() {
    let mut chain = Blockchain::new(4, vec![utxo(50, "Alice"), utxo(30, "Alice")]);
    assert!(chain.add_transaction(tx(vec![utxo(50, "Alice")], vec![utxo(50, "Bob")])));
    assert!(chain.add_transaction(tx(vec![utxo(30, "Alice")], vec![utxo(30, "Carol")])));
    assert_eq!(chain.pending_transactions.inputs, vec![utxo(50, "Alice"), utxo(30, "Alice")]);
    assert_eq!(chain.pending_transactions.outputs, vec![utxo(50, "Bob"), utxo(30, "Carol")]);
}

#[test]
fn acceptance_does_not_depend_on_input_order() {
    let outputs = vec![utxo(50, "Alice"), utxo(30, "Alice"), utxo(50, "Alice")];
    let mut a = Blockchain::new(1, outputs.clone());
    let mut b = Blockchain::new(1, outputs);
    assert!(a.add_transaction(tx(vec![utxo(50, "Alice"), utxo(30, "Alice"), utxo(50, "Alice")], vec![])));
    assert!(b.add_transaction(tx(vec![utxo(30, "Alice"), utxo(50, "Alice"), utxo(50, "Alice")], vec![])));
    let mut c = Blockchain::new(1, vec![utxo(50, "Alice"), utxo(30, "Alice")]);
    assert!(!c.add_transaction(tx(vec![utxo(30, "Alice"), utxo(50, "Alice"), utxo(50, "Alice")], vec![])));
}

#[test]
fn add_transfer_offers_the_planned_transaction() {
    let mut chain = Blockchain::new(4, vec![utxo(50, "Alice"), utxo(30, "Alice")]);
    chain.add_transfer(Transfer { value: 60, receiver: "Bob".to_string(), sender: "Alice".to_string() });
    assert_eq!(chain.pending_transactions.inputs, vec![utxo(50, "Alice"), utxo(30, "Alice")]);
    assert_eq!(chain.pending_transactions.outputs, vec![utxo(60, "Bob"), utxo(20, "Alice")]);
}

#[test]
fn add_transfer_needing_two_passes_is_rejected() {
    let mut chain = Blockchain::new(4, vec![utxo(50, "Alice"), utxo(30, "Alice")]);
    chain.add_transfer(Transfer { value: 100, receiver: "Bob".to_string(), sender: "Alice".to_string() });
    assert!(chain.pending_transactions.inputs.is_empty());
    assert!(chain.pending_transactions.outputs.is_empty());
}

#[test]
fn update_utxo_set_discards_then_credits() {
    let mut chain = Blockchain::new(4, vec![utxo(50, "Alice"), utxo(30, "Alice"), utxo(50, "Alice")]);
    chain.update_utxo_set(&vec![utxo(50, "Alice"), utxo(9, "Nobody")], &vec![utxo(10, "Bob"), utxo(5, "Alice")]);
    assert_eq!(chain.utxo_set.get(&"Alice".to_string()), Some(&vec![utxo(30, "Alice"), utxo(5, "Alice")]));
    assert_eq!(chain.utxo_set.get(&"Bob".to_string()), Some(&vec![utxo(10, "Bob")]));
    assert_eq!(chain.utxo_set.get(&"Nobody".to_string()), None);
    assert_eq!(chain.get_balance("Alice"), 35);
    assert_eq!(chain.get_balance("Bob"), 10);
}

#[test]
fn update_with_new_block_settles_and_clears() {
    let mut chain = Blockchain::new(4, vec![utxo(50, "Alice")]);
    assert!(chain.add_transaction(tx(vec![utxo(50, "Alice")], vec![utxo(50, "Bob")])));
    let pending = chain.collect_pending_transactions();
    assert_eq!(pending.inputs, vec![utxo(50, "Alice")]);
    let block = Block {
        index: 1,
        timestamp: 10,
        proof_of_work: 0,
        previous_hash: String::new(),
        hash: "h".to_string(),
        transactions: pending,
    };
    chain.update_with_new_block(block);
    assert_eq!(chain.utxo_set.get(&"Alice".to_string()), Some(&vec![]));
    assert_eq!(chain.chain.len(), 2);
    assert_eq!(chain.chain[1].hash, "h");
    assert_eq!(chain.get_balance("Alice"), 0);
    assert_eq!(chain.get_balance("Bob"), 50);
    assert!(chain.pending_transactions.inputs.is_empty());
    assert!(chain.pending_transactions.outputs.is_empty());
}

#[test]
fn settled_pending_transactions_move_value() {
    let mut chain = Blockchain::new(4, vec![utxo(50, "Alice"), utxo(30, "Alice")]);
    assert!(chain.add_transaction(tx(vec![utxo(50, "Alice")], vec![utxo(40, "Bob"), utxo(10, "Alice")])));
    assert!(chain.add_transaction(tx(vec![utxo(30, "Alice")], vec![utxo(30, "Carol")])));
    let block = Block::with_timestamp(1, chain.chain[0].hash.clone(), chain.collect_pending_transactions(), 5);
    chain.update_with_new_block(block);
    assert_eq!(chain.get_balance("Alice"), 10);
    assert_eq!(chain.get_balance("Bob"), 40);
    assert_eq!(chain.get_balance("Carol"), 30);
    assert_eq!(chain.utxo_set.get(&"Alice".to_string()), Some(&vec![utxo(10, "Alice")]));
}

#[test]
fn add_block_appends() {
    let mut chain = Blockchain::new(4, vec![]);
    let block = Block::new(1, "x".to_string(), Transaction::empty());
    chain.add_block(block);
    assert_eq!(chain.chain.len(), 2);
    assert_eq!(chain.chain[1].previous_hash, "x");
    let copy = chain.clone();
    assert_eq!(copy.chain.len(), 2);
    assert_eq!(copy.difficulty, 4);
}
