use blockchain::models::transaction::{Transaction, Transfer, UTXO};
use blockchain::models::transaction_util::from_transfer_to_utxo;
use blockchain::models::utxo_set::UtxoSet;

fn utxo(value: u64, receiver: &str) -> UTXO {
    UTXO { value, receiver: receiver.to_string() }
}

fn alice_set() -> UtxoSet {
    let mut set = UtxoSet::new();
    set.push_utxo(utxo(50, "Alice"));
    set.push_utxo(utxo(30, "Alice"));
    set.push_utxo(utxo(7, "Bob"));
    set
}

fn total(list: &[UTXO]) -> u64 {
    list.iter().map(|u| u.value).sum()
}

#[test]
fn transfer_within_one_pass_returns_change() {
    let set = alice_set();
    let t = from_transfer_to_utxo(
        Transfer { value: 60, receiver: "Bob".to_string(), sender: "Alice".to_string() },
        &set,
    );
    assert_eq!(t.inputs, vec![utxo(50, "Alice"), utxo(30, "Alice")]);
    assert_eq!(t.outputs, vec![utxo(60, "Bob"), utxo(20, "Alice")]);
}

#[test]
fn transfer_of_exact_total_has_no_change() {
    let set = alice_set();
    let t = from_transfer_to_utxo(
        Transfer { value: 80, receiver: "Bob".to_string(), sender: "Alice".to_string() },
        &set,
    );
    assert_eq!(t.inputs, vec![utxo(50, "Alice"), utxo(30, "Alice")]);
    assert_eq!(t.outputs, vec![utxo(80, "Bob")]);
}

#[test]
fn transfer_beyond_holding_repeats_the_holding() {
    let set = alice_set();
    let t = from_transfer_to_utxo(
        Transfer { value: 100, receiver: "Bob".to_string(), sender: "Alice".to_string() },
        &set,
    );
    assert_eq!(
        t.inputs,
        vec![utxo(50, "Alice"), utxo(30, "Alice"), utxo(50, "Alice"), utxo(30, "Alice")]
    );
    assert_eq!(t.outputs, vec![utxo(100, "Bob"), utxo(60, "Alice")]);
}

#[test]
fn transfer_of_nothing_spends_nothing() {
    let set = UtxoSet::new();
    let t = from_transfer_to_utxo(
        Transfer { value: 0, receiver: "Bob".to_string(), sender: "Nobody".to_string() },
        &set,
    );
    assert!(t.inputs.is_empty());
    assert_eq!(t.outputs, vec![utxo(0, "Bob")]);
}

#[test]
fn transfer_conserves_value() {
    let set = alice_set();
    for value in [1u64, 49, 50, 79, 80, 81, 159, 160, 161, 1000] {
        let t = from_transfer_to_utxo(
            Transfer { value, receiver: "Carol".to_string(), sender: "Alice".to_string() },
            &set,
        );
        assert_eq!(total(&t.outputs), total(&t.inputs));
        assert!(total(&t.inputs) >= value);
        assert!(total(&t.inputs) - 80 < value);
        assert!(t.inputs.iter().all(|u| u.receiver == "Alice"));
    }
}

#[test]
fn utxo_equality_compares_fields() {
    assert_eq!(utxo(5, "A"), utxo(5, "A"));
    assert_ne!(utxo(5, "A"), utxo(6, "A"));
    assert_ne!(utxo(5, "A"), utxo(5, "B"));
    let t1 = Transfer { value: 1, receiver: "A".to_string(), sender: "B".to_string() };
    let t2 = Transfer { value: 1, receiver: "A".to_string(), sender: "C".to_string() };
    assert!(t1 != t2);
    assert!(t1 == Transfer { value: 1, receiver: "A".to_string(), sender: "B".to_string() });
}

#[test]
fn transaction_clone_keeps_contents() {
    let t = Transaction { inputs: vec![utxo(1, "A")], outputs: vec![utxo(2, "B"), utxo(3, "C")] };
    let c = t.clone();
    assert_eq!(c.inputs, t.inputs);
    assert_eq!(c.outputs, t.outputs);
    let e = Transaction::empty();
    assert!(e.inputs.is_empty() && e.outputs.is_empty());
}

#[test]
fn utxo_set_files_by_receiver() {
    let mut set = alice_set();
    assert_eq!(set.get(&"Alice".to_string()), Some(&vec![utxo(50, "Alice"), utxo(30, "Alice")]));
    assert_eq!(set.get(&"Bob".to_string()), Some(&vec![utxo(7, "Bob")]));
    assert_eq!(set.get(&"Carol".to_string()), None);
    let mut addrs = set.addresses();
    addrs.sort();
    assert_eq!(addrs, vec!["Alice".to_string(), "Bob".to_string()]);

    set.insert_holding("Carol".to_string(), vec![]);
    assert_eq!(set.get(&"Carol".to_string()), Some(&vec![]));
    set.insert_holding("Bob".to_string(), vec![utxo(1, "Bob")]);
    assert_eq!(set.get(&"Bob".to_string()), Some(&vec![utxo(1, "Bob")]));
}

#[test]
fn utxo_set_discard_drops_every_copy() {
    let mut set = alice_set();
    set.push_utxo(utxo(50, "Alice"));
    set.discard(&utxo(50, "Alice"));
    assert_eq!(set.get(&"Alice".to_string()), Some(&vec![utxo(30, "Alice")]));
    set.discard(&utxo(1, "Nobody"));
    assert_eq!(set.get(&"Nobody".to_string()), None);
}

#[test]
fn utxo_set_take_one_removes_first_copy() {
    let mut set = alice_set();
    set.push_utxo(utxo(50, "Alice"));
    assert!(set.take_one(&utxo(50, "Alice")));
    assert_eq!(set.get(&"Alice".to_string()), Some(&vec![utxo(30, "Alice"), utxo(50, "Alice")]));
    assert!(!set.take_one(&utxo(99, "Alice")));
    assert!(!set.take_one(&utxo(1, "Nobody")));
    assert_eq!(set.get(&"Alice".to_string()), Some(&vec![utxo(30, "Alice"), utxo(50, "Alice")]));
    let copy = set.clone();
    assert_eq!(copy.get(&"Alice".to_string()), set.get(&"Alice".to_string()));
}
