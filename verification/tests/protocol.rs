use blockchain::models::block::Block;
use blockchain::models::blockchain::Blockchain;
use blockchain::models::connection::{
    accept_new_block, add_peer, adopt_longer_chain, encode_request, handle_transaction,
    mine_next_block, parse_request, split_into_chunks, BlockOutcome, Request,
};
use blockchain::models::transaction::{Transaction, UTXO};

fn payload(r: &Request) -> Option<&str> {
    match r {
        Request::GetBlockchain => None,
        Request::NewBlock(p) | Request::NewPeer(p) | Request::Transaction(p) | Request::Unknown(p) => {
            Some(p.as_str())
        }
    }
}

#[test]
fn requests_are_read_by_their_tag() {
    assert!(matches!(parse_request("GET_BLOCKCHAIN"), Request::GetBlockchain));
    let r = parse_request("NEW_BLOCK{\"index\":3}");
    assert!(matches!(r, Request::NewBlock(_)));
    assert_eq!(payload(&r), Some("{\"index\":3}"));
    let r = parse_request("NEW_PEER127.0.0.1:8081");
    assert!(matches!(r, Request::NewPeer(_)));
    assert_eq!(payload(&r), Some("127.0.0.1:8081"));
    let r = parse_request("TRANSACTION{}");
    assert!(matches!(r, Request::Transaction(_)));
    assert_eq!(payload(&r), Some("{}"));
    let r = parse_request("GET_BLOCKCHAIN please");
    assert!(matches!(r, Request::Unknown(_)));
    assert_eq!(payload(&r), Some("GET_BLOCKCHAIN please"));
    assert!(matches!(parse_request(""), Request::Unknown(_)));
    assert!(matches!(parse_request("NEW_BLOCK"), Request::NewBlock(_)));
}

#[test]
fn written_requests_read_back() {
    let requests = vec![
        Request::GetBlockchain,
        Request::NewBlock("{\"a\":1}".to_string()),
        Request::NewPeer("host:1".to_string()),
        Request::Transaction("tx é".to_string()),
        Request::NewPeer(String::new()),
    ];
    for r in &requests {
        let text = encode_request(r);
        let back = parse_request(&text);
        assert_eq!(std::mem::discriminant(&back), std::mem::discriminant(r));
        assert_eq!(payload(&back), payload(r));
    }
    assert_eq!(encode_request(&Request::NewPeer("h:2".to_string())), "NEW_PEERh:2");
    assert_eq!(encode_request(&Request::GetBlockchain), "GET_BLOCKCHAIN");
}

fn block(index: u64, previous_hash: &str, hash: &str) -> Block {
    Block {
        index,
        timestamp: 0,
        proof_of_work: 0,
        previous_hash: previous_hash.to_string(),
        hash: hash.to_string(),
        transactions: Transaction {
            inputs: vec![],
            outputs: vec![UTXO { value: 9, receiver: "Miner".to_string() }],
        },
    }
}

#[test]
fn announced_block_that_extends_is_appended() {
    let mut chain = Blockchain::new(2, vec![]);
    let genesis = chain.chain[0].hash.clone();
    assert_eq!(accept_new_block(&mut chain, block(1, &genesis, "00ff")), BlockOutcome::Appended);
    assert_eq!(chain.chain.len(), 2);
    assert_eq!(chain.get_balance("Miner"), 9);
}

#[test]
fn announced_block_far_ahead_asks_for_resync() {
    let mut chain = Blockchain::new(2, vec![]);
    let genesis = chain.chain[0].hash.clone();
    assert_eq!(accept_new_block(&mut chain, block(3, &genesis, "0fff")), BlockOutcome::Resync);
    assert_eq!(accept_new_block(&mut chain, block(9, "other", "00ff")), BlockOutcome::Resync);
    assert_eq!(chain.chain.len(), 1);
}

#[test]
fn announced_block_close_behind_is_ignored() {
    let mut chain = Blockchain::new(2, vec![]);
    let genesis = chain.chain[0].hash.clone();
    assert_eq!(accept_new_block(&mut chain, block(2, &genesis, "ffff")), BlockOutcome::Ignored);
    assert_eq!(accept_new_block(&mut chain, block(1, "x", "00ff")), BlockOutcome::Ignored);
    assert_eq!(chain.chain.len(), 1);
    assert_eq!(chain.get_balance("Miner"), 0);
}

#[test]
fn longer_chain_is_adopted() {
    let mut local = Blockchain::new(1, vec![]);
    let mut peer = Blockchain::new(3, vec![]);
    peer.add_block(block(1, "", ""));
    assert!(adopt_longer_chain(&mut local, peer));
    assert_eq!(local.chain.len(), 2);
    assert_eq!(local.difficulty, 3);
    let same = Blockchain::new(5, vec![]);
    let mut other = Blockchain::new(5, vec![]);
    other.add_block(block(1, "", ""));
    assert!(!adopt_longer_chain(&mut local, same));
    assert!(!adopt_longer_chain(&mut local, other));
    assert_eq!(local.difficulty, 3);
}

#[test]
fn peers_are_added_once() {
    let mut peers = vec!["a:1".to_string()];
    add_peer(&mut peers, "b:2".to_string());
    add_peer(&mut peers, "a:1".to_string());
    add_peer(&mut peers, "b:2".to_string());
    assert_eq!(peers, vec!["a:1".to_string(), "b:2".to_string()]);
}

#[test]
fn next_block_follows_the_last_one() {
    let mut chain = Blockchain::new(1, vec![UTXO { value: 5, receiver: "A".to_string() }]);
    assert!(chain.add_transaction(Transaction {
        inputs: vec![UTXO { value: 5, receiver: "A".to_string() }],
        outputs: vec![UTXO { value: 5, receiver: "B".to_string() }],
    }));
    let next = mine_next_block(&chain, 1);
    assert_eq!(next.index, 1);
    assert_eq!(next.previous_hash, chain.chain[0].hash);
    assert_eq!(next.transactions.inputs, chain.pending_transactions.inputs);
    assert!(next.hash.starts_with('0'));
    assert_eq!(next.hash, next.generate_block_hash());
    assert_eq!(accept_new_block(&mut chain, next), BlockOutcome::Appended);
    assert_eq!(chain.get_balance("B"), 5);
}

#[test]
fn data_is_cut_into_chunks() {
    let data: Vec<u8> = (1..=10).collect();
    let chunks = split_into_chunks(&data, 4);
    assert_eq!(chunks, vec![vec![1, 2, 3, 4], vec![5, 6, 7, 8], vec![9, 10]]);
    assert_eq!(split_into_chunks(&data, 5), vec![vec![1, 2, 3, 4, 5], vec![6, 7, 8, 9, 10]]);
    assert!(split_into_chunks(&[], 4096).is_empty());
    assert_eq!(split_into_chunks(&data, 4096), vec![data.clone()]);
}

#[test]
fn transactions_from_peers_are_offered_or_ignored() {
    let mut chain = Blockchain::new(1, vec![UTXO { value: 5, receiver: "A".to_string() }]);
    handle_transaction(&mut chain, None);
    assert!(chain.pending_transactions.inputs.is_empty());
    let spend = || Transaction {
        inputs: vec![UTXO { value: 5, receiver: "A".to_string() }],
        outputs: vec![UTXO { value: 5, receiver: "B".to_string() }],
    };
    handle_transaction(&mut chain, Some(spend()));
    assert_eq!(chain.pending_transactions.outputs, vec![UTXO { value: 5, receiver: "B".to_string() }]);
    handle_transaction(&mut chain, Some(spend()));
    assert_eq!(chain.pending_transactions.inputs.len(), 1);
    assert_eq!(chain.get_balance("A"), 5);
}
