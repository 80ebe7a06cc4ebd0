use vstd::prelude::*;

use super::block::{block_hash, has_zero_prefix, Block};
use super::blockchain::{transaction_applied, Blockchain};
use super::transaction::Transaction;
use super::ledger::{credit_all, discard_all};

verus! {

/// What a peer asks, as the protocol means it.
pub enum Message {
    GetBlockchain,
    NewBlock(Seq<char>),
    NewPeer(Seq<char>),
    Transaction(Seq<char>),
    Unknown(Seq<char>),
}

/// A request read from a peer: the whole chain, a new block, a new peer or
/// a transaction, each with the text that follows its tag.
#[derive(Debug)]
pub enum Request {
    GetBlockchain,
    NewBlock(String),
    NewPeer(String),
    Transaction(String),
    Unknown(String),
}

impl View for Request {
    type V = Message;

    open spec fn view(&self) -> Message {
        match self {
            Request::GetBlockchain => Message::GetBlockchain,
            Request::NewBlock(p) => Message::NewBlock(p@),
            Request::NewPeer(p) => Message::NewPeer(p@),
            Request::Transaction(p) => Message::Transaction(p@),
            Request::Unknown(t) => Message::Unknown(t@),
        }
    }
}

/// Whether `s` begins with `p`.
pub open spec fn starts_with(s: Seq<char>, p: Seq<char>) -> bool {
    p.len() <= s.len() && s.subrange(0, p.len() as int) == p
}

/// How a request text is read: the exact text `GET_BLOCKCHAIN`, else the
/// first of the tags `NEW_BLOCK`, `NEW_PEER`, `TRANSACTION` that begins it,
/// with what follows the tag; anything else is unknown.
pub open spec fn classify(text: Seq<char>) -> Message {
    if text == "GET_BLOCKCHAIN"@ {
        Message::GetBlockchain
    } else if starts_with(text, "NEW_BLOCK"@) {
        Message::NewBlock(text.skip("NEW_BLOCK"@.len() as int))
    } else if starts_with(text, "NEW_PEER"@) {
        Message::NewPeer(text.skip("NEW_PEER"@.len() as int))
    } else if starts_with(text, "TRANSACTION"@) {
        Message::Transaction(text.skip("TRANSACTION"@.len() as int))
    } else {
        Message::Unknown(text)
    }
}

/// How a request is written: its tag followed by its payload.
pub open spec fn encode(m: Message) -> Seq<char> {
    match m {
        Message::GetBlockchain => "GET_BLOCKCHAIN"@,
        Message::NewBlock(p) => "NEW_BLOCK"@ + p,
        Message::NewPeer(p) => "NEW_PEER"@ + p,
        Message::Transaction(p) => "TRANSACTION"@ + p,
        Message::Unknown(t) => t,
    }
}

fn has_prefix(text: &str, prefix: &str) -> (res: bool)
    ensures
        res == starts_with(text@, prefix@),
{
    let n = text.unicode_len();
    let m = prefix.unicode_len();
    if m > n {
        return false;
    }
    text.substring_char(0, m).to_owned() == prefix.to_owned()
}

fn after_prefix(text: &str, prefix: &str) -> (res: String)
    requires
        starts_with(text@, prefix@),
    ensures
        res@ == text@.skip(prefix@.len() as int),
{
    let n = text.unicode_len();
    let m = prefix.unicode_len();
    text.substring_char(m, n).to_owned()
}

/// Reads a request from the text a peer sent.
pub fn parse_request(text: &str) -> (res: Request)
    ensures
        res@ == classify(text@),
{
    if text.to_owned() == "GET_BLOCKCHAIN".to_owned() {
        Request::GetBlockchain
    } else if has_prefix(text, "NEW_BLOCK") {
        Request::NewBlock(after_prefix(text, "NEW_BLOCK"))
    } else if has_prefix(text, "NEW_PEER") {
        Request::NewPeer(after_prefix(text, "NEW_PEER"))
    } else if has_prefix(text, "TRANSACTION") {
        Request::Transaction(after_prefix(text, "TRANSACTION"))
    } else {
        Request::Unknown(text.to_owned())
    }
}

/// Writes a request as it is sent to a peer.
pub fn encode_request(request: &Request) -> (res: String)
    ensures
        res@ == encode(request@),
{
    match request {
        Request::GetBlockchain => String::from_str("GET_BLOCKCHAIN"),
        Request::NewBlock(p) => String::from_str("NEW_BLOCK").concat(p.as_str()),
        Request::NewPeer(p) => String::from_str("NEW_PEER").concat(p.as_str()),
        Request::Transaction(p) => String::from_str("TRANSACTION").concat(p.as_str()),
        Request::Unknown(t) => t.clone(),
    }
}

/// Reading a written request gives back the request, for every request
/// but an unknown one.
pub proof fn lemma_parse_encoded(m: Message)
    requires
        !(m is Unknown),
    ensures
        classify(encode(m)) == m,
{
    reveal_strlit("GET_BLOCKCHAIN");
    reveal_strlit("NEW_BLOCK");
    reveal_strlit("NEW_PEER");
    reveal_strlit("TRANSACTION");
    match m {
        Message::GetBlockchain => {},
        Message::NewBlock(p) => {
            let t = "NEW_BLOCK"@ + p;
            assert(t[0] == 'N');
            assert(t != "GET_BLOCKCHAIN"@);
            assert(t.subrange(0, 9) =~= "NEW_BLOCK"@);
            assert(t.skip(9) =~= p);
        },
        Message::NewPeer(p) => {
            let t = "NEW_PEER"@ + p;
            assert(t[0] == 'N');
            assert(t != "GET_BLOCKCHAIN"@);
            assert(t[4] == 'P');
            assert(!starts_with(t, "NEW_BLOCK"@)) by {
                if starts_with(t, "NEW_BLOCK"@) {
                    assert(t.subrange(0, 9)[4] == 'B');
                }
            }
            assert(t.subrange(0, 8) =~= "NEW_PEER"@);
            assert(t.skip(8) =~= p);
        },
        Message::Transaction(p) => {
            let t = "TRANSACTION"@ + p;
            assert(t[0] == 'T');
            assert(t != "GET_BLOCKCHAIN"@);
            assert(!starts_with(t, "NEW_BLOCK"@)) by {
                if starts_with(t, "NEW_BLOCK"@) {
                    assert(t.subrange(0, 9)[0] == 'N');
                }
            }
            assert(!starts_with(t, "NEW_PEER"@)) by {
                if starts_with(t, "NEW_PEER"@) {
                    assert(t.subrange(0, 8)[0] == 'N');
                }
            }
            assert(t.subrange(0, 11) =~= "TRANSACTION"@);
            assert(t.skip(11) =~= p);
        },
        Message::Unknown(_) => {},
    }
}

/// What became of a block that a peer announced.
#[derive(Debug, PartialEq, Eq, Structural)]
pub enum BlockOutcome {
    /// It follows the last block and its proof of work holds: it was added.
    Appended,
    /// It is more than two blocks ahead: the chain is to be fetched again.
    Resync,
    /// Neither: it was dropped.
    Ignored,
}

/// Whether `new_block` extends the chain: it names the last block's hash
/// as its previous hash and its own hash has enough leading zeros.
pub open spec fn extends_chain(blockchain: &Blockchain, new_block: &Block) -> bool {
    &&& new_block.previous_hash@ == blockchain.chain@.last().hash@
    &&& has_zero_prefix(new_block.hash@, blockchain.difficulty as nat)
}

/// A block that extends a chain links to the chain's last block and meets
/// the chain's difficulty.
pub proof fn lemma_extending_block_links(blockchain: &Blockchain, new_block: &Block)
    requires
        blockchain.chain@.len() > 0,
        extends_chain(blockchain, new_block),
    ensures
        new_block.previous_hash@ == blockchain.chain@.last().hash@,
        has_zero_prefix(new_block.hash@, blockchain.difficulty as nat),
{
}

/// Handles a block that a peer announced: appends it (settling its
/// transaction) where it extends the chain, asks for a resync where it is
/// more than two blocks past the last one, and drops it otherwise.
pub fn accept_new_block(blockchain: &mut Blockchain, new_block: Block) -> (res: BlockOutcome)
    requires
        old(blockchain).chain@.len() > 0,
        new_block.previous_hash@ == old(blockchain).chain@.last().hash@ ==> old(blockchain).difficulty
            <= isize::MAX,
        extends_chain(old(blockchain), &new_block) || old(blockchain).chain@.last().index + 2
            <= u64::MAX,
    ensures
        extends_chain(old(blockchain), &new_block) ==> {
            &&& res is Appended
            &&& final(blockchain).chain@.len() == old(blockchain).chain@.len() + 1
            &&& forall|i: int|
                0 <= i < old(blockchain).chain@.len() ==> final(blockchain).chain@[i]
                    == old(blockchain).chain@[i]
            &&& final(blockchain).chain@.last()@ == new_block@
            &&& final(blockchain).utxo_set@ == credit_all(
                discard_all(old(blockchain).utxo_set@, new_block@.transactions.inputs),
                new_block@.transactions.outputs,
            )
            &&& final(blockchain).difficulty == old(blockchain).difficulty
            &&& final(blockchain).pending_transactions@.inputs.len() == 0
            &&& final(blockchain).pending_transactions@.outputs.len() == 0
        },
        (res is Appended) == (new_block.previous_hash@ == old(blockchain).chain@.last().hash@
            && has_zero_prefix(new_block.hash@, old(blockchain).difficulty as nat)),
        res is Appended ==> final(blockchain).chain@.last().previous_hash@
            == final(blockchain).chain@[final(blockchain).chain@.len() - 2].hash@,
        !extends_chain(old(blockchain), &new_block) ==> {
            &&& *final(blockchain) == *old(blockchain)
            &&& if new_block.index > old(blockchain).chain@.last().index + 2 {
                res is Resync
            } else {
                res is Ignored
            }
        },
{
    let last = blockchain.chain.len() - 1;
    let fits = new_block.previous_hash == blockchain.chain[last].hash
        && new_block.is_valid_proof_of_work(blockchain.difficulty);
    if fits {
        blockchain.update_with_new_block(new_block);
        BlockOutcome::Appended
    } else if new_block.index > blockchain.chain[last].index + 2 {
        BlockOutcome::Resync
    } else {
        BlockOutcome::Ignored
    }
}

/// Offers a transaction that a peer sent, where it could be read. One that
/// could not be read (`None`) or that is refused leaves the chain as it was.
pub fn handle_transaction(blockchain: &mut Blockchain, transaction: Option<Transaction>)
    ensures
        match transaction {
            Some(t) => transaction_applied(*old(blockchain), *final(blockchain), t@),
            None => *final(blockchain) == *old(blockchain),
        },
{
    if let Some(t) = transaction {
        blockchain.add_transaction(t);
    }
}

/// Replaces the local chain by a peer's where the peer's has more blocks;
/// says whether it did.
pub fn adopt_longer_chain(local: &mut Blockchain, peer: Blockchain) -> (replaced: bool)
    ensures
        replaced == (peer.chain@.len() > old(local).chain@.len()),
        replaced ==> *final(local) == peer,
        !replaced ==> *final(local) == *old(local),
{
    if peer.chain.len() > local.chain.len() {
        *local = peer;
        true
    } else {
        false
    }
}

/// Whether some address of `peers` is `addr`.
pub open spec fn knows_peer(peers: Seq<String>, addr: Seq<char>) -> bool {
    exists|i: int| 0 <= i < peers.len() && #[trigger] peers[i]@ == addr
}

/// Adds `new_peer` to the known peers unless it is already there.
pub fn add_peer(peers: &mut Vec<String>, new_peer: String)
    ensures
        knows_peer(old(peers)@, new_peer@) ==> final(peers)@ == old(peers)@,
        !knows_peer(old(peers)@, new_peer@) ==> final(peers)@ == old(peers)@.push(new_peer),
{
    let mut i: usize = 0;
    while i < peers.len()
        invariant
            i <= peers@.len(),
            *peers == *old(peers),
            forall|k: int| 0 <= k < i ==> peers@[k]@ != new_peer@,
        decreases peers@.len() - i,
    {
        if peers[i] == new_peer {
            return;
        }
        i = i + 1;
    }
    peers.push(new_peer);
}

/// The next block a miner offers: it follows the last block, carries the
/// pending transaction and is mined at `difficulty`.
pub fn mine_next_block(blockchain: &Blockchain, difficulty: usize) -> (res: Block)
    requires
        blockchain.chain@.len() > 0,
        blockchain.chain@.last().index < u64::MAX,
        difficulty <= 64,
    ensures
        res.index == blockchain.chain@.last().index + 1,
        res.previous_hash@ == blockchain.chain@.last().hash@,
        res.transactions@ == blockchain.pending_transactions@,
        has_zero_prefix(res.hash@, difficulty as nat) || res.proof_of_work == u64::MAX,
        res.hash@ == block_hash(res@),
        forall|p: u64|
            0 <= p < res.proof_of_work ==> !has_zero_prefix(
                block_hash(#[trigger] super::block::with_nonce(res@, p)),
                difficulty as nat,
            ),
{
    let last = blockchain.chain.len() - 1;
    let mut new_block = Block::new(
        blockchain.chain[last].index + 1,
        blockchain.chain[last].hash.clone(),
        blockchain.collect_pending_transactions(),
    );
    let ghost start = new_block@;
    new_block.mine(difficulty);
    proof {
        assert forall|p: u64| 0 <= p < new_block.proof_of_work implies !has_zero_prefix(
            block_hash(#[trigger] super::block::with_nonce(new_block@, p)),
            difficulty as nat,
        ) by {
            let a = super::block::with_nonce(new_block@, p);
            let b = super::block::with_nonce(start, p);
            assert(super::block::BlockView { hash: Seq::empty(), ..a } == super::block::BlockView {
                hash: Seq::empty(),
                ..b
            });
            assert(block_hash(a) == block_hash(b));
            if p == 0 {
                assert(super::block::BlockView { hash: Seq::empty(), ..b } == super::block::BlockView {
                    hash: Seq::empty(),
                    ..start
                });
            }
        }
    }
    new_block
}

/// Where chunk `i` of a `len`-byte text cut every `size` bytes ends.
pub open spec fn chunk_end(i: int, size: int, len: int) -> int {
    if (i + 1) * size <= len {
        (i + 1) * size
    } else {
        len
    }
}

/// Cuts `data` into pieces of `size` bytes, the last one possibly shorter.
pub fn split_into_chunks(data: &[u8], size: usize) -> (chunks: Vec<Vec<u8>>)
    requires
        size > 0,
    ensures
        chunks@.len() * size >= data@.len(),
        chunks@.len() == 0 || (chunks@.len() - 1) * size < data@.len(),
        forall|i: int|
            0 <= i < chunks@.len() ==> (#[trigger] chunks@[i])@ == data@.subrange(
                i * size,
                chunk_end(i, size as int, data@.len() as int),
            ),
{
    let mut chunks: Vec<Vec<u8>> = Vec::new();
    let mut start: usize = 0;
    while start < data.len()
        invariant
            start <= data@.len(),
            size > 0,
            (chunks@.len() * size <= data@.len() && start == chunks@.len() * size) || (start
                == data@.len() && chunks@.len() > 0 && data@.len() <= chunks@.len() * size),
            chunks@.len() == 0 || (chunks@.len() - 1) * size < data@.len(),
            forall|i: int|
                0 <= i < chunks@.len() ==> (#[trigger] chunks@[i])@ == data@.subrange(
                    i * size,
                    chunk_end(i, size as int, data@.len() as int),
                ),
        decreases data@.len() - start,
    {
        let ghost n = chunks@.len() as int;
        assert(start == n * size);
        proof {
            assert((n + 1) * size == n * size + size) by (nonlinear_arith);
        }
        let end = if data.len() - start >= size {
            start + size
        } else {
            data.len()
        };
        let mut piece: Vec<u8> = Vec::new();
        let mut j: usize = start;
        while j < end
            invariant
                start <= j <= end <= data@.len(),
                piece@ == data@.subrange(start as int, j as int),
            decreases end - j,
        {
            piece.push(data[j]);
            assert(piece@ =~= data@.subrange(start as int, j + 1));
            j = j + 1;
        }
        assert(end == chunk_end(n, size as int, data@.len() as int));
        chunks.push(piece);
        start = end;
    }
    chunks
}

} // verus!
