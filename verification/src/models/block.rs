use vstd::prelude::*;

use super::encoding::{
    append_json_str, append_json_u64, append_transaction_json, decimal, json_string,
    lower_hex, sha256_hex, sha256_utf8, transaction_json,
};
use super::transaction::{Transaction, TransactionView};

verus! {

/// A block of the chain.
#[derive(Debug)]
pub struct Block {
    /// The position of the block in the chain.
    pub index: u64,
    /// When the block was made, in milliseconds since the Unix epoch.
    pub timestamp: u64,
    /// The nonce that mining searches for.
    pub proof_of_work: u64,
    /// The hash of the block before it.
    pub previous_hash: String,
    /// The hash of this block, once mined.
    pub hash: String,
    /// The transaction that the block records.
    pub transactions: Transaction,
}

/// The mathematical value of a [`Block`].
pub struct BlockView {
    pub index: u64,
    pub timestamp: u64,
    pub proof_of_work: u64,
    pub previous_hash: Seq<char>,
    pub hash: Seq<char>,
    pub transactions: TransactionView,
}

impl View for Block {
    type V = BlockView;

    open spec fn view(&self) -> BlockView {
        BlockView {
            index: self.index,
            timestamp: self.timestamp,
            proof_of_work: self.proof_of_work,
            previous_hash: self.previous_hash@,
            hash: self.hash@,
            transactions: self.transactions@,
        }
    }
}

/// A block as JSON writes it, its fields in declaration order.
pub open spec fn block_json(b: BlockView) -> Seq<char> {
    "{\"index\":"@ + decimal(b.index as nat) + ",\"timestamp\":"@ + decimal(b.timestamp as nat)
        + ",\"proof_of_work\":"@ + decimal(b.proof_of_work as nat) + ",\"previous_hash\":"@
        + json_string(b.previous_hash) + ",\"hash\":"@ + json_string(b.hash)
        + ",\"transactions\":"@ + transaction_json(b.transactions) + "}"@
}

/// What is hashed of a block: its JSON form with the hash field empty.
pub open spec fn block_preimage(b: BlockView) -> Seq<char> {
    block_json(BlockView { hash: Seq::empty(), ..b })
}

/// The hash of a block: the lower-case hexadecimal SHA-256 digest of its
/// preimage.
pub open spec fn block_hash(b: BlockView) -> Seq<char> {
    lower_hex(sha256_utf8(block_preimage(b)))
}

/// `b` with its nonce set to `p`.
pub open spec fn with_nonce(b: BlockView, p: u64) -> BlockView {
    BlockView { proof_of_work: p, ..b }
}

/// Whether `hash` starts with `difficulty` zero digits.
pub open spec fn has_zero_prefix(hash: Seq<char>, difficulty: nat) -> bool {
    difficulty <= hash.len() && forall|i: int| 0 <= i < difficulty ==> hash[i] == '0'
}

/// Reads the clock with `chrono::Utc::now().timestamp_millis()`, taken as
/// a `u64`. The result depends on the time, so nothing is stated of it.
#[verifier::external_body]
fn now_millis() -> u64 {
    chrono::Utc::now().timestamp_millis() as u64
}

impl Clone for Block {
    fn clone(&self) -> (res: Self)
        ensures
            res@ == self@,
    {
        Block {
            index: self.index,
            timestamp: self.timestamp,
            proof_of_work: self.proof_of_work,
            previous_hash: self.previous_hash.clone(),
            hash: self.hash.clone(),
            transactions: self.transactions.clone(),
        }
    }
}

impl Block {
    /// A new block stamped with the current time: its nonce is 0 and its
    /// hash is calculated and set.
    pub fn new(index: u64, previous_hash: String, transactions: Transaction) -> (res: Self)
        ensures
            res.index == index,
            res.proof_of_work == 0,
            res.previous_hash@ == previous_hash@,
            res.hash@ == block_hash(res@),
            res.transactions@ == transactions@,
    {
        Self::with_timestamp(index, previous_hash, transactions, now_millis())
    }

    /// A new block stamped with `timestamp`: its nonce is 0 and its hash is
    /// calculated and set.
    pub fn with_timestamp(
        index: u64,
        previous_hash: String,
        transactions: Transaction,
        timestamp: u64,
    ) -> (res: Self)
        ensures
            res.index == index,
            res.timestamp == timestamp,
            res.proof_of_work == 0,
            res.previous_hash@ == previous_hash@,
            res.hash@ == block_hash(res@),
            res.transactions@ == transactions@,
    {
        let mut block = Block {
            index: index,
            timestamp: timestamp,
            proof_of_work: 0,
            previous_hash: previous_hash,
            hash: String::new(),
            transactions: transactions,
        };
        block.hash = block.generate_block_hash();
        proof {
            let b = block@;
            assert(BlockView { hash: Seq::empty(), ..b } == BlockView {
                hash: Seq::empty(),
                ..BlockView { hash: Seq::empty(), ..b }
            });
        }
        block
    }

    /// The hash of the block as it stands, whatever its hash field holds.
    pub fn generate_block_hash(&self) -> (res: String)
        ensures
            res@ == block_hash(self@),
            res@.len() == 64,
    {
        let mut text = String::new();
        text.append("{\"index\":");
        append_json_u64(&mut text, self.index);
        text.append(",\"timestamp\":");
        append_json_u64(&mut text, self.timestamp);
        text.append(",\"proof_of_work\":");
        append_json_u64(&mut text, self.proof_of_work);
        text.append(",\"previous_hash\":");
        append_json_str(&mut text, self.previous_hash.as_str());
        text.append(",\"hash\":");
        append_json_str(&mut text, "");
        text.append(",\"transactions\":");
        append_transaction_json(&mut text, &self.transactions);
        text.append("}");
        proof {
            assert(""@ =~= Seq::<char>::empty()) by {
                reveal_strlit("");
            }
            assert(text@ =~= block_preimage(self@));
        }
        sha256_hex(text.as_str())
    }

    /// Whether the block's hash starts with `difficulty` zero digits. (A
    /// run of zeros longer than `isize::MAX` cannot be built to compare with.)
    pub fn is_valid_proof_of_work(&self, difficulty: usize) -> (res: bool)
        requires
            difficulty <= isize::MAX,
        ensures
            res == has_zero_prefix(self.hash@, difficulty as nat),
    {
        let hash = self.hash.as_str();
        let n = hash.unicode_len();
        if difficulty > n {
            return false;
        }
        let mut i: usize = 0;
        while i < difficulty
            invariant
                i <= difficulty <= n,
                n == hash@.len(),
                hash@ == self.hash@,
                forall|k: int| 0 <= k < i ==> hash@[k] == '0',
            decreases difficulty - i,
        {
            if hash.get_char(i) != '0' {
                return false;
            }
            i = i + 1;
        }
        true
    }

    /// Mines the block: while its hash does not start with `difficulty`
    /// zeros, increments the nonce and recomputes the hash. The search
    /// stops at the largest nonce. A hash has 64 digits, so a difficulty
    /// above 64 is only met by a hash that already meets it.
    pub fn mine(&mut self, difficulty: usize)
        requires
            difficulty <= isize::MAX,
            difficulty <= 64 || has_zero_prefix(old(self).hash@, difficulty as nat),
        ensures
            final(self).index == old(self).index,
            final(self).timestamp == old(self).timestamp,
            final(self).previous_hash@ == old(self).previous_hash@,
            final(self).transactions@ == old(self).transactions@,
            old(self).proof_of_work <= final(self).proof_of_work,
            final(self).proof_of_work == old(self).proof_of_work ==> final(self)@ == old(self)@,
            has_zero_prefix(old(self).hash@, difficulty as nat) ==> final(self)@ == old(self)@,
            final(self).proof_of_work > old(self).proof_of_work ==> final(self).hash@ == block_hash(
                final(self)@,
            ),
            forall|p: u64|
                old(self).proof_of_work < p < final(self).proof_of_work ==> !has_zero_prefix(
                    block_hash(#[trigger] with_nonce(old(self)@, p)),
                    difficulty as nat,
                ),
            has_zero_prefix(final(self).hash@, difficulty as nat) || final(self).proof_of_work
                == u64::MAX,
    {
        let ghost start = self@;
        loop
            invariant
                difficulty <= isize::MAX,
                self.index == start.index,
                self.timestamp == start.timestamp,
                self.previous_hash@ == start.previous_hash,
                self.transactions@ == start.transactions,
                start.proof_of_work <= self.proof_of_work,
                self.proof_of_work == start.proof_of_work ==> self@ == start,
                has_zero_prefix(start.hash, difficulty as nat) ==> self.proof_of_work
                    == start.proof_of_work,
                self.proof_of_work > start.proof_of_work ==> self.hash@ == block_hash(self@),
                forall|p: u64|
                    start.proof_of_work < p < self.proof_of_work ==> !has_zero_prefix(
                        block_hash(#[trigger] with_nonce(start, p)),
                        difficulty as nat,
                    ),
            ensures
                self.index == start.index,
                self.timestamp == start.timestamp,
                self.previous_hash@ == start.previous_hash,
                self.transactions@ == start.transactions,
                start.proof_of_work <= self.proof_of_work,
                self.proof_of_work == start.proof_of_work ==> self@ == start,
                has_zero_prefix(start.hash, difficulty as nat) ==> self.proof_of_work
                    == start.proof_of_work,
                self.proof_of_work > start.proof_of_work ==> self.hash@ == block_hash(self@),
                forall|p: u64|
                    start.proof_of_work < p < self.proof_of_work ==> !has_zero_prefix(
                        block_hash(#[trigger] with_nonce(start, p)),
                        difficulty as nat,
                    ),
                has_zero_prefix(self.hash@, difficulty as nat) || self.proof_of_work == u64::MAX,
            decreases u64::MAX - self.proof_of_work,
        {
            if self.is_valid_proof_of_work(difficulty) {
                break;
            }
            if self.proof_of_work == u64::MAX {
                break;
            }
            let ghost prev = self@;
            self.proof_of_work = self.proof_of_work + 1;
            self.hash = self.generate_block_hash();
            proof {
                if prev.proof_of_work > start.proof_of_work {
                    let q = with_nonce(start, prev.proof_of_work);
                    assert(BlockView { hash: Seq::empty(), ..q } == BlockView {
                        hash: Seq::empty(),
                        ..prev
                    });
                    assert(block_hash(q) == block_hash(prev));
                }
            }
        }
    }
}

} // verus!
