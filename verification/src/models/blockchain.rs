use vstd::prelude::*;

use super::block::{block_hash, Block};
use super::transaction::{
    clone_utxos, total_value, view_utxos, Transaction, TransactionView, Transfer, UtxoView, UTXO,
};
use super::transaction_util::{from_transfer_to_utxo, transfer_fundable, transfer_inputs};
use super::ledger::{credit_all, discard_all, merged_pending, occurrences, spend_all, lemma_spend_all_counts, lemma_settle_occurrences};
use super::utxo_set::{can_take, holding, UtxoSet};

verus! {

/// What offering `t` to `old` makes of it: where every pending input and
/// every input of `t` can be spent one after another, `t` joins the
/// pending transaction; otherwise the pending transaction stays. The chain
/// and the set of unspent outputs stay either way.
pub open spec fn transaction_applied(old: Blockchain, new: Blockchain, t: TransactionView) -> bool {
    let accepted = spend_all(old.utxo_set@, old.pending_transactions@.inputs + t.inputs) is Some;
    &&& accepted ==> new.pending_transactions@ == merged_pending(old.pending_transactions@, t)
    &&& !accepted ==> new.pending_transactions@ == old.pending_transactions@
    &&& new.chain == old.chain
    &&& new.difficulty == old.difficulty
    &&& new.utxo_set@ == old.utxo_set@
}

/// The chain of blocks, the set of unspent outputs and the transaction
/// waiting for the next block.
#[derive(Debug)]
pub struct Blockchain {
    pub chain: Vec<Block>,
    pub difficulty: usize,
    pub utxo_set: UtxoSet,
    pub pending_transactions: Transaction,
}

impl Clone for Blockchain {
    fn clone(&self) -> (res: Self)
        ensures
            res.chain@.len() == self.chain@.len(),
            forall|i: int| 0 <= i < self.chain@.len() ==> (#[trigger] res.chain@[i])@ == self.chain@[i]@,
            res.difficulty == self.difficulty,
            res.utxo_set@ == self.utxo_set@,
            res.pending_transactions@ == self.pending_transactions@,
    {
        let mut chain: Vec<Block> = Vec::new();
        let mut i: usize = 0;
        while i < self.chain.len()
            invariant
                i <= self.chain@.len(),
                chain@.len() == i,
                forall|k: int| 0 <= k < i ==> (#[trigger] chain@[k])@ == self.chain@[k]@,
            decreases self.chain@.len() - i,
        {
            chain.push(self.chain[i].clone());
            i = i + 1;
        }
        Blockchain {
            chain,
            difficulty: self.difficulty,
            utxo_set: self.utxo_set.clone(),
            pending_transactions: self.pending_transactions.clone(),
        }
    }
}

impl Blockchain {
    /// A chain made of a genesis block (index 0, previous hash `"0"`, an
    /// empty transaction), with the initial outputs filed by receiver.
    pub fn new(difficulty: usize, initial_inputs: Vec<UTXO>) -> (res: Self)
        ensures
            res.chain@.len() == 1,
            res.chain@[0].index == 0,
            res.chain@[0].proof_of_work == 0,
            res.chain@[0].previous_hash@ == "0"@,
            res.chain@[0].hash@ == block_hash(res.chain@[0]@),
            res.chain@[0].transactions@.inputs.len() == 0,
            res.chain@[0].transactions@.outputs.len() == 0,
            res.difficulty == difficulty,
            res.utxo_set@ == credit_all(Map::empty(), view_utxos(initial_inputs@)),
            res.pending_transactions@.inputs.len() == 0,
            res.pending_transactions@.outputs.len() == 0,
    {
        let pending_transactions = Transaction::empty();
        let genesis_block = Block::new(0, String::from_str("0"), pending_transactions.clone());
        let mut chain: Vec<Block> = Vec::new();
        chain.push(genesis_block);
        let mut utxo_set = UtxoSet::new();
        let ghost all = view_utxos(initial_inputs@);
        let mut i: usize = 0;
        assert(all.skip(0) =~= all);
        while i < initial_inputs.len()
            invariant
                i <= initial_inputs@.len(),
                all == view_utxos(initial_inputs@),
                credit_all(Map::empty(), all) == credit_all(utxo_set@, all.skip(i as int)),
            decreases initial_inputs@.len() - i,
        {
            assert(all.skip(i as int).drop_first() =~= all.skip(i + 1));
            utxo_set.push_utxo(initial_inputs[i].clone());
            i = i + 1;
        }
        assert(all.skip(i as int) =~= Seq::<UtxoView>::empty());
        Blockchain { chain, difficulty, utxo_set, pending_transactions }
    }

    /// Accepts `transaction` onto the pending transaction where every
    /// pending input and every input of `transaction` can be spent, one
    /// after another, from the set of unspent outputs; says whether it did.
    /// The set itself is left as it is.
    pub fn add_transaction(&mut self, transaction: Transaction) -> (accepted: bool)
        ensures
            accepted == spend_all(
                old(self).utxo_set@,
                old(self).pending_transactions@.inputs + transaction@.inputs,
            ) is Some,
            accepted == (forall|x: UtxoView| #[trigger]
                occurrences(old(self).pending_transactions@.inputs + transaction@.inputs, x)
                    <= occurrences(holding(old(self).utxo_set@, x.receiver), x)),
            accepted ==> final(self).pending_transactions@ == merged_pending(
                old(self).pending_transactions@,
                transaction@,
            ),
            !accepted ==> *final(self) == *old(self),
            final(self).chain == old(self).chain,
            final(self).difficulty == old(self).difficulty,
            final(self).utxo_set@ == old(self).utxo_set@,
            transaction_applied(*old(self), *final(self), transaction@),
    {
        let ghost tx = transaction@;
        proof {
            lemma_spend_all_counts(self.utxo_set@, self.pending_transactions@.inputs + tx.inputs);
        }
        let mut inputs = transaction.inputs;
        let mut outputs = transaction.outputs;
        let mut test_utxo_set = self.utxo_set.clone();
        let mut all_inputs = clone_utxos(&self.pending_transactions.inputs);
        all_inputs.append(&mut inputs);
        let mut all_outputs = clone_utxos(&self.pending_transactions.outputs);
        all_outputs.append(&mut outputs);
        let ghost all = view_utxos(all_inputs@);
        assert(all =~= self.pending_transactions@.inputs + tx.inputs);
        let mut i: usize = 0;
        assert(all.skip(0) =~= all);
        while i < all_inputs.len()
            invariant
                i <= all_inputs@.len(),
                all == view_utxos(all_inputs@),
                *self == *old(self),
                tx == transaction@,
                all == old(self).pending_transactions@.inputs + tx.inputs,
                spend_all(self.utxo_set@, all) == spend_all(test_utxo_set@, all.skip(i as int)),
            decreases all_inputs@.len() - i,
        {
            assert(all.skip(i as int).drop_first() =~= all.skip(i + 1));
            assert(all.skip(i as int)[0] == all_inputs@[i as int]@);
            let ghost before = test_utxo_set@;
            if !test_utxo_set.take_one(&all_inputs[i]) {
                assert(!can_take(before, all.skip(i as int)[0]));
                assert(spend_all(before, all.skip(i as int)) is None);
                proof {
                    lemma_spend_all_counts(old(self).utxo_set@, all);
                }
                return false;
            }
            i = i + 1;
        }
        assert(all.skip(i as int) =~= Seq::<UtxoView>::empty());
        let new_transaction = Transaction { inputs: all_inputs, outputs: all_outputs };
        assert(new_transaction@.inputs =~= merged_pending(self.pending_transactions@, tx).inputs);
        assert(new_transaction@.outputs =~= merged_pending(self.pending_transactions@, tx).outputs);
        self.pending_transactions = new_transaction;
        true
    }

    /// Appends `block` to the chain.
    pub fn add_block(&mut self, block: Block)
        ensures
            final(self).chain@ == old(self).chain@.push(block),
            final(self).difficulty == old(self).difficulty,
            final(self).utxo_set@ == old(self).utxo_set@,
            final(self).pending_transactions@ == old(self).pending_transactions@,
    {
        self.chain.push(block);
    }

    /// Turns `transfer` into a transaction over the sender's outputs and
    /// offers it to [`Blockchain::add_transaction`].
    pub fn add_transfer(&mut self, transfer: Transfer)
        requires
            transfer_fundable(transfer@, old(self).utxo_set@),
        ensures
            ({
                let spent = transfer_inputs(transfer@, old(self).utxo_set@);
                let all = old(self).pending_transactions@.inputs + spent;
                if spend_all(old(self).utxo_set@, all) is Some {
                    &&& final(self).pending_transactions@.inputs == all
                    &&& final(self).pending_transactions@.outputs
                        == old(self).pending_transactions@.outputs + super::transaction_util::transfer_outputs(
                        transfer@,
                        total_value(spent),
                    )
                } else {
                    final(self).pending_transactions@ == old(self).pending_transactions@
                }
            }),
            final(self).chain == old(self).chain,
            final(self).difficulty == old(self).difficulty,
            final(self).utxo_set@ == old(self).utxo_set@,
    {
        let transaction = from_transfer_to_utxo(transfer, &self.utxo_set);
        self.add_transaction(transaction);
    }

    /// Discards every spent output (each from the entry of its receiver,
    /// where there is one), then files every new output under its receiver.
    pub fn update_utxo_set(&mut self, inputs: &Vec<UTXO>, outputs: &Vec<UTXO>)
        ensures
            final(self).utxo_set@ == credit_all(
                discard_all(old(self).utxo_set@, view_utxos(inputs@)),
                view_utxos(outputs@),
            ),
            forall|addr: Seq<char>, x: UtxoView|
                #[trigger] occurrences(holding(final(self).utxo_set@, addr), x) == (if view_utxos(
                    inputs@,
                ).contains(x) && x.receiver == addr {
                    0nat
                } else {
                    occurrences(holding(old(self).utxo_set@, addr), x)
                }) + (if x.receiver == addr {
                    occurrences(view_utxos(outputs@), x)
                } else {
                    0nat
                }),
            final(self).chain == old(self).chain,
            final(self).difficulty == old(self).difficulty,
            final(self).pending_transactions == old(self).pending_transactions,
    {
        let ghost ins = view_utxos(inputs@);
        let ghost outs = view_utxos(outputs@);
        let ghost start = self.utxo_set@;
        let mut i: usize = 0;
        assert(ins.skip(0) =~= ins);
        while i < inputs.len()
            invariant
                i <= inputs@.len(),
                ins == view_utxos(inputs@),
                self.chain == old(self).chain,
                self.difficulty == old(self).difficulty,
                self.pending_transactions == old(self).pending_transactions,
                discard_all(start, ins) == discard_all(self.utxo_set@, ins.skip(i as int)),
            decreases inputs@.len() - i,
        {
            assert(ins.skip(i as int).drop_first() =~= ins.skip(i + 1));
            self.utxo_set.discard(&inputs[i]);
            i = i + 1;
        }
        assert(ins.skip(i as int) =~= Seq::<UtxoView>::empty());
        let ghost middle = self.utxo_set@;
        let mut j: usize = 0;
        assert(outs.skip(0) =~= outs);
        while j < outputs.len()
            invariant
                j <= outputs@.len(),
                outs == view_utxos(outputs@),
                self.chain == old(self).chain,
                self.difficulty == old(self).difficulty,
                self.pending_transactions == old(self).pending_transactions,
                credit_all(middle, outs) == credit_all(self.utxo_set@, outs.skip(j as int)),
            decreases outputs@.len() - j,
        {
            assert(outs.skip(j as int).drop_first() =~= outs.skip(j + 1));
            self.utxo_set.push_utxo(outputs[j].clone());
            j = j + 1;
        }
        assert(outs.skip(j as int) =~= Seq::<UtxoView>::empty());
        assert forall|addr: Seq<char>, x: UtxoView|
            #[trigger] occurrences(holding(self.utxo_set@, addr), x) == (if ins.contains(x)
                && x.receiver == addr {
                0nat
            } else {
                occurrences(holding(old(self).utxo_set@, addr), x)
            }) + (if x.receiver == addr {
                occurrences(outs, x)
            } else {
                0nat
            }) by {
            lemma_settle_occurrences(old(self).utxo_set@, ins, outs, addr, x);
        }
    }

    /// The total value of the outputs filed under `address`.
    pub fn get_balance(&self, address: &str) -> (balance: u64)
        requires
            total_value(holding(self.utxo_set@, address@)) <= u64::MAX,
        ensures
            balance == total_value(holding(self.utxo_set@, address@)),
    {
        let key = address.to_owned();
        match self.utxo_set.get(&key) {
            None => 0,
            Some(utxos) => {
                let ghost h = view_utxos(utxos@);
                let mut sum: u64 = 0;
                let mut i: usize = 0;
                while i < utxos.len()
                    invariant
                        i <= utxos@.len(),
                        h == view_utxos(utxos@),
                        total_value(h) <= u64::MAX,
                        sum == total_value(h.subrange(0, i as int)),
                    decreases utxos@.len() - i,
                {
                    proof {
                        super::transaction::lemma_total_value_prefix(h, i + 1);
                        assert(h.subrange(0, i + 1).drop_last() =~= h.subrange(0, i as int));
                    }
                    sum = sum + utxos[i].value;
                    i = i + 1;
                }
                assert(h.subrange(0, i as int) =~= h);
                sum
            },
        }
    }

    /// A copy of the pending transaction.
    pub fn collect_pending_transactions(&self) -> (res: Transaction)
        ensures
            res@ == self.pending_transactions@,
    {
        self.pending_transactions.clone()
    }

    /// Appends `new_block`, settles its transaction against the set of
    /// unspent outputs and clears the pending transaction.
    pub fn update_with_new_block(&mut self, new_block: Block)
        ensures
            final(self).chain@.len() == old(self).chain@.len() + 1,
            forall|i: int| 0 <= i < old(self).chain@.len() ==> final(self).chain@[i] == old(self).chain@[i],
            final(self).chain@.last()@ == new_block@,
            final(self).utxo_set@ == credit_all(
                discard_all(old(self).utxo_set@, new_block@.transactions.inputs),
                new_block@.transactions.outputs,
            ),
            final(self).difficulty == old(self).difficulty,
            final(self).pending_transactions@.inputs.len() == 0,
            final(self).pending_transactions@.outputs.len() == 0,
    {
        self.chain.push(new_block.clone());
        self.update_utxo_set(&new_block.transactions.inputs, &new_block.transactions.outputs);
        self.pending_transactions = Transaction::empty();
    }
}

} // verus!
