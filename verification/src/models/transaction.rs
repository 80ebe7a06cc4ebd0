use vstd::prelude::*;
use vstd::std_specs::cmp::PartialEqSpecImpl;

verus! {

/// An unspent transaction output: an amount owned by an address.
#[derive(Debug)]
pub struct UTXO {
    pub value: u64,
    pub receiver: String,
}

/// The mathematical value of a [`UTXO`].
pub struct UtxoView {
    pub value: u64,
    pub receiver: Seq<char>,
}

impl View for UTXO {
    type V = UtxoView;

    open spec fn view(&self) -> UtxoView {
        UtxoView { value: self.value, receiver: self.receiver@ }
    }
}

impl Clone for UTXO {
    fn clone(&self) -> (res: Self)
        ensures
            res == *self,
    {
        UTXO { value: self.value, receiver: self.receiver.clone() }
    }
}

impl PartialEq for UTXO {
    fn eq(&self, other: &Self) -> (res: bool) {
        self.value == other.value && self.receiver == other.receiver
    }
}

impl PartialEqSpecImpl for UTXO {
    open spec fn obeys_eq_spec() -> bool {
        true
    }

    open spec fn eq_spec(&self, other: &UTXO) -> bool {
        self.value == other.value && self.receiver@ == other.receiver@
    }
}

impl PartialEq for Transfer {
    fn eq(&self, other: &Self) -> (res: bool) {
        self.value == other.value && self.receiver == other.receiver && self.sender == other.sender
    }
}

impl PartialEqSpecImpl for Transfer {
    open spec fn obeys_eq_spec() -> bool {
        true
    }

    open spec fn eq_spec(&self, other: &Transfer) -> bool {
        self.value == other.value && self.receiver@ == other.receiver@ && self.sender@
            == other.sender@
    }
}

/// A request to move `value` from `sender` to `receiver`.
#[derive(Debug)]
pub struct Transfer {
    pub value: u64,
    pub receiver: String,
    pub sender: String,
}

/// The mathematical value of a [`Transfer`].
pub struct TransferView {
    pub value: u64,
    pub receiver: Seq<char>,
    pub sender: Seq<char>,
}

impl View for Transfer {
    type V = TransferView;

    open spec fn view(&self) -> TransferView {
        TransferView { value: self.value, receiver: self.receiver@, sender: self.sender@ }
    }
}

/// Outputs being spent (`inputs`) and outputs being created (`outputs`).
#[derive(Debug)]
pub struct Transaction {
    pub inputs: Vec<UTXO>,
    pub outputs: Vec<UTXO>,
}

/// A list of transactions.
pub type Transactions = Vec<Transaction>;

/// The mathematical value of a [`Transaction`].
pub struct TransactionView {
    pub inputs: Seq<UtxoView>,
    pub outputs: Seq<UtxoView>,
}

/// The values of a sequence of outputs.
pub open spec fn view_utxos(s: Seq<UTXO>) -> Seq<UtxoView> {
    s.map_values(|u: UTXO| u@)
}

impl View for Transaction {
    type V = TransactionView;

    open spec fn view(&self) -> TransactionView {
        TransactionView { inputs: view_utxos(self.inputs@), outputs: view_utxos(self.outputs@) }
    }
}

/// Clones a list of outputs, keeping every value.
pub fn clone_utxos(v: &Vec<UTXO>) -> (res: Vec<UTXO>)
    ensures
        res@ == v@,
{
    let mut res: Vec<UTXO> = Vec::new();
    let mut i: usize = 0;
    while i < v.len()
        invariant
            i <= v.len(),
            res@ == v@.subrange(0, i as int),
        decreases v.len() - i,
    {
        res.push(v[i].clone());
        i = i + 1;
    }
    res
}

impl Clone for Transaction {
    fn clone(&self) -> (res: Self)
        ensures
            res@ == self@,
            res.inputs@ == self.inputs@,
            res.outputs@ == self.outputs@,
    {
        Transaction { inputs: clone_utxos(&self.inputs), outputs: clone_utxos(&self.outputs) }
    }
}

impl Transaction {
    /// A transaction with no inputs and no outputs.
    pub fn empty() -> (res: Self)
        ensures
            res.inputs@.len() == 0,
            res.outputs@.len() == 0,
    {
        Transaction { inputs: Vec::new(), outputs: Vec::new() }
    }
}

/// The sum of the values of a sequence of outputs.
pub open spec fn total_value(s: Seq<UtxoView>) -> nat
    decreases s.len(),
{
    if s.len() == 0 {
        0
    } else {
        total_value(s.drop_last()) + s.last().value as nat
    }
}

/// The total of a concatenation is the sum of the totals.
pub proof fn lemma_total_value_concat(a: Seq<UtxoView>, b: Seq<UtxoView>)
    ensures
        total_value(a + b) == total_value(a) + total_value(b),
    decreases b.len(),
{
    if b.len() > 0 {
        assert((a + b).drop_last() =~= a + b.drop_last());
        lemma_total_value_concat(a, b.drop_last());
    } else {
        assert(a + b =~= a);
    }
}

/// A prefix never totals more than the whole sequence.
pub proof fn lemma_total_value_prefix(s: Seq<UtxoView>, j: int)
    requires
        0 <= j <= s.len(),
    ensures
        total_value(s.subrange(0, j)) <= total_value(s),
    decreases s.len() - j,
{
    if j < s.len() {
        lemma_total_value_prefix(s, j + 1);
        assert(s.subrange(0, j + 1).drop_last() =~= s.subrange(0, j));
    } else {
        assert(s.subrange(0, j) =~= s);
    }
}

} // verus!
