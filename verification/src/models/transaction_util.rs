use vstd::prelude::*;

use super::transaction::{
    lemma_total_value_concat, lemma_total_value_prefix, total_value, view_utxos, Transaction,
    Transfer, TransferView, UtxoView, UTXO,
};
use super::ledger::amount_to;
use super::utxo_set::{holding, Holdings, UtxoSet};

verus! {

/// How many whole passes over a holding worth `sum` it takes to gather at
/// least `value`.
pub open spec fn passes(value: int, sum: nat) -> nat
    decreases (if value > 0 { value } else { 0 }),
{
    if value <= 0 || sum == 0 {
        0
    } else {
        1 + passes(value - sum, sum)
    }
}

/// `s` written out `k` times in a row.
pub open spec fn repeat(s: Seq<UtxoView>, k: nat) -> Seq<UtxoView>
    decreases k,
{
    if k == 0 {
        Seq::empty()
    } else {
        repeat(s, (k - 1) as nat) + s
    }
}

/// The outputs of the sender that a transfer spends: the sender's whole
/// holding, once per pass, until the passes cover the amount.
pub open spec fn transfer_inputs(t: TransferView, m: Holdings) -> Seq<UtxoView> {
    let h = holding(m, t.sender);
    repeat(h, passes(t.value as int, total_value(h)))
}

/// What a transfer creates: the amount for the receiver, then the change
/// for the sender where the spent outputs exceed the amount.
pub open spec fn transfer_outputs(t: TransferView, gathered: nat) -> Seq<UtxoView> {
    let pay = UtxoView { value: t.value, receiver: t.receiver };
    if gathered > t.value {
        seq![pay, UtxoView { value: (gathered - t.value) as u64, receiver: t.sender }]
    } else {
        seq![pay]
    }
}

/// Whether the gathering of a transfer ends without exceeding the range of
/// `u64`: nothing is to be gathered, or the sender holds a positive total
/// and the whole passes that cover the amount still fit in a `u64`.
pub open spec fn transfer_fundable(t: TransferView, m: Holdings) -> bool {
    let sum = total_value(holding(m, t.sender));
    t.value == 0 || (sum > 0 && passes(t.value as int, sum) * sum <= u64::MAX)
}

proof fn lemma_passes_cover(value: int, sum: nat)
    requires
        sum > 0,
    ensures
        passes(value, sum) * sum >= value,
        value > 0 ==> (passes(value, sum) - 1) * sum < value,
    decreases (if value > 0 { value } else { 0 }),
{
    if value > 0 {
        lemma_passes_cover(value - sum, sum);
        let k = passes(value - sum, sum);
        assert(passes(value, sum) == k + 1);
        assert((k + 1) * sum == k * sum + sum) by (nonlinear_arith);
        assert((passes(value, sum) - 1) * sum == k * sum);
        if value - sum > 0 {
            assert((k - 1) * sum + sum == k * sum) by (nonlinear_arith);
        } else {
            assert(k == 0);
            assert(k * sum == 0) by (nonlinear_arith)
                requires
                    k == 0,
            ;
        }
    }
}

proof fn lemma_repeat_total(s: Seq<UtxoView>, k: nat)
    ensures
        total_value(repeat(s, k)) == k * total_value(s),
    decreases k,
{
    if k > 0 {
        lemma_repeat_total(s, (k - 1) as nat);
        lemma_total_value_concat(repeat(s, (k - 1) as nat), s);
        let t = total_value(s);
        let km1 = (k - 1) as nat;
        assert(km1 * t + t == k * t) by (nonlinear_arith)
            requires
                km1 + 1 == k,
        ;
        assert(repeat(s, k) == repeat(s, km1) + s);
        assert(total_value(repeat(s, km1)) == km1 * t);
    } else {
        assert(k * total_value(s) == 0) by (nonlinear_arith)
            requires
                k == 0,
        ;
    }
}

/// What a transfer's outputs pay: the receiver gets the amount, the sender
/// gets what was gathered beyond it, and nobody else gets anything. There
/// are two outputs where something is left over, one otherwise.
pub proof fn lemma_transfer_pays(t: TransferView, gathered: nat, addr: Seq<char>)
    requires
        t.value <= gathered <= u64::MAX,
    ensures
        amount_to(transfer_outputs(t, gathered), addr) == (if addr == t.receiver {
            t.value as nat
        } else {
            0nat
        }) + (if addr == t.sender {
            (gathered - t.value) as nat
        } else {
            0nat
        }),
        transfer_outputs(t, gathered).len() == (if gathered > t.value {
            2int
        } else {
            1int
        }),
        transfer_outputs(t, gathered)[0] == (UtxoView { value: t.value, receiver: t.receiver }),
{
    let outs = transfer_outputs(t, gathered);
    reveal_with_fuel(amount_to, 3);
    if gathered > t.value {
        assert(outs.drop_first() =~= seq![outs[1]]);
        assert(outs.drop_first().drop_first() =~= Seq::<UtxoView>::empty());
    } else {
        assert(outs.drop_first() =~= Seq::<UtxoView>::empty());
    }
}

/// Every output that a transfer spends is one of the sender's outputs.
pub proof fn lemma_transfer_spends_sender_outputs(t: TransferView, m: Holdings, i: int)
    requires
        0 <= i < transfer_inputs(t, m).len(),
    ensures
        holding(m, t.sender).contains(transfer_inputs(t, m)[i]),
{
    let h = holding(m, t.sender);
    lemma_repeat_member(h, passes(t.value as int, total_value(h)), i);
}

proof fn lemma_repeat_member(s: Seq<UtxoView>, k: nat, i: int)
    requires
        0 <= i < repeat(s, k).len(),
    ensures
        s.contains(repeat(s, k)[i]),
    decreases k,
{
    if k > 0 {
        let prev = repeat(s, (k - 1) as nat);
        if i < prev.len() {
            lemma_repeat_member(s, (k - 1) as nat, i);
            assert(repeat(s, k)[i] == prev[i]);
        } else {
            assert(repeat(s, k)[i] == s[i - prev.len()]);
        }
    }
}

/// Turns a transfer into a transaction over the sender's outputs.
///
/// The sender's outputs are gathered in whole passes, in the order they are
/// filed, until they cover the amount; the receiver gets the amount, and
/// the sender gets back whatever was gathered beyond it.
pub fn from_transfer_to_utxo(transfer: Transfer, utxo_set: &UtxoSet) -> (res: Transaction)
    requires
        transfer_fundable(transfer@, utxo_set@),
    ensures
        res@.inputs == transfer_inputs(transfer@, utxo_set@),
        res@.outputs == transfer_outputs(transfer@, total_value(res@.inputs)),
        total_value(res@.inputs) >= transfer.value,
        transfer.value > 0 ==> total_value(res@.inputs) < transfer.value + total_value(
            holding(utxo_set@, transfer@.sender),
        ),
        total_value(res@.outputs) == total_value(res@.inputs),
        forall|addr: Seq<char>|
            #[trigger] amount_to(res@.outputs, addr) == (if addr == transfer@.receiver {
                transfer.value as nat
            } else {
                0nat
            }) + (if addr == transfer@.sender {
                (total_value(res@.inputs) - transfer.value) as nat
            } else {
                0nat
            }),
        res@.outputs.len() == (if total_value(res@.inputs) > transfer.value {
            2int
        } else {
            1int
        }),
        forall|i: int|
            0 <= i < res@.inputs.len() ==> holding(utxo_set@, transfer@.sender).contains(
                #[trigger] res@.inputs[i],
            ),
{
    let ghost h = holding(utxo_set@, transfer@.sender);
    let ghost sum = total_value(h);
    let ghost k = passes(transfer.value as int, sum);
    let mut inputs: Vec<UTXO> = Vec::new();
    let mut outputs: Vec<UTXO> = Vec::new();
    let mut total_input_value: u64 = 0;
    let ghost mut done: nat = 0;
    proof {
        if transfer.value > 0 {
            lemma_passes_cover(transfer.value as int, sum);
        }
    }
    while total_input_value < transfer.value
        invariant
            transfer_fundable(transfer@, utxo_set@),
            h == holding(utxo_set@, transfer@.sender),
            sum == total_value(h),
            k == passes(transfer.value as int, sum),
            view_utxos(inputs@) == repeat(h, done),
            total_input_value == done * sum,
            done + passes(transfer.value - total_input_value, sum) == k,
        decreases (if total_input_value < transfer.value {
            transfer.value - total_input_value
        } else {
            0
        }),
    {
        assert(sum > 0);
        assert(passes(transfer.value - total_input_value, sum) >= 1);
        assert((done + 1) * sum <= k * sum) by (nonlinear_arith)
            requires
                done + 1 <= k,
        ;
        assert((done + 1) * sum == done * sum + sum) by (nonlinear_arith);
        if let Some(utxos) = utxo_set.get(&transfer.sender) {
            let ghost start = total_input_value;
            let ghost before = inputs@;
            let mut j: usize = 0;
            while j < utxos.len()
                invariant
                    view_utxos(utxos@) == h,
                    sum == total_value(h),
                    j <= utxos@.len(),
                    start + sum <= u64::MAX,
                    total_input_value == start + total_value(h.subrange(0, j as int)),
                    inputs@ == before + utxos@.subrange(0, j as int),
                decreases utxos@.len() - j,
            {
                proof {
                    lemma_total_value_prefix(h, j + 1);
                    assert(h.subrange(0, j + 1).drop_last() =~= h.subrange(0, j as int));
                }
                inputs.push(utxos[j].clone());
                total_input_value = total_input_value + inputs[inputs.len() - 1].value;
                assert(inputs@ =~= before + utxos@.subrange(0, j + 1));
                j = j + 1;
            }
            proof {
                assert(h.subrange(0, j as int) =~= h);
                assert(utxos@.subrange(0, j as int) =~= utxos@);
                assert(view_utxos(inputs@) =~= view_utxos(before) + h);
                assert(total_input_value == start + sum);
                done = done + 1;
            }
        } else {
            assert(h.len() == 0);
            assert(total_value(h) == 0);
        }
    }
    let ghost gathered = total_input_value as nat;
    proof {
        assert(passes(transfer.value - total_input_value, sum) == 0);
        lemma_repeat_total(h, done);
        if transfer.value > 0 {
            assert((done - 1) * sum + sum == done * sum) by (nonlinear_arith);
        }
    }
    outputs.push(UTXO { receiver: transfer.receiver, value: transfer.value });
    if total_input_value > transfer.value {
        let change = total_input_value - transfer.value;
        outputs.push(UTXO { receiver: transfer.sender, value: change });
    }
    let res = Transaction { inputs, outputs };
    assert(view_utxos(res.outputs@) =~= transfer_outputs(transfer@, gathered));
    proof {
        reveal_with_fuel(total_value, 3);
        assert forall|addr: Seq<char>|
            #[trigger] amount_to(res@.outputs, addr) == (if addr == transfer@.receiver {
                transfer.value as nat
            } else {
                0nat
            }) + (if addr == transfer@.sender {
                (gathered - transfer.value) as nat
            } else {
                0nat
            }) by {
            lemma_transfer_pays(transfer@, gathered, addr);
        }
        lemma_transfer_pays(transfer@, gathered, transfer@.receiver);
        assert forall|i: int| 0 <= i < res@.inputs.len() implies holding(
            utxo_set@,
            transfer@.sender,
        ).contains(#[trigger] res@.inputs[i]) by {
            lemma_transfer_spends_sender_outputs(transfer@, utxo_set@, i);
        }
    }
    res
}

} // verus!
