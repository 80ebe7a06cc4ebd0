use vstd::prelude::*;

use super::transaction::{total_value, TransactionView, UtxoView};
use super::utxo_set::{can_take, credit, differs_from, discard, first_position, holding, take, Holdings};

verus! {

/// Spends `ins` one after another, each from the entry of its receiver;
/// `None` where one of them is not there to be spent.
pub open spec fn spend_all(m: Holdings, ins: Seq<UtxoView>) -> Option<Holdings>
    decreases ins.len(),
{
    if ins.len() == 0 {
        Some(m)
    } else if can_take(m, ins[0]) {
        spend_all(take(m, ins[0]), ins.drop_first())
    } else {
        None
    }
}

/// Discards every output of `ins`, in order.
pub open spec fn discard_all(m: Holdings, ins: Seq<UtxoView>) -> Holdings
    decreases ins.len(),
{
    if ins.len() == 0 {
        m
    } else {
        discard_all(discard(m, ins[0]), ins.drop_first())
    }
}

/// Files every output of `outs` under its receiver, in order.
pub open spec fn credit_all(m: Holdings, outs: Seq<UtxoView>) -> Holdings
    decreases outs.len(),
{
    if outs.len() == 0 {
        m
    } else {
        credit_all(credit(m, outs[0]), outs.drop_first())
    }
}

/// The pending transaction after `t` is accepted onto `pending`: the spent
/// outputs are appended to the pending inputs, and the created ones to the
/// pending outputs.
pub open spec fn merged_pending(pending: TransactionView, t: TransactionView) -> TransactionView {
    TransactionView { inputs: pending.inputs + t.inputs, outputs: pending.outputs + t.outputs }
}

/// The balance of an address: the total of the outputs filed under it.
pub open spec fn balance(m: Holdings, addr: Seq<char>) -> nat {
    total_value(holding(m, addr))
}

/// The total that `s` sends to `addr`.
pub open spec fn amount_to(s: Seq<UtxoView>, addr: Seq<char>) -> nat
    decreases s.len(),
{
    if s.len() == 0 {
        0
    } else {
        (if s[0].receiver == addr {
            s[0].value as nat
        } else {
            0
        }) + amount_to(s.drop_first(), addr)
    }
}

/// How many times `x` occurs in `s`.
pub open spec fn occurrences(s: Seq<UtxoView>, x: UtxoView) -> nat
    decreases s.len(),
{
    if s.len() == 0 {
        0
    } else {
        (if s[0] == x {
            1nat
        } else {
            0nat
        }) + occurrences(s.drop_first(), x)
    }
}

/// Every output is filed under its own receiver.
pub open spec fn filed_by_receiver(m: Holdings) -> bool {
    forall|a: Seq<char>, i: int|
        m.contains_key(a) && 0 <= i < m[a].len() ==> (#[trigger] m[a][i]).receiver == a
}

proof fn lemma_filter_subset(s: Seq<UtxoView>, pred: spec_fn(UtxoView) -> bool, x: UtxoView)
    requires
        s.filter(pred).contains(x),
    ensures
        s.contains(x),
    decreases s.len(),
{
    reveal(Seq::filter);
    if s.len() > 0 {
        let sub = s.drop_last().filter(pred);
        if sub.contains(x) {
            lemma_filter_subset(s.drop_last(), pred, x);
            let j = choose|j: int| 0 <= j < s.drop_last().len() && s.drop_last()[j] == x;
            assert(s[j] == x);
        } else {
            assert(x == s.last());
        }
    }
}

proof fn lemma_filter_total(s: Seq<UtxoView>, pred: spec_fn(UtxoView) -> bool)
    ensures
        total_value(s.filter(pred)) <= total_value(s),
    decreases s.len(),
{
    reveal(Seq::filter);
    if s.len() > 0 {
        lemma_filter_total(s.drop_last(), pred);
        let sub = s.drop_last().filter(pred);
        if pred(s.last()) {
            assert(sub.push(s.last()).drop_last() =~= sub);
        }
    }
}

/// Filing outputs raises the balance of each address by exactly what they
/// send to it.
pub proof fn lemma_credit_all_balance(m: Holdings, outs: Seq<UtxoView>, addr: Seq<char>)
    ensures
        balance(credit_all(m, outs), addr) == balance(m, addr) + amount_to(outs, addr),
    decreases outs.len(),
{
    if outs.len() > 0 {
        let u = outs[0];
        lemma_credit_all_balance(credit(m, u), outs.drop_first(), addr);
        if u.receiver == addr {
            assert(holding(credit(m, u), addr) == holding(m, addr).push(u));
            assert(holding(m, addr).push(u).drop_last() =~= holding(m, addr));
        } else {
            assert(holding(credit(m, u), addr) == holding(m, addr));
        }
    }
}

/// A chain's initial balances are what its initial outputs send to each
/// address.
pub proof fn lemma_initial_balance(initial: Seq<UtxoView>, addr: Seq<char>)
    ensures
        balance(credit_all(Map::empty(), initial), addr) == amount_to(initial, addr),
{
    lemma_credit_all_balance(Map::empty(), initial, addr);
}

/// Discarding spent outputs never raises a balance.
pub proof fn lemma_discard_all_balance(m: Holdings, ins: Seq<UtxoView>, addr: Seq<char>)
    ensures
        balance(discard_all(m, ins), addr) <= balance(m, addr),
    decreases ins.len(),
{
    if ins.len() > 0 {
        let u = ins[0];
        lemma_discard_all_balance(discard(m, u), ins.drop_first(), addr);
        if m.contains_key(u.receiver) && u.receiver == addr {
            lemma_filter_total(m[addr], differs_from(u));
        }
    }
}

/// Discarding keeps an output out of a list that did not hold it.
proof fn lemma_discard_all_keeps_out(m: Holdings, ins: Seq<UtxoView>, x: UtxoView)
    requires
        !holding(m, x.receiver).contains(x),
    ensures
        !holding(discard_all(m, ins), x.receiver).contains(x),
    decreases ins.len(),
{
    if ins.len() > 0 {
        let u = ins[0];
        let m2 = discard(m, u);
        if m.contains_key(u.receiver) && u.receiver == x.receiver {
            if m2[x.receiver].contains(x) {
                lemma_filter_subset(m[x.receiver], differs_from(u), x);
            }
        }
        lemma_discard_all_keeps_out(m2, ins.drop_first(), x);
    }
}

/// After the spent outputs are discarded, none of them is left under its
/// receiver.
pub proof fn lemma_discard_all_removes(m: Holdings, ins: Seq<UtxoView>, x: UtxoView)
    requires
        ins.contains(x),
    ensures
        !holding(discard_all(m, ins), x.receiver).contains(x),
    decreases ins.len(),
{
    let u = ins[0];
    let m2 = discard(m, u);
    if u == x {
        if m.contains_key(x.receiver) {
            let f = m[x.receiver].filter(differs_from(x));
            if f.contains(x) {
                let j = choose|j: int| 0 <= j < f.len() && f[j] == x;
                m[x.receiver].lemma_filter_pred(differs_from(x), j);
            }
        }
        lemma_discard_all_keeps_out(m2, ins.drop_first(), x);
    } else {
        let j = choose|j: int| 0 <= j < ins.len() && ins[j] == x;
        assert(ins.drop_first()[j - 1] == x);
        lemma_discard_all_removes(m2, ins.drop_first(), x);
    }
}

/// Filing outputs none of which is `x` keeps `x` out of its receiver's list.
proof fn lemma_credit_all_keeps_out(m: Holdings, outs: Seq<UtxoView>, x: UtxoView)
    requires
        !holding(m, x.receiver).contains(x),
        !outs.contains(x),
    ensures
        !holding(credit_all(m, outs), x.receiver).contains(x),
    decreases outs.len(),
{
    if outs.len() > 0 {
        let u = outs[0];
        let m2 = credit(m, u);
        assert(u != x);
        if u.receiver == x.receiver {
            let h = holding(m, x.receiver);
            assert(holding(m2, x.receiver) == h.push(u));
            if h.push(u).contains(x) {
                let j = choose|j: int| 0 <= j < h.push(u).len() && h.push(u)[j] == x;
                assert(h[j] == x);
            }
        } else {
            assert(holding(m2, x.receiver) == holding(m, x.receiver));
        }
        if outs.drop_first().contains(x) {
            let j = choose|j: int| 0 <= j < outs.drop_first().len() && outs.drop_first()[j] == x;
            assert(outs[j + 1] == x);
        }
        lemma_credit_all_keeps_out(m2, outs.drop_first(), x);
    }
}

/// Settling a block removes each output it spends from its receiver's
/// list, unless one of the block's new outputs creates it again.
pub proof fn lemma_settle_removes_spent(
    m: Holdings,
    ins: Seq<UtxoView>,
    outs: Seq<UtxoView>,
    x: UtxoView,
)
    requires
        ins.contains(x),
        !outs.contains(x),
    ensures
        !holding(credit_all(discard_all(m, ins), outs), x.receiver).contains(x),
{
    lemma_discard_all_removes(m, ins, x);
    lemma_credit_all_keeps_out(discard_all(m, ins), outs, x);
}

proof fn lemma_occurrences_push(s: Seq<UtxoView>, y: UtxoView, x: UtxoView)
    ensures
        occurrences(s.push(y), x) == occurrences(s, x) + (if y == x {
            1nat
        } else {
            0nat
        }),
    decreases s.len(),
{
    assert(s.push(y).len() > 0);
    if s.len() == 0 {
        assert(s.push(y)[0] == y);
        assert(s.push(y).drop_first() =~= Seq::<UtxoView>::empty());
        assert(occurrences(Seq::<UtxoView>::empty(), x) == 0);
    } else {
        lemma_occurrences_push(s.drop_first(), y, x);
        assert(s.push(y)[0] == s[0]);
        assert(s.push(y).drop_first() =~= s.drop_first().push(y));
    }
}

proof fn lemma_occurrences_filter(s: Seq<UtxoView>, u: UtxoView, x: UtxoView)
    ensures
        occurrences(s.filter(differs_from(u)), x) == (if x == u {
            0nat
        } else {
            occurrences(s, x)
        }),
    decreases s.len(),
{
    reveal(Seq::filter);
    if s.len() > 0 {
        let init = s.drop_last();
        lemma_occurrences_filter(init, u, x);
        assert(init.push(s.last()) =~= s);
        lemma_occurrences_push(init, s.last(), x);
        let sub = init.filter(differs_from(u));
        if differs_from(u)(s.last()) {
            lemma_occurrences_push(sub, s.last(), x);
        }
    }
}

/// Discarding spent outputs removes, from the list of an address, exactly
/// the outputs equal to a spent one whose receiver is that address; every
/// other output keeps its count.
pub proof fn lemma_discard_all_occurrences(
    m: Holdings,
    ins: Seq<UtxoView>,
    addr: Seq<char>,
    x: UtxoView,
)
    ensures
        occurrences(holding(discard_all(m, ins), addr), x) == (if ins.contains(x) && x.receiver
            == addr {
            0nat
        } else {
            occurrences(holding(m, addr), x)
        }),
    decreases ins.len(),
{
    if ins.len() > 0 {
        let u = ins[0];
        let rest = ins.drop_first();
        let m2 = discard(m, u);
        lemma_discard_all_occurrences(m2, rest, addr, x);
        if m.contains_key(u.receiver) && addr == u.receiver {
            lemma_occurrences_filter(m[addr], u, x);
        } else {
            assert(holding(m2, addr) == holding(m, addr));
        }
        if rest.contains(x) {
            let j = choose|j: int| 0 <= j < rest.len() && rest[j] == x;
            assert(ins[j + 1] == x);
        }
        if ins.contains(x) && u != x {
            let j = choose|j: int| 0 <= j < ins.len() && ins[j] == x;
            assert(rest[j - 1] == x);
        }
        if u == x && x.receiver == addr && !m.contains_key(addr) {
            assert(holding(m, addr) =~= Seq::<UtxoView>::empty());
        }
    }
}

/// Filing outputs adds, to the list of an address, exactly the new outputs
/// whose receiver is that address; nothing already there is lost.
pub proof fn lemma_credit_all_occurrences(
    m: Holdings,
    outs: Seq<UtxoView>,
    addr: Seq<char>,
    x: UtxoView,
)
    ensures
        occurrences(holding(credit_all(m, outs), addr), x) == occurrences(holding(m, addr), x) + (
        if x.receiver == addr {
            occurrences(outs, x)
        } else {
            0nat
        }),
    decreases outs.len(),
{
    if outs.len() > 0 {
        let u = outs[0];
        let m2 = credit(m, u);
        lemma_credit_all_occurrences(m2, outs.drop_first(), addr, x);
        if u.receiver == addr {
            lemma_occurrences_push(holding(m, addr), u, x);
        } else {
            assert(holding(m2, addr) == holding(m, addr));
        }
    }
}

/// Settling a block into the set of unspent outputs: under each address,
/// an output equal to a spent one filed there is gone, every other output
/// keeps its count, and each new output filed there is added.
pub proof fn lemma_settle_occurrences(
    m: Holdings,
    ins: Seq<UtxoView>,
    outs: Seq<UtxoView>,
    addr: Seq<char>,
    x: UtxoView,
)
    ensures
        occurrences(holding(credit_all(discard_all(m, ins), outs), addr), x) == (if ins.contains(x)
            && x.receiver == addr {
            0nat
        } else {
            occurrences(holding(m, addr), x)
        }) + (if x.receiver == addr {
            occurrences(outs, x)
        } else {
            0nat
        }),
{
    lemma_discard_all_occurrences(m, ins, addr, x);
    lemma_credit_all_occurrences(discard_all(m, ins), outs, addr, x);
}

proof fn lemma_credit_all_filed(m: Holdings, outs: Seq<UtxoView>)
    requires
        filed_by_receiver(m),
    ensures
        filed_by_receiver(credit_all(m, outs)),
    decreases outs.len(),
{
    if outs.len() > 0 {
        let u = outs[0];
        let m2 = credit(m, u);
        assert forall|a: Seq<char>, i: int| m2.contains_key(a) && 0 <= i < m2[a].len() implies (
        #[trigger] m2[a][i]).receiver == a by {
            if a == u.receiver && i < holding(m, a).len() {
                assert(m2[a][i] == m[a][i]);
            }
        }
        lemma_credit_all_filed(m2, outs.drop_first());
    }
}

proof fn lemma_discard_all_filed(m: Holdings, ins: Seq<UtxoView>)
    requires
        filed_by_receiver(m),
    ensures
        filed_by_receiver(discard_all(m, ins)),
    decreases ins.len(),
{
    if ins.len() > 0 {
        let u = ins[0];
        let m2 = discard(m, u);
        assert forall|a: Seq<char>, i: int| m2.contains_key(a) && 0 <= i < m2[a].len() implies (
        #[trigger] m2[a][i]).receiver == a by {
            if m.contains_key(u.receiver) && a == u.receiver {
                let x = m2[a][i];
                assert(m2[a].contains(x));
                lemma_filter_subset(m[a], differs_from(u), x);
                let k = choose|k: int| 0 <= k < m[a].len() && m[a][k] == x;
                assert(m[a][k].receiver == a);
            }
        }
        lemma_discard_all_filed(m2, ins.drop_first());
    }
}

/// A chain's initial outputs are each filed under their receiver.
pub proof fn lemma_initial_filed(initial: Seq<UtxoView>)
    ensures
        filed_by_receiver(credit_all(Map::empty(), initial)),
{
    lemma_credit_all_filed(Map::empty(), initial);
}

/// Settling a block keeps every output filed under its receiver.
pub proof fn lemma_settle_keeps_filed(m: Holdings, ins: Seq<UtxoView>, outs: Seq<UtxoView>)
    requires
        filed_by_receiver(m),
    ensures
        filed_by_receiver(credit_all(discard_all(m, ins), outs)),
{
    lemma_discard_all_filed(m, ins);
    lemma_credit_all_filed(discard_all(m, ins), outs);
}

proof fn lemma_occurrences_remove(s: Seq<UtxoView>, i: int, x: UtxoView)
    requires
        0 <= i < s.len(),
    ensures
        occurrences(s.remove(i), x) + (if s[i] == x {
            1nat
        } else {
            0nat
        }) == occurrences(s, x),
    decreases i,
{
    if i == 0 {
        assert(s.remove(0) =~= s.drop_first());
    } else {
        lemma_occurrences_remove(s.drop_first(), i - 1, x);
        assert(s.remove(i).drop_first() =~= s.drop_first().remove(i - 1));
        assert(s.remove(i)[0] == s[0]);
    }
}

proof fn lemma_occurrences_contains(s: Seq<UtxoView>, x: UtxoView)
    ensures
        s.contains(x) <==> occurrences(s, x) > 0,
    decreases s.len(),
{
    if s.len() > 0 {
        lemma_occurrences_contains(s.drop_first(), x);
        if s.drop_first().contains(x) {
            let j = choose|j: int| 0 <= j < s.drop_first().len() && s.drop_first()[j] == x;
            assert(s[j + 1] == x);
        }
        if s.contains(x) && s[0] != x {
            let j = choose|j: int| 0 <= j < s.len() && s[j] == x;
            assert(s.drop_first()[j - 1] == x);
        }
    }
}

proof fn lemma_first_position_from(s: Seq<UtxoView>, u: UtxoView, j: int)
    requires
        0 <= j < s.len(),
        s[j] == u,
    ensures
        exists|p: int| 0 <= p < s.len() && s[p] == u && forall|k: int| 0 <= k < p ==> s[k] != u,
    decreases j,
{
    if exists|k: int| 0 <= k < j && s[k] == u {
        let k = choose|k: int| 0 <= k < j && s[k] == u;
        lemma_first_position_from(s, u, k);
    } else {
        assert(forall|k: int| 0 <= k < j ==> s[k] != u);
    }
}

proof fn lemma_first_position(s: Seq<UtxoView>, u: UtxoView)
    requires
        s.contains(u),
    ensures
        0 <= first_position(s, u) < s.len(),
        s[first_position(s, u)] == u,
{
    let j = choose|j: int| 0 <= j < s.len() && s[j] == u;
    lemma_first_position_from(s, u, j);
}

/// A run of inputs can be spent, one after another, exactly when each
/// output occurs among the inputs no more often than among the outputs
/// filed under its receiver: the order of the inputs does not matter.
pub proof fn lemma_spend_all_counts(m: Holdings, ins: Seq<UtxoView>)
    ensures
        (spend_all(m, ins) is Some) <==> (forall|x: UtxoView|
            #[trigger] occurrences(ins, x) <= occurrences(holding(m, x.receiver), x)),
    decreases ins.len(),
{
    if ins.len() == 0 {
        assert forall|x: UtxoView| #[trigger]
            occurrences(ins, x) <= occurrences(holding(m, x.receiver), x) by {}
    } else {
        let u = ins[0];
        let r = u.receiver;
        let rest = ins.drop_first();
        if can_take(m, u) {
            let m2 = take(m, u);
            lemma_spend_all_counts(m2, rest);
            lemma_first_position(m[r], u);
            let p = first_position(m[r], u);
            assert forall|x: UtxoView|
                (occurrences(ins, x) <= occurrences(holding(m, x.receiver), x)) == (occurrences(
                    rest,
                    x,
                ) <= occurrences(holding(m2, x.receiver), x)) by {
                if x.receiver == r {
                    lemma_occurrences_remove(m[r], p, x);
                } else {
                    assert(holding(m2, x.receiver) == holding(m, x.receiver));
                }
            }
            if spend_all(m2, rest) is Some {
                assert forall|x: UtxoView| #[trigger]
                    occurrences(ins, x) <= occurrences(holding(m, x.receiver), x) by {
                    assert(occurrences(rest, x) <= occurrences(holding(m2, x.receiver), x));
                }
            } else {
                let x = choose|x: UtxoView|
                    !(#[trigger] occurrences(rest, x) <= occurrences(holding(m2, x.receiver), x));
                assert(!(occurrences(ins, x) <= occurrences(holding(m, x.receiver), x)));
            }
        } else {
            lemma_occurrences_contains(holding(m, r), u);
            assert(occurrences(ins, u) >= 1);
            assert(!(occurrences(ins, u) <= occurrences(holding(m, u.receiver), u)));
        }
    }
}

} // verus!
