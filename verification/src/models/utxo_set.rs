use vstd::prelude::*;

use super::transaction::{clone_utxos, view_utxos, UtxoView, UTXO};

verus! {

/// What the set of unspent outputs holds: for each address that has an
/// entry, the list of outputs filed under it, in insertion order.
pub type Holdings = Map<Seq<char>, Seq<UtxoView>>;

/// The outputs filed under `addr`, empty where it has no entry.
pub open spec fn holding(m: Holdings, addr: Seq<char>) -> Seq<UtxoView> {
    if m.contains_key(addr) {
        m[addr]
    } else {
        Seq::empty()
    }
}

/// Files `u` under its receiver, after what is there.
pub open spec fn credit(m: Holdings, u: UtxoView) -> Holdings {
    m.insert(u.receiver, holding(m, u.receiver).push(u))
}

/// Whether an output differs from `u`.
pub open spec fn differs_from(u: UtxoView) -> spec_fn(UtxoView) -> bool {
    |x: UtxoView| x != u
}

/// Drops every output equal to `u` from the entry of its receiver, where
/// that entry exists.
pub open spec fn discard(m: Holdings, u: UtxoView) -> Holdings {
    if m.contains_key(u.receiver) {
        m.insert(u.receiver, m[u.receiver].filter(differs_from(u)))
    } else {
        m
    }
}

/// The first position of `u` in `s`.
pub open spec fn first_position(s: Seq<UtxoView>, u: UtxoView) -> int {
    choose|j: int| 0 <= j < s.len() && s[j] == u && forall|k: int| 0 <= k < j ==> s[k] != u
}

/// Whether `u` is filed under its receiver.
pub open spec fn can_take(m: Holdings, u: UtxoView) -> bool {
    m.contains_key(u.receiver) && m[u.receiver].contains(u)
}

/// Removes the first occurrence of `u` from the entry of its receiver.
pub open spec fn take(m: Holdings, u: UtxoView) -> Holdings {
    m.insert(u.receiver, m[u.receiver].remove(first_position(m[u.receiver], u)))
}

/// An entry of the set: an address and the outputs filed under it.
pub type Entry = (String, Vec<UTXO>);

spec fn distinct_keys(e: Seq<Entry>) -> bool {
    forall|i: int, j: int| 0 <= i < j < e.len() ==> #[trigger] e[i].0@ != #[trigger] e[j].0@
}

spec fn has_slot(e: Seq<Entry>, addr: Seq<char>) -> bool {
    exists|i: int| 0 <= i < e.len() && #[trigger] e[i].0@ == addr
}

spec fn slot_of(e: Seq<Entry>, addr: Seq<char>) -> int {
    choose|i: int| 0 <= i < e.len() && #[trigger] e[i].0@ == addr
}

spec fn holdings_of(e: Seq<Entry>) -> Holdings {
    Map::new(|a: Seq<char>| has_slot(e, a), |a: Seq<char>| view_utxos(e[slot_of(e, a)].1@))
}

proof fn lemma_slot(e: Seq<Entry>, i: int)
    requires
        distinct_keys(e),
        0 <= i < e.len(),
    ensures
        has_slot(e, e[i].0@),
        slot_of(e, e[i].0@) == i,
        holdings_of(e).contains_key(e[i].0@),
        holdings_of(e)[e[i].0@] == view_utxos(e[i].1@),
{
    let a = e[i].0@;
    assert(e[i].0@ == a);
    let j = slot_of(e, a);
    if j != i {
        if j < i {
            assert(e[j].0@ != e[i].0@);
        } else {
            assert(e[i].0@ != e[j].0@);
        }
    }
}

/// Replacing the list of one entry, keeping its key, updates the view at
/// that key only.
proof fn lemma_replace_entry(old: Seq<Entry>, new: Seq<Entry>, i: int)
    requires
        distinct_keys(old),
        0 <= i < old.len(),
        new.len() == old.len(),
        new[i].0@ == old[i].0@,
        forall|j: int| 0 <= j < old.len() && j != i ==> new[j] == old[j],
    ensures
        distinct_keys(new),
        holdings_of(new) == holdings_of(old).insert(old[i].0@, view_utxos(new[i].1@)),
{
    assert forall|x: int, y: int| 0 <= x < y < new.len() implies #[trigger] new[x].0@
        != #[trigger] new[y].0@ by {
        assert(old[x].0@ != old[y].0@);
    }
    let a = old[i].0@;
    let target = holdings_of(old).insert(a, view_utxos(new[i].1@));
    assert forall|k: Seq<char>| holdings_of(new).contains_key(k) <==> target.contains_key(k) by {
        if has_slot(old, k) {
            let j = slot_of(old, k);
            assert(new[j].0@ == k);
        }
        if has_slot(new, k) {
            let j = slot_of(new, k);
            assert(old[j].0@ == k);
        }
    }
    assert forall|k: Seq<char>| holdings_of(new).contains_key(k) implies holdings_of(new)[k]
        == target[k] by {
        let j = slot_of(new, k);
        lemma_slot(new, j);
        lemma_slot(old, j);
    }
    assert(holdings_of(new) =~= target);
}

/// Appending an entry for a fresh key adds that key to the view.
proof fn lemma_append_entry(old: Seq<Entry>, x: Entry)
    requires
        distinct_keys(old),
        !holdings_of(old).contains_key(x.0@),
    ensures
        distinct_keys(old.push(x)),
        holdings_of(old.push(x)) == holdings_of(old).insert(x.0@, view_utxos(x.1@)),
{
    let new = old.push(x);
    let n = old.len() as int;
    assert forall|p: int, q: int| 0 <= p < q < new.len() implies #[trigger] new[p].0@
        != #[trigger] new[q].0@ by {
        if q < n {
            assert(old[p].0@ != old[q].0@);
        } else {
            assert(old[p].0@ == new[p].0@);
            if old[p].0@ == x.0@ {
                lemma_slot(old, p);
            }
        }
    }
    let target = holdings_of(old).insert(x.0@, view_utxos(x.1@));
    assert forall|k: Seq<char>| holdings_of(new).contains_key(k) <==> target.contains_key(k) by {
        if has_slot(old, k) {
            let j = slot_of(old, k);
            assert(new[j].0@ == k);
        }
        if k == x.0@ {
            assert(new[n].0@ == k);
        }
        if has_slot(new, k) {
            let j = slot_of(new, k);
            if j < n {
                assert(old[j].0@ == k);
            }
        }
    }
    assert forall|k: Seq<char>| holdings_of(new).contains_key(k) implies holdings_of(new)[k]
        == target[k] by {
        let j = slot_of(new, k);
        lemma_slot(new, j);
        if j < n {
            lemma_slot(old, j);
        }
    }
    assert(holdings_of(new) =~= target);
}

/// The set of unspent outputs, keyed by address.
#[derive(Debug)]
pub struct UtxoSet {
    entries: Vec<Entry>,
}

impl UtxoSet {
    #[verifier::type_invariant]
    spec fn keys_distinct(self) -> bool {
        distinct_keys(self.entries@)
    }
}

impl View for UtxoSet {
    type V = Holdings;

    closed spec fn view(&self) -> Holdings {
        holdings_of(self.entries@)
    }
}

impl UtxoSet {
    /// An empty set.
    pub fn new() -> (res: Self)
        ensures
            res@ == Map::<Seq<char>, Seq<UtxoView>>::empty(),
    {
        let res = UtxoSet { entries: Vec::new() };
        assert(res@ =~= Map::<Seq<char>, Seq<UtxoView>>::empty());
        res
    }

    fn find(&self, addr: &String) -> (res: Option<usize>)
        ensures
            match res {
                Some(i) => i < self.entries@.len() && self.entries@[i as int].0@ == addr@,
                None => !self@.contains_key(addr@),
            },
    {
        let mut i: usize = 0;
        while i < self.entries.len()
            invariant
                i <= self.entries@.len(),
                forall|k: int| 0 <= k < i ==> self.entries@[k].0@ != addr@,
            decreases self.entries@.len() - i,
        {
            if self.entries[i].0 == *addr {
                return Some(i);
            }
            i = i + 1;
        }
        None
    }

    /// The outputs filed under `addr`, if it has an entry.
    pub fn get(&self, addr: &String) -> (res: Option<&Vec<UTXO>>)
        ensures
            res is Some == self@.contains_key(addr@),
            res matches Some(v) ==> view_utxos(v@) == self@[addr@],
    {
        proof {
            use_type_invariant(self);
        }
        match self.find(addr) {
            Some(i) => {
                proof {
                    lemma_slot(self.entries@, i as int);
                }
                Some(&self.entries[i].1)
            },
            None => None,
        }
    }

    /// The addresses that have an entry, each once.
    pub fn addresses(&self) -> (res: Vec<String>)
        ensures
            forall|i: int, j: int| 0 <= i < j < res@.len() ==> res@[i]@ != res@[j]@,
            forall|a: Seq<char>|
                self@.contains_key(a) <==> exists|i: int| 0 <= i < res@.len() && #[trigger] res@[i]@ == a,
    {
        proof {
            use_type_invariant(self);
        }
        let mut res: Vec<String> = Vec::new();
        let mut i: usize = 0;
        while i < self.entries.len()
            invariant
                i <= self.entries@.len(),
                distinct_keys(self.entries@),
                res@.len() == i,
                forall|k: int| 0 <= k < i ==> (#[trigger] res@[k])@ == self.entries@[k].0@,
            decreases self.entries@.len() - i,
        {
            res.push(self.entries[i].0.clone());
            i = i + 1;
        }
        assert forall|p: int, q: int| 0 <= p < q < res@.len() implies res@[p]@ != res@[q]@ by {
            assert(self.entries@[p].0@ != self.entries@[q].0@);
        }
        assert forall|a: Seq<char>|
            self@.contains_key(a) <==> exists|k: int| 0 <= k < res@.len() && #[trigger] res@[k]@ == a by {
            if has_slot(self.entries@, a) {
                let k = slot_of(self.entries@, a);
                assert(res@[k]@ == a);
            }
            if exists|k: int| 0 <= k < res@.len() && #[trigger] res@[k]@ == a {
                let k = choose|k: int| 0 <= k < res@.len() && #[trigger] res@[k]@ == a;
                assert(self.entries@[k].0@ == a);
            }
        }
        res
    }

    /// Puts `list` in place of the list of entry `i`.
    fn replace_list(&mut self, i: usize, list: Vec<UTXO>)
        requires
            i < old(self).entries@.len(),
        ensures
            final(self)@ == old(self)@.insert(old(self).entries@[i as int].0@, view_utxos(list@)),
    {
        proof {
            use_type_invariant(&*self);
        }
        let ghost before = self.entries@;
        let mut entries: Vec<Entry> = Vec::new();
        std::mem::swap(&mut entries, &mut self.entries);
        let key = entries[i].0.clone();
        entries.set(i, (key, list));
        proof {
            lemma_replace_entry(before, entries@, i as int);
        }
        std::mem::swap(&mut entries, &mut self.entries);
    }

    /// Adds an entry for an address that has none.
    fn append_entry(&mut self, x: Entry)
        requires
            !old(self)@.contains_key(x.0@),
        ensures
            final(self)@ == old(self)@.insert(x.0@, view_utxos(x.1@)),
    {
        proof {
            use_type_invariant(&*self);
        }
        let ghost before = self.entries@;
        let mut entries: Vec<Entry> = Vec::new();
        std::mem::swap(&mut entries, &mut self.entries);
        proof {
            lemma_append_entry(before, x);
        }
        entries.push(x);
        std::mem::swap(&mut entries, &mut self.entries);
    }

    /// Files `utxo` under its receiver, creating the entry where there is
    /// none.
    pub fn push_utxo(&mut self, utxo: UTXO)
        ensures
            final(self)@ == credit(old(self)@, utxo@),
    {
        proof {
            use_type_invariant(&*self);
        }
        let ghost before = *self;
        match self.find(&utxo.receiver) {
            Some(i) => {
                proof {
                    lemma_slot(before.entries@, i as int);
                }
                let mut list = clone_utxos(&self.entries[i].1);
                list.push(utxo);
                assert(view_utxos(list@) =~= before@[utxo@.receiver].push(utxo@));
                self.replace_list(i, list);
            },
            None => {
                let key = utxo.receiver.clone();
                let list = vec![utxo];
                assert(view_utxos(list@) =~= holding(before@, utxo@.receiver).push(utxo@));
                self.append_entry((key, list));
            },
        }
    }

    /// Sets the list filed under `addr` to `utxos`, replacing any list that
    /// was there.
    pub fn insert_holding(&mut self, addr: String, utxos: Vec<UTXO>)
        ensures
            final(self)@ == old(self)@.insert(addr@, view_utxos(utxos@)),
    {
        proof {
            use_type_invariant(&*self);
        }
        let ghost before = *self;
        match self.find(&addr) {
            Some(i) => {
                self.replace_list(i, utxos);
            },
            None => {
                self.append_entry((addr, utxos));
            },
        }
    }

    /// Drops every output equal to `utxo` from the entry of its receiver.
    pub fn discard(&mut self, utxo: &UTXO)
        ensures
            final(self)@ == discard(old(self)@, utxo@),
    {
        proof {
            use_type_invariant(&*self);
        }
        let ghost before = *self;
        if let Some(i) = self.find(&utxo.receiver) {
            proof {
                lemma_slot(before.entries@, i as int);
            }
            let kept = without(&self.entries[i].1, utxo);
            self.replace_list(i, kept);
        }
    }

    /// Removes the first output equal to `utxo` from the entry of its
    /// receiver; says whether there was one.
    pub fn take_one(&mut self, utxo: &UTXO) -> (found: bool)
        ensures
            found == can_take(old(self)@, utxo@),
            found ==> final(self)@ == take(old(self)@, utxo@),
            !found ==> final(self)@ == old(self)@,
    {
        proof {
            use_type_invariant(&*self);
        }
        let ghost before = *self;
        match self.find(&utxo.receiver) {
            None => false,
            Some(i) => {
                proof {
                    lemma_slot(before.entries@, i as int);
                }
                let ghost s = before@[utxo@.receiver];
                let mut j: usize = 0;
                let len = self.entries[i].1.len();
                while j < len
                    invariant
                        len == self.entries@[i as int].1@.len(),
                        *self == before,
                        i < self.entries@.len(),
                        s == view_utxos(self.entries@[i as int].1@),
                        j <= len,
                        forall|k: int| 0 <= k < j ==> s[k] != utxo@,
                    ensures
                        j <= len,
                        forall|k: int| 0 <= k < j ==> s[k] != utxo@,
                        j < len ==> s[j as int] == utxo@,
                    decreases len - j,
                {
                    if self.entries[i].1[j] == *utxo {
                        break;
                    }
                    j = j + 1;
                }
                if j == len {
                    assert(!s.contains(utxo@));
                    false
                } else {
                    assert(s[j as int] == utxo@);
                    let ghost p = first_position(s, utxo@);
                    assert(0 <= p < s.len() && s[p] == utxo@ && forall|k: int|
                        0 <= k < p ==> s[k] != utxo@) by {
                        assert(0 <= j < s.len() && s[j as int] == utxo@);
                    }
                    assert(p == j) by {
                        if p < j {
                        } else if j < p {
                            assert(s[j as int] != utxo@);
                        }
                    }
                    let mut list = clone_utxos(&self.entries[i].1);
                    list.remove(j);
                    assert(view_utxos(list@) =~= s.remove(j as int));
                    self.replace_list(i, list);
                    true
                }
            },
        }
    }
}

impl Clone for UtxoSet {
    fn clone(&self) -> (res: Self)
        ensures
            res@ == self@,
    {
        proof {
            use_type_invariant(self);
        }
        let mut entries: Vec<Entry> = Vec::new();
        let mut i: usize = 0;
        while i < self.entries.len()
            invariant
                i <= self.entries@.len(),
                distinct_keys(self.entries@),
                entries@.len() == i,
                forall|k: int|
                    0 <= k < i ==> (#[trigger] entries@[k]).0@ == self.entries@[k].0@
                        && entries@[k].1@ == self.entries@[k].1@,
            decreases self.entries@.len() - i,
        {
            let key = self.entries[i].0.clone();
            let list = clone_utxos(&self.entries[i].1);
            entries.push((key, list));
            i = i + 1;
        }
        proof {
            assert forall|p: int, q: int| 0 <= p < q < entries@.len() implies #[trigger] entries@[p].0@
                != #[trigger] entries@[q].0@ by {
                assert(self.entries@[p].0@ != self.entries@[q].0@);
            }
            let a = holdings_of(entries@);
            let b = holdings_of(self.entries@);
            assert forall|k: Seq<char>| a.contains_key(k) <==> b.contains_key(k) by {
                if has_slot(entries@, k) {
                    let j = slot_of(entries@, k);
                    assert(self.entries@[j].0@ == k);
                }
                if has_slot(self.entries@, k) {
                    let j = slot_of(self.entries@, k);
                    assert(entries@[j].0@ == k);
                }
            }
            assert forall|k: Seq<char>| a.contains_key(k) implies a[k] == b[k] by {
                let j = slot_of(entries@, k);
                lemma_slot(entries@, j);
                lemma_slot(self.entries@, j);
            }
            assert(a =~= b);
        }
        UtxoSet { entries }
    }
}

/// The outputs of `list` that differ from `u`, in order.
fn without(list: &Vec<UTXO>, u: &UTXO) -> (res: Vec<UTXO>)
    ensures
        view_utxos(res@) == view_utxos(list@).filter(differs_from(u@)),
{
    let mut res: Vec<UTXO> = Vec::new();
    let mut i: usize = 0;
    while i < list.len()
        invariant
            i <= list@.len(),
            view_utxos(res@) == view_utxos(list@.subrange(0, i as int)).filter(differs_from(u@)),
        decreases list@.len() - i,
    {
        proof {
            reveal_with_fuel(Seq::filter, 1);
            assert(view_utxos(list@.subrange(0, i + 1)).drop_last() =~= view_utxos(
                list@.subrange(0, i as int),
            ));
        }
        if !(list[i] == *u) {
            res.push(list[i].clone());
            assert(view_utxos(res@) =~= view_utxos(list@.subrange(0, i as int)).filter(differs_from(u@)).push(list@[i as int]@));
        }
        i = i + 1;
    }
    assert(list@.subrange(0, list@.len() as int) =~= list@);
    res
}

} // verus!
