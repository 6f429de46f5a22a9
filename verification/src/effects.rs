//! The effects on a unit, and the commands about units that arrive before
//! the units do.
//!
//! Effects and units are known by their 128-bit ids; what an effect or a
//! command holds besides is the caller's type `T`.

use vstd::prelude::*;
use vstd::multiset::Multiset;
use crate::invariants::{lemma_set_insert, lemma_set_remove};
use crate::server::{find_first, is_first, lemma_find_first, lemma_is_first_unique, set_insert, set_remove, eq_to};

verus! {

broadcast use {vstd::seq_lib::group_to_multiset_ensures, vstd::multiset::group_multiset_axioms};

/// Whether an entry has key `k`, as a predicate.
pub open spec fn has_key<T>(k: u128) -> spec_fn((u128, T)) -> bool {
    |e: (u128, T)| e.0 == k
}

/// What a map kept as a list of entries holds under `k`: the first entry's.
pub open spec fn lookup<T>(s: Seq<(u128, T)>, k: u128) -> Option<T> {
    match find_first(s, has_key::<T>(k)) {
        Some(i) => Some(s[i].1),
        None => None,
    }
}

/// A map kept as a list of entries, after `v` is put under `k`: the entry
/// with key `k` is replaced, or one is added at the end.
pub open spec fn put<T>(s: Seq<(u128, T)>, k: u128, v: T) -> Seq<(u128, T)> {
    match find_first(s, has_key::<T>(k)) {
        Some(i) => s.update(i, (k, v)),
        None => s.push((k, v)),
    }
}

/// A map kept as a list of entries, after the entry with key `k` is taken out.
pub open spec fn delete<T>(s: Seq<(u128, T)>, k: u128) -> Seq<(u128, T)> {
    match find_first(s, has_key::<T>(k)) {
        Some(i) => s.remove(i),
        None => s,
    }
}

/// No key occurs twice.
pub open spec fn unique_keys<T>(s: Seq<(u128, T)>) -> bool {
    forall|i: int, j: int| 0 <= i < j < s.len() ==> (#[trigger] s[i]).0 != (#[trigger] s[j]).0
}

/// The effects on a unit, and which of them are updated over time.
#[derive(Debug)]
pub struct EffectList<T> {
    pub effect_list: Vec<(u128, T)>,
    pub updatable: Vec<u128>,
}

/// Where the entry with key `k` is.
fn key_position<T>(s: &Vec<(u128, T)>, k: u128) -> (r: Option<usize>)
    ensures
        r matches Some(i) ==> i < s@.len(),
        match r {
            Some(i) => find_first(s@, has_key::<T>(k)) == Some(i as int),
            None => find_first(s@, has_key::<T>(k)) is None,
        },
{
    let mut i: usize = 0;
    while i < s.len()
        invariant
            i <= s@.len(),
            forall|j: int| 0 <= j < i ==> (#[trigger] s@[j]).0 != k,
        decreases s.len() - i,
    {
        if s[i].0 == k {
            proof {
                lemma_is_first_unique(s@, has_key::<T>(k), Some(i as int));
            }
            return Some(i);
        }
        i = i + 1;
    }
    proof {
        lemma_is_first_unique(s@, has_key::<T>(k), None);
    }
    None
}

/// Puts `x` in a set of ids kept as a list.
fn insert_key(v: &mut Vec<u128>, x: u128)
    ensures
        final(v)@ == set_insert(old(v)@, x),
{
    let mut i: usize = 0;
    while i < v.len()
        invariant
            i <= v@.len(),
            v@ == old(v)@,
            forall|j: int| 0 <= j < i ==> v@[j] != x,
        decreases v.len() - i,
    {
        if v[i] == x {
            return;
        }
        i = i + 1;
    }
    v.push(x);
}

/// Takes `x` out of a set of ids kept as a list.
fn remove_key(v: &mut Vec<u128>, x: u128)
    ensures
        final(v)@ == set_remove(old(v)@, x),
{
    let mut i: usize = 0;
    while i < v.len()
        invariant
            i <= v@.len(),
            v@ == old(v)@,
            forall|j: int| 0 <= j < i ==> v@[j] != x,
        decreases v.len() - i,
    {
        if v[i] == x {
            proof {
                lemma_is_first_unique(v@, eq_to(x), Some(i as int));
            }
            v.remove(i);
            return;
        }
        i = i + 1;
    }
    proof {
        lemma_is_first_unique(v@, eq_to(x), None);
    }
}

impl<T> EffectList<T> {
    /// The list is sound: no effect id occurs twice, no id is marked
    /// updatable twice, and each id marked updatable is that of an effect.
    pub open spec fn wf(&self) -> bool {
        &&& unique_keys(self.effect_list@)
        &&& self.updatable@.no_duplicates()
        &&& forall|k: int| 0 <= k < self.updatable@.len() ==> lookup(self.effect_list@, #[trigger] self.updatable@[k]) is Some
    }

    /// No effects.
    pub fn new() -> (r: Self)
        ensures
            r.effect_list@.len() == 0,
            r.updatable@.len() == 0,
            r.wf(),
    {
        EffectList { effect_list: Vec::new(), updatable: Vec::new() }
    }

    /// Adds an effect under its id (replacing one with the same id); an
    /// effect whose kind is updated over time is marked so.
    pub fn add_effect(&mut self, updated: bool, id: u128, effect: T)
        requires
            old(self).wf(),
        ensures
            final(self).wf(),
            final(self).effect_list@ == put(old(self).effect_list@, id, effect),
            final(self).updatable@ == if updated {
                set_insert(old(self).updatable@, id)
            } else {
                old(self).updatable@
            },
    {
        if updated {
            insert_key(&mut self.updatable, id);
        }
        let ghost s0 = old(self).effect_list@;
        let ghost u0 = old(self).updatable@;
        match key_position(&self.effect_list, id) {
            Some(i) => {
                self.effect_list.set(i, (id, effect));
            },
            None => {
                self.effect_list.push((id, effect));
            },
        }
        proof {
            lemma_put_then_lookup(s0, id, effect, id);
            if updated {
                lemma_set_insert(u0, id);
            }
            assert forall|k: int| 0 <= k < self.updatable@.len() implies lookup(self.effect_list@, #[trigger] self.updatable@[k]) is Some by {
                let y = self.updatable@[k];
                lemma_put_then_lookup(s0, id, effect, y);
                if y != id {
                    if k < u0.len() {
                        assert(u0[k] == y);
                    }
                }
            }
        }
    }

    /// Removes the effect with this id.
    pub fn remove_effect(&mut self, id: u128)
        requires
            old(self).wf(),
        ensures
            final(self).wf(),
            final(self).effect_list@ == delete(old(self).effect_list@, id),
            final(self).updatable@ == set_remove(old(self).updatable@, id),
    {
        match key_position(&self.effect_list, id) {
            Some(i) => {
                self.effect_list.remove(i);
            },
            None => {},
        }
        remove_key(&mut self.updatable, id);
        proof {
            let s0 = old(self).effect_list@;
            let u0 = old(self).updatable@;
            lemma_delete_then_lookup(s0, id, id);
            lemma_set_remove(u0, id);
            lemma_find_first(u0, eq_to(id));
            assert forall|k: int| 0 <= k < self.updatable@.len() implies lookup(self.effect_list@, #[trigger] self.updatable@[k]) is Some by {
                let y = self.updatable@[k];
                lemma_delete_then_lookup(s0, id, y);
                assert(y != id);
                match find_first(u0, eq_to(id)) {
                    Some(i0) => {
                        let k2 = if k < i0 { k } else { k + 1 };
                        assert(u0[k2] == y);
                    },
                    None => {
                        assert(u0[k] == y);
                    },
                }
            }
        }
    }

    /// Where the effect with this id is kept, if there is one.
    pub fn position(&self, id: u128) -> (r: Option<usize>)
        ensures
            r matches Some(i) ==> i < self.effect_list@.len() && self.effect_list@[i as int].0 == id
                && lookup(self.effect_list@, id) == Some(self.effect_list@[i as int].1),
            r is None <==> lookup(self.effect_list@, id) is None,
    {
        proof {
            lemma_find_first(self.effect_list@, has_key::<T>(id));
        }
        key_position(&self.effect_list, id)
    }
}

/// A put is read back: after `v` is put under `k`, `k` holds `v`, and every
/// other key holds what it held.
pub proof fn lemma_put_then_lookup<T>(s: Seq<(u128, T)>, k: u128, v: T, other: u128)
    ensures
        lookup(put(s, k, v), k) == Some(v),
        other != k ==> lookup(put(s, k, v), other) == lookup(s, other),
        unique_keys(s) ==> unique_keys(put(s, k, v)),
{
    let t = put(s, k, v);
    lemma_find_first(s, has_key::<T>(k));
    lemma_find_first(s, has_key::<T>(other));
    lemma_find_first(t, has_key::<T>(k));
    lemma_find_first(t, has_key::<T>(other));
    match find_first(s, has_key::<T>(k)) {
        Some(i) => {
            assert(t[i] == (k, v));
            assert(is_first(t, has_key::<T>(k), Some(i))) by {
                assert forall|j: int| 0 <= j < i implies !(has_key::<T>(k))(#[trigger] t[j]) by {
                    assert(t[j] == s[j]);
                }
            }
            lemma_is_first_unique(t, has_key::<T>(k), Some(i));
            if other != k {
                match find_first(s, has_key::<T>(other)) {
                    Some(m) => {
                        assert(is_first(t, has_key::<T>(other), Some(m))) by {
                            assert forall|j: int| 0 <= j < m implies !(has_key::<T>(other))(#[trigger] t[j]) by {
                                if j != i {
                                    assert(t[j] == s[j]);
                                }
                            }
                            assert(m != i);
                            assert(t[m] == s[m]);
                        }
                        lemma_is_first_unique(t, has_key::<T>(other), Some(m));
                    },
                    None => {
                        assert(is_first(t, has_key::<T>(other), None)) by {
                            assert forall|j: int| 0 <= j < t.len() implies !(has_key::<T>(other))(#[trigger] t[j]) by {
                                if j != i {
                                    assert(t[j] == s[j]);
                                }
                            }
                        }
                        lemma_is_first_unique(t, has_key::<T>(other), None);
                    },
                }
            }
            if unique_keys(s) {
                assert forall|a: int, b: int| 0 <= a < b < t.len() implies (#[trigger] t[a]).0 != (#[trigger] t[b]).0 by {
                    if a != i {
                        assert(t[a] == s[a]);
                    }
                    if b != i {
                        assert(t[b] == s[b]);
                    }
                    assert(s[a].0 != s[b].0);
                }
            }
        },
        None => {
            let n = s.len() as int;
            assert(t[n] == (k, v));
            assert(is_first(t, has_key::<T>(k), Some(n))) by {
                assert forall|j: int| 0 <= j < n implies !(has_key::<T>(k))(#[trigger] t[j]) by {
                    assert(t[j] == s[j]);
                }
            }
            lemma_is_first_unique(t, has_key::<T>(k), Some(n));
            if other != k {
                match find_first(s, has_key::<T>(other)) {
                    Some(m) => {
                        assert(is_first(t, has_key::<T>(other), Some(m))) by {
                            assert forall|j: int| 0 <= j < m implies !(has_key::<T>(other))(#[trigger] t[j]) by {
                                assert(t[j] == s[j]);
                            }
                            assert(t[m] == s[m]);
                        }
                        lemma_is_first_unique(t, has_key::<T>(other), Some(m));
                    },
                    None => {
                        assert(is_first(t, has_key::<T>(other), None)) by {
                            assert forall|j: int| 0 <= j < t.len() implies !(has_key::<T>(other))(#[trigger] t[j]) by {
                                if j < n {
                                    assert(t[j] == s[j]);
                                }
                            }
                        }
                        lemma_is_first_unique(t, has_key::<T>(other), None);
                    },
                }
            }
            if unique_keys(s) {
                assert forall|a: int, b: int| 0 <= a < b < t.len() implies (#[trigger] t[a]).0 != (#[trigger] t[b]).0 by {
                    assert(t[a] == s[a]);
                    if b < n {
                        assert(t[b] == s[b]);
                    } else {
                        assert(!(has_key::<T>(k))(s[a]));
                    }
                }
            }
        },
    }
}

/// A delete is read back: when no key occurs twice, after `k` is taken out
/// it holds nothing, and every other key holds what it held.
pub proof fn lemma_delete_then_lookup<T>(s: Seq<(u128, T)>, k: u128, other: u128)
    requires
        unique_keys(s),
    ensures
        lookup(delete(s, k), k) is None,
        other != k ==> lookup(delete(s, k), other) == lookup(s, other),
        unique_keys(delete(s, k)),
{
    let t = delete(s, k);
    lemma_find_first(s, has_key::<T>(k));
    lemma_find_first(s, has_key::<T>(other));
    match find_first(s, has_key::<T>(k)) {
        Some(i) => {
            assert forall|j: int| 0 <= j < t.len() implies t[j] == (if j < i { s[j] } else { s[j + 1] }) by {}
            assert(is_first(t, has_key::<T>(k), None)) by {
                assert forall|j: int| 0 <= j < t.len() implies !(has_key::<T>(k))(#[trigger] t[j]) by {
                    if j >= i {
                        assert(s[i].0 != s[j + 1].0);
                    }
                }
            }
            lemma_is_first_unique(t, has_key::<T>(k), None);
            if other != k {
                match find_first(s, has_key::<T>(other)) {
                    Some(m) => {
                        assert(m != i);
                        let m2 = if m < i { m } else { m - 1 };
                        assert(t[m2] == s[m]);
                        assert(is_first(t, has_key::<T>(other), Some(m2))) by {
                            assert forall|j: int| 0 <= j < m2 implies !(has_key::<T>(other))(#[trigger] t[j]) by {
                                if j < i {
                                    assert(t[j] == s[j]);
                                } else {
                                    assert(t[j] == s[j + 1]);
                                }
                            }
                        }
                        lemma_is_first_unique(t, has_key::<T>(other), Some(m2));
                    },
                    None => {
                        assert(is_first(t, has_key::<T>(other), None)) by {
                            assert forall|j: int| 0 <= j < t.len() implies !(has_key::<T>(other))(#[trigger] t[j]) by {
                                if j < i {
                                    assert(t[j] == s[j]);
                                } else {
                                    assert(t[j] == s[j + 1]);
                                }
                            }
                        }
                        lemma_is_first_unique(t, has_key::<T>(other), None);
                    },
                }
            }
            assert forall|a: int, b: int| 0 <= a < b < t.len() implies (#[trigger] t[a]).0 != (#[trigger] t[b]).0 by {
                let a2 = if a < i { a } else { a + 1 };
                let b2 = if b < i { b } else { b + 1 };
                assert(t[a] == s[a2]);
                assert(t[b] == s[b2]);
                assert(s[a2].0 != s[b2].0);
            }
        },
        None => {
            lemma_is_first_unique(t, has_key::<T>(k), None);
        },
    }
}

// ------------------------------------------------------------------------
// Deferred commands

/// Commands about units, kept until their unit exists.
#[derive(Debug)]
pub struct DeferredCommands<T> {
    /// The unit of each command, and the command.
    pub queue: Vec<(u128, T)>,
}

/// Whether a command's unit is among `present`, as a predicate.
pub open spec fn unit_present<T>(present: Seq<u128>) -> spec_fn((u128, T)) -> bool {
    |c: (u128, T)| present.contains(c.0)
}

/// Whether a command's unit is not among `present`, as a predicate.
pub open spec fn unit_absent<T>(present: Seq<u128>) -> spec_fn((u128, T)) -> bool {
    |c: (u128, T)| !present.contains(c.0)
}

/// The list after `swap_remove(i)`: the last element takes the place of the
/// `i`-th, and the list is one shorter.
pub open spec fn swap_removed<T>(s: Seq<T>, i: int) -> Seq<T> {
    s.update(i, s.last()).drop_last()
}

/// The list after `swap_remove` at `idx[k]`, `idx[k + 1]`, ... in reverse
/// order (the last index first).
pub open spec fn removed_from<T>(s: Seq<T>, idx: Seq<int>, k: int) -> Seq<T>
    decreases idx.len() - k,
{
    if k >= idx.len() || k < 0 {
        s
    } else {
        swap_removed(removed_from(s, idx, k + 1), idx[k])
    }
}

/// The positions of the commands whose unit is among `present`, in order.
pub open spec fn ready_positions<T>(q: Seq<(u128, T)>, present: Seq<u128>, n: int) -> Seq<int>
    decreases n,
{
    if n <= 0 {
        Seq::empty()
    } else {
        ready_positions(q, present, n - 1) + if present.contains(q[n - 1].0) {
            seq![n - 1]
        } else {
            Seq::empty()
        }
    }
}

/// The queue after the commands whose unit is among `present` were taken
/// out: `swap_remove` at each of their positions, the last one first.
pub open spec fn left_over<T>(q: Seq<(u128, T)>, present: Seq<u128>) -> Seq<(u128, T)> {
    removed_from(q, ready_positions(q, present, q.len() as int), 0)
}

/// Positions that increase, and that leave room for themselves in a list of
/// length `n`: the `m`-th is at most `n - len + m`.
pub open spec fn spread(idx: Seq<int>, n: int) -> bool {
    &&& forall|a: int, b: int| 0 <= a < b < idx.len() ==> idx[a] < idx[b]
    &&& forall|m: int| 0 <= m < idx.len() ==> 0 <= #[trigger] idx[m] && idx[m] - m <= n - idx.len()
}

proof fn lemma_ready_positions<T>(q: Seq<(u128, T)>, present: Seq<u128>, n: int)
    requires
        0 <= n <= q.len(),
    ensures
        spread(ready_positions(q, present, n), n),
        ready_positions(q, present, n).map_values(|i: int| q[i]) == q.take(n).filter(unit_present::<T>(present)),
        forall|m: int| 0 <= m < ready_positions(q, present, n).len() ==> #[trigger] ready_positions(q, present, n)[m] < n,
    decreases n,
{
    if n > 0 {
        lemma_ready_positions(q, present, n - 1);
        let p = ready_positions(q, present, n - 1);
        let r = ready_positions(q, present, n);
        assert(q.take(n) =~= q.take(n - 1).push(q[n - 1]));
        q.take(n - 1).lemma_filter_push(q[n - 1], unit_present::<T>(present));
        if present.contains(q[n - 1].0) {
            assert(r =~= p.push(n - 1));
            assert(r.map_values(|i: int| q[i]) =~= p.map_values(|i: int| q[i]).push(q[n - 1]));
        } else {
            assert(r =~= p);
        }
    }
}

proof fn lemma_removed_from<T>(s: Seq<T>, idx: Seq<int>, k: int)
    requires
        spread(idx, s.len() as int),
        0 <= k <= idx.len(),
    ensures
        removed_from(s, idx, k).len() == s.len() - (idx.len() - k),
        forall|j: int| 0 <= j < (if k < idx.len() { idx[k] } else { s.len() as int }) ==> #[trigger] removed_from(s, idx, k)[j] == s[j],
        removed_from(s, idx, k).to_multiset() == s.to_multiset().sub(idx.subrange(k, idx.len() as int).map_values(|i: int| s[i]).to_multiset()),
    decreases idx.len() - k,
{
    if k < idx.len() {
        lemma_removed_from(s, idx, k + 1);
        let prev = removed_from(s, idx, k + 1);
        let i = idx[k];
        assert(i - k <= s.len() - idx.len());
        assert(i < prev.len());
        if k + 1 < idx.len() {
            assert(i < idx[k + 1]);
        }
        assert(prev[i] == s[i]);
        let cur = swap_removed(prev, i);
        assert forall|j: int| 0 <= j < i implies #[trigger] cur[j] == s[j] by {
            assert(cur[j] == prev[j]);
        }
        // the multiset loses exactly the element at `i`
        assert(cur.to_multiset() =~= prev.to_multiset().remove(prev[i])) by {
            lemma_swap_removed_multiset(prev, i);
        }
        let tail = idx.subrange(k + 1, idx.len() as int).map_values(|x: int| s[x]);
        let whole = idx.subrange(k, idx.len() as int).map_values(|x: int| s[x]);
        assert(whole =~= seq![s[i]] + tail);
        vstd::seq_lib::lemma_multiset_commutative(seq![s[i]], tail);
        assert(seq![s[i]].to_multiset() =~= Multiset::singleton(s[i])) by {
            assert(seq![s[i]] =~= Seq::<T>::empty().push(s[i]));
        }
        assert(cur.to_multiset() =~= s.to_multiset().sub(whole.to_multiset()));
    } else {
        assert(idx.subrange(k, idx.len() as int).map_values(|i: int| s[i]) =~= Seq::<T>::empty());
        assert(s.to_multiset().sub(Seq::<T>::empty().to_multiset()) =~= s.to_multiset());
    }
}

proof fn lemma_swap_removed_multiset<T>(s: Seq<T>, i: int)
    requires
        0 <= i < s.len(),
    ensures
        swap_removed(s, i).to_multiset() == s.to_multiset().remove(s[i]),
{
    let last = s.last();
    let u = s.update(i, last);
    assert(u.to_multiset() == s.to_multiset().insert(last).remove(s[i]));
    let d = u.drop_last();
    assert(u =~= d.push(last));
    assert(u.to_multiset() == d.to_multiset().insert(last));
    assert(s.contains(s[i]));
    assert(s.to_multiset().count(s[i]) > 0);
    assert forall|x: T| #[trigger] d.to_multiset().count(x) == s.to_multiset().remove(s[i]).count(x) by {
        assert(u.to_multiset().count(x) == d.to_multiset().insert(last).count(x));
        assert(u.to_multiset().count(x) == s.to_multiset().insert(last).remove(s[i]).count(x));
    }
    assert(d.to_multiset() =~= s.to_multiset().remove(s[i]));
}

/// Filtering a list by a predicate and by its negation splits its elements.
pub proof fn lemma_filter_split<A>(s: Seq<A>, f: spec_fn(A) -> bool, g: spec_fn(A) -> bool)
    requires
        forall|x: A| #[trigger] g(x) == !f(x),
    ensures
        s.to_multiset() == s.filter(f).to_multiset().add(s.filter(g).to_multiset()),
    decreases s.len(),
{
    if s.len() > 0 {
        let u = s.drop_last();
        let x = s.last();
        lemma_filter_split(u, f, g);
        assert(s =~= u.push(x));
        u.lemma_filter_push(x, f);
        u.lemma_filter_push(x, g);
    } else {
        assert(s.filter(f) =~= Seq::<A>::empty());
        assert(s.filter(g) =~= Seq::<A>::empty());
    }
}

impl<T> DeferredCommands<T> {
    /// No commands.
    pub fn new() -> (r: Self)
        ensures
            r.queue@.len() == 0,
    {
        DeferredCommands { queue: Vec::new() }
    }

    /// Keeps a command about a unit that does not exist yet.
    pub fn defer(&mut self, unit: u128, command: T)
        ensures
            final(self).queue@ == old(self).queue@.push((unit, command)),
    {
        self.queue.push((unit, command));
    }

    /// Takes out the commands whose unit is among `present` and returns them
    /// in the order in which they came. They are taken out with
    /// `swap_remove`, the last one first, so the other commands may change
    /// places.
    pub fn take_ready(&mut self, present: &Vec<u128>) -> (ready: Vec<(u128, T)>)
        ensures
            ready@ == old(self).queue@.filter(unit_present::<T>(present@)),
            final(self).queue@ == left_over(old(self).queue@, present@),
    {
        let ghost q = self.queue@;
        let ghost pr = unit_present::<T>(present@);
        let mut idx: Vec<usize> = Vec::new();
        let mut i: usize = 0;
        while i < self.queue.len()
            invariant
                self.queue@ == q,
                i <= q.len(),
                idx@.map_values(|x: usize| x as int) == ready_positions(q, present@, i as int),
            decreases self.queue.len() - i,
        {
            let ghost before = idx@;
            if contains_unit(present, self.queue[i].0) {
                idx.push(i);
                proof {
                    assert(idx@.map_values(|x: usize| x as int) =~= before.map_values(|x: usize| x as int).push(i as int));
                }
            }
            i = i + 1;
        }
        let ghost pos = ready_positions(q, present@, q.len() as int);
        proof {
            lemma_ready_positions(q, present@, q.len() as int);
            assert(q.take(q.len() as int) =~= q);
        }
        let mut out: Vec<(u128, T)> = Vec::new();
        let mut k = idx.len();
        while k > 0
            invariant
                idx@.map_values(|x: usize| x as int) == pos,
                spread(pos, q.len() as int),
                pos.map_values(|x: int| q[x]) == q.filter(pr),
                k <= idx@.len(),
                self.queue@ == removed_from(q, pos, k as int),
                out@ == pos.subrange(k as int, pos.len() as int).map_values(|x: int| q[x]),
            decreases k,
        {
            proof {
                lemma_removed_from(q, pos, k as int);
                assert(pos[k - 1] == idx@[k - 1] as int);
                assert(pos[k - 1] - (k - 1) <= q.len() - pos.len());
                if (k as int) < pos.len() {
                    assert(pos[k - 1] < pos[k as int]);
                }
            }
            let at = idx[k - 1];
            let ghost prev = self.queue@;
            let item = self.queue.swap_remove(at);
            proof {
                assert(item == q[at as int]);
                assert(self.queue@ =~= swap_removed(prev, at as int));
            }
            out.insert(0, item);
            k = k - 1;
            proof {
                assert(out@ =~= pos.subrange(k as int, pos.len() as int).map_values(|x: int| q[x]));
            }
        }
        proof {
            assert(pos.subrange(0, pos.len() as int) =~= pos);
        }
        out
    }
}

/// Whether a list of unit ids holds `u`.
fn contains_unit(v: &Vec<u128>, u: u128) -> (r: bool)
    ensures
        r == v@.contains(u),
{
    let mut i: usize = 0;
    while i < v.len()
        invariant
            i <= v@.len(),
            forall|j: int| 0 <= j < i ==> v@[j] != u,
        decreases v.len() - i,
    {
        if v[i] == u {
            return true;
        }
        i = i + 1;
    }
    false
}

/// Taking out the ready commands loses none and keeps none twice: what is
/// left is, as a multiset, exactly the commands whose unit is not present.
pub proof fn lemma_left_over_keeps_the_rest<T>(q: Seq<(u128, T)>, present: Seq<u128>)
    ensures
        left_over(q, present).to_multiset() == q.filter(unit_absent::<T>(present)).to_multiset(),
        left_over(q, present).len() == q.filter(unit_absent::<T>(present)).len(),
{
    let pos = ready_positions(q, present, q.len() as int);
    lemma_ready_positions(q, present, q.len() as int);
    assert(q.take(q.len() as int) =~= q);
    lemma_removed_from(q, pos, 0);
    assert(pos.subrange(0, pos.len() as int) =~= pos);
    let f = unit_present::<T>(present);
    let g = unit_absent::<T>(present);
    assert forall|x: (u128, T)| #[trigger] g(x) == !f(x) by {}
    lemma_filter_split(q, f, g);
    assert(q.to_multiset().sub(q.filter(f).to_multiset()) =~= q.filter(g).to_multiset());
    assert(left_over(q, present).to_multiset().len() == left_over(q, present).len());
    assert(q.filter(g).to_multiset().len() == q.filter(g).len());
}

} // verus!
