//! The states of a unit (idle, moving, attacking, ...), ordered by priority:
//! the last one is the unit's current state.
//!
//! A state's priority is held as an integer that orders states as their
//! kinds' priorities do; what a state holds besides its kind is the
//! caller's type `T`.

use vstd::prelude::*;
use crate::server::{find_first, lemma_find_first, lemma_is_first_unique};

verus! {

/// A state of a unit: the priority and name of its kind, and its data.
#[derive(Debug)]
pub struct UnitState<T> {
    pub priority: i64,
    pub proto: String,
    pub data: T,
}

/// The states of a unit; it always has at least one.
#[derive(Debug)]
pub struct StateList<T> {
    pub states: Vec<UnitState<T>>,
    /// Changes with every change of the list, so that the list is sent again.
    pub x: u8,
}

/// The priorities of a list of states.
pub open spec fn priorities<T>(s: Seq<UnitState<T>>) -> Seq<i64> {
    s.map_values(|u: UnitState<T>| u.priority)
}

/// Whether `k` is a place where priority `p` fits between neighbours:
/// `pr[k] <= p < pr[k + 1]`.
pub open spec fn fits_after(pr: Seq<i64>, k: int, p: i64) -> bool {
    0 <= k && k + 1 < pr.len() && pr[k] <= p && p < pr[k + 1]
}

/// The first place from `k` on where priority `p` fits between neighbours.
pub open spec fn fit_from(pr: Seq<i64>, p: i64, k: int) -> Option<int>
    decreases pr.len() - k,
{
    if k < 0 || k + 1 >= pr.len() {
        None
    } else if pr[k] <= p && p < pr[k + 1] {
        Some(k)
    } else {
        fit_from(pr, p, k + 1)
    }
}

/// The first place where priority `p` fits between neighbours, if any.
pub open spec fn insert_after(pr: Seq<i64>, p: i64) -> Option<int> {
    fit_from(pr, p, 0)
}

/// The list after a state is added: right after the first place where its
/// priority fits between neighbours, or at the end.
pub open spec fn with_state<T>(s: Seq<UnitState<T>>, st: UnitState<T>) -> Seq<UnitState<T>> {
    match insert_after(priorities(s), st.priority) {
        Some(k) => s.insert(k + 1, st),
        None => s.push(st),
    }
}

/// Whether a state is of kind `proto`, as a predicate.
pub open spec fn kind_is<T>(proto: Seq<char>) -> spec_fn(UnitState<T>) -> bool {
    |u: UnitState<T>| u.proto@ == proto
}

/// The first state of kind `proto`, if any.
pub open spec fn state_of_kind<T>(s: Seq<UnitState<T>>, proto: Seq<char>) -> Option<int> {
    find_first(s, kind_is::<T>(proto))
}

/// The list after the first state of kind `proto` is taken out, unless it
/// is the first state (which stays).
pub open spec fn without_state<T>(s: Seq<UnitState<T>>, proto: Seq<char>) -> Seq<UnitState<T>> {
    match state_of_kind(s, proto) {
        Some(i) => if i != 0 {
            s.remove(i)
        } else {
            s
        },
        None => s,
    }
}

/// Whether priorities never decrease along the list.
pub open spec fn sorted(pr: Seq<i64>) -> bool {
    forall|a: int, b: int| 0 <= a <= b < pr.len() ==> pr[a] <= pr[b]
}

proof fn lemma_fit_from(pr: Seq<i64>, p: i64, k: int)
    requires
        0 <= k,
    ensures
        match fit_from(pr, p, k) {
            Some(m) => k <= m && fits_after(pr, m, p),
            None => forall|m: int| k <= m ==> !#[trigger] fits_after(pr, m, p),
        },
    decreases pr.len() - k,
{
    if k + 1 < pr.len() && !(pr[k] <= p && p < pr[k + 1]) {
        lemma_fit_from(pr, p, k + 1);
        assert forall|m: int| k <= m && fit_from(pr, p, k) is None implies !#[trigger] fits_after(pr, m, p) by {
            if m == k {
                assert(!fits_after(pr, k, p));
            }
        }
    }
}

impl<T> StateList<T> {
    /// The list is sound: it has a state.
    pub open spec fn wf(&self) -> bool {
        self.states@.len() >= 1
    }

    /// A list holding one state.
    pub fn new(first: UnitState<T>) -> (r: Self)
        ensures
            r.states@ == seq![first],
            r.x == 0,
            r.wf(),
    {
        let mut states = Vec::new();
        states.push(first);
        proof {
            assert(states@ =~= seq![first]);
        }
        StateList { states, x: 0 }
    }

    /// Adds a state right after the first place where its priority fits
    /// between neighbours (`before <= p < after`), or at the end.
    pub fn add_state(&mut self, state: UnitState<T>)
        requires
            old(self).wf(),
        ensures
            final(self).states@ == with_state(old(self).states@, state),
            final(self).x == if old(self).x == 255 { 0 } else { old(self).x + 1 },
            final(self).wf(),
    {
        let ghost pr = priorities(self.states@);
        let p = state.priority;
        let n = self.states.len();
        let mut k: usize = 0;
        while k + 1 < n && !(self.states[k].priority <= p && p < self.states[k + 1].priority)
            invariant
                pr == priorities(self.states@),
                self.states@ == old(self).states@,
                n == self.states@.len(),
                n >= 1,
                k + 1 <= n,
                insert_after(pr, p) == fit_from(pr, p, k as int),
            decreases n - k,
        {
            k = k + 1;
        }
        if k + 1 < n {
            self.states.insert(k + 1, state);
        } else {
            self.states.push(state);
        }
        self.x = self.x.wrapping_add(1);
    }

    /// Takes out the first state of kind `proto`, unless it is the first
    /// state of the list.
    pub fn remove_state(&mut self, proto: &String)
        requires
            old(self).wf(),
        ensures
            final(self).states@ == without_state(old(self).states@, proto@),
            final(self).x == if old(self).x == 255 { 0 } else { old(self).x + 1 },
            final(self).wf(),
    {
        let mut i: usize = 0;
        while i < self.states.len()
            invariant
                self.states@ == old(self).states@,
                self.x == old(self).x,
                i <= self.states@.len(),
                forall|j: int| 0 <= j < i ==> (#[trigger] self.states@[j]).proto@ != proto@,
            decreases self.states.len() - i,
        {
            if self.states[i].proto == *proto {
                proof {
                    lemma_is_first_unique(self.states@, kind_is::<T>(proto@), Some(i as int));
                }
                if i != 0 {
                    self.states.remove(i);
                }
                self.x = self.x.wrapping_add(1);
                return;
            }
            i = i + 1;
        }
        proof {
            lemma_is_first_unique(self.states@, kind_is::<T>(proto@), None);
        }
        self.x = self.x.wrapping_add(1);
    }

    /// The unit's current state: the last one.
    pub fn current_state(&self) -> (r: &UnitState<T>)
        requires
            self.wf(),
        ensures
            *r == self.states@.last(),
    {
        &self.states[self.states.len() - 1]
    }
}

proof fn lemma_sorted_insert(pr: Seq<i64>, k: int, p: i64)
    requires
        sorted(pr),
        fits_after(pr, k, p),
    ensures
        sorted(pr.insert(k + 1, p)),
{
    let t = pr.insert(k + 1, p);
    pr.insert_ensures(k + 1, p);
    assert forall|a: int, b: int| 0 <= a <= b < t.len() implies t[a] <= t[b] by {
        let va = if a <= k { pr[a] } else if a == k + 1 { p } else { pr[a - 1] };
        let vb = if b <= k { pr[b] } else if b == k + 1 { p } else { pr[b - 1] };
        if a > k + 1 {
            assert(t[(a - 1) + 1] == pr[a - 1]);
        }
        if b > k + 1 {
            assert(t[(b - 1) + 1] == pr[b - 1]);
        }
        assert(t[a] == va);
        assert(t[b] == vb);
        if a <= k && b > k + 1 {
            assert(pr[a] <= pr[b - 1]);
        }
        if a <= k && b == k + 1 {
            assert(pr[a] <= pr[k]);
        }
        if a == k + 1 && b > k + 1 {
            assert(pr[k + 1] <= pr[b - 1]);
        }
    }
}

proof fn lemma_sorted_push(pr: Seq<i64>, p: i64)
    requires
        sorted(pr),
        pr.len() >= 1,
        pr.last() <= p,
    ensures
        sorted(pr.push(p)),
{
    let t = pr.push(p);
    assert forall|a: int, b: int| 0 <= a <= b < t.len() implies t[a] <= t[b] by {
        if b == pr.len() && a < pr.len() {
            assert(pr[a] <= pr[pr.len() - 1]);
        }
    }
}

proof fn lemma_first_above(pr: Seq<i64>, p: i64, n: int)
    requires
        0 <= n < pr.len(),
        pr[0] <= p,
        p < pr[n],
    ensures
        exists|k: int| 0 <= k < n && #[trigger] fits_after(pr, k, p),
    decreases n,
{
    if pr[n - 1] <= p {
        assert(fits_after(pr, n - 1, p));
    } else {
        lemma_first_above(pr, p, n - 1);
    }
}

proof fn lemma_priorities_insert<T>(s: Seq<UnitState<T>>, i: int, x: UnitState<T>)
    requires
        0 <= i <= s.len(),
    ensures
        priorities(s.insert(i, x)) == priorities(s).insert(i, x.priority),
{
    s.insert_ensures(i, x);
    priorities(s).insert_ensures(i, x.priority);
    let a = priorities(s.insert(i, x));
    let b = priorities(s).insert(i, x.priority);
    assert forall|j: int| 0 <= j < a.len() implies a[j] == b[j] by {
        if j > i {
            assert(s.insert(i, x)[(j - 1) + 1] == s[j - 1]);
            assert(priorities(s).insert(i, x.priority)[(j - 1) + 1] == priorities(s)[j - 1]);
        }
    }
    assert(a =~= b);
}

proof fn lemma_priorities_remove<T>(s: Seq<UnitState<T>>, i: int)
    requires
        0 <= i < s.len(),
    ensures
        priorities(s.remove(i)) == priorities(s).remove(i),
{
    s.remove_ensures(i);
    priorities(s).remove_ensures(i);
    assert(priorities(s.remove(i)) =~= priorities(s).remove(i));
}

/// Adding a state keeps the states in order of priority, when its
/// priority is at least the first state's; the current state is then one of
/// the highest priority.
pub proof fn lemma_add_keeps_order<T>(s: Seq<UnitState<T>>, st: UnitState<T>)
    requires
        s.len() >= 1,
        sorted(priorities(s)),
        s[0].priority <= st.priority,
    ensures
        sorted(priorities(with_state(s, st))),
        forall|i: int| 0 <= i < with_state(s, st).len() ==> (#[trigger] with_state(s, st)[i]).priority <= with_state(s, st).last().priority,
{
    let pr = priorities(s);
    let p = st.priority;
    let t = with_state(s, st);
    match insert_after(pr, p) {
        Some(k) => {
            lemma_fit_from(pr, p, 0);
            assert(fits_after(pr, k, p));
            lemma_sorted_insert(pr, k, p);
            lemma_priorities_insert(s, k + 1, st);
        },
        None => {
            let n = pr.len() - 1;
            lemma_fit_from(pr, p, 0);
            if p < pr[n] {
                lemma_first_above(pr, p, n);
            }
            lemma_sorted_push(pr, p);
            assert(priorities(t) =~= pr.push(p));
        },
    }
    let tp = priorities(t);
    assert forall|i: int| 0 <= i < t.len() implies (#[trigger] t[i]).priority <= t.last().priority by {
        assert(tp[i] == t[i].priority);
        assert(tp[t.len() - 1] == t.last().priority);
        assert(tp[i] <= tp[t.len() - 1]);
    }
}

/// Taking a state out keeps the states in order of priority.
pub proof fn lemma_remove_keeps_order<T>(s: Seq<UnitState<T>>, proto: Seq<char>)
    requires
        sorted(priorities(s)),
    ensures
        sorted(priorities(without_state(s, proto))),
{
    let t = without_state(s, proto);
    if let Some(i) = state_of_kind(s, proto) {
        if i != 0 {
            let pr = priorities(s);
            lemma_find_first(s, kind_is::<T>(proto));
            assert(0 <= i < s.len());
            lemma_priorities_remove(s, i);
            pr.remove_ensures(i);
            let q = pr.remove(i);
            assert forall|a: int, b: int| 0 <= a <= b < q.len() implies q[a] <= q[b] by {
                let a2 = if a < i { a } else { a + 1 };
                let b2 = if b < i { b } else { b + 1 };
                assert(q[a] == pr[a2]);
                assert(q[b] == pr[b2]);
            }
        }
    }
}

/// Removing a kind takes out its first state unless that is the first
/// state of the list: when the first state of kind `proto` is at `i > 0`,
/// the list gets one shorter, the states before `i` stay, and those after
/// it move up by one; so removing the kind of the current (last) state,
/// when the list has another, makes the state before it current. When the
/// kind first occurs at `0`, or not at all, the list stays as it is.
pub proof fn lemma_remove_takes_the_state_out<T>(s: Seq<UnitState<T>>, proto: Seq<char>, i: int)
    requires
        0 <= i < s.len(),
        s[i].proto@ == proto,
        forall|j: int| 0 <= j < i ==> (#[trigger] s[j]).proto@ != proto,
    ensures
        i > 0 ==> without_state(s, proto).len() == s.len() - 1,
        i > 0 ==> forall|j: int| 0 <= j < i ==> #[trigger] without_state(s, proto)[j] == s[j],
        i > 0 ==> forall|j: int| i <= j < s.len() - 1 ==> #[trigger] without_state(s, proto)[j] == s[j + 1],
        i > 0 && i == s.len() - 1 ==> without_state(s, proto).last() == s[s.len() - 2],
        i == 0 ==> without_state(s, proto) == s,
{
    assert(kind_is::<T>(proto)(s[i]));
    assert forall|j: int| 0 <= j < i implies !kind_is::<T>(proto)(#[trigger] s[j]) by {}
    lemma_is_first_unique(s, kind_is::<T>(proto), Some(i));
}

/// Removing a kind that no state has leaves the list as it is.
pub proof fn lemma_remove_absent_kind<T>(s: Seq<UnitState<T>>, proto: Seq<char>)
    requires
        forall|j: int| 0 <= j < s.len() ==> (#[trigger] s[j]).proto@ != proto,
    ensures
        without_state(s, proto) == s,
{
    assert forall|j: int| 0 <= j < s.len() implies !kind_is::<T>(proto)(#[trigger] s[j]) by {}
    lemma_is_first_unique(s, kind_is::<T>(proto), None);
}

} // verus!
