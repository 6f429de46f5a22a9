//! Running the registration scripts of a game while it loads.
//!
//! Scripts run as coroutines. A script may yield to wait for another script
//! to have run (which is then loaded and run first), or to register an asset
//! that the game has to load. This module decides which script runs next and
//! what each yield does; running a script's coroutine is the caller's part.
//! Scripts and assets are known by integer ids.

use vstd::prelude::*;
use vstd::multiset::Multiset;
use crate::server::{eq_to, find_first, lemma_find_first, lemma_is_first_unique, set_insert, set_remove};

verus! {

broadcast use {vstd::seq_lib::group_to_multiset_ensures, vstd::multiset::group_multiset_axioms, vstd::multiset::lemma_multiset_empty_len};

/// A script that has started: its id, and the scripts that have to have run
/// before it goes on.
#[derive(Debug)]
pub struct ScriptTask {
    pub script: u64,
    pub dependencies: Vec<u64>,
}

/// A started script, with its dependencies as a sequence.
#[verifier::ext_equal]
pub struct TaskView {
    pub script: u64,
    pub deps: Seq<u64>,
}

impl View for ScriptTask {
    type V = TaskView;

    open spec fn view(&self) -> TaskView {
        TaskView { script: self.script, deps: self.dependencies@ }
    }
}

/// What a script's coroutine did when it was resumed.
#[derive(Debug, Clone, Copy, PartialEq, Eq, Structural)]
pub enum Resumed {
    /// The script ran to its end.
    Finished,
    /// The script failed.
    Failed,
    /// The script waits until another script has run.
    AfterScript(u64),
    /// The script registers an asset to load, and goes on.
    RegisterAsset(u64),
    /// The script yielded and goes on.
    Immediately,
    /// The script yielded something that is not a condition; it goes on.
    Unknown,
}

/// The scheduler of the registration scripts.
#[derive(Debug)]
pub struct ScriptRunner {
    /// Scripts that are yet to be loaded.
    pub waiting_for_load: Vec<u64>,
    /// Scripts that have started and not yet finished.
    pub started: Vec<u64>,
    /// Scripts that have run to their end.
    pub loaded_and_executed: Vec<u64>,
    /// Started scripts that wait for other scripts.
    pub waiting_for_others: Vec<ScriptTask>,
    /// Started scripts that can go on; the first one runs.
    pub currently_running: Vec<ScriptTask>,
}

/// The scheduler, with its lists as sequences.
#[verifier::ext_equal]
pub struct RunnerView {
    pub to_load: Seq<u64>,
    pub started: Seq<u64>,
    pub done: Seq<u64>,
    pub waiting: Seq<TaskView>,
    pub running: Seq<TaskView>,
}

/// The tasks of a list, as views.
pub open spec fn tasks_view(v: Seq<ScriptTask>) -> Seq<TaskView> {
    v.map_values(|t: ScriptTask| t@)
}

impl View for ScriptRunner {
    type V = RunnerView;

    open spec fn view(&self) -> RunnerView {
        RunnerView {
            to_load: self.waiting_for_load@,
            started: self.started@,
            done: self.loaded_and_executed@,
            waiting: tasks_view(self.waiting_for_others@),
            running: tasks_view(self.currently_running@),
        }
    }
}

/// The assets that the scripts have registered.
#[derive(Debug)]
pub struct AssetHolder {
    pub total_asset_count: usize,
    pub waiting_assets: Vec<u64>,
    pub done_assets: Vec<u64>,
}

/// Whether a task's dependencies have all run.
pub open spec fn ready(t: TaskView, done: Seq<u64>) -> bool {
    forall|k: int| 0 <= k < t.deps.len() ==> done.contains(#[trigger] t.deps[k])
}

/// A set kept as a sequence, after each of `xs` is put in, in order.
pub open spec fn insert_all(set: Seq<u64>, xs: Seq<u64>) -> Seq<u64>
    decreases xs.len(),
{
    if xs.len() == 0 {
        set
    } else {
        set_insert(insert_all(set, xs.drop_last()), xs.last())
    }
}

/// A task for a script that has just started.
pub open spec fn new_task(s: u64) -> TaskView {
    TaskView { script: s, deps: Seq::empty() }
}

/// A scan: the scripts that are waiting and now loaded start (in the order
/// in which they wait); then the tasks whose dependencies have all run go
/// on (in the order in which they wait).
pub open spec fn rescanned(r: RunnerView, loaded: Seq<u64>) -> RunnerView {
    let admitted = r.to_load.filter(|s: u64| loaded.contains(s));
    RunnerView {
        to_load: r.to_load.filter(|s: u64| !loaded.contains(s)),
        started: insert_all(r.started, admitted),
        done: r.done,
        waiting: r.waiting.filter(|t: TaskView| !ready(t, r.done)),
        running: r.running + admitted.map_values(|s: u64| new_task(s)) + r.waiting.filter(|t: TaskView| ready(t, r.done)),
    }
}

/// What a resumption of the first running task does to the scheduler.
pub open spec fn resumed(r: RunnerView, res: Resumed) -> RunnerView {
    let f = r.running[0];
    match res {
        Resumed::Finished => RunnerView {
            running: r.running.drop_first(),
            started: set_remove(r.started, f.script),
            done: set_insert(r.done, f.script),
            ..r
        },
        Resumed::Failed => RunnerView {
            running: r.running.drop_first(),
            started: set_remove(r.started, f.script),
            ..r
        },
        Resumed::AfterScript(h) => if r.done.contains(h) {
            r
        } else {
            RunnerView {
                to_load: if r.started.contains(h) {
                    r.to_load
                } else {
                    set_insert(r.to_load, h)
                },
                running: r.running.drop_first(),
                waiting: r.waiting.push(TaskView { script: f.script, deps: f.deps.push(h) }),
                ..r
            }
        },
        _ => r,
    }
}

/// Whether all scripts have run: none is waiting to load, none has started
/// and not finished.
pub open spec fn complete(r: RunnerView) -> bool {
    r.to_load.len() == 0 && r.started.len() == 0
}

// ------------------------------------------------------------------------
// What the scheduler keeps

/// The scripts of a list of tasks, as a multiset.
pub open spec fn ids(ts: Seq<TaskView>) -> Multiset<u64>
    decreases ts.len(),
{
    if ts.len() == 0 {
        Multiset::empty()
    } else {
        ids(ts.drop_last()).insert(ts.last().script)
    }
}

/// The scheduler is sound: each started script has exactly one task,
/// running or waiting; no script waits to load once it has started; and no
/// list holds a script twice.
pub open spec fn runner_ok(r: RunnerView) -> bool {
    &&& r.started.no_duplicates()
    &&& r.to_load.no_duplicates()
    &&& ids(r.running + r.waiting) == r.started.to_multiset()
    &&& forall|x: u64| r.to_load.contains(x) ==> !r.started.contains(x)
}

proof fn lemma_ids_concat(a: Seq<TaskView>, b: Seq<TaskView>)
    ensures
        ids(a + b) == ids(a).add(ids(b)),
    decreases b.len(),
{
    if b.len() == 0 {
        assert(a + b =~= a);
    } else {
        lemma_ids_concat(a, b.drop_last());
        assert((a + b).drop_last() =~= a + b.drop_last());
    }
}

proof fn lemma_ids_len(a: Seq<TaskView>)
    ensures
        ids(a).len() == a.len(),
    decreases a.len(),
{
    if a.len() > 0 {
        lemma_ids_len(a.drop_last());
    }
}

proof fn lemma_ids_split(s: Seq<TaskView>, f: spec_fn(TaskView) -> bool, g: spec_fn(TaskView) -> bool)
    requires
        forall|t: TaskView| #[trigger] g(t) == !f(t),
    ensures
        ids(s) == ids(s.filter(f)).add(ids(s.filter(g))),
    decreases s.len(),
{
    if s.len() > 0 {
        let u = s.drop_last();
        let x = s.last();
        lemma_ids_split(u, f, g);
        assert(s =~= u.push(x));
        u.lemma_filter_push(x, f);
        u.lemma_filter_push(x, g);
        if f(x) {
            assert(u.filter(f).push(x).drop_last() =~= u.filter(f));
        } else {
            assert(u.filter(g).push(x).drop_last() =~= u.filter(g));
        }
    } else {
        assert(s.filter(f) =~= Seq::<TaskView>::empty());
        assert(s.filter(g) =~= Seq::<TaskView>::empty());
    }
}

proof fn lemma_ids_new_tasks(xs: Seq<u64>)
    ensures
        ids(xs.map_values(|s: u64| new_task(s))) == xs.to_multiset(),
    decreases xs.len(),
{
    if xs.len() > 0 {
        lemma_ids_new_tasks(xs.drop_last());
        assert(xs.map_values(|s: u64| new_task(s)).drop_last() =~= xs.drop_last().map_values(|s: u64| new_task(s)));
        assert(xs =~= xs.drop_last().push(xs.last()));
    } else {
        assert(xs.to_multiset() =~= Multiset::empty());
    }
}

proof fn lemma_insert_all(s: Seq<u64>, xs: Seq<u64>)
    requires
        s.no_duplicates(),
        xs.no_duplicates(),
        forall|x: u64| xs.contains(x) ==> !s.contains(x),
    ensures
        insert_all(s, xs) == s + xs,
    decreases xs.len(),
{
    if xs.len() > 0 {
        let u = xs.drop_last();
        assert forall|x: u64| u.contains(x) implies !s.contains(x) by {
            let k = choose|k: int| 0 <= k < u.len() && u[k] == x;
            assert(xs[k] == x);
        }
        lemma_insert_all(s, u);
        assert(xs[xs.len() - 1] == xs.last());
        if (s + u).contains(xs.last()) {
            let k = choose|k: int| 0 <= k < (s + u).len() && (s + u)[k] == xs.last();
            if k < s.len() {
                assert(s[k] == xs.last());
                assert(xs.contains(xs.last()));
            } else {
                assert(xs[k - s.len()] == xs.last());
            }
        }
        assert((s + u).push(xs.last()) =~= s + xs);
    }
}

proof fn lemma_filter_no_dup(s: Seq<u64>, f: spec_fn(u64) -> bool, g: spec_fn(u64) -> bool)
    requires
        s.no_duplicates(),
        forall|x: u64| #[trigger] g(x) == !f(x),
    ensures
        s.filter(f).no_duplicates(),
        s.filter(g).no_duplicates(),
{
    crate::effects::lemma_filter_split(s, f, g);
    s.lemma_multiset_has_no_duplicates();
    assert forall|x: u64| s.filter(f).to_multiset().contains(x) implies s.filter(f).to_multiset().count(x) == 1 by {
        assert(s.to_multiset().count(x) >= s.filter(f).to_multiset().count(x));
    }
    assert forall|x: u64| s.filter(g).to_multiset().contains(x) implies s.filter(g).to_multiset().count(x) == 1 by {
        assert(s.to_multiset().count(x) >= s.filter(g).to_multiset().count(x));
    }
    s.filter(f).lemma_multiset_has_no_duplicates_conv();
    s.filter(g).lemma_multiset_has_no_duplicates_conv();
}

proof fn lemma_in_filter(s: Seq<u64>, p: spec_fn(u64) -> bool, x: u64)
    requires
        s.filter(p).contains(x),
    ensures
        s.contains(x),
        p(x),
{
    s.lemma_filter_contains_rev(p, x);
    let k = choose|k: int| 0 <= k < s.filter(p).len() && s.filter(p)[k] == x;
    s.lemma_filter_pred(p, k);
}

/// A new scheduler, waiting for distinct scripts to load, is sound.
pub proof fn lemma_new_runner_ok(scripts: Seq<u64>)
    requires
        scripts.no_duplicates(),
    ensures
        runner_ok(RunnerView {
            to_load: scripts,
            started: Seq::empty(),
            done: Seq::empty(),
            waiting: Seq::empty(),
            running: Seq::empty(),
        }),
{
    assert(Seq::<TaskView>::empty() + Seq::<TaskView>::empty() =~= Seq::<TaskView>::empty());
    assert(Seq::<u64>::empty().to_multiset() =~= Multiset::empty());
}

/// A scan keeps the scheduler sound.
pub proof fn lemma_rescan_keeps_ok(r: RunnerView, loaded: Seq<u64>)
    requires
        runner_ok(r),
    ensures
        runner_ok(rescanned(r, loaded)),
{
    let pin = |s: u64| loaded.contains(s);
    let pout = |s: u64| !loaded.contains(s);
    let a = r.to_load.filter(pin);
    let rest = r.to_load.filter(pout);
    assert forall|x: u64| #[trigger] pout(x) == !pin(x) by {}
    lemma_filter_no_dup(r.to_load, pin, pout);
    assert forall|x: u64| a.contains(x) implies r.to_load.contains(x) && loaded.contains(x) by {
        lemma_in_filter(r.to_load, pin, x);
    }
    assert forall|x: u64| rest.contains(x) implies r.to_load.contains(x) && !loaded.contains(x) by {
        lemma_in_filter(r.to_load, pout, x);
    }
    lemma_insert_all(r.started, a);
    let started2 = r.started + a;
    vstd::seq_lib::lemma_no_dup_in_concat(r.started, a);
    let rd = |t: TaskView| ready(t, r.done);
    let nrd = |t: TaskView| !ready(t, r.done);
    assert forall|t: TaskView| #[trigger] nrd(t) == !rd(t) by {}
    lemma_ids_split(r.waiting, rd, nrd);
    let na = a.map_values(|s: u64| new_task(s));
    lemma_ids_new_tasks(a);
    let r2 = rescanned(r, loaded);
    lemma_ids_concat(r.running, r.waiting);
    lemma_ids_concat(r.running + na + r.waiting.filter(rd), r.waiting.filter(nrd));
    lemma_ids_concat(r.running + na, r.waiting.filter(rd));
    lemma_ids_concat(r.running, na);
    vstd::seq_lib::lemma_multiset_commutative(r.started, a);
    assert(ids(r2.running + r2.waiting) =~= r2.started.to_multiset());
    assert forall|x: u64| r2.to_load.contains(x) implies !r2.started.contains(x) by {
        if started2.contains(x) {
            let k = choose|k: int| 0 <= k < started2.len() && started2[k] == x;
            if k < r.started.len() {
                assert(r.started[k] == x);
            } else {
                assert(a[k - r.started.len()] == x);
            }
        }
    }
}

/// Whatever the first running task did when it was resumed, the scheduler
/// stays sound.
pub proof fn lemma_resume_keeps_ok(r: RunnerView, res: Resumed)
    requires
        runner_ok(r),
        r.running.len() > 0,
    ensures
        runner_ok(resumed(r, res)),
{
    let f = r.running[0];
    let rest = r.running.drop_first();
    assert(r.running =~= seq![f] + rest);
    lemma_ids_concat(seq![f] + rest, r.waiting);
    lemma_ids_concat(seq![f], rest);
    lemma_ids_concat(rest, r.waiting);
    assert(seq![f].drop_last() =~= Seq::<TaskView>::empty());
    assert(ids(seq![f].drop_last()) == Multiset::<u64>::empty());
    assert(ids(seq![f]) == Multiset::<u64>::empty().insert(f.script));
    assert(ids(seq![f]) =~= Multiset::singleton(f.script));
    assert(r.running + r.waiting =~= seq![f] + rest + r.waiting);
    let r2 = resumed(r, res);
    match res {
        Resumed::Finished | Resumed::Failed => {
            // the script has a task, so it has started
            assert(ids(r.running + r.waiting).count(f.script) > 0);
            assert(r.started.to_multiset().count(f.script) > 0);
            assert(r.started.contains(f.script));
            lemma_find_first(r.started, eq_to(f.script));
            let i = find_first(r.started, eq_to(f.script))->0;
            assert(r2.started == r.started.remove(i));
            r.started.remove_ensures(i);
            assert(r2.started.no_duplicates()) by {
                assert forall|a: int, b: int| 0 <= a < r2.started.len() && 0 <= b < r2.started.len() && a != b implies r2.started[a] != r2.started[b] by {
                    let a2 = if a < i { a } else { a + 1 };
                    let b2 = if b < i { b } else { b + 1 };
                    assert(r2.started[a] == r.started[a2]);
                    assert(r2.started[b] == r.started[b2]);
                }
            }
            assert(r2.running + r2.waiting =~= rest + r.waiting);
            assert(ids(r2.running + r2.waiting) =~= r2.started.to_multiset());
            assert forall|x: u64| r2.to_load.contains(x) implies !r2.started.contains(x) by {
                if r2.started.contains(x) {
                    let k = choose|k: int| 0 <= k < r2.started.len() && r2.started[k] == x;
                    let k2 = if k < i { k } else { k + 1 };
                    assert(r.started[k2] == x);
                }
            }
        },
        Resumed::AfterScript(h) => {
            if !r.done.contains(h) {
                let f2 = TaskView { script: f.script, deps: f.deps.push(h) };
                lemma_ids_concat(rest, r.waiting.push(f2));
                assert(r2.running + r2.waiting =~= rest + r.waiting.push(f2));
                assert(r.waiting.push(f2).drop_last() =~= r.waiting);
                assert(ids(r2.running + r2.waiting) =~= r2.started.to_multiset());
                if !r.started.contains(h) {
                    if !r.to_load.contains(h) {
                        assert forall|a: int, b: int| 0 <= a < r2.to_load.len() && 0 <= b < r2.to_load.len() && a != b implies r2.to_load[a] != r2.to_load[b] by {
                            if a == r.to_load.len() as int {
                                assert(r.to_load.contains(r.to_load[b]));
                            }
                            if b == r.to_load.len() as int {
                                assert(r.to_load.contains(r.to_load[a]));
                            }
                        }
                        assert forall|x: u64| r2.to_load.contains(x) implies !r2.started.contains(x) by {
                            let k = choose|k: int| 0 <= k < r2.to_load.len() && r2.to_load[k] == x;
                            if k < r.to_load.len() {
                                assert(r.to_load[k] == x);
                            }
                        }
                    }
                }
            }
        },
        _ => {},
    }
}

/// When the scheduler is complete, no script is running or waiting.
pub proof fn lemma_complete_means_done(r: RunnerView)
    requires
        runner_ok(r),
        complete(r),
    ensures
        r.running.len() == 0,
        r.waiting.len() == 0,
{
    assert(r.started =~= Seq::<u64>::empty());
    assert(r.started.to_multiset() =~= Multiset::empty());
    lemma_ids_len(r.running + r.waiting);
}

/// What the script-running loop does after a scan.
#[derive(Debug, Clone, Copy, PartialEq, Eq, Structural)]
pub enum LoopStep {
    /// Resume this script's coroutine.
    Resume(u64),
    /// Nothing can run now; wait for more scripts to load.
    Stale,
    /// All scripts have run: go on to loading the assets.
    Complete,
}

/// The step the loop takes: resume the first running task; with none
/// running, stop, and go on to the assets when all scripts have run.
pub open spec fn loop_step(r: RunnerView) -> LoopStep {
    if r.running.len() > 0 {
        LoopStep::Resume(r.running[0].script)
    } else if complete(r) {
        LoopStep::Complete
    } else {
        LoopStep::Stale
    }
}

proof fn lemma_filter_all<A>(s: Seq<A>, p: spec_fn(A) -> bool)
    requires
        forall|i: int| 0 <= i < s.len() ==> p(#[trigger] s[i]),
    ensures
        s.filter(p) == s,
    decreases s.len(),
{
    reveal(Seq::filter);
    if s.len() > 0 {
        lemma_filter_all(s.drop_last(), p);
        assert(p(s[s.len() - 1]));
        assert(s.drop_last().push(s.last()) =~= s);
    }
}

proof fn lemma_filter_none<A>(s: Seq<A>, p: spec_fn(A) -> bool)
    requires
        forall|i: int| 0 <= i < s.len() ==> !p(#[trigger] s[i]),
    ensures
        s.filter(p) =~= Seq::<A>::empty(),
    decreases s.len(),
{
    reveal(Seq::filter);
    if s.len() > 0 {
        lemma_filter_none(s.drop_last(), p);
        assert(!p(s[s.len() - 1]));
    }
}

/// A stale state is stable: when a scan leaves no task running, scanning
/// again with the same loaded scripts changes nothing.
pub proof fn lemma_stale_scan_is_stable(r: RunnerView, loaded: Seq<u64>)
    requires
        rescanned(r, loaded).running.len() == 0,
    ensures
        rescanned(rescanned(r, loaded), loaded) == rescanned(r, loaded),
        !(loop_step(rescanned(r, loaded)) is Resume),
{
    let r1 = rescanned(r, loaded);
    let pin = |x: u64| loaded.contains(x);
    let pout = |x: u64| !loaded.contains(x);
    let pready = |t: TaskView| ready(t, r.done);
    let pwait = |t: TaskView| !ready(t, r.done);
    r.to_load.filter_lemma(pout);
    r.waiting.filter_lemma(pwait);
    assert forall|i: int| 0 <= i < r1.to_load.len() implies pout(#[trigger] r1.to_load[i]) by {}
    assert forall|i: int| 0 <= i < r1.to_load.len() implies !pin(#[trigger] r1.to_load[i]) by {}
    lemma_filter_all(r1.to_load, pout);
    lemma_filter_none(r1.to_load, pin);
    assert forall|i: int| 0 <= i < r1.waiting.len() implies pwait(#[trigger] r1.waiting[i]) by {}
    assert forall|i: int| 0 <= i < r1.waiting.len() implies !pready(#[trigger] r1.waiting[i]) by {}
    lemma_filter_all(r1.waiting, pwait);
    lemma_filter_none(r1.waiting, pready);
    assert(r1.done == r.done);
    let r2 = rescanned(r1, loaded);
    assert(r1.to_load.filter(pin) =~= Seq::<u64>::empty());
    assert(insert_all(r1.started, Seq::<u64>::empty()) == r1.started);
    assert(r2.running =~= r1.running);
    assert(r2 =~= r1);
}

impl ScriptRunner {
    /// What the script-running loop does next (see `loop_step`).
    pub fn loop_step(&self) -> (r: LoopStep)
        ensures
            r == loop_step(self@),
    {
        if self.currently_running.len() > 0 {
            LoopStep::Resume(self.currently_running[0].script)
        } else if self.is_complete() {
            LoopStep::Complete
        } else {
            LoopStep::Stale
        }
    }
}

/// Whether a list of ids holds `x`.
fn has_id(v: &Vec<u64>, x: u64) -> (r: bool)
    ensures
        r == v@.contains(x),
{
    let mut i: usize = 0;
    while i < v.len()
        invariant
            i <= v@.len(),
            forall|j: int| 0 <= j < i ==> v@[j] != x,
        decreases v.len() - i,
    {
        if v[i] == x {
            return true;
        }
        i = i + 1;
    }
    false
}

/// Puts `x` in a set kept as a list.
fn insert_id(v: &mut Vec<u64>, x: u64)
    ensures
        final(v)@ == set_insert(old(v)@, x),
{
    if !has_id(v, x) {
        v.push(x);
    }
}

/// Takes `x` out of a set kept as a list.
fn remove_id(v: &mut Vec<u64>, x: u64)
    ensures
        final(v)@ == set_remove(old(v)@, x),
{
    let mut i: usize = 0;
    while i < v.len()
        invariant
            i <= v@.len(),
            v@ == old(v)@,
            forall|j: int| 0 <= j < i ==> v@[j] != x,
        decreases v.len() - i,
    {
        if v[i] == x {
            proof {
                lemma_is_first_unique(v@, eq_to(x), Some(i as int));
            }
            v.remove(i);
            return;
        }
        i = i + 1;
    }
    proof {
        lemma_is_first_unique(v@, eq_to(x), None);
    }
}

/// Whether every dependency of a task has run.
fn deps_done(deps: &Vec<u64>, done: &Vec<u64>) -> (r: bool)
    ensures
        r == forall|k: int| 0 <= k < deps@.len() ==> done@.contains(#[trigger] deps@[k]),
{
    let mut k: usize = 0;
    while k < deps.len()
        invariant
            k <= deps@.len(),
            forall|m: int| 0 <= m < k ==> done@.contains(#[trigger] deps@[m]),
        decreases deps.len() - k,
    {
        if !has_id(done, deps[k]) {
            return false;
        }
        k = k + 1;
    }
    true
}

impl ScriptRunner {
    /// A scheduler that waits for the given scripts to load.
    pub fn new(scripts: Vec<u64>) -> (r: Self)
        ensures
            r@ == (RunnerView {
                to_load: scripts@,
                started: Seq::empty(),
                done: Seq::empty(),
                waiting: Seq::empty(),
                running: Seq::empty(),
            }),
    {
        let r = ScriptRunner {
            waiting_for_load: scripts,
            started: Vec::new(),
            loaded_and_executed: Vec::new(),
            waiting_for_others: Vec::new(),
            currently_running: Vec::new(),
        };
        proof {
            assert(tasks_view(r.waiting_for_others@) =~= Seq::<TaskView>::empty());
            assert(tasks_view(r.currently_running@) =~= Seq::<TaskView>::empty());
        }
        r
    }

    /// Whether all scripts have run.
    pub fn is_complete(&self) -> (r: bool)
        ensures
            r == complete(self@),
    {
        self.waiting_for_load.len() == 0 && self.started.len() == 0
    }

    /// The script to run next, if any: the first running task's.
    pub fn next(&self) -> (r: Option<u64>)
        ensures
            r == if self@.running.len() > 0 {
                Some(self@.running[0].script)
            } else {
                None::<u64>
            },
    {
        if self.currently_running.len() > 0 {
            Some(self.currently_running[0].script)
        } else {
            None
        }
    }

    /// A scan: starts the waiting scripts that `loaded` holds, and lets the
    /// tasks whose dependencies have all run go on. Returns the scripts that
    /// started, for which the caller makes coroutines.
    pub fn rescan(&mut self, loaded: &Vec<u64>) -> (admitted: Vec<u64>)
        ensures
            final(self)@ == rescanned(old(self)@, loaded@),
            admitted@ == old(self)@.to_load.filter(|s: u64| loaded@.contains(s)),
    {
        let ghost r0 = self@;
        let ghost pin = |s: u64| loaded@.contains(s);
        let ghost pout = |s: u64| !loaded@.contains(s);
        let mut admitted: Vec<u64> = Vec::new();
        let mut rest: Vec<u64> = Vec::new();
        let mut i: usize = 0;
        while i < self.waiting_for_load.len()
            invariant
                self.waiting_for_load@ == r0.to_load,
                self.loaded_and_executed@ == r0.done,
                tasks_view(self.waiting_for_others@) == r0.waiting,
                i <= r0.to_load.len(),
                admitted@ == r0.to_load.take(i as int).filter(pin),
                rest@ == r0.to_load.take(i as int).filter(pout),
                self.started@ == insert_all(r0.started, admitted@),
                tasks_view(self.currently_running@) == r0.running + admitted@.map_values(|s: u64| new_task(s)),
                pin == (|s: u64| loaded@.contains(s)),
                pout == (|s: u64| !loaded@.contains(s)),
            decreases self.waiting_for_load.len() - i,
        {
            let s = self.waiting_for_load[i];
            proof {
                assert(r0.to_load.take(i as int + 1) =~= r0.to_load.take(i as int).push(s));
                r0.to_load.take(i as int).lemma_filter_push(s, pin);
                r0.to_load.take(i as int).lemma_filter_push(s, pout);
            }
            if has_id(loaded, s) {
                let ghost a0 = admitted@;
                let ghost run0 = tasks_view(self.currently_running@);
                admitted.push(s);
                insert_id(&mut self.started, s);
                self.currently_running.push(ScriptTask { script: s, dependencies: Vec::new() });
                proof {
                    assert(admitted@.drop_last() =~= a0);
                    assert(tasks_view(self.currently_running@) =~= run0.push(new_task(s)));
                    assert(admitted@.map_values(|s: u64| new_task(s)) =~= a0.map_values(|s: u64| new_task(s)).push(new_task(s)));
                }
            } else {
                rest.push(s);
            }
            i = i + 1;
        }
        proof {
            assert(r0.to_load.take(i as int) =~= r0.to_load);
        }
        self.waiting_for_load = rest;
        self.release_ready();
        admitted
    }

    /// Lets the tasks whose dependencies have all run go on.
    fn release_ready(&mut self)
        ensures
            final(self)@ == (RunnerView {
                waiting: old(self)@.waiting.filter(|t: TaskView| !ready(t, old(self)@.done)),
                running: old(self)@.running + old(self)@.waiting.filter(|t: TaskView| ready(t, old(self)@.done)),
                ..old(self)@
            }),
    {
        let ghost r0 = self@;
        let ghost pr = |t: TaskView| ready(t, r0.done);
        let ghost pn = |t: TaskView| !ready(t, r0.done);
        let mut kept: Vec<ScriptTask> = Vec::new();
        let mut waiting = Vec::new();
        std::mem::swap(&mut waiting, &mut self.waiting_for_others);
        let ghost w = tasks_view(waiting@);
        proof {
            assert(w == r0.waiting);
        }
        while waiting.len() > 0
            invariant
                self.waiting_for_load@ == r0.to_load,
                self.started@ == r0.started,
                self.loaded_and_executed@ == r0.done,
                self.waiting_for_others@.len() == 0,
                w == r0.waiting,
                0 <= w.len() - tasks_view(waiting@).len() <= w.len(),
                tasks_view(waiting@) == w.skip(w.len() - waiting@.len()),
                tasks_view(kept@) == w.take(w.len() - waiting@.len()).filter(pn),
                tasks_view(self.currently_running@) == r0.running + w.take(w.len() - waiting@.len()).filter(pr),
                pr == (|t: TaskView| ready(t, r0.done)),
                pn == (|t: TaskView| !ready(t, r0.done)),
            decreases waiting.len(),
        {
            let ghost n = w.len() - waiting@.len();
            let ghost wv = waiting@;
            proof {
                assert(tasks_view(wv)[0] == wv[0]@);
                assert(w.skip(n)[0] == w[n]);
            }
            let t = waiting.remove(0);
            proof {
                assert(t@ == w[n]);
                assert(waiting@ =~= wv.drop_first());
                assert(tasks_view(waiting@) =~= tasks_view(wv).drop_first());
                assert(w.take(n + 1) =~= w.take(n).push(t@));
                w.take(n).lemma_filter_push(t@, pr);
                w.take(n).lemma_filter_push(t@, pn);
                assert(tasks_view(waiting@) =~= w.skip(w.len() - waiting@.len()));
            }
            let is_ready = deps_done(&t.dependencies, &self.loaded_and_executed);
            proof {
                assert(t@.deps == t.dependencies@);
                if is_ready {
                    assert forall|k: int| 0 <= k < t@.deps.len() implies r0.done.contains(#[trigger] t@.deps[k]) by {
                        assert(self.loaded_and_executed@.contains(t.dependencies@[k]));
                    }
                } else {
                    let k = choose|k: int| 0 <= k < t.dependencies@.len() && !self.loaded_and_executed@.contains(#[trigger] t.dependencies@[k]);
                    assert(!r0.done.contains(t@.deps[k]));
                }
            }
            let ghost k0 = tasks_view(kept@);
            let ghost run0 = tasks_view(self.currently_running@);
            if is_ready {
                self.currently_running.push(t);
                proof {
                    assert(tasks_view(self.currently_running@) =~= run0.push(w[n]));
                }
            } else {
                kept.push(t);
                proof {
                    assert(tasks_view(kept@) =~= k0.push(w[n]));
                }
            }
        }
        proof {
            assert(w.take(w.len() as int) =~= w);
        }
        self.waiting_for_others = kept;
        proof {
            assert(self@ =~= RunnerView {
                waiting: r0.waiting.filter(pn),
                running: r0.running + r0.waiting.filter(pr),
                ..r0
            });
        }
    }

    /// Applies what the first running task did when it was resumed; an
    /// asset it registers goes to `assets`. Returns the script, if it ran to
    /// its end.
    pub fn after_resume(&mut self, assets: &mut AssetHolder, res: Resumed) -> (completed: Option<u64>)
        requires
            old(self)@.running.len() > 0,
            res matches Resumed::RegisterAsset(_) ==> old(assets).total_asset_count < usize::MAX,
        ensures
            final(self)@ == resumed(old(self)@, res),
            completed == if res == Resumed::Finished {
                Some(old(self)@.running[0].script)
            } else {
                None::<u64>
            },
            match res {
                Resumed::RegisterAsset(a) => {
                    &&& final(assets).total_asset_count == old(assets).total_asset_count + 1
                    &&& final(assets).waiting_assets@ == old(assets).waiting_assets@.push(a)
                    &&& final(assets).done_assets@ == old(assets).done_assets@
                },
                _ => *final(assets) == *old(assets),
            },
    {
        let ghost r0 = self@;
        match res {
            Resumed::Finished => {
                let t = self.currently_running.remove(0);
                remove_id(&mut self.started, t.script);
                insert_id(&mut self.loaded_and_executed, t.script);
                proof {
                    assert(tasks_view(self.currently_running@) =~= r0.running.drop_first());
                }
                Some(t.script)
            },
            Resumed::Failed => {
                let t = self.currently_running.remove(0);
                remove_id(&mut self.started, t.script);
                proof {
                    assert(tasks_view(self.currently_running@) =~= r0.running.drop_first());
                }
                None
            },
            Resumed::AfterScript(h) => {
                if !has_id(&self.loaded_and_executed, h) {
                    if !has_id(&self.started, h) {
                        insert_id(&mut self.waiting_for_load, h);
                    }
                    let mut t = self.currently_running.remove(0);
                    t.dependencies.push(h);
                    let ghost w0 = tasks_view(self.waiting_for_others@);
                    self.waiting_for_others.push(t);
                    proof {
                        assert(tasks_view(self.currently_running@) =~= r0.running.drop_first());
                        assert(tasks_view(self.waiting_for_others@) =~= w0.push(
                            TaskView { script: r0.running[0].script, deps: r0.running[0].deps.push(h) },
                        ));
                    }
                }
                None
            },
            Resumed::RegisterAsset(a) => {
                assets.add_asset(a);
                None
            },
            Resumed::Immediately => None,
            Resumed::Unknown => None,
        }
    }
}

/// How far the loading of the registered assets is.
#[derive(Debug, Clone, Copy, PartialEq, Eq, Structural)]
pub enum AssetProgress {
    /// All registered assets are loaded.
    Done,
    /// `done` of the `total` registered assets are loaded.
    Loading { done: usize, total: usize },
}

impl AssetHolder {
    /// No assets registered.
    pub fn new() -> (r: Self)
        ensures
            r.total_asset_count == 0,
            r.waiting_assets@.len() == 0,
            r.done_assets@.len() == 0,
    {
        AssetHolder { total_asset_count: 0, waiting_assets: Vec::new(), done_assets: Vec::new() }
    }

    /// Registers an asset to wait for.
    pub fn add_asset(&mut self, handle: u64)
        requires
            old(self).total_asset_count < usize::MAX,
        ensures
            final(self).total_asset_count == old(self).total_asset_count + 1,
            final(self).waiting_assets@ == old(self).waiting_assets@.push(handle),
            final(self).done_assets@ == old(self).done_assets@,
    {
        self.total_asset_count = self.total_asset_count + 1;
        self.waiting_assets.push(handle);
    }

    /// Moves the waiting assets that `loaded` holds to the loaded ones (in
    /// the order in which they wait); returns whether none is left waiting.
    pub fn collect_loaded(&mut self, loaded: &Vec<u64>) -> (all_loaded: bool)
        ensures
            final(self).waiting_assets@ == old(self).waiting_assets@.filter(|a: u64| !loaded@.contains(a)),
            final(self).done_assets@ == old(self).done_assets@ + old(self).waiting_assets@.filter(|a: u64| loaded@.contains(a)),
            final(self).total_asset_count == old(self).total_asset_count,
            all_loaded == (final(self).waiting_assets@.len() == 0),
    {
        let ghost w = self.waiting_assets@;
        let ghost d0 = self.done_assets@;
        let ghost pin = |a: u64| loaded@.contains(a);
        let ghost pout = |a: u64| !loaded@.contains(a);
        let mut rest: Vec<u64> = Vec::new();
        let mut i: usize = 0;
        while i < self.waiting_assets.len()
            invariant
                self.waiting_assets@ == w,
                self.total_asset_count == old(self).total_asset_count,
                i <= w.len(),
                rest@ == w.take(i as int).filter(pout),
                self.done_assets@ == d0 + w.take(i as int).filter(pin),
                pin == (|a: u64| loaded@.contains(a)),
                pout == (|a: u64| !loaded@.contains(a)),
            decreases self.waiting_assets.len() - i,
        {
            let a = self.waiting_assets[i];
            proof {
                assert(w.take(i as int + 1) =~= w.take(i as int).push(a));
                w.take(i as int).lemma_filter_push(a, pin);
                w.take(i as int).lemma_filter_push(a, pout);
            }
            if has_id(loaded, a) {
                self.done_assets.push(a);
            } else {
                rest.push(a);
            }
            i = i + 1;
            proof {
                assert(self.done_assets@ =~= d0 + w.take(i as int).filter(pin));
            }
        }
        proof {
            assert(w.take(i as int) =~= w);
        }
        self.waiting_assets = rest;
        self.waiting_assets.len() == 0
    }

    /// How far the loading is: done when as many assets are loaded as were
    /// registered.
    pub fn progress(&self) -> (r: AssetProgress)
        ensures
            r == if self.done_assets@.len() == self.total_asset_count {
                AssetProgress::Done
            } else {
                AssetProgress::Loading { done: self.done_assets@.len() as usize, total: self.total_asset_count }
            },
    {
        if self.done_assets.len() == self.total_asset_count {
            AssetProgress::Done
        } else {
            AssetProgress::Loading { done: self.done_assets.len(), total: self.total_asset_count }
        }
    }
}

// ------------------------------------------------------------------------
// Paths that scripts name

/// A component of a path.
#[derive(Debug, PartialEq, Eq)]
pub enum PathPart {
    /// The root, `/`.
    Root,
    /// `.`
    Current,
    /// `..`
    Parent,
    /// A file or directory name.
    Name(String),
}

/// Whether a path starts with `.` or `..`.
pub open spec fn starts_relative(path: Seq<PathPart>) -> bool {
    path.len() > 0 && (path[0] is Current || path[0] is Parent)
}

/// Whether a path has a parent: it is not empty and does not end in the root.
pub open spec fn has_parent(path: Seq<PathPart>) -> bool {
    path.len() > 0 && !(path.last() is Root)
}

/// A path that a script names, resolved against the script's own path: a
/// path that starts with `.` or `..` is taken from the directory of the
/// script; any other path is taken as it is.
pub open spec fn resolved(path: Seq<PathPart>, origin: Seq<PathPart>) -> Seq<PathPart> {
    if starts_relative(path) {
        origin.drop_last() + path
    } else {
        path
    }
}

impl Clone for PathPart {
    fn clone(&self) -> (r: Self)
        ensures
            r == *self,
    {
        match self {
            PathPart::Root => PathPart::Root,
            PathPart::Current => PathPart::Current,
            PathPart::Parent => PathPart::Parent,
            PathPart::Name(n) => PathPart::Name(n.clone()),
        }
    }
}

/// Resolves a path that a script names against the script's own path.
pub fn resolve_relative(path: &Vec<PathPart>, origin: &Vec<PathPart>) -> (r: Vec<PathPart>)
    requires
        starts_relative(path@) ==> has_parent(origin@),
    ensures
        r@ == resolved(path@, origin@),
{
    let relative = path.len() > 0 && match &path[0] {
        PathPart::Current => true,
        PathPart::Parent => true,
        _ => false,
    };
    let mut r: Vec<PathPart> = Vec::new();
    if relative {
        let n = origin.len() - 1;
        let mut i: usize = 0;
        while i < n
            invariant
                n == origin@.len() - 1,
                i <= n,
                r@ == origin@.take(i as int),
            decreases n - i,
        {
            r.push(origin[i].clone());
            i = i + 1;
            proof {
                assert(r@ =~= origin@.take(i as int));
            }
        }
        proof {
            assert(origin@.take(i as int) =~= origin@.drop_last());
        }
    }
    let ghost base = r@;
    let mut k: usize = 0;
    while k < path.len()
        invariant
            k <= path@.len(),
            r@ == base + path@.take(k as int),
        decreases path.len() - k,
    {
        r.push(path[k].clone());
        k = k + 1;
        proof {
            assert(r@ =~= base + path@.take(k as int));
        }
    }
    proof {
        assert(path@.take(k as int) =~= path@);
        if !relative {
            assert(base =~= Seq::<PathPart>::empty());
            assert(r@ =~= path@);
        }
    }
    r
}

} // verus!
