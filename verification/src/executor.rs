use vstd::prelude::*;
use vstd::set_lib::lemma_int_range;
use vstd::set_lib::lemma_len_subset;
use vstd::set_lib::set_int_range;

use crate::errors::{ExecutionError, TaskComputationError};
use crate::graph::{acyclic, deps_bounded, path_ok, TaskGraph, TaskKey};
use crate::store::{DepView, ResultStore};

verus! {

/// Lifecycle of one task during execution. A task enters `Running` only when
/// every dependency is `Completed`; `Completed` and `Failed` are terminal.
#[derive(Clone, Copy, Debug, PartialEq, Eq, Structural)]
pub enum ExecState {
    Pending,
    Running,
    Completed,
    Failed,
}

/// Task `i` is pending and all of its dependencies have completed.
pub open spec fn ready_at(deps: Seq<Seq<usize>>, states: Seq<ExecState>, i: int) -> bool {
    &&& 0 <= i < states.len()
    &&& states[i] is Pending
    &&& forall|j: int|
        0 <= j < deps[i].len() ==> states[#[trigger] deps[i][j] as int] is Completed
}

/// Snapshot of an execution in progress: the graph, the per-task states, the
/// published results and the first recorded failure.
#[verifier::ext_equal]
pub struct SchedModel<V> {
    pub keys: Seq<TaskKey>,
    pub deps: Seq<Seq<usize>>,
    pub states: Seq<ExecState>,
    pub store: Map<TaskKey, V>,
    pub failure: Option<(TaskKey, Seq<char>)>,
}

impl<V> SchedModel<V> {
    pub open spec fn n(&self) -> int {
        self.states.len() as int
    }

    pub open spec fn is_ready(&self, i: int) -> bool {
        ready_at(self.deps, self.states, i)
    }

    /// The lowest-index ready task: the one the scheduler launches next.
    pub open spec fn is_first_ready(&self, i: int) -> bool {
        self.is_ready(i) && forall|t: int| 0 <= t < i ==> !self.is_ready(t)
    }

    pub open spec fn wf(&self) -> bool {
        &&& self.keys.len() == self.n()
        &&& self.deps.len() == self.n()
        &&& self.keys.len() <= usize::MAX
        &&& self.keys.no_duplicates()
        &&& deps_bounded(self.deps)
        &&& acyclic(self.deps)
        // Ordering: a task that has started has all its producers completed.
        &&& (forall|i: int, j: int|
            0 <= i < self.n() && !(self.states[i] is Pending) && 0 <= j < self.deps[i].len()
                ==> self.states[#[trigger] self.deps[i][j] as int] is Completed)
        // The store holds exactly the values of completed tasks.
        &&& (forall|i: int|
            0 <= i < self.n() ==> ((#[trigger] self.states[i] is Completed)
                <==> self.store.contains_key(self.keys[i])))
        &&& (forall|k: TaskKey| #[trigger] self.store.contains_key(k) ==> self.keys.contains(k))
        // A failure is recorded exactly when some task has failed, and it
        // names a failed task.
        &&& (self.failure is Some <==> exists|i: int|
            0 <= i < self.n() && (#[trigger] self.states[i]) is Failed)
        &&& (match self.failure {
            Some((k, _)) => exists|i: int|
                0 <= i < self.n() && self.keys[i] == k && (#[trigger] self.states[i]) is Failed,
            None => true,
        })
    }

    /// Execution is over: nothing is in flight, and either everything
    /// completed or a failure was recorded while the rest drained.
    pub open spec fn finished(&self) -> bool {
        &&& (forall|i: int| 0 <= i < self.n() ==> !((#[trigger] self.states[i]) is Running))
        &&& (self.failure is Some || forall|i: int|
            0 <= i < self.n() ==> (#[trigger] self.states[i]) is Completed)
    }

    pub open spec fn step_launch(self, i: int) -> SchedModel<V> {
        SchedModel { states: self.states.update(i, ExecState::Running), ..self }
    }

    pub open spec fn step_success(self, i: int, v: V) -> SchedModel<V> {
        SchedModel {
            states: self.states.update(i, ExecState::Completed),
            store: self.store.insert(self.keys[i], v),
            ..self
        }
    }

    pub open spec fn step_failure(self, i: int, cause: Seq<char>) -> SchedModel<V> {
        SchedModel {
            states: self.states.update(i, ExecState::Failed),
            failure: if self.failure is Some {
                self.failure
            } else {
                Some((self.keys[i], cause))
            },
            ..self
        }
    }

    /// Keys of tasks that were never started, in index order.
    pub open spec fn pending_keys(&self) -> Seq<TaskKey> {
        pending_keys_upto(self.keys, self.states, self.n())
    }
}

pub open spec fn pending_keys_upto(keys: Seq<TaskKey>, states: Seq<ExecState>, n: int) -> Seq<
    TaskKey,
>
    decreases n,
{
    if n <= 0 {
        Seq::empty()
    } else {
        pending_keys_upto(keys, states, n - 1) + if states[n - 1] is Pending {
            seq![keys[n - 1]]
        } else {
            Seq::empty()
        }
    }
}

/// How many tasks are still pending.
pub open spec fn count_pending(states: Seq<ExecState>) -> int
    decreases states.len(),
{
    if states.len() == 0 {
        0
    } else {
        count_pending(states.drop_last()) + if states.last() is Pending {
            1int
        } else {
            0int
        }
    }
}

proof fn lemma_count_pending_update(states: Seq<ExecState>, i: int, st: ExecState)
    requires
        0 <= i < states.len(),
    ensures
        count_pending(states.update(i, st)) == count_pending(states) - (if states[i] is Pending {
            1int
        } else {
            0int
        }) + (if st is Pending {
            1int
        } else {
            0int
        }),
    decreases states.len(),
{
    let s2 = states.update(i, st);
    if i == states.len() - 1 {
        assert(s2.drop_last() =~= states.drop_last());
    } else {
        assert(s2.drop_last() =~= states.drop_last().update(i, st));
        lemma_count_pending_update(states.drop_last(), i, st);
    }
}

/// Ordering invariant: once a consumer is no longer pending, each of its
/// producers has completed and that producer's value stands in the store,
/// where it stays for the consumer's entire execution.
pub proof fn lemma_ordering_invariant<V>(m: SchedModel<V>, c: int, j: int)
    requires
        m.wf(),
        0 <= c < m.n(),
        !(m.states[c] is Pending),
        0 <= j < m.deps[c].len(),
    ensures
        m.states[m.deps[c][j] as int] is Completed,
        m.store.contains_key(m.keys[m.deps[c][j] as int]),
{
    assert(m.states[m.deps[c][j] as int] is Completed);
    let d = m.deps[c][j] as int;
    assert(0 <= d < m.n());
    assert(m.store.contains_key(m.keys[d]));
}

/// Independence: two tasks both in flight may complete in either order; the
/// resulting states and store contents are identical.
pub proof fn lemma_success_order_independent<V>(m: SchedModel<V>, i: int, j: int, vi: V, vj: V)
    requires
        m.wf(),
        0 <= i < m.n(),
        0 <= j < m.n(),
        i != j,
        m.states[i] is Running,
        m.states[j] is Running,
    ensures
        m.step_success(i, vi).step_success(j, vj) == m.step_success(j, vj).step_success(i, vi),
{
    let a = m.step_success(i, vi).step_success(j, vj);
    let b = m.step_success(j, vj).step_success(i, vi);
    assert(m.keys[i] != m.keys[j]);
    assert(a.states =~= b.states);
    assert(a.store =~= b.store);
    assert(a =~~= b);
}

/// Fail fast, drain in flight: a failure is recorded at once — only the
/// first one is kept — yet execution is not finished while an independent
/// task is still running, and that task's state is untouched.
pub proof fn lemma_failure_waits_for_running<V>(m: SchedModel<V>, i: int, j: int, cause: Seq<char>)
    requires
        m.wf(),
        0 <= i < m.n(),
        0 <= j < m.n(),
        i != j,
        m.states[i] is Running,
        m.states[j] is Running,
    ensures
        m.step_failure(i, cause).failure is Some,
        m.failure is None ==> m.step_failure(i, cause).failure == Some((m.keys[i], cause)),
        m.failure is Some ==> m.step_failure(i, cause).failure == m.failure,
        !m.step_failure(i, cause).finished(),
        m.step_failure(i, cause).states[j] is Running,
{
    let m2 = m.step_failure(i, cause);
    assert(m2.states[j] is Running);
}

/// Distinct node indices below `n` cannot number more than `n`.
proof fn lemma_no_dup_bounded_len(path: Seq<usize>, n: nat)
    requires
        path.no_duplicates(),
        forall|i: int| 0 <= i < path.len() ==> (#[trigger] path[i]) < n,
    ensures
        path.len() <= n,
{
    let ints = path.map_values(|x: usize| x as int);
    assert forall|i: int, j: int| 0 <= i < ints.len() && 0 <= j < ints.len() && i != j implies
        ints[i] != ints[j] by {
        assert(path[i] != path[j]);
    }
    assert(ints.no_duplicates());
    ints.unique_seq_to_set();
    assert(ints.to_set().subset_of(set_int_range(0, n as int))) by {
        assert forall|x: int| ints.to_set().contains(x) implies set_int_range(
            0,
            n as int,
        ).contains(x) by {
            let t = choose|t: int| 0 <= t < ints.len() && ints[t] == x;
            assert(path[t] < n);
        }
    }
    lemma_int_range(0, n as int);
    lemma_len_subset(ints.to_set(), set_int_range(0, n as int));
}

/// If nothing is running and nothing has failed, a chain of pending tasks
/// each blocked on another pending task either meets a ready task or closes
/// a cycle — and a cycle is impossible in an acyclic graph.
proof fn lemma_chain_finds_ready<V>(m: SchedModel<V>, chain: Seq<usize>)
    requires
        m.wf(),
        forall|i: int| 0 <= i < m.n() ==> !((#[trigger] m.states[i]) is Running),
        forall|i: int| 0 <= i < m.n() ==> !((#[trigger] m.states[i]) is Failed),
        path_ok(m.deps, chain),
        chain.no_duplicates(),
        forall|t: int| 0 <= t < chain.len() ==> (#[trigger] m.states[chain[t] as int]) is Pending,
    ensures
        exists|i: int| #[trigger] m.is_ready(i),
    decreases m.n() + 1 - chain.len(),
{
    let h = chain.first();
    assert(m.states[h as int] is Pending);
    if m.is_ready(h as int) {
    } else {
        lemma_chain_step(m, chain);
    }
}

/// The inductive step of `lemma_chain_finds_ready`: the head of the chain is
/// pending and not ready, so it is blocked on a pending dependency, which
/// either closes a cycle or extends the chain.
proof fn lemma_chain_step<V>(m: SchedModel<V>, chain: Seq<usize>)
    requires
        m.wf(),
        forall|i: int| 0 <= i < m.n() ==> !((#[trigger] m.states[i]) is Running),
        forall|i: int| 0 <= i < m.n() ==> !((#[trigger] m.states[i]) is Failed),
        path_ok(m.deps, chain),
        chain.no_duplicates(),
        forall|t: int| 0 <= t < chain.len() ==> (#[trigger] m.states[chain[t] as int]) is Pending,
        !m.is_ready(chain.first() as int),
    ensures
        exists|i: int| #[trigger] m.is_ready(i),
    decreases m.n() - chain.len(),
{
    let h = chain.first();
    assert(m.states[h as int] is Pending);
    // Not ready while pending: some dependency has not completed.
    let j = choose|j: int|
        0 <= j < m.deps[h as int].len() && !(m.states[m.deps[h as int][j] as int] is Completed);
    let d = m.deps[h as int][j];
    assert(d < m.n());
    assert(m.states[d as int] is Pending);
    let c2 = seq![d] + chain;
    assert forall|t: int|
        #![trigger c2[t]]
        0 <= t < c2.len() - 1 implies m.deps[c2[t + 1] as int].contains(c2[t]) by {
        if t == 0 {
            assert(c2[0] == d && c2[1] == chain[0]);
            assert(m.deps[h as int][j] == d);
            assert(m.deps[h as int].contains(d));
        } else {
            assert(c2[t] == chain[t - 1] && c2[t + 1] == chain[t]);
        }
    }
    assert(forall|t: int| 0 <= t < c2.len() ==> (#[trigger] c2[t]) < m.deps.len());
    assert(path_ok(m.deps, c2));
    if chain.contains(d) {
        let t = choose|t: int| 0 <= t < chain.len() && chain[t] == d;
        let cyc = seq![d] + chain.subrange(0, t + 1);
        assert forall|s: int|
            #![trigger cyc[s]]
            0 <= s < cyc.len() - 1 implies m.deps[cyc[s + 1] as int].contains(cyc[s]) by {
            if s == 0 {
                assert(cyc[0] == d && cyc[1] == chain[0]);
                assert(m.deps[h as int].contains(d));
            } else {
                assert(cyc[s] == chain[s - 1] && cyc[s + 1] == chain[s]);
            }
        }
        assert(forall|s: int| 0 <= s < cyc.len() ==> (#[trigger] cyc[s]) < m.deps.len());
        assert(path_ok(m.deps, cyc));
        assert(cyc.len() >= 2);
        assert(cyc.first() == d && cyc.last() == d);
        assert(false);
    } else {
        assert(c2.no_duplicates()) by {
            assert forall|a: int, b: int|
                0 <= a < c2.len() && 0 <= b < c2.len() && a != b implies c2[a] != c2[b] by {
                if a == 0 && b > 0 {
                    if c2[b] == d {
                        assert(chain[b - 1] == d);
                        assert(chain.contains(d));
                    }
                } else if b == 0 && a > 0 {
                    if c2[a] == d {
                        assert(chain[a - 1] == d);
                        assert(chain.contains(d));
                    }
                } else {
                    assert(c2[a] == chain[a - 1] && c2[b] == chain[b - 1]);
                }
            }
        }
        lemma_no_dup_bounded_len(c2, m.n() as nat);
        if m.is_ready(d as int) {
        } else {
            lemma_chain_step(m, c2);
        }
    }
}

/// Liveness on a well-formed graph: while no failure is recorded, nothing is
/// in flight and some task is still pending, some pending task is ready —
/// execution cannot deadlock.
pub proof fn lemma_progress<V>(m: SchedModel<V>)
    requires
        m.wf(),
        m.failure is None,
        forall|i: int| 0 <= i < m.n() ==> !((#[trigger] m.states[i]) is Running),
        exists|i: int| 0 <= i < m.n() && (#[trigger] m.states[i]) is Pending,
    ensures
        exists|i: int| #[trigger] m.is_ready(i),
{
    let i0 = choose|i: int| 0 <= i < m.n() && (#[trigger] m.states[i]) is Pending;
    assert(forall|i: int| 0 <= i < m.n() ==> !((#[trigger] m.states[i]) is Failed));
    let chain = seq![i0 as usize];
    assert(path_ok(m.deps, chain));
    assert(m.states[i0] is Pending);
    assert forall|t: int| 0 <= t < chain.len() implies (#[trigger] m.states[chain[t] as int]) is
    Pending by {
        assert(chain.len() == 1);
        assert(t == 0);
        assert(chain[0] == i0 as usize);
        assert((i0 as usize) as int == i0);
    }
    lemma_chain_finds_ready(m, chain);
}

/// The computation of one task: reads the task's declared dependencies
/// through the scoped view and produces the task's value, or fails with a
/// cause. Supplied by the caller of `execute`; the executor relies on
/// nothing about it.
pub trait TaskRunner<V> {
    fn run(&self, key: TaskKey, view: &DepView<V>) -> Result<V, String>;
}

/// Drives one graph to completion: launches ready tasks, records each
/// outcome, publishes completed values and unlocks dependents.
pub struct Scheduler<V> {
    pub keys: Vec<TaskKey>,
    pub deps: Vec<Vec<usize>>,
    pub states: Vec<ExecState>,
    pub store: ResultStore<V>,
    pub failure: Option<TaskComputationError>,
}

impl<V> View for Scheduler<V> {
    type V = SchedModel<V>;

    open spec fn view(&self) -> SchedModel<V> {
        SchedModel {
            keys: self.keys@,
            deps: Seq::new(self.deps@.len(), |i: int| self.deps@[i]@),
            states: self.states@,
            store: self.store@,
            failure: match self.failure {
                Some(e) => Some((e.key, e.cause@)),
                None => None,
            },
        }
    }
}

impl<V> Scheduler<V> {
    pub open spec fn wf(&self) -> bool {
        &&& self@.wf()
        &&& self.store.wf()
    }

    /// Takes ownership of a built graph; every task starts `Pending`, the
    /// store empty, no failure recorded.
    pub fn new(graph: TaskGraph) -> (s: Scheduler<V>)
        requires
            graph.wf(),
        ensures
            s.wf(),
            s@.keys == graph.key_seq(),
            s@.deps == graph.deps_view(),
            s@.states == Seq::new(graph.key_seq().len(), |i: int| ExecState::Pending),
            s@.store == Map::<TaskKey, V>::empty(),
            s@.failure is None,
    {
        let n = graph.keys.len();
        let states: Vec<ExecState> = vec![ExecState::Pending; n];
        let s = Scheduler {
            keys: graph.keys,
            deps: graph.deps,
            states,
            store: ResultStore::new(),
            failure: None,
        };
        proof {
            assert(s@.states =~= Seq::new(graph.key_seq().len(), |i: int| ExecState::Pending));
            assert(s@.deps =~= graph.deps_view());
            assert(forall|i: int| 0 <= i < s@.n() ==> (#[trigger] s@.states[i]) is Pending);
        }
        s
    }

    fn index_of(&self, key: TaskKey) -> (r: Option<usize>)
        ensures
            match r {
                Some(i) => i < self.keys@.len() && self.keys@[i as int] == key,
                None => !self.keys@.contains(key),
            },
    {
        let n = self.keys.len();
        for i in 0..n
            invariant
                n == self.keys@.len(),
                forall|j: int| 0 <= j < i ==> self.keys@[j] != key,
        {
            if self.keys[i] == key {
                return Some(i);
            }
        }
        None
    }

    /// The declared dependencies of the task named `key`, as keys.
    pub fn declared_deps(&self, key: TaskKey) -> (r: Vec<TaskKey>)
        requires
            self.wf(),
            self@.keys.contains(key),
        ensures
            r@ == Seq::new(
                self@.deps[self@.keys.index_of(key)].len(),
                |j: int| self@.keys[self@.deps[self@.keys.index_of(key)][j] as int],
            ),
    {
        let iopt = self.index_of(key);
        proof {
            assert(iopt is Some);
        }
        let i = iopt.unwrap();
        proof {
            let si = self@.keys.index_of(key);
            assert(self@.keys.contains(key));
            if si != i {
                assert(self@.keys[si] == self@.keys[i as int]);
            }
        }
        let dl = self.deps[i].len();
        let mut out: Vec<TaskKey> = Vec::new();
        for j in 0..dl
            invariant
                self.wf(),
                i < self.keys@.len(),
                dl == self@.deps[i as int].len(),
                out@.len() == j,
                forall|t: int|
                    0 <= t < j ==> out@[t] == self@.keys[#[trigger] self@.deps[i as int][t] as int],
        {
            let d = self.deps[i][j];
            assert(d < self.keys@.len());
            out.push(self.keys[d]);
        }
        proof {
            assert(out@ =~= Seq::new(
                self@.deps[i as int].len(),
                |j: int| self@.keys[self@.deps[i as int][j] as int],
            ));
        }
        out
    }

    /// Launches the lowest-index ready task, marking it `Running`, unless a
    /// failure has been recorded or nothing is ready. After a failure this
    /// never launches again: the scheduler only drains.
    pub fn launch_next(&mut self) -> (r: Option<TaskKey>)
        requires
            old(self).wf(),
        ensures
            final (self).wf(),
            match r {
                None => *final (self) == *old(self) && (old(self)@.failure is Some || forall|i: int|
                    !old(self)@.is_ready(i)),
                Some(k) => {
                    &&& old(self)@.failure is None
                    &&& exists|i: int|
                        {
                            &&& #[trigger] old(self)@.is_first_ready(i)
                            &&& k == old(self)@.keys[i]
                            &&& final (self)@ == old(self)@.step_launch(i)
                        }
                    &&& count_pending(final (self)@.states) == count_pending(old(self)@.states) - 1
                },
            },
    {
        if self.failure.is_some() {
            return None;
        }
        let n = self.keys.len();
        for i in 0..n
            invariant
                self.wf(),
                *self == *old(self),
                n == self.keys@.len(),
                self@.failure is None,
                forall|t: int| 0 <= t < i ==> !self@.is_ready(t),
        {
            if self.states[i] == ExecState::Pending {
                let dl = self.deps[i].len();
                let mut all_done = true;
                for j in 0..dl
                    invariant
                        self.wf(),
                        i < n,
                        n == self.keys@.len(),
                        dl == self@.deps[i as int].len(),
                        all_done <==> (forall|t: int|
                            0 <= t < j ==> self@.states[
                                #[trigger] self@.deps[i as int][t] as int
                            ] is Completed),
                {
                    let d = self.deps[i][j];
                    assert(d < n);
                    if !(self.states[d] == ExecState::Completed) {
                        all_done = false;
                    }
                }
                if all_done {
                    let ghost pre = self@;
                    proof {
                        assert(pre == old(self)@);
                        assert(pre.is_first_ready(i as int));
                        assert(old(self)@.is_first_ready(i as int));
                        lemma_count_pending_update(pre.states, i as int, ExecState::Running);
                    }
                    self.states.set(i, ExecState::Running);
                    proof {
                        assert(self@ =~~= pre.step_launch(i as int));
                        assert forall|a: int, b: int|
                            0 <= a < self@.n() && !(self@.states[a] is Pending) && 0 <= b
                                < self@.deps[a].len() implies self@.states[
                            #[trigger] self@.deps[a][b] as int
                        ] is Completed by {
                            assert(pre.states[pre.deps[a][b] as int] is Completed);
                            assert(pre.deps[a][b] != i as usize);
                        }
                        assert forall|t: int| 0 <= t < self@.n() implies !((
                        #[trigger] self@.states[t]) is Failed) by {
                            if t != i as int {
                                assert(!(pre.states[t] is Failed));
                            }
                        }
                        assert(self.wf());
                    }
                    return Some(self.keys[i]);
                }
            }
        }
        None
    }

    /// Records that the running task named `key` produced `value`: the task
    /// completes and its value is published, write-once, under its key.
    pub fn report_success(&mut self, key: TaskKey, value: V)
        requires
            old(self).wf(),
            old(self)@.keys.contains(key),
            old(self)@.states[old(self)@.keys.index_of(key)] is Running,
        ensures
            final (self).wf(),
            final (self)@ == old(self)@.step_success(old(self)@.keys.index_of(key), value),
            count_pending(final (self)@.states) == count_pending(old(self)@.states),
    {
        let ghost pre = self@;
        let ghost si = pre.keys.index_of(key);
        let iopt = self.index_of(key);
        proof {
            assert(iopt is Some);
        }
        let i = iopt.unwrap();
        proof {
            if si != i {
                assert(pre.keys[si] == pre.keys[i as int]);
            }
            assert(si == i);
            // Running, hence not completed, hence not yet in the store.
            assert(!pre.store.contains_key(key));
            lemma_count_pending_update(pre.states, i as int, ExecState::Completed);
        }
        let r = self.store.publish(key, value);
        if r.is_err() {
            proof {
                assert(false);
            }
        }
        self.states.set(i, ExecState::Completed);
        proof {
            assert(self@ =~~= pre.step_success(si, value));
            let post = self@;
            assert forall|a: int, b: int|
                0 <= a < post.n() && !(post.states[a] is Pending) && 0 <= b
                    < post.deps[a].len() implies post.states[
                #[trigger] post.deps[a][b] as int
            ] is Completed by {
                if post.deps[a][b] as int == i as int {
                } else {
                    if a == i as int {
                        assert(pre.states[pre.deps[a][b] as int] is Completed);
                    } else {
                        assert(pre.states[pre.deps[a][b] as int] is Completed);
                    }
                }
            }
            assert forall|t: int| 0 <= t < post.n() implies ((#[trigger] post.states[t] is
            Completed) <==> post.store.contains_key(post.keys[t])) by {
                if t != i as int {
                    assert(post.keys[t] != key);
                }
            }
            if pre.failure is Some {
                let w = choose|t: int| 0 <= t < pre.n() && (#[trigger] pre.states[t]) is Failed;
                assert(post.states[w] is Failed);
                let w2 = choose|t: int|
                    0 <= t < pre.n() && pre.keys[t] == pre.failure.unwrap().0 && (
                    #[trigger] pre.states[t]) is Failed;
                assert(post.states[w2] is Failed);
            }
            assert(self.wf());
        }
    }

    /// Records that the running task named `key` failed with `cause`. The
    /// first failure wins: a failure recorded earlier is kept; this one is
    /// still terminal for the task.
    pub fn report_failure(&mut self, key: TaskKey, cause: String)
        requires
            old(self).wf(),
            old(self)@.keys.contains(key),
            old(self)@.states[old(self)@.keys.index_of(key)] is Running,
        ensures
            final (self).wf(),
            final (self)@ == old(self)@.step_failure(old(self)@.keys.index_of(key), cause@),
            count_pending(final (self)@.states) == count_pending(old(self)@.states),
    {
        let ghost pre = self@;
        let ghost si = pre.keys.index_of(key);
        let iopt = self.index_of(key);
        proof {
            assert(iopt is Some);
        }
        let i = iopt.unwrap();
        proof {
            if si != i {
                assert(pre.keys[si] == pre.keys[i as int]);
            }
            assert(si == i);
            lemma_count_pending_update(pre.states, i as int, ExecState::Failed);
        }
        if self.failure.is_none() {
            self.failure = Some(TaskComputationError { key, cause });
        }
        self.states.set(i, ExecState::Failed);
        proof {
            assert(self@ =~~= pre.step_failure(si, cause@));
            let post = self@;
            assert forall|a: int, b: int|
                0 <= a < post.n() && !(post.states[a] is Pending) && 0 <= b
                    < post.deps[a].len() implies post.states[
                #[trigger] post.deps[a][b] as int
            ] is Completed by {
                assert(pre.states[pre.deps[a][b] as int] is Completed || a == i as int);
                if a == i as int {
                    assert(pre.states[pre.deps[a][b] as int] is Completed);
                }
                assert(pre.deps[a][b] != i as usize);
            }
            assert forall|t: int| 0 <= t < post.n() implies ((#[trigger] post.states[t] is
            Completed) <==> post.store.contains_key(post.keys[t])) by {}
            assert(post.states[i as int] is Failed);
            assert(post.failure is Some);
            if pre.failure is Some {
                let w = choose|t: int|
                    0 <= t < pre.n() && pre.keys[t] == pre.failure.unwrap().0 && (
                    #[trigger] pre.states[t]) is Failed;
                assert(post.states[w] is Failed);
            }
            assert(self.wf());
        }
    }

    /// Whether execution is over: nothing running, and either all tasks
    /// completed or a failure was recorded.
    pub fn is_finished(&self) -> (b: bool)
        requires
            self.wf(),
        ensures
            b == self@.finished(),
    {
        let n = self.states.len();
        let mut any_running = false;
        let mut all_completed = true;
        for i in 0..n
            invariant
                n == self.states@.len(),
                any_running <==> exists|t: int|
                    0 <= t < i && (#[trigger] self.states@[t]) is Running,
                all_completed <==> (forall|t: int|
                    0 <= t < i ==> (#[trigger] self.states@[t]) is Completed),
        {
            if self.states[i] == ExecState::Running {
                any_running = true;
            }
            if !(self.states[i] == ExecState::Completed) {
                all_completed = false;
            }
        }
        !any_running && (self.failure.is_some() || all_completed)
    }

    /// Surrenders the outcome: the full store on success, or the first
    /// failure together with the keys never started. For diagnostics after
    /// a failure, the completed results stay readable in the store until
    /// this call consumes the scheduler.
    pub fn into_outcome(self) -> (r: Result<ResultStore<V>, ExecutionError>)
        requires
            self.wf(),
            self@.finished(),
        ensures
            match r {
                Ok(store) => {
                    &&& self@.failure is None
                    &&& store.wf()
                    &&& store@ == self@.store
                    &&& store@.dom() == self@.keys.to_set()
                },
                Err(e) => {
                    &&& self@.failure == Some((e.failure.key, e.failure.cause@))
                    &&& e.never_started@ == self@.pending_keys()
                    &&& e.never_started@.no_duplicates()
                    &&& forall|t: int|
                        0 <= t < e.never_started@.len() ==> !self@.store.contains_key(
                            #[trigger] e.never_started@[t],
                        )
                    &&& !e.never_started@.contains(e.failure.key)
                },
            },
    {
        let n = self.states.len();
        let mut pending: Vec<TaskKey> = Vec::new();
        for i in 0..n
            invariant
                n == self.states@.len(),
                self.wf(),
                pending@ == pending_keys_upto(self@.keys, self@.states, i as int),
        {
            if self.states[i] == ExecState::Pending {
                pending.push(self.keys[i]);
            }
            proof {
                assert(pending@ =~= pending_keys_upto(self@.keys, self@.states, i as int + 1));
            }
        }
        match self.failure {
            None => {
                proof {
                    assert(self@.store.dom() =~= self@.keys.to_set()) by {
                        assert forall|k: TaskKey| self@.keys.to_set().contains(k) implies
                            self@.store.contains_key(k) by {
                            let t = choose|t: int|
                                0 <= t < self@.keys.len() && self@.keys[t] == k;
                            assert(self@.states[t] is Completed);
                        }
                    }
                }
                Ok(self.store)
            },
            Some(err) => {
                proof {
                    let mo = self@;
                    lemma_pending_keys_props(mo.keys, mo.states, mo.n());
                    let pk = mo.pending_keys();
                    assert forall|t: int| 0 <= t < pk.len() implies !mo.store.contains_key(
                        #[trigger] pk[t],
                    ) by {
                        let i = choose|i: int|
                            0 <= i < mo.n() && mo.keys[i] == pk[t] && mo.states[i] is Pending;
                        assert(!(mo.states[i] is Completed));
                    }
                    let fj = choose|j: int|
                        0 <= j < mo.n() && mo.keys[j] == err.key && (#[trigger] mo.states[j]) is
                        Failed;
                    if pk.contains(err.key) {
                        let t = choose|t: int| 0 <= t < pk.len() && pk[t] == err.key;
                        let i = choose|i: int|
                            0 <= i < mo.n() && mo.keys[i] == pk[t] && mo.states[i] is Pending;
                        assert(i == fj);
                        assert(false);
                    }
                }
                Err(ExecutionError { failure: err, never_started: pending })
            },
        }
    }
}

/// The keys of the ready tasks among the first `n`, in index order.
pub open spec fn ready_keys_upto(
    keys: Seq<TaskKey>,
    deps: Seq<Seq<usize>>,
    states: Seq<ExecState>,
    n: int,
) -> Seq<TaskKey>
    decreases n,
{
    if n <= 0 {
        Seq::empty()
    } else {
        ready_keys_upto(keys, deps, states, n - 1) + if ready_at(deps, states, n - 1) {
            seq![keys[n - 1]]
        } else {
            Seq::empty()
        }
    }
}

impl TaskGraph {
    /// The keys of the tasks that are pending with every dependency
    /// completed, in index order. Pure query; no side effects.
    pub fn ready_set(&self, states: &Vec<ExecState>) -> (r: Vec<TaskKey>)
        requires
            self.wf(),
            states@.len() == self.key_seq().len(),
        ensures
            r@ == ready_keys_upto(
                self.key_seq(),
                self.deps_view(),
                states@,
                self.key_seq().len() as int,
            ),
    {
        let n = self.keys.len();
        let mut out: Vec<TaskKey> = Vec::new();
        for i in 0..n
            invariant
                self.wf(),
                n == self.keys@.len(),
                states@.len() == n,
                out@ == ready_keys_upto(self.key_seq(), self.deps_view(), states@, i as int),
        {
            if states[i] == ExecState::Pending {
                let dl = self.deps[i].len();
                let mut all_done = true;
                for j in 0..dl
                    invariant
                        self.wf(),
                        i < n,
                        n == self.keys@.len(),
                        states@.len() == n,
                        dl == self.deps_view()[i as int].len(),
                        all_done <==> (forall|t: int|
                            0 <= t < j ==> states@[
                                #[trigger] self.deps_view()[i as int][t] as int
                            ] is Completed),
                {
                    let d = self.deps[i][j];
                    assert(d < n);
                    if !(states[d] == ExecState::Completed) {
                        all_done = false;
                    }
                }
                if all_done {
                    out.push(self.keys[i]);
                    proof {
                        assert(ready_at(self.deps_view(), states@, i as int));
                    }
                }
            }
            proof {
                assert(out@ =~= ready_keys_upto(
                    self.key_seq(),
                    self.deps_view(),
                    states@,
                    i as int + 1,
                ));
            }
        }
        out
    }
}

/// Runs a graph to completion with the given runner: launches every ready
/// task, hands it a view scoped to its declared dependencies, publishes
/// successes, records the first failure and drains, and never deadlocks on a
/// well-formed graph. On success the returned store holds a value for every
/// key of the graph; on failure the error names a key of the graph and the
/// keys never started.
pub fn execute<V, R: TaskRunner<V>>(graph: TaskGraph, runner: &R) -> (r: Result<
    ResultStore<V>,
    ExecutionError,
>)
    requires
        graph.wf(),
    ensures
        match r {
            Ok(store) => store.wf() && store@.dom() == graph.key_seq().to_set(),
            Err(e) => graph.key_seq().contains(e.failure.key)
                && e.never_started@.no_duplicates() && !e.never_started@.contains(e.failure.key)
                && forall|t: int|
                0 <= t < e.never_started@.len() ==> graph.key_seq().contains(
                    #[trigger] e.never_started@[t],
                ),
        },
{
    let mut sched: Scheduler<V> = Scheduler::new(graph);
    loop
        invariant
            sched.wf(),
            sched@.keys == graph.key_seq(),
            forall|i: int| 0 <= i < sched@.n() ==> !((#[trigger] sched@.states[i]) is Running),
        ensures
            sched.wf(),
            sched@.keys == graph.key_seq(),
            forall|i: int| 0 <= i < sched@.n() ==> !((#[trigger] sched@.states[i]) is Running),
            sched@.failure is Some || forall|i: int| !sched@.is_ready(i),
        decreases count_pending(sched@.states),
    {
        proof {
            lemma_count_pending_nonneg(sched@.states);
        }
        let ghost before = sched@;
        let launched = sched.launch_next();
        match launched {
            Some(k) => {
                let ghost li = choose|i: int|
                    {
                        &&& #[trigger] before.is_first_ready(i)
                        &&& k == before.keys[i]
                        &&& sched@ == before.step_launch(i)
                    };
                proof {
                    assert(0 <= li < before.n());
                    assert(sched@.keys[li] == k);
                    assert(sched@.keys.contains(k));
                    let si = sched@.keys.index_of(k);
                    if si != li {
                        assert(sched@.keys[si] == sched@.keys[li]);
                    }
                    assert(si == li);
                    assert(sched@.states[si] is Running);
                }
                let allowed = sched.declared_deps(k);
                let view = DepView { store: &sched.store, allowed: &allowed };
                let outcome = runner.run(k, &view);
                let ghost mid = sched@;
                match outcome {
                    Ok(v) => sched.report_success(k, v),
                    Err(cause) => sched.report_failure(k, cause),
                }
                proof {
                    let si = mid.keys.index_of(k);
                    assert(si == li);
                    assert forall|t: int| 0 <= t < sched@.n() implies !((
                    #[trigger] sched@.states[t]) is Running) by {
                        if t != li {
                            assert(sched@.states[t] == before.states[t]);
                        }
                    }
                    lemma_count_pending_nonneg(sched@.states);
                }
            },
            None => {
                break ;
            },
        }
    }
    proof {
        if sched@.failure is None {
            if exists|i: int| 0 <= i < sched@.n() && (#[trigger] sched@.states[i]) is Pending {
                lemma_progress(sched@);
                assert(false);
            }
            assert forall|i: int| 0 <= i < sched@.n() implies (#[trigger] sched@.states[i]) is
            Completed by {
                assert(!(sched@.states[i] is Pending));
                assert(!(sched@.states[i] is Running));
                assert(!(sched@.states[i] is Failed));
            }
        }
        assert(sched@.finished());
    }
    let ghost m = sched@;
    let out = sched.into_outcome();
    proof {
        match out {
            Ok(_) => {},
            Err(ref e) => {
                assert(m.failure == Some((e.failure.key, e.failure.cause@)));
                let w = choose|t: int|
                    0 <= t < m.n() && m.keys[t] == e.failure.key && (#[trigger] m.states[t]) is
                    Failed;
                assert(m.keys[w] == e.failure.key);
                assert(m.keys.contains(e.failure.key));
                lemma_pending_keys_membership(m.keys, m.states, m.n());
            },
        }
    }
    out
}

pub proof fn lemma_count_pending_nonneg(states: Seq<ExecState>)
    ensures
        count_pending(states) >= 0,
    decreases states.len(),
{
    if states.len() > 0 {
        lemma_count_pending_nonneg(states.drop_last());
    }
}

/// The never-started keys are distinct and each belongs to a task whose
/// state is still `Pending`.
proof fn lemma_pending_keys_props(keys: Seq<TaskKey>, states: Seq<ExecState>, n: int)
    requires
        keys.no_duplicates(),
        n <= keys.len(),
        n <= states.len(),
    ensures
        pending_keys_upto(keys, states, n).no_duplicates(),
        forall|t: int|
            0 <= t < pending_keys_upto(keys, states, n).len() ==> exists|i: int|
                0 <= i < n && keys[i] == #[trigger] pending_keys_upto(keys, states, n)[t] && states[
                    i
                ] is Pending,
    decreases n,
{
    if n > 0 {
        lemma_pending_keys_props(keys, states, n - 1);
        let prev = pending_keys_upto(keys, states, n - 1);
        let cur = pending_keys_upto(keys, states, n);
        assert forall|t: int| 0 <= t < cur.len() implies exists|i: int|
            0 <= i < n && keys[i] == #[trigger] cur[t] && states[i] is Pending by {
            if t < prev.len() {
                assert(cur[t] == prev[t]);
                let i = choose|i: int|
                    0 <= i < n - 1 && keys[i] == prev[t] && states[i] is Pending;
                assert(keys[i] == cur[t] && states[i] is Pending);
            } else {
                assert(states[n - 1] is Pending);
                assert(cur[t] == keys[n - 1]);
            }
        }
        assert(cur.no_duplicates()) by {
            assert forall|a: int, b: int|
                0 <= a < cur.len() && 0 <= b < cur.len() && a != b implies cur[a] != cur[b] by {
                if a < prev.len() && b < prev.len() {
                    assert(cur[a] == prev[a] && cur[b] == prev[b]);
                } else if a < prev.len() {
                    assert(cur[b] == keys[n - 1] && cur[a] == prev[a]);
                    let i = choose|i: int|
                        0 <= i < n - 1 && keys[i] == prev[a] && states[i] is Pending;
                    assert(keys[i] != keys[n - 1]);
                } else if b < prev.len() {
                    assert(cur[a] == keys[n - 1] && cur[b] == prev[b]);
                    let i = choose|i: int|
                        0 <= i < n - 1 && keys[i] == prev[b] && states[i] is Pending;
                    assert(keys[i] != keys[n - 1]);
                }
            }
        }
    }
}

proof fn lemma_pending_keys_membership(keys: Seq<TaskKey>, states: Seq<ExecState>, n: int)
    requires
        n <= keys.len(),
        n <= states.len(),
    ensures
        forall|t: int|
            0 <= t < pending_keys_upto(keys, states, n).len() ==> keys.contains(
                #[trigger] pending_keys_upto(keys, states, n)[t],
            ),
    decreases n,
{
    if n > 0 {
        lemma_pending_keys_membership(keys, states, n - 1);
        assert forall|t: int|
            0 <= t < pending_keys_upto(keys, states, n).len() implies keys.contains(
            #[trigger] pending_keys_upto(keys, states, n)[t],
        ) by {
            if t < pending_keys_upto(keys, states, n - 1).len() {
                assert(pending_keys_upto(keys, states, n)[t] == pending_keys_upto(
                    keys,
                    states,
                    n - 1,
                )[t]);
            } else {
                assert(states[n - 1] is Pending);
                assert(pending_keys_upto(keys, states, n)[t] == keys[n - 1]);
            }
        }
    }
}

} // verus!
