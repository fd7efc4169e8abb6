use vstd::prelude::*;

use crate::errors::{DuplicateKeyError, GraphError};

verus! {

/// Identity of a task inside one graph. Opaque to the executor: it is only
/// compared for equality.
pub type TaskKey = u64;

/// Identifier handed back by `add_task`: the task's index in insertion order.
pub type TaskId = usize;

/// A named unit of work. Its computation is supplied separately, to
/// `execute`, through a `TaskRunner`; the graph records only identity and
/// dependency structure.
#[derive(Clone, Copy, Debug, PartialEq, Eq)]
pub struct Task {
    pub key: TaskKey,
}

impl Task {
    pub fn new(key: TaskKey) -> (t: Task)
        ensures
            t.key == key,
    {
        Task { key }
    }
}

/// A dependency path: consecutive nodes are joined by dependency edges.
/// `deps[c]` holding `p` is the edge (p, c): task `c` must not start before
/// task `p` has published. A path walks edges forward, from producers toward
/// consumers.
pub open spec fn path_ok(deps: Seq<Seq<usize>>, path: Seq<usize>) -> bool {
    &&& path.len() >= 1
    &&& (forall|i: int| 0 <= i < path.len() ==> (#[trigger] path[i]) < deps.len())
    &&& (forall|i: int|
        #![trigger path[i]]
        0 <= i < path.len() - 1 ==> deps[path[i + 1] as int].contains(path[i]))
}

/// Some dependency path leads from `from` to `to`; reflexive for valid nodes.
pub open spec fn reaches(deps: Seq<Seq<usize>>, from: usize, to: usize) -> bool {
    exists|path: Seq<usize>|
        #[trigger] path_ok(deps, path) && path.first() == from && path.last() == to
}

/// Some dependency path of at least one edge leads from `from` to `to`.
pub open spec fn reaches_plus(deps: Seq<Seq<usize>>, from: usize, to: usize) -> bool {
    exists|path: Seq<usize>|
        #[trigger] path_ok(deps, path) && path.len() >= 2 && path.first() == from && path.last()
            == to
}

/// No dependency path of one or more edges returns to its starting node.
pub open spec fn acyclic(deps: Seq<Seq<usize>>) -> bool {
    forall|path: Seq<usize>|
        #[trigger] path_ok(deps, path) && path.len() >= 2 ==> path.first() != path.last()
}

/// Every recorded dependency names a node of the graph.
pub open spec fn deps_bounded(deps: Seq<Seq<usize>>) -> bool {
    forall|i: int, j: int|
        0 <= i < deps.len() && 0 <= j < deps[i].len() ==> (#[trigger] deps[i][j]) < deps.len()
}

/// The edge set after recording that `ic` depends on `ip`.
pub open spec fn add_edge(deps: Seq<Seq<usize>>, ip: int, ic: int) -> Seq<Seq<usize>> {
    deps.update(ic, deps[ic].push(ip as usize))
}

pub proof fn lemma_reaches_self(deps: Seq<Seq<usize>>, x: usize)
    requires
        x < deps.len(),
    ensures
        reaches(deps, x, x),
{
    let path = seq![x];
    assert(path_ok(deps, path));
    assert(path.first() == x && path.last() == x);
}

pub proof fn lemma_reaches_plus_weaken(deps: Seq<Seq<usize>>, from: usize, to: usize)
    requires
        reaches_plus(deps, from, to),
    ensures
        reaches(deps, from, to),
{
    let path = choose|path: Seq<usize>|
        #[trigger] path_ok(deps, path) && path.len() >= 2 && path.first() == from && path.last()
            == to;
    assert(path_ok(deps, path) && path.first() == from && path.last() == to);
}

/// An edge (w, u) prepended to a path from `u` gives a path from `w`.
pub proof fn lemma_reaches_prepend(deps: Seq<Seq<usize>>, w: usize, u: usize, to: usize)
    requires
        u < deps.len(),
        w < deps.len(),
        deps[u as int].contains(w),
        reaches(deps, u, to),
    ensures
        reaches_plus(deps, w, to),
{
    let path = choose|path: Seq<usize>|
        #[trigger] path_ok(deps, path) && path.first() == u && path.last() == to;
    let q = seq![w] + path;
    assert forall|i: int|
        #![trigger q[i]]
        0 <= i < q.len() - 1 implies deps[q[i + 1] as int].contains(q[i]) by {
        if i == 0 {
            assert(q[0] == w && q[1] == path[0]);
        } else {
            assert(q[i] == path[i - 1] && q[i + 1] == path[i]);
        }
    }
    assert(forall|i: int| 0 <= i < q.len() ==> (#[trigger] q[i]) < deps.len());
    assert(path_ok(deps, q));
    assert(q.first() == w && q.last() == to);
}

/// Dependency paths compose.
pub proof fn lemma_reaches_trans(deps: Seq<Seq<usize>>, x: usize, y: usize, z: usize)
    requires
        reaches(deps, x, y),
        reaches(deps, y, z),
    ensures
        reaches(deps, x, z),
{
    let p1 = choose|p: Seq<usize>|
        #[trigger] path_ok(deps, p) && p.first() == x && p.last() == y;
    let p2 = choose|p: Seq<usize>|
        #[trigger] path_ok(deps, p) && p.first() == y && p.last() == z;
    if p2.len() == 1 {
        assert(y == z);
        assert(path_ok(deps, p1) && p1.first() == x && p1.last() == z);
    } else {
        let q = p1 + p2.subrange(1, p2.len() as int);
        assert forall|i: int| 0 <= i < q.len() - 1 implies #[trigger] deps[q[i
            + 1] as int].contains(q[i]) by {
            if i < p1.len() - 1 {
                assert(q[i] == p1[i] && q[i + 1] == p1[i + 1]);
            } else if i == p1.len() - 1 {
                assert(q[i] == p1.last() && q[i + 1] == p2[1]);
                assert(p1.last() == p2[0]);
            } else {
                let j = i - p1.len() + 1;
                assert(q[i] == p2[j] && q[i + 1] == p2[j + 1]);
            }
        }
        assert(path_ok(deps, q));
        assert(q.first() == x && q.last() == z);
    }
}

/// Any path of the enlarged edge set either stands in the old one, or passes
/// through the new edge (ip, ic), splitting into a path to `ip` and one from
/// `ic`.
proof fn lemma_path_after_add(deps: Seq<Seq<usize>>, ip: usize, ic: usize, path: Seq<usize>)
    requires
        ip < deps.len(),
        ic < deps.len(),
        path_ok(add_edge(deps, ip as int, ic as int), path),
        path.len() >= 2,
    ensures
        reaches_plus(deps, path.first(), path.last()) || (reaches(deps, path.first(), ip)
            && reaches(deps, ic, path.last())),
    decreases path.len(),
{
    let deps2 = add_edge(deps, ip as int, ic as int);
    let x = path.first();
    let z = path[1];
    // The first edge of the path: x -> z.
    assert(x == path[0] && z == path[1]);
    assert(deps2[z as int].contains(x));
    let new_only = z == ic && !deps[z as int].contains(x);
    if new_only {
        // deps2[ic] is deps[ic] with ip pushed, so x can only be ip.
        let row2 = deps2[ic as int];
        let k = choose|k: int| 0 <= k < row2.len() && row2[k] == x;
        assert(row2 == deps[ic as int].push(ip));
        if k < deps[ic as int].len() {
            assert(deps[ic as int][k] == x);
            assert(deps[ic as int].contains(x));
            assert(false);
        }
        assert(x == ip);
        lemma_reaches_self(deps, ip);
    }
    if path.len() == 2 {
        if new_only {
            lemma_reaches_self(deps, ic);
            assert(path.last() == ic);
        } else {
            assert(path_ok(deps, path)) by {
                assert(forall|i: int|
                    0 <= i < path.len() ==> (#[trigger] path[i]) < deps.len());
            }
            assert(reaches_plus(deps, path.first(), path.last()));
        }
    } else {
        let rest = path.subrange(1, path.len() as int);
        assert(path_ok(deps2, rest)) by {
            assert forall|i: int|
                #![trigger rest[i]]
                0 <= i < rest.len() - 1 implies deps2[rest[i + 1] as int].contains(rest[i]) by {
                assert(rest[i] == path[i + 1] && rest[i + 1] == path[i + 2]);
            }
            assert(forall|i: int| 0 <= i < rest.len() ==> (#[trigger] rest[i]) < deps2.len());
        }
        assert(rest.first() == z && rest.last() == path.last());
        lemma_path_after_add(deps, ip, ic, rest);
        if new_only {
            // Second disjunct: x == ip reaches ip; and ic reaches the end.
            if reaches_plus(deps, z, path.last()) {
                lemma_reaches_plus_weaken(deps, z, path.last());
                assert(reaches(deps, ic, path.last()));
            } else {
                assert(reaches(deps, ic, path.last()));
            }
        } else {
            assert(deps[z as int].contains(x));
            if reaches_plus(deps, z, path.last()) {
                lemma_reaches_plus_weaken(deps, z, path.last());
                lemma_reaches_prepend(deps, x, z, path.last());
            } else {
                lemma_reaches_prepend(deps, x, z, ip);
                lemma_reaches_plus_weaken(deps, x, ip);
            }
        }
    }
}

/// Adding the edge (ip, ic) keeps the graph acyclic, provided no dependency
/// path already led from `ic` back to `ip`.
pub proof fn lemma_acyclic_add_edge(deps: Seq<Seq<usize>>, ip: usize, ic: usize)
    requires
        ip < deps.len(),
        ic < deps.len(),
        acyclic(deps),
        !reaches(deps, ic, ip),
    ensures
        acyclic(add_edge(deps, ip as int, ic as int)),
{
    let deps2 = add_edge(deps, ip as int, ic as int);
    assert forall|path: Seq<usize>|
        #[trigger] path_ok(deps2, path) && path.len() >= 2 implies path.first()
        != path.last() by {
        if path.first() == path.last() {
            lemma_path_after_add(deps, ip, ic, path);
            if reaches_plus(deps, path.first(), path.last()) {
                let w = choose|w: Seq<usize>|
                    #[trigger] path_ok(deps, w) && w.len() >= 2 && w.first() == path.first()
                        && w.last() == path.last();
                assert(w.first() != w.last());
                assert(false);
            } else {
                lemma_reaches_trans(deps, ic, path.last(), ip);
                assert(false);
            }
        }
    }
}

/// A node with no recorded producers cannot be reached from any other node.
pub proof fn lemma_unreachable_no_producers(deps: Seq<Seq<usize>>, from: usize, to: usize)
    requires
        from < deps.len(),
        to < deps.len(),
        from != to,
        deps[to as int].len() == 0,
    ensures
        !reaches(deps, from, to),
{
    if reaches(deps, from, to) {
        let p = choose|p: Seq<usize>|
            #[trigger] path_ok(deps, p) && p.first() == from && p.last() == to;
        if p.len() == 1 {
            assert(from == to);
        } else {
            assert(deps[p[p.len() - 1] as int].contains(p[p.len() - 2]));
            let k = choose|k: int|
                0 <= k < deps[to as int].len() && deps[to as int][k] == p[p.len() - 2];
            assert(false);
        }
    }
}

/// Appending a fresh node with no edges keeps the graph acyclic.
pub proof fn lemma_acyclic_push_node(deps: Seq<Seq<usize>>)
    requires
        acyclic(deps),
        deps_bounded(deps),
    ensures
        acyclic(deps.push(Seq::<usize>::empty())),
{
    let deps2 = deps.push(Seq::<usize>::empty());
    let n = deps.len() as int;
    assert forall|path: Seq<usize>|
        #[trigger] path_ok(deps2, path) && path.len() >= 2 implies path.first()
        != path.last() by {
        if path.first() == path.last() {
            assert forall|i: int| 0 <= i < path.len() implies (#[trigger] path[i]) != n by {
                if path[i] == n {
                    if i < path.len() - 1 {
                        assert(deps2[path[i + 1] as int].contains(path[i]));
                        if path[i + 1] == n {
                            assert(deps2[n].len() == 0);
                            assert(false);
                        } else {
                            assert(deps2[path[i + 1] as int] == deps[path[i + 1] as int]);
                            let row = deps[path[i + 1] as int];
                            let k = choose|k: int| 0 <= k < row.len() && row[k] == path[i];
                            assert(row[k] < deps.len());
                            assert(false);
                        }
                    } else {
                        assert(deps2[path[i] as int].contains(path[i - 1]));
                        assert(deps2[n].len() == 0);
                        assert(false);
                    }
                }
            }
            assert(path_ok(deps, path)) by {
                assert forall|i: int| 0 <= i < path.len() - 1 implies #[trigger] deps[path[i
                    + 1] as int].contains(path[i]) by {
                    assert(deps2[path[i + 1] as int].contains(path[i]));
                    assert(path[i + 1] != n);
                }
            }
            assert(false);
        }
    }
}

/// If `vis` marks `start`, is closed under stepping to a node's recorded
/// dependencies, then it marks everything that reaches `start`.
proof fn lemma_path_visited(deps: Seq<Seq<usize>>, vis: Seq<bool>, path: Seq<usize>)
    requires
        vis.len() == deps.len(),
        path_ok(deps, path),
        vis[path.last() as int],
        forall|x: int, j: int|
            0 <= x < deps.len() && vis[x] && 0 <= j < deps[x].len() ==> vis[
                #[trigger] deps[x][j] as int
            ],
    ensures
        vis[path.first() as int],
    decreases path.len(),
{
    if path.len() == 1 {
    } else {
        let last = path.last();
        let prev = path[path.len() - 2];
        assert(deps[last as int].contains(prev));
        let row = deps[last as int];
        let k = choose|k: int| 0 <= k < row.len() && row[k] == prev;
        assert(vis[deps[last as int][k] as int]);
        let shorter = path.drop_last();
        assert(path_ok(deps, shorter)) by {
            assert forall|i: int|
                #![trigger shorter[i]]
                0 <= i < shorter.len() - 1 implies deps[shorter[i + 1] as int].contains(
                shorter[i],
            ) by {
                assert(shorter[i] == path[i] && shorter[i + 1] == path[i + 1]);
            }
            assert(forall|i: int| 0 <= i < shorter.len() ==> (#[trigger] shorter[i]) < deps.len());
        }
        assert(shorter.last() == prev && shorter.first() == path.first());
        lemma_path_visited(deps, vis, shorter);
    }
}

/// How many entries of a boolean sequence are set.
pub closed spec fn count_true(s: Seq<bool>) -> int
    decreases s.len(),
{
    if s.len() == 0 {
        0
    } else {
        count_true(s.drop_last()) + if s.last() {
            1int
        } else {
            0int
        }
    }
}

proof fn lemma_count_true_le_len(s: Seq<bool>)
    ensures
        0 <= count_true(s) <= s.len(),
    decreases s.len(),
{
    if s.len() > 0 {
        lemma_count_true_le_len(s.drop_last());
    }
}

proof fn lemma_count_true_update(s: Seq<bool>, i: int)
    requires
        0 <= i < s.len(),
        !s[i],
    ensures
        count_true(s.update(i, true)) == count_true(s) + 1,
    decreases s.len(),
{
    let s2 = s.update(i, true);
    if i == s.len() - 1 {
        assert(s2.drop_last() =~= s.drop_last());
    } else {
        assert(s2.drop_last() =~= s.drop_last().update(i, true));
        lemma_count_true_update(s.drop_last(), i);
    }
}

/// The set of tasks plus the directed acyclic dependency edges between them.
pub struct TaskGraph {
    pub keys: Vec<TaskKey>,
    pub deps: Vec<Vec<usize>>,
}

impl TaskGraph {
    /// The dependency lists, as a sequence of sequences of node indices.
    pub open spec fn deps_view(&self) -> Seq<Seq<usize>> {
        Seq::new(self.deps@.len(), |i: int| self.deps@[i]@)
    }

    /// The task keys, in insertion order.
    pub open spec fn key_seq(&self) -> Seq<TaskKey> {
        self.keys@
    }

    pub open spec fn key_set(&self) -> Set<TaskKey> {
        self.keys@.to_set()
    }

    pub open spec fn task_count(&self) -> nat {
        self.keys@.len()
    }

    pub open spec fn has_key(&self, k: TaskKey) -> bool {
        self.keys@.contains(k)
    }

    /// The node index of a key (meaningful when `has_key` holds: keys are
    /// unique).
    pub open spec fn index_of_key(&self, k: TaskKey) -> int {
        self.keys@.index_of(k)
    }

    pub open spec fn sizes_ok(&self) -> bool {
        &&& self.deps@.len() == self.keys@.len()
        &&& self.keys@.no_duplicates()
        &&& deps_bounded(self.deps_view())
    }

    pub open spec fn wf(&self) -> bool {
        &&& self.sizes_ok()
        &&& acyclic(self.deps_view())
    }

    pub fn new() -> (g: TaskGraph)
        ensures
            g.wf(),
            g.key_seq() == Seq::<TaskKey>::empty(),
            g.deps_view() == Seq::<Seq<usize>>::empty(),
    {
        let g = TaskGraph { keys: Vec::new(), deps: Vec::new() };
        proof {
            assert(g.deps_view() =~= Seq::<Seq<usize>>::empty());
            assert forall|path: Seq<usize>|
                #[trigger] path_ok(g.deps_view(), path) && path.len() >= 2 implies path.first()
                != path.last() by {
                assert(path[0] < 0);
            }
        }
        g
    }

    pub fn len(&self) -> (n: usize)
        ensures
            n == self.task_count(),
    {
        self.keys.len()
    }

    /// The index of `k` among the keys, scanning from the front.
    fn find_key(&self, k: TaskKey) -> (r: Option<usize>)
        ensures
            match r {
                Some(i) => i < self.keys@.len() && self.keys@[i as int] == k && forall|j: int|
                    0 <= j < i ==> self.keys@[j] != k,
                None => !self.keys@.contains(k),
            },
    {
        let n = self.keys.len();
        for i in 0..n
            invariant
                n == self.keys@.len(),
                forall|j: int| 0 <= j < i ==> self.keys@[j] != k,
        {
            if self.keys[i] == k {
                return Some(i);
            }
        }
        None
    }

    /// Inserts a task; fails, leaving the graph unchanged, if its key is
    /// already present.
    pub fn add_task(&mut self, task: Task) -> (r: Result<TaskId, DuplicateKeyError>)
        requires
            old(self).wf(),
        ensures
            final (self).wf(),
            match r {
                Ok(id) => {
                    &&& !old(self).has_key(task.key)
                    &&& id == old(self).task_count()
                    &&& final (self).key_seq() == old(self).key_seq().push(task.key)
                    &&& final (self).deps_view() == old(self).deps_view().push(
                        Seq::<usize>::empty(),
                    )
                },
                Err(e) => {
                    &&& e.key == task.key
                    &&& old(self).has_key(task.key)
                    &&& *final (self) == *old(self)
                },
            },
    {
        match self.find_key(task.key) {
            Some(_) => Err(DuplicateKeyError { key: task.key }),
            None => {
                let id = self.keys.len();
                proof {
                    lemma_acyclic_push_node(self.deps_view());
                }
                let ghost old_deps = self.deps_view();
                self.keys.push(task.key);
                self.deps.push(Vec::new());
                proof {
                    assert(self.deps_view() =~= old_deps.push(Seq::<usize>::empty()));
                    assert(self.keys@.no_duplicates());
                }
                Ok(id)
            },
        }
    }

    /// Marks, for every node, whether some dependency path leads from it to
    /// `start`.
    fn ancestor_marks(&self, start: usize) -> (vis: Vec<bool>)
        requires
            self.sizes_ok(),
            start < self.keys@.len(),
        ensures
            vis@.len() == self.keys@.len(),
            forall|x: usize|
                x < vis@.len() ==> ((#[trigger] vis@[x as int]) <==> reaches(
                    self.deps_view(),
                    x,
                    start,
                )),
    {
        let n = self.keys.len();
        let ghost deps = self.deps_view();
        let mut vis: Vec<bool> = vec![false; n];
        let mut stack: Vec<usize> = Vec::new();
        vis.set(start, true);
        stack.push(start);
        proof {
            lemma_reaches_self(deps, start);
            assert(stack@[0] == start);
            assert(stack@.contains(start));
        }
        while stack.len() > 0
            invariant
                self.sizes_ok(),
                deps == self.deps_view(),
                start < n,
                n == self.keys@.len(),
                vis@.len() == n,
                vis@[start as int],
                forall|x: int| 0 <= x < n && #[trigger] vis@[x] ==> reaches(deps, x as usize, start),
                forall|t: int| 0 <= t < stack@.len() ==> (#[trigger] stack@[t]) < n,
                forall|t: int| 0 <= t < stack@.len() ==> vis@[#[trigger] stack@[t] as int],
                forall|x: int, j: int|
                    0 <= x < n && vis@[x] && !stack@.contains(x as usize) && 0 <= j
                        < deps[x].len() ==> vis@[#[trigger] deps[x][j] as int],
            decreases 2 * (n - count_true(vis@)) + stack@.len(),
        {
            proof {
                lemma_count_true_le_len(vis@);
            }
            let ghost stack_before = stack@;
            let u = stack.pop().unwrap();
            let ghost stack_now = stack@;
            proof {
                assert(stack_before == stack_now.push(u));
                assert forall|x: usize| stack_before.contains(x) && x != u implies
                    stack_now.contains(x) by {
                    let t = choose|t: int|
                        0 <= t < stack_before.len() && stack_before[t] == x;
                    assert(stack_now[t] == x);
                }
            }
            let du = self.deps[u].len();
            let ghost vis_entry = vis@;
            for j in 0..du
                invariant
                    self.sizes_ok(),
                    deps == self.deps_view(),
                    u < n,
                    start < n,
                    du == deps[u as int].len(),
                    n == self.keys@.len(),
                    vis@.len() == n,
                    vis@[start as int],
                    reaches(deps, u, start),
                    forall|x: int|
                        0 <= x < n && #[trigger] vis@[x] ==> reaches(deps, x as usize, start),
                    forall|t: int| 0 <= t < stack@.len() ==> (#[trigger] stack@[t]) < n,
                    forall|t: int| 0 <= t < stack@.len() ==> vis@[#[trigger] stack@[t] as int],
                    forall|x: int, jj: int|
                        0 <= x < n && vis@[x] && x != u && !stack@.contains(x as usize) && 0 <= jj
                            < deps[x].len() ==> vis@[#[trigger] deps[x][jj] as int],
                    forall|jj: int| 0 <= jj < j ==> vis@[#[trigger] deps[u as int][jj] as int],
                    forall|x: int| 0 <= x < n && vis_entry[x] ==> vis@[x],
                    2 * (n - count_true(vis@)) + stack@.len() <= 2 * (n - count_true(vis_entry))
                        + stack_now.len(),
            {
                let w = self.deps[u][j];
                assert(w < n);
                if !vis[w] {
                    proof {
                        lemma_count_true_update(vis@, w as int);
                        lemma_reaches_prepend(deps, w, u, start);
                        lemma_reaches_plus_weaken(deps, w, start);
                    }
                    let ghost pre_stack = stack@;
                    vis.set(w, true);
                    stack.push(w);
                    proof {
                        assert(stack@.last() == w);
                        assert(stack@.contains(w));
                        assert forall|x: usize| pre_stack.contains(x) implies stack@.contains(
                            x,
                        ) by {
                            let t = choose|t: int|
                                0 <= t < pre_stack.len() && pre_stack[t] == x;
                            assert(stack@[t] == x);
                        }
                    }
                }
            }
            proof {
                lemma_count_true_le_len(vis@);
                lemma_count_true_le_len(vis_entry);
            }
        }
        proof {
            assert forall|x: usize|
                x < vis@.len() && reaches(deps, x, start) implies vis@[x as int] by {
                let path = choose|path: Seq<usize>|
                    #[trigger] path_ok(deps, path) && path.first() == x && path.last() == start;
                lemma_path_visited(deps, vis@, path);
            }
        }
        vis
    }

    /// Records that `consumer` depends on `producer`. Fails with
    /// `UnknownKey` when either key is absent and with `Cycle` when the edge
    /// would close a dependency cycle; on any failure the graph is exactly
    /// unchanged.
    pub fn add_dependency(&mut self, producer: TaskKey, consumer: TaskKey) -> (r: Result<
        (),
        GraphError,
    >)
        requires
            old(self).wf(),
        ensures
            final (self).wf(),
            final (self).key_seq() == old(self).key_seq(),
            match r {
                Ok(()) => {
                    &&& old(self).has_key(producer)
                    &&& old(self).has_key(consumer)
                    &&& !reaches(
                        old(self).deps_view(),
                        old(self).index_of_key(consumer) as usize,
                        old(self).index_of_key(producer) as usize,
                    )
                    &&& final (self).deps_view() == add_edge(
                        old(self).deps_view(),
                        old(self).index_of_key(producer),
                        old(self).index_of_key(consumer),
                    )
                },
                Err(GraphError::UnknownKey(k)) => {
                    &&& *final (self) == *old(self)
                    &&& ((k == producer && !old(self).has_key(producer)) || (k == consumer && old(
                        self,
                    ).has_key(producer) && !old(self).has_key(consumer)))
                },
                Err(GraphError::Cycle) => {
                    &&& *final (self) == *old(self)
                    &&& old(self).has_key(producer)
                    &&& old(self).has_key(consumer)
                    &&& reaches(
                        old(self).deps_view(),
                        old(self).index_of_key(consumer) as usize,
                        old(self).index_of_key(producer) as usize,
                    )
                },
            },
    {
        let ip = match self.find_key(producer) {
            Some(i) => i,
            None => {
                return Err(GraphError::UnknownKey(producer));
            },
        };
        let ic = match self.find_key(consumer) {
            Some(i) => i,
            None => {
                return Err(GraphError::UnknownKey(consumer));
            },
        };
        proof {
            // The scan finds the first match; with unique keys it is the
            // chosen index of the spec.
            let si = self.keys@.index_of(producer);
            if si != ip {
                assert(self.keys@[si] == self.keys@[ip as int]);
            }
            let sc = self.keys@.index_of(consumer);
            if sc != ic {
                assert(self.keys@[sc] == self.keys@[ic as int]);
            }
        }
        let vis = self.ancestor_marks(ip);
        if vis[ic] {
            return Err(GraphError::Cycle);
        }
        proof {
            lemma_acyclic_add_edge(self.deps_view(), ip, ic);
        }
        let ghost old_deps = self.deps_view();
        let mut row = self.deps.remove(ic);
        row.push(ip);
        self.deps.insert(ic, row);
        proof {
            assert(self.deps_view() =~= add_edge(old_deps, ip as int, ic as int));
        }
        Ok(())
    }
}

} // verus!
