use ace_dag::errors::{DepLookupError, GraphError};
use ace_dag::executor::{execute, ExecState, Scheduler, TaskRunner};
use ace_dag::graph::{Task, TaskGraph, TaskKey};
use ace_dag::store::{DepView, ResultStore};

const A: TaskKey = 0;
const B: TaskKey = 1;
const C: TaskKey = 2;
const D: TaskKey = 3;

fn diamond_graph() -> TaskGraph {
    let mut g = TaskGraph::new();
    g.add_task(Task::new(A)).unwrap();
    g.add_task(Task::new(B)).unwrap();
    g.add_task(Task::new(C)).unwrap();
    g.add_task(Task::new(D)).unwrap();
    g.add_dependency(A, D).unwrap();
    g.add_dependency(B, D).unwrap();
    g.add_dependency(C, D).unwrap();
    g
}

struct DiamondRunner;

struct ConstSeven;

impl TaskRunner<u64> for ConstSeven {
    fn run(&self, _k: TaskKey, _v: &DepView<u64>) -> Result<u64, String> {
        Ok(7)
    }
}

struct KeyPlusHundred;

impl TaskRunner<u64> for KeyPlusHundred {
    fn run(&self, k: TaskKey, _v: &DepView<u64>) -> Result<u64, String> {
        Ok(k + 100)
    }
}

struct FailOnA;

impl TaskRunner<u64> for FailOnA {
    fn run(&self, k: TaskKey, _v: &DepView<u64>) -> Result<u64, String> {
        if k == A {
            Err("broken".to_string())
        } else {
            Ok(0)
        }
    }
}

impl TaskRunner<u64> for DiamondRunner {
    fn run(&self, key: TaskKey, view: &DepView<u64>) -> Result<u64, String> {
        match key {
            0 => Ok(1),
            1 => Ok(2),
            2 => Ok(3),
            3 => {
                let a = *view.get(A).map_err(|_| "A missing".to_string())?;
                let b = *view.get(B).map_err(|_| "B missing".to_string())?;
                let c = *view.get(C).map_err(|_| "C missing".to_string())?;
                // The scoped view must refuse a key outside the declared
                // dependency set even though a value for it exists.
                assert!(matches!(view.get(99), Err(DepLookupError::Undeclared(99))));
                Ok(10 * a + 5 * b + c)
            },
            _ => Err("unexpected key".to_string()),
        }
    }
}

#[test]
fn diamond_graph_sees_exactly_its_dependencies() {
    let store = execute(diamond_graph(), &DiamondRunner).unwrap();
    let mut pairs = store.drain_all();
    pairs.sort();
    assert_eq!(pairs, vec![(A, 1), (B, 2), (C, 3), (D, 10 * 1 + 5 * 2 + 3)]);
}

#[test]
fn duplicate_key_is_rejected_and_original_kept() {
    let mut g = TaskGraph::new();
    g.add_task(Task::new(A)).unwrap();
    let err = g.add_task(Task::new(A)).unwrap_err();
    assert_eq!(err.key, A);
    // The original task is untouched: the graph still has exactly one task
    // and it still executes.
    assert_eq!(g.len(), 1);
    let store = execute(g, &ConstSeven).unwrap();
    assert_eq!(store.drain_all(), vec![(A, 7)]);
}

#[test]
fn missing_dependency_target_is_rejected() {
    let mut g = TaskGraph::new();
    g.add_task(Task::new(A)).unwrap();
    let err = g.add_dependency(A, B).unwrap_err();
    assert!(matches!(err, GraphError::UnknownKey(k) if k == B));
    let err = g.add_dependency(B, A).unwrap_err();
    assert!(matches!(err, GraphError::UnknownKey(k) if k == B));
}

#[test]
fn closing_edge_of_a_cycle_is_rejected() {
    let mut g = TaskGraph::new();
    g.add_task(Task::new(A)).unwrap();
    g.add_task(Task::new(B)).unwrap();
    g.add_task(Task::new(C)).unwrap();
    g.add_dependency(A, B).unwrap();
    g.add_dependency(B, C).unwrap();
    // C -> A would close the cycle A -> B -> C -> A.
    assert!(matches!(g.add_dependency(C, A), Err(GraphError::Cycle)));
    // Self-dependency is the smallest cycle.
    assert!(matches!(g.add_dependency(A, A), Err(GraphError::Cycle)));
    // The graph is unchanged by the rejections: the chain still runs in
    // dependency order.
    let store = execute(g, &KeyPlusHundred).unwrap();
    let mut pairs = store.drain_all();
    pairs.sort();
    assert_eq!(pairs, vec![(A, 100), (B, 101), (C, 102)]);
}

#[test]
fn producer_publishes_before_consumer_launches() {
    let mut g = TaskGraph::new();
    g.add_task(Task::new(A)).unwrap();
    g.add_task(Task::new(B)).unwrap();
    g.add_dependency(A, B).unwrap();
    let mut sched: Scheduler<u64> = Scheduler::new(g);
    assert_eq!(sched.launch_next(), Some(A));
    // B is not ready while A runs.
    assert_eq!(sched.launch_next(), None);
    sched.report_success(A, 41);
    // A's value is observable before B is ever launched, and stays so.
    assert_eq!(*sched.store.get(A).unwrap(), 41);
    assert_eq!(sched.launch_next(), Some(B));
    assert_eq!(*sched.store.get(A).unwrap(), 41);
    sched.report_success(B, 42);
    assert!(sched.is_finished());
    let store = sched.into_outcome().unwrap();
    let mut pairs = store.drain_all();
    pairs.sort();
    assert_eq!(pairs, vec![(A, 41), (B, 42)]);
}

#[test]
fn independent_completion_order_does_not_change_contents() {
    let make = || {
        let mut g = TaskGraph::new();
        g.add_task(Task::new(A)).unwrap();
        g.add_task(Task::new(B)).unwrap();
        g
    };
    let mut s1: Scheduler<u64> = Scheduler::new(make());
    assert_eq!(s1.launch_next(), Some(A));
    assert_eq!(s1.launch_next(), Some(B));
    s1.report_success(A, 10);
    s1.report_success(B, 20);
    let mut p1 = s1.into_outcome().unwrap().drain_all();
    p1.sort();

    let mut s2: Scheduler<u64> = Scheduler::new(make());
    assert_eq!(s2.launch_next(), Some(A));
    assert_eq!(s2.launch_next(), Some(B));
    s2.report_success(B, 20);
    s2.report_success(A, 10);
    let mut p2 = s2.into_outcome().unwrap().drain_all();
    p2.sort();

    assert_eq!(p1, p2);
}

#[test]
fn failure_drains_in_flight_work_and_is_reported_once() {
    let mut g = TaskGraph::new();
    g.add_task(Task::new(A)).unwrap();
    g.add_task(Task::new(B)).unwrap();
    g.add_task(Task::new(C)).unwrap();
    g.add_task(Task::new(D)).unwrap();
    let mut sched: Scheduler<u64> = Scheduler::new(g);
    assert_eq!(sched.launch_next(), Some(A));
    assert_eq!(sched.launch_next(), Some(B));
    assert_eq!(sched.launch_next(), Some(C));
    // C (no dependents) fails while A and B are still running.
    sched.report_failure(C, "boom".to_string());
    // No new task is launched after a failure: D never starts.
    assert_eq!(sched.launch_next(), None);
    assert!(!sched.is_finished());
    // The two in-flight tasks still finish and publish.
    sched.report_success(A, 1);
    assert!(!sched.is_finished());
    sched.report_success(B, 2);
    assert!(sched.is_finished());
    let err = sched.into_outcome().unwrap_err();
    assert_eq!(err.failure.key, C);
    assert_eq!(err.failure.cause, "boom");
    assert_eq!(err.never_started, vec![D]);
}

#[test]
fn first_failure_wins() {
    let mut g = TaskGraph::new();
    g.add_task(Task::new(A)).unwrap();
    g.add_task(Task::new(B)).unwrap();
    let mut sched: Scheduler<u64> = Scheduler::new(g);
    assert_eq!(sched.launch_next(), Some(A));
    assert_eq!(sched.launch_next(), Some(B));
    sched.report_failure(B, "first".to_string());
    sched.report_failure(A, "second".to_string());
    let err = sched.into_outcome().unwrap_err();
    assert_eq!(err.failure.key, B);
    assert_eq!(err.failure.cause, "first");
}

#[test]
fn repeated_get_returns_the_same_value() {
    let mut store: ResultStore<u64> = ResultStore::new();
    store.publish(A, 5).unwrap();
    let first = *store.get(A).unwrap();
    let second = *store.get(A).unwrap();
    assert_eq!(first, 5);
    assert_eq!(first, second);
}

#[test]
fn store_is_write_once_and_reports_not_ready() {
    let mut store: ResultStore<u64> = ResultStore::new();
    assert!(store.get(A).is_err());
    store.publish(A, 5).unwrap();
    let err = store.publish(A, 6).unwrap_err();
    assert_eq!(err.key, A);
    // The first value is untouched.
    assert_eq!(*store.get(A).unwrap(), 5);
    let missing = store.get(B).unwrap_err();
    assert_eq!(missing.key, B);
}

#[test]
fn ready_set_tracks_completed_dependencies() {
    let g = diamond_graph();
    let states = vec![
        ExecState::Completed,
        ExecState::Completed,
        ExecState::Pending,
        ExecState::Pending,
    ];
    // C has no dependencies and is pending; D still waits on C.
    assert_eq!(g.ready_set(&states), vec![C]);
    let states = vec![
        ExecState::Completed,
        ExecState::Completed,
        ExecState::Completed,
        ExecState::Pending,
    ];
    assert_eq!(g.ready_set(&states), vec![D]);
}

#[test]
fn execute_reports_failing_key_and_never_started() {
    let mut g = TaskGraph::new();
    g.add_task(Task::new(A)).unwrap();
    g.add_task(Task::new(B)).unwrap();
    g.add_dependency(A, B).unwrap();
    let err = execute(g, &FailOnA).unwrap_err();
    assert_eq!(err.failure.key, A);
    assert_eq!(err.failure.cause, "broken");
    assert_eq!(err.never_started, vec![B]);
}
