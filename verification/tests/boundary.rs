use reactive_core::boundary::{Conditional, ErrorBoundary, ViewChoice};
use reactive_core::runtime::Runtime;

#[test]
fn two_failing_children_aggregate_into_two() {
    // two failing children under one boundary: the fallback observes a set
    // of size two, not first-wins
    let mut b = ErrorBoundary::new();
    b.report(41);
    b.report(42);
    assert_eq!(b.failure_count(), 2);
    assert!(b.has_failures());
    match b.current_view(0) {
        ViewChoice::Fallback { mut failures } => {
            failures.sort();
            assert_eq!(failures, vec![41, 42]);
        }
        ViewChoice::Content { .. } => panic!("boundary with failures rendered content"),
    }
}

#[test]
fn repeated_failure_counts_once() {
    let mut b = ErrorBoundary::new();
    b.report(7);
    b.report(7);
    assert_eq!(b.failure_count(), 1);
}

#[test]
fn boundary_without_failures_renders_content() {
    let b = ErrorBoundary::new();
    assert!(!b.has_failures());
    assert_eq!(b.failure_count(), 0);
    assert_eq!(b.current_view(5), ViewChoice::Content { scope: 5 });
}

#[test]
fn cleared_boundary_renders_content_again() {
    let mut b = ErrorBoundary::new();
    b.report(1);
    b.clear();
    assert!(!b.has_failures());
    assert_eq!(b.current_view(3), ViewChoice::Content { scope: 3 });
}

#[test]
fn switching_branches_disposes_the_old_scope() {
    let mut rt = Runtime::new();
    let mut cond = Conditional::new(0);
    let s = rt.create_signal(0, 0).unwrap();

    assert_eq!(cond.switch(&mut rt, 0).unwrap(), true);
    // asking for the same branch again is a no-op
    assert_eq!(cond.switch(&mut rt, 0).unwrap(), false);
    let (branch, sc0) = cond.mounted().unwrap();
    assert_eq!(branch, 0);

    // mount an effect inside the first branch and let it subscribe to s
    let e = rt.create_effect(sc0).unwrap();
    loop {
        let eff = match rt.begin_next_pending() {
            Some(x) => x,
            None => break,
        };
        let _ = rt.read_signal(s).unwrap();
        rt.finish_effect(eff).unwrap();
    }
    // a write now queues the branch's effect
    rt.write_signal(s, 1).unwrap();
    assert_eq!(rt.pending_count(), 1);
    // drain it again
    loop {
        let eff = match rt.begin_next_pending() {
            Some(x) => x,
            None => break,
        };
        let _ = rt.read_signal(s).unwrap();
        rt.finish_effect(eff).unwrap();
    }

    // the condition flips: the first branch's scope is disposed
    assert_eq!(cond.switch(&mut rt, 1).unwrap(), true);

    // a write to its dependency immediately after disposal invokes nothing
    rt.write_signal(s, 2).unwrap();
    assert_eq!(rt.pending_count(), 0);
    assert!(rt.begin_run(e).is_err());
}
