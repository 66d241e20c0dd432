use reactive_core::runtime::{Fault, Runtime};

#[test]
fn unknown_ids_are_missing() {
    let mut rt = Runtime::new();
    assert_eq!(rt.read_signal(0), Err(Fault::Missing));
    assert_eq!(rt.write_signal(7, 1), Err(Fault::Missing));
    assert_eq!(rt.read_memo(3), Err(Fault::Missing));
    assert_eq!(rt.begin_run(0), Err(Fault::Missing));
    assert_eq!(rt.create_signal(9, 0), Err(Fault::Missing));
    assert_eq!(rt.create_scope(9), Err(Fault::Missing));
    assert_eq!(rt.dispose_scope(9), Err(Fault::Missing));
}

#[test]
fn an_effect_id_is_no_memo() {
    let mut rt = Runtime::new();
    let e = rt.create_effect(0).unwrap();
    assert_eq!(rt.read_memo(e), Err(Fault::Missing));
}

#[test]
fn disposed_access_fails_fast() {
    let mut rt = Runtime::new();
    let sc = rt.create_scope(0).unwrap();
    let s = rt.create_signal(sc, 1).unwrap();
    let m = rt.create_memo(sc).unwrap();
    rt.dispose_scope(sc).unwrap();
    assert_eq!(rt.read_signal(s), Err(Fault::Disposed));
    assert_eq!(rt.write_signal(s, 2), Err(Fault::Disposed));
    assert_eq!(rt.read_memo(m), Err(Fault::Disposed));
    assert_eq!(rt.begin_run(m), Err(Fault::Disposed));
    assert_eq!(rt.create_signal(sc, 0), Err(Fault::Disposed));
    assert_eq!(rt.dispose_scope(sc), Err(Fault::Disposed));
}

#[test]
fn cyclic_derivation_is_detected() {
    // a memo reading itself transitively within the same evaluation
    let mut rt = Runtime::new();
    let m = rt.create_memo(0).unwrap();
    rt.begin_run(m).unwrap();
    assert_eq!(rt.read_memo(m), Err(Fault::Cycle));
    assert_eq!(rt.begin_run(m), Err(Fault::Cycle));
    rt.finish_memo(m, 0).unwrap();
    assert_eq!(rt.read_memo(m), Ok(0));
}

#[test]
fn stale_memo_cannot_be_read() {
    let mut rt = Runtime::new();
    let s = rt.create_signal(0, 1).unwrap();
    let m = rt.create_memo(0).unwrap();
    // never computed yet
    assert_eq!(rt.read_memo(m), Err(Fault::Stale));
    assert!(!rt.memo_ready(m));
    rt.begin_run(m).unwrap();
    let v = rt.read_signal(s).unwrap();
    rt.finish_memo(m, v).unwrap();
    assert!(rt.memo_ready(m));
    assert_eq!(rt.read_memo(m), Ok(1));
    rt.write_signal(s, 2).unwrap();
    assert_eq!(rt.read_memo(m), Err(Fault::Stale));
}

#[test]
fn mismatched_finish_is_refused() {
    let mut rt = Runtime::new();
    let m = rt.create_memo(0).unwrap();
    let e = rt.create_effect(0).unwrap();
    assert_eq!(rt.finish_memo(m, 0), Err(Fault::Busy));
    rt.begin_run(m).unwrap();
    assert_eq!(rt.finish_effect(m), Err(Fault::Busy));
    assert_eq!(rt.finish_memo(e, 0), Err(Fault::Busy));
    rt.finish_memo(m, 0).unwrap();
    let _ = e;
}

#[test]
fn disposing_a_scope_with_a_running_member_is_busy() {
    let mut rt = Runtime::new();
    let sc = rt.create_scope(0).unwrap();
    let e = rt.create_effect(sc).unwrap();
    rt.begin_run(e).unwrap();
    assert_eq!(rt.dispose_scope(sc), Err(Fault::Busy));
    rt.finish_effect(e).unwrap();
    rt.dispose_scope(sc).unwrap();
}

#[test]
fn self_write_takes_no_feedback_subscription() {
    // a computation that writes a signal and then reads it back in the
    // same run must not subscribe to it
    let mut rt = Runtime::new();
    let s = rt.create_signal(0, 0).unwrap();
    let e = rt.create_effect(0).unwrap();
    let e2 = rt.begin_next_pending().unwrap();
    assert_eq!(e, e2);
    rt.write_signal(s, 1).unwrap();
    let v = rt.read_signal(s).unwrap();
    assert_eq!(v, 1);
    rt.finish_effect(e).unwrap();
    // the effect never subscribed to s, so a later write re-runs nothing
    assert_eq!(rt.pending_count(), 0);
    rt.write_signal(s, 2).unwrap();
    assert_eq!(rt.pending_count(), 0);
}

#[test]
fn tracked_read_subscribes_and_untracked_read_does_not() {
    let mut rt = Runtime::new();
    let s = rt.create_signal(0, 0).unwrap();
    let e = rt.create_effect(0).unwrap();
    // peek outside any tracking context: no subscription
    assert_eq!(rt.read_signal(s).unwrap(), 0);
    rt.write_signal(s, 1).unwrap();
    // only the mount entry is pending; the peek added no edge
    assert_eq!(rt.pending_count(), 1);
    let got = rt.begin_next_pending().unwrap();
    assert_eq!(got, e);
    let _ = rt.read_signal(s).unwrap();
    rt.finish_effect(e).unwrap();
    // now the effect is subscribed: a change re-queues it exactly once
    rt.write_signal(s, 2).unwrap();
    rt.write_signal(s, 3).unwrap();
    assert_eq!(rt.pending_count(), 1);
}

#[test]
fn disposing_a_scope_tears_down_its_subtree() {
    let mut rt = Runtime::new();
    let outer = rt.create_scope(0).unwrap();
    let inner = rt.create_scope(outer).unwrap();
    let s_outer = rt.create_signal(outer, 1).unwrap();
    let s_inner = rt.create_signal(inner, 2).unwrap();
    let sibling = rt.create_scope(0).unwrap();
    let s_sibling = rt.create_signal(sibling, 3).unwrap();

    rt.dispose_scope(outer).unwrap();
    // the subtree is gone, children included
    assert_eq!(rt.read_signal(s_outer), Err(Fault::Disposed));
    assert_eq!(rt.read_signal(s_inner), Err(Fault::Disposed));
    assert_eq!(rt.create_signal(inner, 0), Err(Fault::Disposed));
    // an unrelated sibling scope is untouched
    assert_eq!(rt.read_signal(s_sibling), Ok(3));
}

#[test]
fn write_marks_only_dependents() {
    let mut rt = Runtime::new();
    let a = rt.create_signal(0, 1).unwrap();
    let b = rt.create_signal(0, 2).unwrap();
    let ma = rt.create_memo(0).unwrap();
    let mb = rt.create_memo(0).unwrap();
    for (m, sig) in [(ma, a), (mb, b)] {
        rt.begin_run(m).unwrap();
        let v = rt.read_signal(sig).unwrap();
        rt.finish_memo(m, v * 10).unwrap();
    }
    assert!(rt.memo_ready(ma) && rt.memo_ready(mb));
    rt.write_signal(a, 5).unwrap();
    // only the dependent memo went stale
    assert!(!rt.memo_ready(ma));
    assert!(rt.memo_ready(mb));
    assert_eq!(rt.read_memo(mb), Ok(20));
}

#[test]
fn aborted_run_restores_tracking_and_forgets_the_cache() {
    let mut rt = Runtime::new();
    let s = rt.create_signal(0, 1).unwrap();
    let m = rt.create_memo(0).unwrap();
    rt.begin_run(m).unwrap();
    let v = rt.read_signal(s).unwrap();
    rt.finish_memo(m, v).unwrap();
    assert_eq!(rt.read_memo(m), Ok(1));

    // a failing recomputation: tracking is restored, the old cache is not
    // observable afterwards
    rt.begin_run(m).unwrap();
    let _ = rt.read_signal(s).unwrap();
    rt.abort_run(m).unwrap();
    assert_eq!(rt.tracking_depth(), 0);
    assert_eq!(rt.read_memo(m), Err(Fault::Stale));
    assert_eq!(rt.abort_run(m), Err(Fault::Busy));
}
