use reactive_core::runtime::Runtime;

/// Run every queued effect; each effect's body reads `sig` and logs what it
/// saw. Returns how many effect runs the flush performed.
fn flush_reading(rt: &mut Runtime, sig: usize, log: &mut Vec<i64>) -> usize {
    let mut runs = 0;
    loop {
        let e = match rt.begin_next_pending() {
            Some(e) => e,
            None => break,
        };
        let v = rt.read_signal(sig).unwrap();
        log.push(v);
        rt.finish_effect(e).unwrap();
        runs += 1;
    }
    runs
}

/// Read memo `m`; when it is stale, recompute it as `f(read(sig))` under
/// its own tracked run first. Counts recomputations in `recomputes`.
fn pull_memo(
    rt: &mut Runtime,
    m: usize,
    sig: usize,
    f: impl Fn(i64) -> i64,
    recomputes: &mut usize,
) -> i64 {
    match rt.read_memo(m) {
        Ok(v) => v,
        Err(_) => {
            rt.begin_run(m).unwrap();
            let base = rt.read_signal(sig).unwrap();
            rt.finish_memo(m, f(base)).unwrap();
            *recomputes += 1;
            rt.read_memo(m).unwrap()
        }
    }
}

#[test]
fn three_writes_one_flush_one_run() {
    // create_signal(0); the setter writes 1, 2, 3 in one turn; one flush:
    // the bound effect runs exactly once and observes 3.
    let mut rt = Runtime::new();
    let s = rt.create_signal(0, 0).unwrap();
    let _e = rt.create_effect(0).unwrap();
    let mut log = Vec::new();
    // mount flush: the fresh effect runs once, observing the initial value
    assert_eq!(flush_reading(&mut rt, s, &mut log), 1);
    assert_eq!(log, vec![0]);

    assert_eq!(rt.write_signal(s, 1).unwrap(), true);
    assert_eq!(rt.write_signal(s, 2).unwrap(), true);
    assert_eq!(rt.write_signal(s, 3).unwrap(), true);
    assert_eq!(rt.pending_count(), 1);

    let mut log = Vec::new();
    assert_eq!(flush_reading(&mut rt, s, &mut log), 1);
    assert_eq!(log, vec![3]);
    assert_eq!(rt.pending_count(), 0);
}

#[test]
fn diamond_is_glitch_free() {
    // s feeds memos m1 = s + 1 and m2 = s * 2; the effect reads both. After
    // one write and one flush the effect runs once and sees both
    // post-update values, never a mix.
    let mut rt = Runtime::new();
    let s = rt.create_signal(0, 10).unwrap();
    let m1 = rt.create_memo(0).unwrap();
    let m2 = rt.create_memo(0).unwrap();
    let _e = rt.create_effect(0).unwrap();

    let mut recomputes = 0;
    let mut seen: Vec<(i64, i64)> = Vec::new();
    // mount flush
    loop {
        let e = match rt.begin_next_pending() {
            Some(e) => e,
            None => break,
        };
        let a = pull_memo(&mut rt, m1, s, |v| v + 1, &mut recomputes);
        let b = pull_memo(&mut rt, m2, s, |v| v * 2, &mut recomputes);
        seen.push((a, b));
        rt.finish_effect(e).unwrap();
    }
    assert_eq!(seen, vec![(11, 20)]);
    assert_eq!(recomputes, 2);

    assert!(rt.write_signal(s, 21).unwrap());
    // both memos are now stale: the old caches are unobservable
    assert!(rt.read_memo(m1).is_err());
    assert!(rt.read_memo(m2).is_err());

    let mut seen: Vec<(i64, i64)> = Vec::new();
    let mut runs = 0;
    loop {
        let e = match rt.begin_next_pending() {
            Some(e) => e,
            None => break,
        };
        let a = pull_memo(&mut rt, m1, s, |v| v + 1, &mut recomputes);
        let b = pull_memo(&mut rt, m2, s, |v| v * 2, &mut recomputes);
        seen.push((a, b));
        rt.finish_effect(e).unwrap();
        runs += 1;
    }
    assert_eq!(runs, 1);
    assert_eq!(seen, vec![(22, 42)]);
}

#[test]
fn unread_memo_recomputes_once_after_many_writes() {
    // Laziness: ten upstream writes recompute an unread memo zero times;
    // the next read recomputes it exactly once; a further read is cached.
    let mut rt = Runtime::new();
    let s = rt.create_signal(0, 0).unwrap();
    let m = rt.create_memo(0).unwrap();

    let mut recomputes = 0;
    let first = pull_memo(&mut rt, m, s, |v| v + 100, &mut recomputes);
    assert_eq!(first, 100);
    assert_eq!(recomputes, 1);

    for i in 1..=10 {
        assert!(rt.write_signal(s, i).unwrap());
    }
    // nothing has recomputed: writes only mark
    assert_eq!(recomputes, 1);
    let v = pull_memo(&mut rt, m, s, |v| v + 100, &mut recomputes);
    assert_eq!(v, 110);
    assert_eq!(recomputes, 2);
    let v = pull_memo(&mut rt, m, s, |v| v + 100, &mut recomputes);
    assert_eq!(v, 110);
    assert_eq!(recomputes, 2);
}

#[test]
fn equal_write_notifies_nobody() {
    let mut rt = Runtime::new();
    let s = rt.create_signal(0, 5).unwrap();
    let _e = rt.create_effect(0).unwrap();
    let mut log = Vec::new();
    flush_reading(&mut rt, s, &mut log);

    assert_eq!(rt.write_signal(s, 5).unwrap(), false);
    assert_eq!(rt.pending_count(), 0);

    // the forcing write bypasses the equality check
    rt.write_signal_force(s, 5).unwrap();
    assert_eq!(rt.pending_count(), 1);
}

#[test]
fn nested_memo_propagates_through_chain() {
    // s -> inner memo -> outer memo: the outer memo subscribes to the
    // inner one, not to s, and a write still reaches it transitively.
    let mut rt = Runtime::new();
    let s = rt.create_signal(0, 3).unwrap();
    let inner = rt.create_memo(0).unwrap();
    let outer = rt.create_memo(0).unwrap();

    let mut recomputes = 0;
    let iv = pull_memo(&mut rt, inner, s, |v| v * 10, &mut recomputes);
    assert_eq!(iv, 30);
    // outer = inner + 1, reading the inner memo under tracking
    rt.begin_run(outer).unwrap();
    let base = rt.read_memo(inner).unwrap();
    rt.finish_memo(outer, base + 1).unwrap();
    assert_eq!(rt.read_memo(outer).unwrap(), 31);

    assert!(rt.write_signal(s, 4).unwrap());
    // the inner memo is dirty, and so is the outer one, transitively
    assert!(rt.read_memo(inner).is_err());
    assert!(rt.read_memo(outer).is_err());
}
