//! The reactive runtime: a signal store, the dependency tracker, memo
//! caching state, the effect scheduler and scope disposal, all over an arena
//! of integer ids with explicit adjacency lists.
//!
//! The runtime owns every decision about the dependency graph; the host
//! supplies the computation bodies. A memo or effect is evaluated by calling
//! `begin_run`, performing its reads (`read_signal`, `read_memo`, each of
//! which registers a fresh subscription edge), and closing with
//! `finish_memo` or `finish_effect`. Writes mark dependents dirty and queue
//! the affected effects; `begin_next_pending` drains the queue at the flush
//! point of a turn.

use vstd::prelude::*;

verus! {

/// Kind of a computation node: a lazily cached memo or an eagerly scheduled
/// effect.
#[derive(Clone, Copy, Debug, PartialEq, Eq, Structural)]
enum CompKind {
    Memo,
    Effect,
}

/// A programming fault: these surface immediately and loudly; no error
/// boundary catches them.
#[derive(Clone, Copy, Debug, PartialEq, Eq, Structural)]
pub enum Fault {
    /// No entity was ever created under this id.
    Missing,
    /// The entity's scope was torn down; touching it would desynchronise
    /// the rendered output, so the access fails fast.
    Disposed,
    /// A computation would observe itself within its own evaluation.
    Cycle,
    /// The memo is dirty: it must be recomputed under tracking before its
    /// cache may be read.
    Stale,
    /// The operation would tear down or mismatch a computation that is
    /// still running.
    Busy,
}

/// A subscription edge, from a source's id to a subscribing computation's id.
#[derive(Clone, Copy, Debug, PartialEq, Eq, Structural)]
struct Edge {
    src: usize,
    dst: usize,
}

/// The whole reactive graph.
pub struct Runtime {
    /// Per signal: current value, liveness, owning scope.
    sig_vals: Vec<i64>,
    sig_live: Vec<bool>,
    sig_owner: Vec<usize>,
    /// Per computation: kind, liveness, dirty flag, cache (memos only) and
    /// whether it has been filled, owning scope.
    kinds: Vec<CompKind>,
    live: Vec<bool>,
    dirt: Vec<bool>,
    caches: Vec<i64>,
    cached: Vec<bool>,
    comp_owner: Vec<usize>,
    /// Per scope: liveness and parent (the root scope 0 is its own parent).
    scope_live: Vec<bool>,
    parents: Vec<usize>,
    /// Subscription edges from signals to computations.
    sig_edges: Vec<Edge>,
    /// Subscription edges from memos to computations.
    memo_edges: Vec<Edge>,
    /// The stack of computations currently being evaluated under tracking.
    tracking: Vec<usize>,
    /// Effects awaiting the next flush, deduplicated, in arrival order.
    pending: Vec<usize>,
    /// Signals written during the current run of a computation (src is the
    /// signal, dst the writer); such a pair takes no feedback subscription.
    writes: Vec<Edge>,
}

impl Runtime {
    /// How many signals were ever created.
    pub closed spec fn sig_count(self) -> int {
        self.sig_vals@.len() as int
    }

    /// How many computations were ever created.
    pub closed spec fn comp_count(self) -> int {
        self.kinds@.len() as int
    }

    /// How many scopes were ever created.
    pub closed spec fn scope_count(self) -> int {
        self.parents@.len() as int
    }

    /// Whether signal `s` exists and is not disposed.
    pub closed spec fn sig_alive(self, s: int) -> bool {
        0 <= s < self.sig_count() && self.sig_live@[s]
    }

    /// The current value of signal `s`.
    pub closed spec fn sig_value(self, s: int) -> i64 {
        self.sig_vals@[s]
    }

    /// The scope owning signal `s`.
    pub closed spec fn sig_scope(self, s: int) -> int {
        self.sig_owner@[s] as int
    }

    /// Whether computation `c` exists and is not disposed.
    pub closed spec fn comp_alive(self, c: int) -> bool {
        0 <= c < self.comp_count() && self.live@[c]
    }

    /// Whether `c` is a memo.
    pub closed spec fn is_memo(self, c: int) -> bool {
        0 <= c < self.comp_count() && self.kinds@[c] is Memo
    }

    /// Whether `c` is an effect.
    pub closed spec fn is_effect(self, c: int) -> bool {
        0 <= c < self.comp_count() && self.kinds@[c] is Effect
    }

    /// Whether computation `c` is marked dirty.
    pub closed spec fn comp_dirty(self, c: int) -> bool {
        0 <= c < self.comp_count() && self.dirt@[c]
    }

    /// Whether memo `c` holds a cached result.
    pub closed spec fn memo_has_cache(self, c: int) -> bool {
        0 <= c < self.comp_count() && self.cached@[c]
    }

    /// The cached result of memo `c`.
    pub closed spec fn memo_cache(self, c: int) -> i64 {
        self.caches@[c]
    }

    /// The scope owning computation `c`.
    pub closed spec fn comp_scope(self, c: int) -> int {
        self.comp_owner@[c] as int
    }

    /// Whether scope `sc` exists and is not disposed.
    pub closed spec fn scope_alive(self, sc: int) -> bool {
        0 <= sc < self.scope_count() && self.scope_live@[sc]
    }

    /// The parent of scope `sc`.
    pub closed spec fn scope_parent(self, sc: int) -> int {
        self.parents@[sc] as int
    }

    /// The parent table, for speaking about the scope tree as a value.
    pub closed spec fn scope_parents(self) -> Seq<usize> {
        self.parents@
    }

    /// Whether computation `c` subscribes to signal `s`.
    pub closed spec fn sig_subscribed(self, s: int, c: int) -> bool {
        exists|e: Edge| #[trigger] self.sig_edges@.contains(e) && e.src == s && e.dst == c
    }

    /// Whether computation `c` subscribes to memo `m`.
    pub closed spec fn memo_subscribed(self, m: int, c: int) -> bool {
        exists|e: Edge| #[trigger] self.memo_edges@.contains(e) && e.src == m && e.dst == c
    }

    /// The queue of effects awaiting the next flush, in arrival order.
    pub closed spec fn pending_view(self) -> Seq<usize> {
        self.pending@
    }

    /// Whether effect `c` awaits the next flush.
    pub open spec fn pending_contains(self, c: int) -> bool {
        seq_has(self.pending_view(), c)
    }

    /// The stack of computations being evaluated, outermost first.
    pub closed spec fn tracking_view(self) -> Seq<usize> {
        self.tracking@
    }

    /// Whether any computation is being evaluated under tracking.
    pub open spec fn tracking_active(self) -> bool {
        self.tracking_view().len() > 0
    }

    /// The computation currently running (the top of the tracking stack).
    pub open spec fn tracking_top(self) -> int {
        self.tracking_view().last() as int
    }

    /// Whether `c` is somewhere on the tracking stack.
    pub open spec fn tracking_contains(self, c: int) -> bool {
        seq_has(self.tracking_view(), c)
    }

    /// Whether computation `c` wrote signal `s` during its current run; such
    /// a signal takes no feedback subscription from `c` in the same run.
    pub closed spec fn wrote_in_run(self, c: int, s: int) -> bool {
        exists|e: Edge| #[trigger] self.writes@.contains(e) && e.src == s && e.dst == c
    }

    /// Whether a read of memo `m` would return its cache: it exists, is
    /// alive, clean, filled, and not being evaluated right now.
    pub open spec fn memo_readable(self, m: int) -> bool {
        self.is_memo(m) && self.comp_alive(m) && !self.comp_dirty(m) && self.memo_has_cache(m)
            && !self.tracking_contains(m)
    }

    /// Whether `sc` is `anc` or a descendant of it in the scope tree.
    pub open spec fn scope_within(parents: Seq<usize>, sc: int, anc: int) -> bool
        decreases sc,
    {
        if sc == anc {
            true
        } else if 0 < sc < parents.len() && 0 <= (parents[sc] as int) < sc {
            Self::scope_within(parents, parents[sc] as int, anc)
        } else {
            false
        }
    }

    /// Well-formedness of the whole graph. Constructors establish it and
    /// every operation preserves it.
    pub closed spec fn wf(self) -> bool {
        // Parallel arenas.
        &&& self.sig_live@.len() == self.sig_vals@.len()
        &&& self.sig_owner@.len() == self.sig_vals@.len()
        &&& self.live@.len() == self.kinds@.len()
        &&& self.dirt@.len() == self.kinds@.len()
        &&& self.caches@.len() == self.kinds@.len()
        &&& self.cached@.len() == self.kinds@.len()
        &&& self.comp_owner@.len() == self.kinds@.len()
        &&& self.scope_live@.len() == self.parents@.len()
        // The scope tree: a root, parents strictly older, live scopes under
        // live parents.
        &&& self.scope_count() >= 1
        &&& self.parents@[0] == 0
        &&& forall|sc: int| 1 <= sc < self.scope_count() ==> (#[trigger] self.parents@[sc]) < sc
        &&& forall|sc: int|
            1 <= sc < self.scope_count() && self.scope_live@[sc] ==> self.scope_live@[(#[trigger] self.parents@[sc]) as int]
        // Owners exist; live members sit in live scopes.
        &&& forall|s: int|
            0 <= s < self.sig_count() ==> (#[trigger] self.sig_owner@[s]) < self.scope_count() && (self.sig_live@[s] ==> self.scope_live@[self.sig_owner@[s] as int])
        &&& forall|c: int|
            0 <= c < self.comp_count() ==> (#[trigger] self.comp_owner@[c]) < self.scope_count() && (self.live@[c] ==> self.scope_live@[self.comp_owner@[c] as int])
        // Edges join live endpoints; memo edges leave memos.
        &&& forall|e: Edge| #[trigger]
            self.sig_edges@.contains(e) ==> (e.src as int) < self.sig_count()
                && self.sig_live@[e.src as int] && (e.dst as int) < self.comp_count()
                && self.live@[e.dst as int]
        &&& forall|e: Edge| #[trigger]
            self.memo_edges@.contains(e) ==> (e.src as int) < self.comp_count()
                && self.live@[e.src as int] && self.kinds@[e.src as int] is Memo && (e.dst as int)
                < self.comp_count() && self.live@[e.dst as int]
        // The pending queue holds live effects, each at most once.
        &&& forall|k: int|
            0 <= k < self.pending@.len() ==> (#[trigger] self.pending@[k]) < self.comp_count() && self.live@[self.pending@[k] as int]
                && self.kinds@[self.pending@[k] as int] is Effect
        &&& self.pending@.no_duplicates()
        // The tracking stack holds live computations, each at most once.
        &&& forall|k: int|
            0 <= k < self.tracking@.len() ==> (#[trigger] self.tracking@[k]) < self.comp_count() && self.live@[self.tracking@[k] as int]
        &&& self.tracking@.no_duplicates()
        // Dirtiness is closed: a dirty memo's subscribers are dirty, and a
        // dirty live effect is queued.
        &&& forall|e: Edge| #[trigger]
            self.memo_edges@.contains(e) && self.dirt@[e.src as int] ==> self.dirt@[e.dst as int]
        &&& forall|c: int|
            0 <= c < self.comp_count() && self.kinds@[c] is Effect && self.live@[c]
                && #[trigger] self.dirt@[c] ==> self.pending_contains(c)
    }

    /// A fresh runtime: one live root scope, nothing else.
    pub fn new() -> (rt: Runtime)
        ensures
            rt.wf(),
            rt.sig_count() == 0,
            rt.comp_count() == 0,
            rt.scope_count() == 1,
            rt.scope_alive(0),
            rt.scope_parent(0) == 0,
            !rt.tracking_active(),
            rt.pending_view() == Seq::<usize>::empty(),
    {
        let mut scope_live: Vec<bool> = Vec::new();
        let mut parents: Vec<usize> = Vec::new();
        scope_live.push(true);
        parents.push(0);
        let rt = Runtime {
            sig_vals: Vec::new(),
            sig_live: Vec::new(),
            sig_owner: Vec::new(),
            kinds: Vec::new(),
            live: Vec::new(),
            dirt: Vec::new(),
            caches: Vec::new(),
            cached: Vec::new(),
            comp_owner: Vec::new(),
            scope_live,
            parents,
            sig_edges: Vec::new(),
            memo_edges: Vec::new(),
            tracking: Vec::new(),
            pending: Vec::new(),
            writes: Vec::new(),
        };
        rt
    }

    /// Open a fresh scope under `parent`; entities created in it are
    /// disposed together when it is torn down.
    pub fn create_scope(&mut self, parent: usize) -> (r: Result<usize, Fault>)
        requires
            old(self).wf(),
        ensures
            final(self).wf(),
            r is Ok <==> old(self).scope_alive(parent as int),
            r is Err ==> *final(self) == *old(self),
            r matches Err(f) ==> (f == Fault::Missing <==> parent >= old(self).scope_count()) && (f
                == Fault::Disposed <==> (parent < old(self).scope_count() && !old(self).scope_alive(
                parent as int,
            ))),
            r matches Ok(sc) ==> ({
                &&& sc == old(self).scope_count()
                &&& final(self).scope_count() == old(self).scope_count() + 1
                &&& final(self).scope_alive(sc as int)
                &&& final(self).scope_parent(sc as int) == parent
                &&& scopes_preserved(*old(self), *final(self))
                &&& same_signal_states(*old(self), *final(self))
                &&& same_comp_states(*old(self), *final(self))
                &&& same_dirty(*old(self), *final(self))
                &&& same_caches(*old(self), *final(self))
                &&& same_sig_edges(*old(self), *final(self))
                &&& same_memo_edges(*old(self), *final(self))
                &&& final(self).pending_view() == old(self).pending_view()
                &&& final(self).tracking_view() == old(self).tracking_view()
                &&& same_writes(*old(self), *final(self))
            }),
    {
        if parent >= self.parents.len() {
            return Err(Fault::Missing);
        }
        if !self.scope_live[parent] {
            return Err(Fault::Disposed);
        }
        let sc = self.parents.len();
        self.scope_live.push(true);
        self.parents.push(parent);
        proof {
            Self::lemma_edges_carried(*old(self), *self);
            Self::lemma_pending_carried(*old(self), *self);
            Self::lemma_closure_carried(*old(self), *self);
        }
        Ok(sc)
    }

    /// Create a signal owned by `scope` with the given initial value,
    /// subscribed to by nobody.
    pub fn create_signal(&mut self, scope: usize, initial: i64) -> (r: Result<usize, Fault>)
        requires
            old(self).wf(),
        ensures
            final(self).wf(),
            r is Ok <==> old(self).scope_alive(scope as int),
            r is Err ==> *final(self) == *old(self),
            r matches Err(f) ==> (f == Fault::Missing <==> scope >= old(self).scope_count()) && (f
                == Fault::Disposed <==> (scope < old(self).scope_count() && !old(self).scope_alive(
                scope as int,
            ))),
            r matches Ok(s) ==> ({
                &&& s == old(self).sig_count()
                &&& final(self).sig_count() == old(self).sig_count() + 1
                &&& final(self).sig_alive(s as int)
                &&& final(self).sig_value(s as int) == initial
                &&& final(self).sig_scope(s as int) == scope
                &&& forall|c: int| !final(self).sig_subscribed(s as int, c)
                &&& signals_preserved(*old(self), *final(self))
                &&& same_scopes(*old(self), *final(self))
                &&& same_comp_states(*old(self), *final(self))
                &&& same_dirty(*old(self), *final(self))
                &&& same_caches(*old(self), *final(self))
                &&& forall|s2: int, c2: int|
                    s2 != s ==> #[trigger] final(self).sig_subscribed(s2, c2) == old(self).sig_subscribed(s2, c2)
                &&& same_memo_edges(*old(self), *final(self))
                &&& final(self).pending_view() == old(self).pending_view()
                &&& final(self).tracking_view() == old(self).tracking_view()
                &&& same_writes(*old(self), *final(self))
            }),
    {
        if scope >= self.parents.len() {
            return Err(Fault::Missing);
        }
        if !self.scope_live[scope] {
            return Err(Fault::Disposed);
        }
        let s = self.sig_vals.len();
        self.sig_vals.push(initial);
        self.sig_live.push(true);
        self.sig_owner.push(scope);
        proof {
            Self::lemma_edges_carried(*old(self), *self);
            Self::lemma_pending_carried(*old(self), *self);
            Self::lemma_closure_carried(*old(self), *self);
            assert forall|c: int| !self.sig_subscribed(s as int, c) by {
                if self.sig_subscribed(s as int, c) {
                    let e = choose|e: Edge|
                        #[trigger] self.sig_edges@.contains(e) && e.src == s as int && e.dst == c;
                    assert(old(self).sig_edges@.contains(e));
                }
            }
            assert forall|e: Edge| #[trigger] self.sig_edges@.contains(e) implies (e.src as int)
                < self.sig_count() && self.sig_live@[e.src as int] && (e.dst as int)
                < self.comp_count() && self.live@[e.dst as int] by {
                assert(old(self).sig_edges@.contains(e));
            }
        }
        Ok(s)
    }

    /// Create a memo owned by `scope`: initially dirty with no cache, so
    /// its first read demands a recomputation.
    pub fn create_memo(&mut self, scope: usize) -> (r: Result<usize, Fault>)
        requires
            old(self).wf(),
        ensures
            final(self).wf(),
            r is Ok <==> old(self).scope_alive(scope as int),
            r is Err ==> *final(self) == *old(self),
            r matches Err(f) ==> (f == Fault::Missing <==> scope >= old(self).scope_count()) && (f
                == Fault::Disposed <==> (scope < old(self).scope_count() && !old(self).scope_alive(
                scope as int,
            ))),
            r matches Ok(m) ==> ({
                &&& m == old(self).comp_count()
                &&& final(self).comp_count() == old(self).comp_count() + 1
                &&& final(self).is_memo(m as int)
                &&& final(self).comp_alive(m as int)
                &&& final(self).comp_dirty(m as int)
                &&& !final(self).memo_has_cache(m as int)
                &&& final(self).comp_scope(m as int) == scope
                &&& forall|x: int|
                    !final(self).memo_subscribed(m as int, x) && !final(self).memo_subscribed(
                        x,
                        m as int,
                    ) && !final(self).sig_subscribed(x, m as int)
                &&& !final(self).pending_contains(m as int)
                &&& comps_preserved(*old(self), *final(self))
                &&& same_scopes(*old(self), *final(self))
                &&& same_signal_states(*old(self), *final(self))
                &&& same_sig_edges(*old(self), *final(self))
                &&& same_memo_edges(*old(self), *final(self))
                &&& final(self).pending_view() == old(self).pending_view()
                &&& final(self).tracking_view() == old(self).tracking_view()
                &&& same_writes(*old(self), *final(self))
            }),
    {
        if scope >= self.parents.len() {
            return Err(Fault::Missing);
        }
        if !self.scope_live[scope] {
            return Err(Fault::Disposed);
        }
        let m = self.kinds.len();
        self.kinds.push(CompKind::Memo);
        self.live.push(true);
        self.dirt.push(true);
        self.caches.push(0);
        self.cached.push(false);
        self.comp_owner.push(scope);
        proof {
            Self::lemma_edges_carried(*old(self), *self);
            Self::lemma_pending_carried(*old(self), *self);
            Self::lemma_closure_carried(*old(self), *self);
            self.lemma_fresh_comp_unwired(*old(self), m as int);
            if self.pending_contains(m as int) {
                let k = choose|k: int| 0 <= k < self.pending@.len() && self.pending@[k] == m as int;
                assert(old(self).pending@[k] < old(self).comp_count());
            }
            assert forall|e: Edge| #[trigger] self.memo_edges@.contains(e) implies (e.src as int)
                < self.comp_count() && self.live@[e.src as int] && self.kinds@[e.src as int] is Memo
                && (e.dst as int) < self.comp_count() && self.live@[e.dst as int] by {
                assert(old(self).memo_edges@.contains(e));
            }
            assert forall|e: Edge| #[trigger] self.sig_edges@.contains(e) implies (e.dst as int)
                < self.comp_count() && self.live@[e.dst as int] by {
                assert(old(self).sig_edges@.contains(e));
            }
        }
        Ok(m)
    }

    /// Create an effect owned by `scope`. It is queued at once: the host's
    /// first flush runs it, establishing its initial subscriptions and side
    /// effect.
    pub fn create_effect(&mut self, scope: usize) -> (r: Result<usize, Fault>)
        requires
            old(self).wf(),
        ensures
            final(self).wf(),
            r is Ok <==> old(self).scope_alive(scope as int),
            r is Err ==> *final(self) == *old(self),
            r matches Err(f) ==> (f == Fault::Missing <==> scope >= old(self).scope_count()) && (f
                == Fault::Disposed <==> (scope < old(self).scope_count() && !old(self).scope_alive(
                scope as int,
            ))),
            r matches Ok(e) ==> ({
                &&& e == old(self).comp_count()
                &&& final(self).comp_count() == old(self).comp_count() + 1
                &&& final(self).is_effect(e as int)
                &&& final(self).comp_alive(e as int)
                &&& final(self).comp_scope(e as int) == scope
                &&& forall|x: int|
                    !final(self).memo_subscribed(e as int, x) && !final(self).memo_subscribed(
                        x,
                        e as int,
                    ) && !final(self).sig_subscribed(x, e as int)
                &&& final(self).pending_view() == old(self).pending_view().push(e)
                &&& comps_preserved(*old(self), *final(self))
                &&& same_scopes(*old(self), *final(self))
                &&& same_signal_states(*old(self), *final(self))
                &&& same_sig_edges(*old(self), *final(self))
                &&& same_memo_edges(*old(self), *final(self))
                &&& final(self).tracking_view() == old(self).tracking_view()
                &&& same_writes(*old(self), *final(self))
            }),
    {
        if scope >= self.parents.len() {
            return Err(Fault::Missing);
        }
        if !self.scope_live[scope] {
            return Err(Fault::Disposed);
        }
        let e = self.kinds.len();
        self.kinds.push(CompKind::Effect);
        self.live.push(true);
        self.dirt.push(true);
        self.caches.push(0);
        self.cached.push(false);
        self.comp_owner.push(scope);
        self.pending.push(e);
        proof {
            Self::lemma_edges_carried(*old(self), *self);
            self.lemma_fresh_comp_unwired(*old(self), e as int);
            assert(self.pending@.no_duplicates()) by {
                assert(forall|k: int|
                    0 <= k < old(self).pending@.len() ==> (#[trigger] old(self).pending@[k]) < e);
            }
            assert forall|c: int|
                0 <= c < old(self).comp_count() && old(self).pending_contains(c) implies self
                .pending_contains(c) by {
                let k = choose|k: int|
                    0 <= k < old(self).pending_view().len() && old(self).pending_view()[k] == c;
                assert(self.pending_view()[k] == c);
            }
            Self::lemma_closure_carried(*old(self), *self);
            assert(self.pending_view()[self.pending_view().len() - 1] == e);
            assert(self.pending_contains(e as int));
            assert forall|e2: Edge| #[trigger] self.memo_edges@.contains(e2) implies (e2.src as int)
                < self.comp_count() && self.live@[e2.src as int] && self.kinds@[e2.src as int]
                is Memo && (e2.dst as int) < self.comp_count() && self.live@[e2.dst as int] by {
                assert(old(self).memo_edges@.contains(e2));
            }
            assert forall|e2: Edge| #[trigger] self.sig_edges@.contains(e2) implies (e2.dst as int)
                < self.comp_count() && self.live@[e2.dst as int] by {
                assert(old(self).sig_edges@.contains(e2));
            }
        }
        Ok(e)
    }

    /// Unfold the liveness facts of `wf` for one computation id.
    proof fn lemma_wf_unfolded(self, c: int)
        requires
            self.wf(),
            0 <= c < self.comp_count(),
            !self.comp_alive(c),
        ensures
            !self.pending_contains(c),
            forall|s: int| !self.sig_subscribed(s, c),
            forall|m: int| !self.memo_subscribed(m, c),
    {
        if self.pending_contains(c) {
            let k = choose|k: int| 0 <= k < self.pending@.len() && self.pending@[k] == c;
            assert(self.live@[self.pending@[k] as int]);
        }
        assert forall|s: int| !self.sig_subscribed(s, c) by {
            if self.sig_subscribed(s, c) {
                let e = choose|e: Edge|
                    #[trigger] self.sig_edges@.contains(e) && e.src == s && e.dst == c;
                assert(self.live@[e.dst as int]);
            }
        }
        assert forall|m: int| !self.memo_subscribed(m, c) by {
            if self.memo_subscribed(m, c) {
                let e = choose|e: Edge|
                    #[trigger] self.memo_edges@.contains(e) && e.src == m && e.dst == c;
                assert(self.live@[e.dst as int]);
            }
        }
    }

    /// One dirty edge propagates under `wf`.
    proof fn lemma_edge_dirty(self, e: Edge)
        requires
            self.wf(),
            self.memo_edges@.contains(e),
            self.comp_dirty(e.src as int),
        ensures
            self.comp_dirty(e.dst as int),
    {
        assert(self.dirt@[e.src as int]);
        assert(self.dirt@[e.dst as int]);
    }

    /// An equal signal edge list means an equal subscription relation.
    proof fn lemma_sig_edges_carried(a: Runtime, b: Runtime)
        requires
            b.sig_edges@ == a.sig_edges@,
        ensures
            same_sig_edges(a, b),
    {
        assert forall|s: int, c: int| #[trigger] b.sig_subscribed(s, c) == a.sig_subscribed(
            s,
            c,
        ) by {
            if a.sig_subscribed(s, c) {
                let e = choose|e: Edge|
                    #[trigger] a.sig_edges@.contains(e) && e.src == s && e.dst == c;
                assert(b.sig_edges@.contains(e));
            }
            if b.sig_subscribed(s, c) {
                let e = choose|e: Edge|
                    #[trigger] b.sig_edges@.contains(e) && e.src == s && e.dst == c;
                assert(a.sig_edges@.contains(e));
            }
        }
    }

    /// An equal memo edge list means an equal subscription relation.
    proof fn lemma_memo_edges_carried(a: Runtime, b: Runtime)
        requires
            b.memo_edges@ == a.memo_edges@,
        ensures
            same_memo_edges(a, b),
    {
        assert forall|m: int, c: int| #[trigger] b.memo_subscribed(m, c) == a.memo_subscribed(
            m,
            c,
        ) by {
            if a.memo_subscribed(m, c) {
                let e = choose|e: Edge|
                    #[trigger] a.memo_edges@.contains(e) && e.src == m && e.dst == c;
                assert(b.memo_edges@.contains(e));
            }
            if b.memo_subscribed(m, c) {
                let e = choose|e: Edge|
                    #[trigger] b.memo_edges@.contains(e) && e.src == m && e.dst == c;
                assert(a.memo_edges@.contains(e));
            }
        }
    }

    /// An equal write-record list means an equal write-record relation.
    proof fn lemma_writes_carried(a: Runtime, b: Runtime)
        requires
            b.writes@ == a.writes@,
        ensures
            same_writes(a, b),
    {
        assert forall|c: int, s: int| #[trigger] b.wrote_in_run(c, s) == a.wrote_in_run(c, s) by {
            if a.wrote_in_run(c, s) {
                let e = choose|e: Edge| #[trigger] a.writes@.contains(e) && e.src == s && e.dst == c;
                assert(b.writes@.contains(e));
            }
            if b.wrote_in_run(c, s) {
                let e = choose|e: Edge| #[trigger] b.writes@.contains(e) && e.src == s && e.dst == c;
                assert(a.writes@.contains(e));
            }
        }
    }

    /// Equal edge lists mean equal subscription and write-record relations.
    proof fn lemma_edges_carried(a: Runtime, b: Runtime)
        requires
            b.sig_edges@ == a.sig_edges@,
            b.memo_edges@ == a.memo_edges@,
            b.writes@ == a.writes@,
        ensures
            same_sig_edges(a, b),
            same_memo_edges(a, b),
            same_writes(a, b),
    {
        Self::lemma_sig_edges_carried(a, b);
        Self::lemma_memo_edges_carried(a, b);
        Self::lemma_writes_carried(a, b);
    }

    /// An equal pending queue holds the same members.
    proof fn lemma_pending_carried(a: Runtime, b: Runtime)
        requires
            b.pending@ == a.pending@,
        ensures
            forall|c: int| #[trigger] b.pending_contains(c) == a.pending_contains(c),
    {
        assert forall|c: int| #[trigger] b.pending_contains(c) == a.pending_contains(c) by {
            if a.pending_contains(c) {
                let k = choose|k: int|
                    0 <= k < a.pending_view().len() && a.pending_view()[k] == c;
                assert(b.pending_view()[k] == c);
            }
            if b.pending_contains(c) {
                let k = choose|k: int|
                    0 <= k < b.pending_view().len() && b.pending_view()[k] == c;
                assert(a.pending_view()[k] == c);
            }
        }
    }

    /// Dirtiness closure survives a step that keeps the memo edges, the
    /// dirty flags of the old arena, the kinds, liveness and pending
    /// membership of every old computation.
    proof fn lemma_closure_carried(a: Runtime, b: Runtime)
        requires
            a.wf(),
            b.memo_edges@ == a.memo_edges@,
            a.comp_count() <= b.comp_count(),
            forall|c: int| 0 <= c < a.comp_count() ==> b.dirt@[c] == a.dirt@[c],
            forall|c: int| 0 <= c < a.comp_count() ==> b.kinds@[c] == a.kinds@[c],
            forall|c: int| 0 <= c < a.comp_count() ==> b.live@[c] == a.live@[c],
            forall|c: int|
                0 <= c < a.comp_count() && a.pending_contains(c) ==> b.pending_contains(c),
        ensures
            forall|e: Edge| #[trigger]
                b.memo_edges@.contains(e) && b.dirt@[e.src as int] ==> b.dirt@[e.dst as int],
            forall|c: int|
                0 <= c < a.comp_count() && b.kinds@[c] is Effect && b.live@[c] && #[trigger] b
                    .dirt@[c] ==> b.pending_contains(c),
    {
        assert forall|e: Edge| #[trigger] b.memo_edges@.contains(e) && b.dirt@[e.src as int] implies
            b.dirt@[e.dst as int] by {
            assert(a.memo_edges@.contains(e));
            assert(a.dirt@[e.src as int]);
        }
        assert forall|c: int|
            0 <= c < a.comp_count() && b.kinds@[c] is Effect && b.live@[c] && #[trigger] b.dirt@[c]
            implies b.pending_contains(c) by {
            assert(a.dirt@[c]);
            assert(a.pending_contains(c));
        }
    }

    /// A computation id past the old arena bound has no edges in a state
    /// whose edge lists are carried over.
    proof fn lemma_fresh_comp_unwired(self, prior: Runtime, m: int)
        requires
            prior.wf(),
            self.sig_edges@ == prior.sig_edges@,
            self.memo_edges@ == prior.memo_edges@,
            m >= prior.comp_count(),
        ensures
            forall|x: int|
                !self.memo_subscribed(m, x) && !self.memo_subscribed(x, m) && !self.sig_subscribed(
                    x,
                    m,
                ),
    {
        assert forall|x: int|
            !self.memo_subscribed(m, x) && !self.memo_subscribed(x, m) && !self.sig_subscribed(
                x,
                m,
            ) by {
            if self.memo_subscribed(m, x) {
                let e = choose|e: Edge|
                    #[trigger] self.memo_edges@.contains(e) && e.src == m && e.dst == x;
                assert(prior.memo_edges@.contains(e));
            }
            if self.memo_subscribed(x, m) {
                let e = choose|e: Edge|
                    #[trigger] self.memo_edges@.contains(e) && e.src == x && e.dst == m;
                assert(prior.memo_edges@.contains(e));
            }
            if self.sig_subscribed(x, m) {
                let e = choose|e: Edge|
                    #[trigger] self.sig_edges@.contains(e) && e.src == x && e.dst == m;
                assert(prior.sig_edges@.contains(e));
            }
        }
    }

    /// Read a signal's current value. Under active tracking this registers
    /// a subscription edge to the running computation — unless that
    /// computation itself wrote the signal in this run, which takes no
    /// feedback subscription. Outside tracking it is a side-effect-free
    /// peek. Touching a disposed signal fails fast.
    pub fn read_signal(&mut self, s: usize) -> (r: Result<i64, Fault>)
        requires
            old(self).wf(),
        ensures
            final(self).wf(),
            r is Ok <==> old(self).sig_alive(s as int),
            r matches Ok(v) ==> v == old(self).sig_value(s as int),
            r is Err ==> *final(self) == *old(self),
            r matches Err(f) ==> (f == Fault::Missing <==> s >= old(self).sig_count()) && (f
                == Fault::Disposed <==> (s < old(self).sig_count() && !old(self).sig_alive(
                s as int,
            ))),
            r is Ok ==> ({
                &&& same_scopes(*old(self), *final(self))
                &&& same_signal_states(*old(self), *final(self))
                &&& same_comp_states(*old(self), *final(self))
                &&& same_dirty(*old(self), *final(self))
                &&& same_caches(*old(self), *final(self))
                &&& same_memo_edges(*old(self), *final(self))
                &&& final(self).pending_view() == old(self).pending_view()
                &&& final(self).tracking_view() == old(self).tracking_view()
                &&& same_writes(*old(self), *final(self))
                &&& (old(self).tracking_active() && !old(self).wrote_in_run(
                    old(self).tracking_top(),
                    s as int,
                ) ==> forall|s2: int, c2: int| #[trigger]
                    final(self).sig_subscribed(s2, c2) <==> (old(self).sig_subscribed(s2, c2) || (
                    s2 == s && c2 == old(self).tracking_top())))
                &&& (!(old(self).tracking_active() && !old(self).wrote_in_run(
                    old(self).tracking_top(),
                    s as int,
                )) ==> same_sig_edges(*old(self), *final(self)))
            }),
    {
        if s >= self.sig_vals.len() {
            return Err(Fault::Missing);
        }
        if !self.sig_live[s] {
            return Err(Fault::Disposed);
        }
        let v = self.sig_vals[s];
        if self.tracking.len() > 0 {
            let top = self.tracking[self.tracking.len() - 1];
            proof {
                assert(old(self).tracking@[old(self).tracking@.len() - 1] == top);
            }
            if !contains_edge(&self.writes, s, top) {
                proof {
                    if old(self).wrote_in_run(top as int, s as int) {
                        let e = choose|e: Edge|
                            #[trigger] old(self).writes@.contains(e) && e.src == s as int && e.dst
                                == top as int;
                        assert(e == (Edge { src: s, dst: top }));
                    }
                }
                let ghost pre = *self;
                self.sig_edges.push(Edge { src: s, dst: top });
                proof {
                    assert forall|s2: int, c2: int| #[trigger]
                        self.sig_subscribed(s2, c2) <==> (pre.sig_subscribed(s2, c2) || (s2 == s
                        && c2 == top as int)) by {
                        if self.sig_subscribed(s2, c2) {
                            let e = choose|e: Edge|
                                #[trigger] self.sig_edges@.contains(e) && e.src == s2 && e.dst
                                    == c2;
                            let k = choose|k: int|
                                0 <= k < self.sig_edges@.len() && self.sig_edges@[k] == e;
                            if k < pre.sig_edges@.len() {
                                assert(pre.sig_edges@[k] == e);
                                assert(pre.sig_edges@.contains(e));
                            } else {
                                assert(k == pre.sig_edges@.len());
                                assert(self.sig_edges@[k] == (Edge { src: s, dst: top }));
                                assert(e == (Edge { src: s, dst: top }));
                            }
                        }
                        if pre.sig_subscribed(s2, c2) {
                            let e = choose|e: Edge|
                                #[trigger] pre.sig_edges@.contains(e) && e.src == s2 && e.dst == c2;
                            let k = choose|k: int|
                                0 <= k < pre.sig_edges@.len() && pre.sig_edges@[k] == e;
                            assert(self.sig_edges@[k] == e);
                            assert(self.sig_edges@.contains(e));
                        }
                        if s2 == s && c2 == top as int {
                            assert(self.sig_edges@[self.sig_edges@.len() - 1] == (Edge {
                                src: s,
                                dst: top,
                            }));
                            assert(self.sig_edges@.contains(Edge { src: s, dst: top }));
                        }
                    }
                    assert forall|e: Edge| #[trigger] self.sig_edges@.contains(e) implies (
                    e.src as int) < self.sig_count() && self.sig_live@[e.src as int] && (
                    e.dst as int) < self.comp_count() && self.live@[e.dst as int] by {
                        let k = choose|k: int|
                            0 <= k < self.sig_edges@.len() && self.sig_edges@[k] == e;
                        if k < pre.sig_edges@.len() {
                            assert(old(self).sig_edges@.contains(e));
                        } else {
                            assert(e == (Edge { src: s, dst: top }));
                            assert(old(self).tracking@[old(self).tracking@.len() - 1] == top);
                        }
                    }
                    Self::lemma_memo_edges_carried(*old(self), *self);
                    Self::lemma_writes_carried(*old(self), *self);
                    Self::lemma_pending_carried(*old(self), *self);
                    Self::lemma_closure_carried(*old(self), *self);
                }
            } else {
                proof {
                    assert(old(self).writes@.contains(Edge { src: s, dst: top }));
                    assert(old(self).wrote_in_run(top as int, s as int));
                    Self::lemma_edges_carried(*old(self), *self);
                    Self::lemma_pending_carried(*old(self), *self);
                    Self::lemma_closure_carried(*old(self), *self);
                }
            }
        } else {
            proof {
                Self::lemma_edges_carried(*old(self), *self);
                Self::lemma_pending_carried(*old(self), *self);
                Self::lemma_closure_carried(*old(self), *self);
            }
        }
        Ok(v)
    }

    /// Start evaluating computation `c` under tracking: push it on the
    /// tracking stack, clear its dirty flag, its previous dependency edges
    /// (they are rebuilt by the reads of this run), its write records and
    /// its pending entry. Detects a cyclic derivation: a computation
    /// already on the stack cannot be begun again.
    pub fn begin_run(&mut self, c: usize) -> (r: Result<(), Fault>)
        requires
            old(self).wf(),
        ensures
            final(self).wf(),
            r is Ok <==> (old(self).comp_alive(c as int) && !old(self).tracking_contains(c as int)),
            r is Err ==> *final(self) == *old(self),
            r matches Err(f) ==> (f == Fault::Missing <==> c >= old(self).comp_count()) && (f
                == Fault::Disposed <==> (c < old(self).comp_count() && !old(self).comp_alive(
                c as int,
            ))) && (f == Fault::Cycle <==> (old(self).comp_alive(c as int) && old(self).tracking_contains(c as int))),
            r is Ok ==> ({
                &&& final(self).tracking_view() == old(self).tracking_view().push(c)
                &&& !final(self).comp_dirty(c as int)
                &&& forall|c2: int|
                    0 <= c2 < old(self).comp_count() && c2 != c ==> #[trigger] final(self).comp_dirty(c2) == old(self).comp_dirty(c2)
                &&& forall|s2: int, c2: int| #[trigger]
                    final(self).sig_subscribed(s2, c2) <==> (old(self).sig_subscribed(s2, c2) && c2
                        != c)
                &&& forall|m2: int, c2: int| #[trigger]
                    final(self).memo_subscribed(m2, c2) <==> (old(self).memo_subscribed(m2, c2)
                        && c2 != c)
                &&& forall|c2: int| #[trigger]
                    final(self).pending_contains(c2) <==> (old(self).pending_contains(c2) && c2
                        != c)
                &&& forall|c2: int, s2: int| #[trigger]
                    final(self).wrote_in_run(c2, s2) <==> (old(self).wrote_in_run(c2, s2) && c2
                        != c)
                &&& same_scopes(*old(self), *final(self))
                &&& same_signal_states(*old(self), *final(self))
                &&& same_comp_states(*old(self), *final(self))
                &&& same_caches(*old(self), *final(self))
            }),
    {
        if c >= self.kinds.len() {
            return Err(Fault::Missing);
        }
        if !self.live[c] {
            return Err(Fault::Disposed);
        }
        if contains_usize(&self.tracking, c) {
            return Err(Fault::Cycle);
        }
        self.dirt.set(c, false);
        drop_edges_to(&mut self.sig_edges, c);
        drop_edges_to(&mut self.memo_edges, c);
        drop_edges_to(&mut self.writes, c);
        remove_usize(&mut self.pending, c);
        self.tracking.push(c);
        proof {
            let a = *old(self);
            let b = *self;
            assert forall|s2: int, c2: int| #[trigger]
                b.sig_subscribed(s2, c2) <==> (a.sig_subscribed(s2, c2) && c2 != c) by {
                if b.sig_subscribed(s2, c2) {
                    let e = choose|e: Edge|
                        #[trigger] b.sig_edges@.contains(e) && e.src == s2 && e.dst == c2;
                    assert(a.sig_edges@.contains(e) && e.dst != c);
                }
                if a.sig_subscribed(s2, c2) && c2 != c {
                    let e = choose|e: Edge|
                        #[trigger] a.sig_edges@.contains(e) && e.src == s2 && e.dst == c2;
                    assert(b.sig_edges@.contains(e));
                }
            }
            assert forall|m2: int, c2: int| #[trigger]
                b.memo_subscribed(m2, c2) <==> (a.memo_subscribed(m2, c2) && c2 != c) by {
                if b.memo_subscribed(m2, c2) {
                    let e = choose|e: Edge|
                        #[trigger] b.memo_edges@.contains(e) && e.src == m2 && e.dst == c2;
                    assert(a.memo_edges@.contains(e) && e.dst != c);
                }
                if a.memo_subscribed(m2, c2) && c2 != c {
                    let e = choose|e: Edge|
                        #[trigger] a.memo_edges@.contains(e) && e.src == m2 && e.dst == c2;
                    assert(b.memo_edges@.contains(e));
                }
            }
            assert forall|c2: int, s2: int| #[trigger]
                b.wrote_in_run(c2, s2) <==> (a.wrote_in_run(c2, s2) && c2 != c) by {
                if b.wrote_in_run(c2, s2) {
                    let e = choose|e: Edge|
                        #[trigger] b.writes@.contains(e) && e.src == s2 && e.dst == c2;
                    assert(a.writes@.contains(e) && e.dst != c);
                }
                if a.wrote_in_run(c2, s2) && c2 != c {
                    let e = choose|e: Edge|
                        #[trigger] a.writes@.contains(e) && e.src == s2 && e.dst == c2;
                    assert(b.writes@.contains(e));
                }
            }
            // The retained edges and queue entries keep their old facts.
            assert forall|e: Edge| #[trigger] b.sig_edges@.contains(e) implies (e.src as int)
                < b.sig_count() && b.sig_live@[e.src as int] && (e.dst as int) < b.comp_count()
                && b.live@[e.dst as int] by {
                assert(a.sig_edges@.contains(e));
            }
            assert forall|e: Edge| #[trigger] b.memo_edges@.contains(e) implies (e.src as int)
                < b.comp_count() && b.live@[e.src as int] && b.kinds@[e.src as int] is Memo && (
            e.dst as int) < b.comp_count() && b.live@[e.dst as int] by {
                assert(a.memo_edges@.contains(e));
            }
            assert forall|k: int| 0 <= k < b.pending@.len() implies (#[trigger] b.pending@[k])
                < b.comp_count() && b.live@[b.pending@[k] as int] && b.kinds@[b.pending@[k] as int]
                is Effect by {
                assert(seq_has(b.pending@, b.pending@[k] as int));
                assert(seq_has(a.pending@, b.pending@[k] as int));
                let j = choose|j: int|
                    0 <= j < a.pending@.len() && a.pending@[j] == b.pending@[k] as int;
                assert(a.pending@[j] < a.comp_count());
            }
            assert forall|e: Edge| #[trigger] b.memo_edges@.contains(e) && b.dirt@[e.src as int]
                implies b.dirt@[e.dst as int] by {
                assert(a.memo_edges@.contains(e));
                assert(e.dst != c && e.src != c);
                assert(a.dirt@[e.src as int]);
            }
            assert forall|c2: int|
                0 <= c2 < b.comp_count() && b.kinds@[c2] is Effect && b.live@[c2] && #[trigger] b
                    .dirt@[c2] implies b.pending_contains(c2) by {
                assert(c2 != c);
                assert(a.dirt@[c2]);
                assert(a.pending_contains(c2));
            }
        }
        Ok(())
    }

    /// Close the run of memo `m`: store its freshly computed value as the
    /// cache and pop the tracking stack. Refused unless `m` is the memo on
    /// top of the stack.
    pub fn finish_memo(&mut self, m: usize, value: i64) -> (r: Result<(), Fault>)
        requires
            old(self).wf(),
        ensures
            final(self).wf(),
            r is Ok <==> (old(self).tracking_active() && old(self).tracking_top() == m && old(self).is_memo(m as int)),
            r is Err ==> *final(self) == *old(self) && r == Result::<(), Fault>::Err(Fault::Busy),
            r is Ok ==> ({
                &&& final(self).tracking_view() == old(self).tracking_view().drop_last()
                &&& final(self).memo_has_cache(m as int)
                &&& final(self).memo_cache(m as int) == value
                &&& forall|c2: int|
                    0 <= c2 < old(self).comp_count() && c2 != m ==> #[trigger] final(self).memo_has_cache(c2) == old(self).memo_has_cache(c2) && final(self).memo_cache(
                        c2,
                    ) == old(self).memo_cache(c2)
                &&& same_scopes(*old(self), *final(self))
                &&& same_signal_states(*old(self), *final(self))
                &&& same_comp_states(*old(self), *final(self))
                &&& same_dirty(*old(self), *final(self))
                &&& same_sig_edges(*old(self), *final(self))
                &&& same_memo_edges(*old(self), *final(self))
                &&& final(self).pending_view() == old(self).pending_view()
                &&& same_writes(*old(self), *final(self))
            }),
    {
        if self.tracking.len() == 0 {
            return Err(Fault::Busy);
        }
        let top = self.tracking[self.tracking.len() - 1];
        proof {
            assert(old(self).tracking@[old(self).tracking@.len() - 1] == top);
        }
        if top != m {
            return Err(Fault::Busy);
        }
        match self.kinds[m] {
            CompKind::Effect => {
                return Err(Fault::Busy);
            },
            CompKind::Memo => {},
        }
        self.caches.set(m, value);
        self.cached.set(m, true);
        let _ = self.tracking.pop();
        proof {
            Self::lemma_edges_carried(*old(self), *self);
            Self::lemma_pending_carried(*old(self), *self);
            Self::lemma_closure_carried(*old(self), *self);
            assert(self.tracking@ =~= old(self).tracking@.drop_last());
        }
        Ok(())
    }

    /// Abandon the run of the computation on top of the tracking stack,
    /// e.g. when its body yielded a structured failure instead of a value:
    /// the stack is restored on this exit path too. A memo forgets its
    /// cache, so a later read demands a fresh recomputation instead of
    /// observing a value from before the failed run.
    pub fn abort_run(&mut self, c: usize) -> (r: Result<(), Fault>)
        requires
            old(self).wf(),
        ensures
            final(self).wf(),
            r is Ok <==> (old(self).tracking_active() && old(self).tracking_top() == c),
            r is Err ==> *final(self) == *old(self) && r == Result::<(), Fault>::Err(Fault::Busy),
            r is Ok ==> ({
                &&& final(self).tracking_view() == old(self).tracking_view().drop_last()
                &&& !final(self).memo_has_cache(c as int)
                &&& forall|c2: int|
                    0 <= c2 < old(self).comp_count() && c2 != c ==> #[trigger] final(self).memo_has_cache(c2) == old(self).memo_has_cache(c2)
                &&& forall|c2: int|
                    0 <= c2 < old(self).comp_count() ==> #[trigger] final(self).memo_cache(c2)
                        == old(self).memo_cache(c2)
                &&& same_scopes(*old(self), *final(self))
                &&& same_signal_states(*old(self), *final(self))
                &&& same_comp_states(*old(self), *final(self))
                &&& same_dirty(*old(self), *final(self))
                &&& same_sig_edges(*old(self), *final(self))
                &&& same_memo_edges(*old(self), *final(self))
                &&& final(self).pending_view() == old(self).pending_view()
                &&& same_writes(*old(self), *final(self))
            }),
    {
        if self.tracking.len() == 0 {
            return Err(Fault::Busy);
        }
        let top = self.tracking[self.tracking.len() - 1];
        proof {
            assert(old(self).tracking@[old(self).tracking@.len() - 1] == top);
        }
        if top != c {
            return Err(Fault::Busy);
        }
        self.cached.set(c, false);
        let _ = self.tracking.pop();
        proof {
            Self::lemma_edges_carried(*old(self), *self);
            Self::lemma_pending_carried(*old(self), *self);
            Self::lemma_closure_carried(*old(self), *self);
            assert(self.tracking@ =~= old(self).tracking@.drop_last());
        }
        Ok(())
    }

    /// Close the run of effect `e`: pop the tracking stack. Refused unless
    /// `e` is the effect on top of the stack.
    pub fn finish_effect(&mut self, e: usize) -> (r: Result<(), Fault>)
        requires
            old(self).wf(),
        ensures
            final(self).wf(),
            r is Ok <==> (old(self).tracking_active() && old(self).tracking_top() == e && old(self).is_effect(e as int)),
            r is Err ==> *final(self) == *old(self) && r == Result::<(), Fault>::Err(Fault::Busy),
            r is Ok ==> ({
                &&& final(self).tracking_view() == old(self).tracking_view().drop_last()
                &&& same_scopes(*old(self), *final(self))
                &&& same_signal_states(*old(self), *final(self))
                &&& same_comp_states(*old(self), *final(self))
                &&& same_dirty(*old(self), *final(self))
                &&& same_caches(*old(self), *final(self))
                &&& same_sig_edges(*old(self), *final(self))
                &&& same_memo_edges(*old(self), *final(self))
                &&& final(self).pending_view() == old(self).pending_view()
                &&& same_writes(*old(self), *final(self))
            }),
    {
        if self.tracking.len() == 0 {
            return Err(Fault::Busy);
        }
        let top = self.tracking[self.tracking.len() - 1];
        proof {
            assert(old(self).tracking@[old(self).tracking@.len() - 1] == top);
        }
        if top != e {
            return Err(Fault::Busy);
        }
        match self.kinds[e] {
            CompKind::Memo => {
                return Err(Fault::Busy);
            },
            CompKind::Effect => {},
        }
        let _ = self.tracking.pop();
        proof {
            Self::lemma_edges_carried(*old(self), *self);
            Self::lemma_pending_carried(*old(self), *self);
            Self::lemma_closure_carried(*old(self), *self);
            assert(self.tracking@ =~= old(self).tracking@.drop_last());
        }
        Ok(())
    }

    /// Read the cached value of memo `m`. Under tracking this registers a
    /// subscription edge from the memo to the running computation. A dirty
    /// or never-computed memo yields `Stale`: it must be recomputed (under
    /// its own run) first, so a stale cache is never observable. Reading a
    /// memo that is itself mid-run is a cyclic derivation.
    pub fn read_memo(&mut self, m: usize) -> (r: Result<i64, Fault>)
        requires
            old(self).wf(),
        ensures
            final(self).wf(),
            r is Ok <==> old(self).memo_readable(m as int),
            r matches Ok(v) ==> v == old(self).memo_cache(m as int),
            r is Err ==> *final(self) == *old(self),
            r matches Err(f) ==> ({
                &&& f == Fault::Missing <==> !old(self).is_memo(m as int)
                &&& f == Fault::Disposed <==> (old(self).is_memo(m as int) && !old(self).comp_alive(
                    m as int,
                ))
                &&& f == Fault::Cycle <==> (old(self).is_memo(m as int) && old(self).comp_alive(
                    m as int,
                ) && old(self).tracking_contains(m as int))
                &&& f == Fault::Stale <==> (old(self).is_memo(m as int) && old(self).comp_alive(
                    m as int,
                ) && !old(self).tracking_contains(m as int) && (old(self).comp_dirty(m as int)
                    || !old(self).memo_has_cache(m as int)))
            }),
            r is Ok ==> ({
                &&& same_scopes(*old(self), *final(self))
                &&& same_signal_states(*old(self), *final(self))
                &&& same_comp_states(*old(self), *final(self))
                &&& same_dirty(*old(self), *final(self))
                &&& same_caches(*old(self), *final(self))
                &&& same_sig_edges(*old(self), *final(self))
                &&& final(self).pending_view() == old(self).pending_view()
                &&& final(self).tracking_view() == old(self).tracking_view()
                &&& same_writes(*old(self), *final(self))
                &&& (old(self).tracking_active() ==> forall|m2: int, c2: int| #[trigger]
                    final(self).memo_subscribed(m2, c2) <==> (old(self).memo_subscribed(m2, c2) || (
                    m2 == m && c2 == old(self).tracking_top())))
                &&& (!old(self).tracking_active() ==> same_memo_edges(*old(self), *final(self)))
            }),
    {
        if m >= self.kinds.len() {
            return Err(Fault::Missing);
        }
        match self.kinds[m] {
            CompKind::Effect => {
                return Err(Fault::Missing);
            },
            CompKind::Memo => {},
        }
        if !self.live[m] {
            return Err(Fault::Disposed);
        }
        if contains_usize(&self.tracking, m) {
            return Err(Fault::Cycle);
        }
        if self.dirt[m] || !self.cached[m] {
            return Err(Fault::Stale);
        }
        let v = self.caches[m];
        if self.tracking.len() > 0 {
            let top = self.tracking[self.tracking.len() - 1];
            proof {
                assert(old(self).tracking@[old(self).tracking@.len() - 1] == top);
            }
            let ghost pre = *self;
            self.memo_edges.push(Edge { src: m, dst: top });
            proof {
                assert forall|m2: int, c2: int| #[trigger]
                    self.memo_subscribed(m2, c2) <==> (pre.memo_subscribed(m2, c2) || (m2 == m && c2
                        == top as int)) by {
                    if self.memo_subscribed(m2, c2) {
                        let e = choose|e: Edge|
                            #[trigger] self.memo_edges@.contains(e) && e.src == m2 && e.dst == c2;
                        let k = choose|k: int|
                            0 <= k < self.memo_edges@.len() && self.memo_edges@[k] == e;
                        if k < pre.memo_edges@.len() {
                            assert(pre.memo_edges@[k] == e);
                            assert(pre.memo_edges@.contains(e));
                        } else {
                            assert(k == pre.memo_edges@.len());
                            assert(self.memo_edges@[k] == (Edge { src: m, dst: top }));
                            assert(e == (Edge { src: m, dst: top }));
                        }
                    }
                    if pre.memo_subscribed(m2, c2) {
                        let e = choose|e: Edge|
                            #[trigger] pre.memo_edges@.contains(e) && e.src == m2 && e.dst == c2;
                        let k = choose|k: int|
                            0 <= k < pre.memo_edges@.len() && pre.memo_edges@[k] == e;
                        assert(self.memo_edges@[k] == e);
                        assert(self.memo_edges@.contains(e));
                    }
                    if m2 == m && c2 == top as int {
                        assert(self.memo_edges@[self.memo_edges@.len() - 1] == (Edge {
                            src: m,
                            dst: top,
                        }));
                        assert(self.memo_edges@.contains(Edge { src: m, dst: top }));
                    }
                }
                assert forall|e: Edge| #[trigger] self.memo_edges@.contains(e) implies (
                e.src as int) < self.comp_count() && self.live@[e.src as int] && self.kinds@[e.src as int]
                    is Memo && (e.dst as int) < self.comp_count() && self.live@[e.dst as int] by {
                    let k = choose|k: int|
                        0 <= k < self.memo_edges@.len() && self.memo_edges@[k] == e;
                    if k < pre.memo_edges@.len() {
                        assert(old(self).memo_edges@.contains(e));
                    } else {
                        assert(e == (Edge { src: m, dst: top }));
                    }
                }
                assert forall|e: Edge| #[trigger] self.memo_edges@.contains(e) && self.dirt@[e.src as int]
                    implies self.dirt@[e.dst as int] by {
                    let k = choose|k: int|
                        0 <= k < self.memo_edges@.len() && self.memo_edges@[k] == e;
                    if k < pre.memo_edges@.len() {
                        assert(old(self).memo_edges@.contains(e));
                    } else {
                        assert(e == (Edge { src: m, dst: top }));
                        assert(!self.dirt@[m as int]);
                    }
                }
                Self::lemma_sig_edges_carried(*old(self), *self);
                Self::lemma_writes_carried(*old(self), *self);
                Self::lemma_pending_carried(*old(self), *self);
                assert forall|c2: int|
                    0 <= c2 < self.comp_count() && self.kinds@[c2] is Effect && self.live@[c2]
                        && #[trigger] self.dirt@[c2] implies self.pending_contains(c2) by {
                    assert(old(self).pending_contains(c2));
                }
            }
        } else {
            proof {
                Self::lemma_edges_carried(*old(self), *self);
                Self::lemma_pending_carried(*old(self), *self);
                Self::lemma_closure_carried(*old(self), *self);
            }
        }
        Ok(v)
    }

    /// At a flush point (no computation running), take the oldest queued
    /// effect and begin its run: the host executes its body next and closes
    /// with `finish_effect`. Only live effects are ever handed out — a
    /// disposed effect cannot be returned, even if it was queued before its
    /// disposal. Returns nothing when the queue is drained.
    pub fn begin_next_pending(&mut self) -> (r: Option<usize>)
        requires
            old(self).wf(),
            !old(self).tracking_active(),
        ensures
            final(self).wf(),
            r is None <==> old(self).pending_view().len() == 0,
            r is None ==> *final(self) == *old(self),
            r matches Some(e) ==> ({
                &&& e == old(self).pending_view()[0]
                &&& old(self).is_effect(e as int)
                &&& old(self).comp_alive(e as int)
                &&& final(self).tracking_view() == old(self).tracking_view().push(e)
                &&& !final(self).comp_dirty(e as int)
                &&& forall|c2: int|
                    0 <= c2 < old(self).comp_count() && c2 != e ==> #[trigger] final(self).comp_dirty(c2) == old(self).comp_dirty(c2)
                &&& forall|s2: int, c2: int| #[trigger]
                    final(self).sig_subscribed(s2, c2) <==> (old(self).sig_subscribed(s2, c2) && c2
                        != e)
                &&& forall|m2: int, c2: int| #[trigger]
                    final(self).memo_subscribed(m2, c2) <==> (old(self).memo_subscribed(m2, c2)
                        && c2 != e)
                &&& forall|c2: int| #[trigger]
                    final(self).pending_contains(c2) <==> (old(self).pending_contains(c2) && c2
                        != e)
                &&& forall|c2: int, s2: int| #[trigger]
                    final(self).wrote_in_run(c2, s2) <==> (old(self).wrote_in_run(c2, s2) && c2
                        != e)
                &&& same_scopes(*old(self), *final(self))
                &&& same_signal_states(*old(self), *final(self))
                &&& same_comp_states(*old(self), *final(self))
                &&& same_caches(*old(self), *final(self))
            }),
    {
        if self.pending.len() == 0 {
            return None;
        }
        let e = self.pending[0];
        proof {
            assert(old(self).pending@[0] == e);
            assert(old(self).pending@[0] < old(self).comp_count());
        }
        match self.begin_run(e) {
            Ok(()) => Some(e),
            Err(_) => {
                proof {
                    assert(false);
                }
                None
            },
        }
    }

    /// Whether a read of memo `m` would return its cache right now.
    pub fn memo_ready(&self, m: usize) -> (r: bool)
        requires
            self.wf(),
        ensures
            r <==> self.memo_readable(m as int),
    {
        if m >= self.kinds.len() {
            return false;
        }
        match self.kinds[m] {
            CompKind::Effect => {
                return false;
            },
            CompKind::Memo => {},
        }
        if !self.live[m] {
            return false;
        }
        if self.dirt[m] || !self.cached[m] {
            return false;
        }
        !contains_usize(&self.tracking, m)
    }

    /// Write signal `s` unconditionally: store the value, record the write
    /// against the running computation (so that no feedback subscription
    /// forms in this run), mark every transitive dependent dirty and queue
    /// every affected effect, deduplicated. Memos are only marked — nothing
    /// recomputes on a write; caches and the tracking stack are untouched.
    pub fn write_signal_force(&mut self, s: usize, v: i64) -> (r: Result<(), Fault>)
        requires
            old(self).wf(),
        ensures
            final(self).wf(),
            r is Ok <==> old(self).sig_alive(s as int),
            r is Err ==> *final(self) == *old(self),
            r matches Err(f) ==> (f == Fault::Missing <==> s >= old(self).sig_count()) && (f
                == Fault::Disposed <==> (s < old(self).sig_count() && !old(self).sig_alive(
                s as int,
            ))),
            r is Ok ==> ({
                &&& final(self).sig_value(s as int) == v
                &&& final(self).sig_count() == old(self).sig_count()
                &&& forall|s2: int|
                    0 <= s2 < old(self).sig_count() ==> #[trigger] final(self).sig_alive(s2) == old(self).sig_alive(s2) && final(self).sig_scope(s2) == old(self).sig_scope(s2) && (s2
                        != s ==> final(self).sig_value(s2) == old(self).sig_value(s2))
                &&& same_scopes(*old(self), *final(self))
                &&& same_comp_states(*old(self), *final(self))
                &&& same_caches(*old(self), *final(self))
                &&& same_sig_edges(*old(self), *final(self))
                &&& same_memo_edges(*old(self), *final(self))
                &&& final(self).tracking_view() == old(self).tracking_view()
                &&& forall|c: int|
                    0 <= c < old(self).comp_count() && old(self).comp_dirty(c) ==> #[trigger] final(self).comp_dirty(c)
                &&& forall|c: int|
                    old(self).sig_subscribed(s as int, c) ==> #[trigger] final(self).comp_dirty(c)
                &&& forall|c: int|
                    0 <= c < old(self).comp_count() && #[trigger] final(self).comp_dirty(c) ==> (
                    old(self).comp_dirty(c) || dirty_reachable(*old(self), s as int, c))
                &&& forall|c: int|
                    old(self).pending_contains(c) ==> #[trigger] final(self).pending_contains(c)
                &&& forall|c: int| #[trigger]
                    final(self).pending_contains(c) ==> (old(self).pending_contains(c) || (old(self).is_effect(c) && old(self).comp_alive(c) && final(self).comp_dirty(c)))
                &&& (old(self).tracking_active() ==> forall|c2: int, s2: int| #[trigger]
                    final(self).wrote_in_run(c2, s2) <==> (old(self).wrote_in_run(c2, s2) || (c2
                        == old(self).tracking_top() && s2 == s)))
                &&& (!old(self).tracking_active() ==> same_writes(*old(self), *final(self)))
            }),
    {
        if s >= self.sig_vals.len() {
            return Err(Fault::Missing);
        }
        if !self.sig_live[s] {
            return Err(Fault::Disposed);
        }
        self.sig_vals.set(s, v);
        if self.tracking.len() > 0 {
            let top = self.tracking[self.tracking.len() - 1];
            proof {
                assert(old(self).tracking@[old(self).tracking@.len() - 1] == top);
            }
            let ghost wpre = self.writes@;
            self.writes.push(Edge { src: s, dst: top });
            proof {
                assert forall|c2: int, s2: int| #[trigger]
                    self.wrote_in_run(c2, s2) <==> (old(self).wrote_in_run(c2, s2) || (c2
                        == top as int && s2 == s)) by {
                    if self.wrote_in_run(c2, s2) {
                        let e = choose|e: Edge|
                            #[trigger] self.writes@.contains(e) && e.src == s2 && e.dst == c2;
                        let k = choose|k: int| 0 <= k < self.writes@.len() && self.writes@[k] == e;
                        if k < wpre.len() {
                            assert(wpre[k] == e);
                            assert(old(self).writes@.contains(e));
                        } else {
                            assert(e == (Edge { src: s, dst: top }));
                        }
                    }
                    if old(self).wrote_in_run(c2, s2) {
                        let e = choose|e: Edge|
                            #[trigger] old(self).writes@.contains(e) && e.src == s2 && e.dst == c2;
                        let k = choose|k: int| 0 <= k < wpre.len() && wpre[k] == e;
                        assert(self.writes@[k] == e);
                        assert(self.writes@.contains(e));
                    }
                    if c2 == top as int && s2 == s {
                        assert(self.writes@[self.writes@.len() - 1] == (Edge { src: s, dst: top }));
                        assert(self.writes@.contains(Edge { src: s, dst: top }));
                    }
                }
            }
        } else {
            proof {
                Self::lemma_writes_carried(*old(self), *self);
            }
        }
        let ghost mid = *self;
        proof {
            Self::lemma_sig_edges_carried(*old(self), mid);
            Self::lemma_memo_edges_carried(*old(self), mid);
            Self::lemma_pending_carried(*old(self), mid);
        }
        let mut stack: Vec<usize> = Vec::new();
        collect_dsts(&self.sig_edges, s, &mut stack);
        proof {
            assert forall|i: int| 0 <= i < stack@.len() implies (#[trigger] stack@[i])
                < self.comp_count() && self.live@[stack@[i] as int] by {
                assert(seq_has(stack@, stack@[i] as int));
                let e = choose|e: Edge|
                    #[trigger] self.sig_edges@.contains(e) && e.src == s && e.dst == stack@[
                        i] as int;
                assert(old(self).sig_edges@.contains(e));
            }
            assert forall|c: int| mid.sig_subscribed(s as int, c) implies (0 <= c
                < self.comp_count() && seq_has(stack@, c)) by {
                let e = choose|e: Edge|
                    #[trigger] mid.sig_edges@.contains(e) && e.src == s as int && e.dst == c;
                assert(old(self).sig_edges@.contains(e));
                assert(self.sig_edges@.contains(e) && e.src == s && e.dst == c);
            }
            assert forall|i: int| 0 <= i < stack@.len() implies dirty_reachable(
                *old(self),
                s as int,
                (#[trigger] stack@[i]) as int,
            ) by {
                let y = stack@[i] as int;
                assert(seq_has(stack@, y));
                let e = choose|e: Edge|
                    #[trigger] self.sig_edges@.contains(e) && e.src == s && e.dst == y;
                assert(old(self).sig_edges@.contains(e));
                assert(old(self).sig_subscribed(s as int, y));
                assert(dirty_reaches(*old(self), s as int, y, 0));
            }
        }
        while stack.len() > 0
            invariant
                self.sig_vals@ == mid.sig_vals@,
                self.sig_live@ == mid.sig_live@,
                self.sig_owner@ == mid.sig_owner@,
                self.kinds@ == mid.kinds@,
                self.live@ == mid.live@,
                self.caches@ == mid.caches@,
                self.cached@ == mid.cached@,
                self.comp_owner@ == mid.comp_owner@,
                self.scope_live@ == mid.scope_live@,
                self.parents@ == mid.parents@,
                self.sig_edges@ == mid.sig_edges@,
                self.memo_edges@ == mid.memo_edges@,
                self.tracking@ == mid.tracking@,
                self.writes@ == mid.writes@,
                self.dirt@.len() == mid.dirt@.len(),
                mid.dirt@.len() == mid.kinds@.len(),
                mid.wf_frame_for_marking(),
                forall|e: Edge| #[trigger]
                    self.memo_edges@.contains(e) ==> (e.src as int) < self.comp_count()
                        && self.live@[e.src as int] && self.kinds@[e.src as int] is Memo && (
                    e.dst as int) < self.comp_count() && self.live@[e.dst as int],
                forall|i: int|
                    0 <= i < stack@.len() ==> (#[trigger] stack@[i]) < self.comp_count()
                        && self.live@[stack@[i] as int],
                forall|c: int|
                    0 <= c < self.comp_count() && mid.dirt@[c] ==> #[trigger] self.dirt@[c],
                self.kinds@ == old(self).kinds@,
                self.sig_edges@ == old(self).sig_edges@,
                self.memo_edges@ == old(self).memo_edges@,
                forall|i: int|
                    0 <= i < stack@.len() ==> dirty_reachable(
                        *old(self),
                        s as int,
                        (#[trigger] stack@[i]) as int,
                    ),
                forall|c: int|
                    0 <= c < self.comp_count() && #[trigger] self.dirt@[c] ==> (old(self).dirt@[c]
                        || dirty_reachable(*old(self), s as int, c)),
                forall|c: int| #[trigger]
                    mid.sig_subscribed(s as int, c) ==> (0 <= c < self.comp_count() && (self.dirt@[
                        c] || seq_has(stack@, c))),
                forall|e: Edge| #[trigger]
                    self.memo_edges@.contains(e) && self.dirt@[e.src as int] ==> (self.dirt@[
                        e.dst as int] || seq_has(stack@, e.dst as int)),
                forall|c: int|
                    0 <= c < self.comp_count() && self.kinds@[c] is Effect && self.live@[c]
                        && #[trigger] self.dirt@[c] ==> self.pending_contains(c),
                self.pending@.no_duplicates(),
                forall|k2: int|
                    0 <= k2 < self.pending@.len() ==> (#[trigger] self.pending@[k2])
                        < self.comp_count() && self.live@[self.pending@[k2] as int] && self.kinds@[
                        self.pending@[k2] as int] is Effect,
                forall|c: int| mid.pending_contains(c) ==> #[trigger] self.pending_contains(c),
                forall|c: int| #[trigger]
                    self.pending_contains(c) ==> (mid.pending_contains(c) || (0 <= c
                        < self.comp_count() && self.kinds@[c] is Effect && self.live@[c]
                        && self.dirt@[c])),
            decreases count_clean(self.dirt@), stack@.len(),
        {
            let ghost entry = *self;
            let cid = stack[stack.len() - 1];
            let ghost stack_pre = stack@;
            let _ = stack.pop();
            if !self.dirt[cid] {
                proof {
                    lemma_count_clean_set(self.dirt@, cid as int);
                }
                self.dirt.set(cid, true);
                match self.kinds[cid] {
                    CompKind::Effect => {
                        if !contains_usize(&self.pending, cid) {
                            let ghost ppre = self.pending@;
                            self.pending.push(cid);
                            proof {
                                assert(self.pending@.no_duplicates()) by {
                                    assert forall|i: int, j: int|
                                        0 <= i < j < self.pending@.len() implies self.pending@[i]
                                        != self.pending@[j] by {
                                        if j == self.pending@.len() - 1 {
                                            if self.pending@[i] == cid {
                                                assert(seq_has(ppre, cid as int));
                                            }
                                        }
                                    }
                                }
                                assert(self.pending@[self.pending@.len() - 1] == cid);
                                assert(self.pending_contains(cid as int));
                            }
                        } else {
                            proof {
                                assert(self.pending_contains(cid as int));
                            }
                        }
                    },
                    CompKind::Memo => {
                        collect_dsts(&self.memo_edges, cid, &mut stack);
                    },
                }
            }
            proof {
                let drop = stack_pre.drop_last();
                assert(forall|j: int| 0 <= j < drop.len() ==> drop[j] == stack_pre[j]);
                let was_flip_memo = !entry.dirt@[cid as int] && entry.kinds@[cid as int] is Memo;
                assert forall|y: int| seq_has(drop, y) implies #[trigger] seq_has(stack@, y) by {
                    if !was_flip_memo {
                        assert(stack@ == drop);
                    }
                }
                assert forall|i: int| 0 <= i < stack@.len() implies (#[trigger] stack@[i])
                    < self.comp_count() && self.live@[stack@[i] as int] by {
                    let y = stack@[i] as int;
                    assert(seq_has(stack@, y));
                    if seq_has(drop, y) {
                        let j = choose|j: int| 0 <= j < drop.len() && drop[j] == y;
                        assert(stack_pre[j] == y);
                        assert(entry.live@[stack_pre[j] as int]);
                    } else {
                        if was_flip_memo {
                            let e = choose|e: Edge|
                                #[trigger] self.memo_edges@.contains(e) && e.src == cid && e.dst
                                    == y;
                            assert((e.dst as int) < self.comp_count());
                        } else {
                            assert(stack@ == drop);
                            assert(false);
                        }
                    }
                }
                assert forall|i: int| 0 <= i < stack@.len() implies dirty_reachable(
                    *old(self),
                    s as int,
                    (#[trigger] stack@[i]) as int,
                ) by {
                    let y = stack@[i] as int;
                    assert(seq_has(stack@, y));
                    if seq_has(drop, y) {
                        let j = choose|j: int| 0 <= j < drop.len() && drop[j] == y;
                        assert(stack_pre[j] == y);
                        assert(dirty_reachable(*old(self), s as int, stack_pre[j] as int));
                    } else {
                        if was_flip_memo {
                            let e = choose|e: Edge|
                                #[trigger] self.memo_edges@.contains(e) && e.src == cid && e.dst
                                    == y;
                            assert(stack_pre[stack_pre.len() - 1] == cid);
                            assert(dirty_reachable(*old(self), s as int, cid as int));
                            let n = choose|n: nat|
                                dirty_reaches(*old(self), s as int, cid as int, n);
                            assert(old(self).memo_edges@.contains(e));
                            assert(old(self).memo_subscribed(cid as int, y));
                            assert(old(self).is_memo(cid as int));
                            assert(dirty_reaches(*old(self), s as int, y, n + 1));
                        } else {
                            assert(stack@ == drop);
                            assert(false);
                        }
                    }
                }
                assert forall|c: int|
                    0 <= c < self.comp_count() && #[trigger] self.dirt@[c] implies (old(self).dirt@[
                c] || dirty_reachable(*old(self), s as int, c)) by {
                    if c == cid as int && !entry.dirt@[cid as int] {
                        assert(stack_pre[stack_pre.len() - 1] == cid);
                        assert(dirty_reachable(*old(self), s as int, cid as int));
                    } else {
                        assert(entry.dirt@[c]);
                    }
                }
                assert forall|c: int| #[trigger]
                    mid.sig_subscribed(s as int, c) implies (0 <= c < self.comp_count() && (self
                    .dirt@[c] || seq_has(stack@, c))) by {
                    if !self.dirt@[c] {
                        assert(c != cid);
                        assert(seq_has(stack_pre, c));
                        lemma_seq_has_drop_last(stack_pre, c);
                        assert(seq_has(drop, c));
                    }
                }
                assert forall|e: Edge| #[trigger]
                    self.memo_edges@.contains(e) && self.dirt@[e.src as int] implies (self.dirt@[
                    e.dst as int] || seq_has(stack@, e.dst as int)) by {
                    if !self.dirt@[e.dst as int] {
                        assert(e.dst != cid);
                        if e.src == cid && !entry.dirt@[cid as int] {
                            assert(entry.kinds@[cid as int] is Memo);
                            assert(seq_has(stack@, e.dst as int));
                        } else {
                            assert(entry.dirt@[e.src as int]);
                            assert(seq_has(stack_pre, e.dst as int));
                            lemma_seq_has_drop_last(stack_pre, e.dst as int);
                        }
                    }
                }
                assert forall|c: int| mid.pending_contains(c) implies #[trigger] self
                    .pending_contains(c) by {
                    assert(entry.pending_contains(c));
                    let k = choose|k: int|
                        0 <= k < entry.pending@.len() && entry.pending@[k] == c;
                    assert(self.pending@[k] == c);
                }
                assert forall|c: int| #[trigger]
                    self.pending_contains(c) implies (mid.pending_contains(c) || (0 <= c
                        < self.comp_count() && self.kinds@[c] is Effect && self.live@[c]
                        && self.dirt@[c])) by {
                    let k = choose|k: int| 0 <= k < self.pending@.len() && self.pending@[k] == c;
                    if k < entry.pending@.len() {
                        assert(entry.pending@[k] == c);
                        assert(entry.pending_contains(c));
                        if !mid.pending_contains(c) {
                            assert(entry.dirt@[c]);
                        }
                    } else {
                        assert(self.pending@[k] == cid);
                        assert(self.dirt@[cid as int]);
                    }
                }
                assert forall|c: int|
                    0 <= c < self.comp_count() && self.kinds@[c] is Effect && self.live@[c]
                        && #[trigger] self.dirt@[c] implies self.pending_contains(c) by {
                    if !(c == cid as int && !entry.dirt@[cid as int]) {
                        assert(entry.dirt@[c]);
                        assert(entry.pending_contains(c));
                        let k = choose|k: int|
                            0 <= k < entry.pending@.len() && entry.pending@[k] == c;
                        assert(self.pending@[k] == c);
                    }
                }
                assert forall|k2: int| 0 <= k2 < self.pending@.len() implies (#[trigger] self
                    .pending@[k2]) < self.comp_count() && self.live@[self.pending@[k2] as int]
                    && self.kinds@[self.pending@[k2] as int] is Effect by {
                    if k2 < entry.pending@.len() {
                        assert(entry.pending@[k2] == self.pending@[k2]);
                    } else {
                        assert(self.pending@[k2] == cid);
                    }
                }
            }
        }
        proof {
            let b = *self;
            assert forall|c: int| old(self).sig_subscribed(s as int, c) implies #[trigger] b
                .comp_dirty(c) by {
                assert(mid.sig_subscribed(s as int, c));
            }
            Self::lemma_sig_edges_carried(mid, b);
            Self::lemma_memo_edges_carried(mid, b);
            Self::lemma_writes_carried(mid, b);
            assert forall|e: Edge| #[trigger] b.sig_edges@.contains(e) implies (e.src as int)
                < b.sig_count() && b.sig_live@[e.src as int] && (e.dst as int) < b.comp_count()
                && b.live@[e.dst as int] by {
                assert(old(self).sig_edges@.contains(e));
            }
            assert forall|e: Edge| #[trigger] b.memo_edges@.contains(e) implies (e.src as int)
                < b.comp_count() && b.live@[e.src as int] && b.kinds@[e.src as int] is Memo && (
            e.dst as int) < b.comp_count() && b.live@[e.dst as int] by {
                assert(old(self).memo_edges@.contains(e));
            }
        }
        Ok(())
    }

    /// Write signal `s` under the equality-skipping policy: a value equal
    /// to the current one is a no-op (nobody is notified); a distinct value
    /// is stored and dependents are marked and queued as in
    /// `write_signal_force`. Returns whether dependents were notified.
    pub fn write_signal(&mut self, s: usize, v: i64) -> (r: Result<bool, Fault>)
        requires
            old(self).wf(),
        ensures
            final(self).wf(),
            r is Ok <==> old(self).sig_alive(s as int),
            r is Err ==> *final(self) == *old(self),
            r matches Err(f) ==> (f == Fault::Missing <==> s >= old(self).sig_count()) && (f
                == Fault::Disposed <==> (s < old(self).sig_count() && !old(self).sig_alive(
                s as int,
            ))),
            r matches Ok(changed) ==> (changed <==> v != old(self).sig_value(s as int)),
            r == Result::<bool, Fault>::Ok(false) ==> *final(self) == *old(self),
            r == Result::<bool, Fault>::Ok(true) ==> ({
                &&& final(self).sig_value(s as int) == v
                &&& final(self).sig_count() == old(self).sig_count()
                &&& forall|s2: int|
                    0 <= s2 < old(self).sig_count() ==> #[trigger] final(self).sig_alive(s2) == old(self).sig_alive(s2) && final(self).sig_scope(s2) == old(self).sig_scope(s2) && (s2
                        != s ==> final(self).sig_value(s2) == old(self).sig_value(s2))
                &&& same_scopes(*old(self), *final(self))
                &&& same_comp_states(*old(self), *final(self))
                &&& same_caches(*old(self), *final(self))
                &&& same_sig_edges(*old(self), *final(self))
                &&& same_memo_edges(*old(self), *final(self))
                &&& final(self).tracking_view() == old(self).tracking_view()
                &&& forall|c: int|
                    0 <= c < old(self).comp_count() && old(self).comp_dirty(c) ==> #[trigger] final(self).comp_dirty(c)
                &&& forall|c: int|
                    old(self).sig_subscribed(s as int, c) ==> #[trigger] final(self).comp_dirty(c)
                &&& forall|c: int|
                    0 <= c < old(self).comp_count() && #[trigger] final(self).comp_dirty(c) ==> (
                    old(self).comp_dirty(c) || dirty_reachable(*old(self), s as int, c))
                &&& forall|c: int|
                    old(self).pending_contains(c) ==> #[trigger] final(self).pending_contains(c)
                &&& forall|c: int| #[trigger]
                    final(self).pending_contains(c) ==> (old(self).pending_contains(c) || (old(self).is_effect(c) && old(self).comp_alive(c) && final(self).comp_dirty(c)))
                &&& (old(self).tracking_active() ==> forall|c2: int, s2: int| #[trigger]
                    final(self).wrote_in_run(c2, s2) <==> (old(self).wrote_in_run(c2, s2) || (c2
                        == old(self).tracking_top() && s2 == s)))
                &&& (!old(self).tracking_active() ==> same_writes(*old(self), *final(self)))
            }),
    {
        if s >= self.sig_vals.len() {
            return Err(Fault::Missing);
        }
        if !self.sig_live[s] {
            return Err(Fault::Disposed);
        }
        if self.sig_vals[s] == v {
            return Ok(false);
        }
        match self.write_signal_force(s, v) {
            Ok(()) => Ok(true),
            Err(_) => {
                proof {
                    assert(false);
                }
                Ok(true)
            },
        }
    }

    /// The pieces of well-formedness that the marking worklist leaves
    /// untouched and relies on.
    spec fn wf_frame_for_marking(self) -> bool {
        &&& self.scope_live@.len() == self.parents@.len()
        &&& self.scope_count() >= 1
        &&& self.parents@[0] == 0
        &&& forall|sc: int| 1 <= sc < self.scope_count() ==> (#[trigger] self.parents@[sc]) < sc
        &&& forall|sc: int|
            1 <= sc < self.scope_count() && self.scope_live@[sc] ==> self.scope_live@[(
            #[trigger] self.parents@[sc]) as int]
        &&& forall|s: int|
            0 <= s < self.sig_count() ==> (#[trigger] self.sig_owner@[s]) < self.scope_count() && (
            self.sig_live@[s] ==> self.scope_live@[self.sig_owner@[s] as int])
        &&& forall|c: int|
            0 <= c < self.comp_count() ==> (#[trigger] self.comp_owner@[c]) < self.scope_count()
                && (self.live@[c] ==> self.scope_live@[self.comp_owner@[c] as int])
        &&& self.sig_live@.len() == self.sig_vals@.len()
        &&& self.sig_owner@.len() == self.sig_vals@.len()
        &&& self.live@.len() == self.kinds@.len()
        &&& self.caches@.len() == self.kinds@.len()
        &&& self.cached@.len() == self.kinds@.len()
        &&& self.comp_owner@.len() == self.kinds@.len()
        &&& forall|k: int|
            0 <= k < self.tracking@.len() ==> (#[trigger] self.tracking@[k]) < self.comp_count()
                && self.live@[self.tracking@[k] as int]
        &&& self.tracking@.no_duplicates()
    }

    /// Whether scope `x` lies in the subtree rooted at `anc`.
    pub fn scope_within_check(&self, x: usize, anc: usize) -> (r: bool)
        requires
            self.wf(),
            x < self.scope_count(),
        ensures
            r == Runtime::scope_within(self.scope_parents(), x as int, anc as int),
    {
        let mut cur = x;
        loop
            invariant
                self.wf(),
                cur < self.scope_count(),
                Runtime::scope_within(self.scope_parents(), x as int, anc as int)
                    == Runtime::scope_within(self.scope_parents(), cur as int, anc as int),
            ensures
                Runtime::scope_within(self.scope_parents(), x as int, anc as int) == (cur == anc),
            decreases cur,
        {
            if cur == anc {
                break ;
            }
            if cur == 0 {
                break ;
            }
            cur = self.parents[cur];
        }
        cur == anc
    }

    /// Tear down scope `sc` and its whole subtree, synchronously: every
    /// signal and computation owned by a disposed scope dies, all of their
    /// subscription edges are severed, and every queued entry of a dead
    /// effect leaves the pending queue — a disposed computation never runs
    /// again. Refused while a computation inside the subtree is running.
    pub fn dispose_scope(&mut self, sc: usize) -> (r: Result<(), Fault>)
        requires
            old(self).wf(),
        ensures
            final(self).wf(),
            r is Ok <==> (old(self).scope_alive(sc as int) && forall|k: int|
                0 <= k < old(self).tracking_view().len() ==> !Runtime::scope_within(
                    old(self).scope_parents(),
                    old(self).comp_scope(old(self).tracking_view()[k] as int),
                    sc as int,
                )),
            r is Err ==> *final(self) == *old(self),
            r matches Err(f) ==> (f == Fault::Missing <==> sc >= old(self).scope_count()) && (f
                == Fault::Disposed <==> (sc < old(self).scope_count() && !old(self).scope_alive(
                sc as int,
            ))) && (f == Fault::Busy <==> (old(self).scope_alive(sc as int) && exists|k: int|
                0 <= k < old(self).tracking_view().len() && Runtime::scope_within(
                    old(self).scope_parents(),
                    old(self).comp_scope((#[trigger] old(self).tracking_view()[k]) as int),
                    sc as int,
                ))),
            r is Ok ==> ({
                &&& final(self).scope_count() == old(self).scope_count()
                &&& final(self).scope_parents() == old(self).scope_parents()
                &&& forall|sc2: int|
                    0 <= sc2 < old(self).scope_count() ==> (#[trigger] final(self).scope_alive(sc2)
                        <==> (old(self).scope_alive(sc2) && !Runtime::scope_within(
                        old(self).scope_parents(),
                        sc2,
                        sc as int,
                    )))
                &&& final(self).sig_count() == old(self).sig_count()
                &&& forall|s: int|
                    0 <= s < old(self).sig_count() ==> (#[trigger] final(self).sig_alive(s) <==> (
                    old(self).sig_alive(s) && !Runtime::scope_within(
                        old(self).scope_parents(),
                        old(self).sig_scope(s),
                        sc as int,
                    )))
                &&& forall|s: int|
                    0 <= s < old(self).sig_count() ==> #[trigger] final(self).sig_value(s) == old(self).sig_value(s) && final(self).sig_scope(s) == old(self).sig_scope(s)
                &&& final(self).comp_count() == old(self).comp_count()
                &&& forall|c: int|
                    0 <= c < old(self).comp_count() ==> (#[trigger] final(self).comp_alive(c) <==> (
                    old(self).comp_alive(c) && !Runtime::scope_within(
                        old(self).scope_parents(),
                        old(self).comp_scope(c),
                        sc as int,
                    )))
                &&& forall|c: int|
                    0 <= c < old(self).comp_count() ==> #[trigger] final(self).is_memo(c) == old(self).is_memo(c) && final(self).comp_scope(c) == old(self).comp_scope(c) && final(self).comp_dirty(c) == old(self).comp_dirty(c) && final(self).memo_has_cache(c)
                        == old(self).memo_has_cache(c) && final(self).memo_cache(c) == old(self).memo_cache(c)
                &&& forall|s2: int, c2: int| #[trigger]
                    final(self).sig_subscribed(s2, c2) <==> (old(self).sig_subscribed(s2, c2)
                        && final(self).sig_alive(s2) && final(self).comp_alive(c2))
                &&& forall|m2: int, c2: int| #[trigger]
                    final(self).memo_subscribed(m2, c2) <==> (old(self).memo_subscribed(m2, c2)
                        && final(self).comp_alive(m2) && final(self).comp_alive(c2))
                &&& forall|c: int| #[trigger]
                    final(self).pending_contains(c) <==> (old(self).pending_contains(c) && final(self).comp_alive(c))
                &&& final(self).tracking_view() == old(self).tracking_view()
            }),
    {
        if sc >= self.parents.len() {
            return Err(Fault::Missing);
        }
        if !self.scope_live[sc] {
            return Err(Fault::Disposed);
        }
        // A computation inside the subtree must not be running.
        let mut k: usize = 0;
        while k < self.tracking.len()
            invariant
                old(self).wf(),
                *self == *old(self),
                sc < self.scope_count(),
                old(self).scope_live@[sc as int],
                k <= self.tracking@.len(),
                forall|j: int|
                    0 <= j < k ==> !Runtime::scope_within(
                        self.scope_parents(),
                        self.comp_scope(#[trigger] self.tracking@[j] as int),
                        sc as int,
                    ),
            decreases self.tracking@.len() - k,
        {
            let t = self.tracking[k];
            proof {
                assert(self.tracking@[k as int] == t);
            }
            if self.scope_within_check(self.comp_owner[t], sc) {
                proof {
                    assert(Runtime::scope_within(
                        old(self).scope_parents(),
                        old(self).comp_scope(old(self).tracking_view()[k as int] as int),
                        sc as int,
                    ));
                }
                return Err(Fault::Busy);
            }
            k = k + 1;
        }
        // Mark the subtree's scopes dead, parents before children.
        let ghost parents = self.parents@;
        let mut i: usize = sc;
        while i < self.scope_live.len()
            invariant
                old(self).wf(),
                sc <= i,
                sc < self.scope_count(),
                self.parents@ == old(self).parents@,
                self.scope_live@.len() == old(self).scope_live@.len(),
                self.sig_vals@ == old(self).sig_vals@,
                self.sig_live@ == old(self).sig_live@,
                self.sig_owner@ == old(self).sig_owner@,
                self.kinds@ == old(self).kinds@,
                self.live@ == old(self).live@,
                self.dirt@ == old(self).dirt@,
                self.caches@ == old(self).caches@,
                self.cached@ == old(self).cached@,
                self.comp_owner@ == old(self).comp_owner@,
                self.sig_edges@ == old(self).sig_edges@,
                self.memo_edges@ == old(self).memo_edges@,
                self.tracking@ == old(self).tracking@,
                self.pending@ == old(self).pending@,
                self.writes@ == old(self).writes@,
                forall|j: int| 0 <= j < sc ==> self.scope_live@[j] == old(self).scope_live@[j],
                forall|j: int|
                    i <= j < self.scope_live@.len() ==> self.scope_live@[j] == old(self).scope_live@[j],
                forall|j: int|
                    sc <= j < i ==> (self.scope_live@[j] <==> (old(self).scope_live@[j]
                        && !Runtime::scope_within(old(self).parents@, j, sc as int))),
            decreases self.scope_live@.len() - i,
        {
            proof {
                if i > sc {
                    assert((old(self).parents@[i as int]) < i);
                }
            }
            if i == sc {
                self.scope_live.set(i, false);
            } else if self.scope_live[i] && !self.scope_live[self.parents[i]] {
                self.scope_live.set(i, false);
            }
            proof {
                if i > sc {
                    let p = old(self).parents@[i as int] as int;
                    assert(Runtime::scope_within(old(self).parents@, i as int, sc as int)
                        == Runtime::scope_within(old(self).parents@, p, sc as int));
                    if p < sc && Runtime::scope_within(old(self).parents@, p, sc as int) {
                        lemma_within_ge(old(self).parents@, p, sc as int);
                    }
                }
            }
            i = i + 1;
        }
        let ghost scope_mark = self.scope_live@;
        // Sweep the members of dead scopes.
        let mut s2: usize = 0;
        while s2 < self.sig_live.len()
            invariant
                old(self).wf(),
                s2 <= self.sig_live@.len(),
                self.sig_live@.len() == old(self).sig_live@.len(),
                self.scope_live@ == scope_mark,
                scope_mark.len() == old(self).scope_live@.len(),
                self.parents@ == old(self).parents@,
                self.sig_vals@ == old(self).sig_vals@,
                self.sig_owner@ == old(self).sig_owner@,
                self.kinds@ == old(self).kinds@,
                self.live@ == old(self).live@,
                self.dirt@ == old(self).dirt@,
                self.caches@ == old(self).caches@,
                self.cached@ == old(self).cached@,
                self.comp_owner@ == old(self).comp_owner@,
                self.sig_edges@ == old(self).sig_edges@,
                self.memo_edges@ == old(self).memo_edges@,
                self.tracking@ == old(self).tracking@,
                self.pending@ == old(self).pending@,
                self.writes@ == old(self).writes@,
                forall|j: int|
                    s2 <= j < self.sig_live@.len() ==> self.sig_live@[j] == old(self).sig_live@[j],
                forall|j: int|
                    0 <= j < s2 ==> (self.sig_live@[j] <==> (old(self).sig_live@[j] && scope_mark[
                    old(self).sig_owner@[j] as int])),
            decreases self.sig_live@.len() - s2,
        {
            if self.sig_live[s2] && !self.scope_live[self.sig_owner[s2]] {
                self.sig_live.set(s2, false);
            }
            s2 = s2 + 1;
        }
        let ghost sig_mark = self.sig_live@;
        let mut c2: usize = 0;
        while c2 < self.live.len()
            invariant
                old(self).wf(),
                c2 <= self.live@.len(),
                self.live@.len() == old(self).live@.len(),
                self.scope_live@ == scope_mark,
                scope_mark.len() == old(self).scope_live@.len(),
                self.sig_live@ == sig_mark,
                self.parents@ == old(self).parents@,
                self.sig_vals@ == old(self).sig_vals@,
                self.sig_owner@ == old(self).sig_owner@,
                self.kinds@ == old(self).kinds@,
                self.dirt@ == old(self).dirt@,
                self.caches@ == old(self).caches@,
                self.cached@ == old(self).cached@,
                self.comp_owner@ == old(self).comp_owner@,
                self.sig_edges@ == old(self).sig_edges@,
                self.memo_edges@ == old(self).memo_edges@,
                self.tracking@ == old(self).tracking@,
                self.pending@ == old(self).pending@,
                self.writes@ == old(self).writes@,
                forall|j: int| c2 <= j < self.live@.len() ==> self.live@[j] == old(self).live@[j],
                forall|j: int|
                    0 <= j < c2 ==> (self.live@[j] <==> (old(self).live@[j] && scope_mark[old(
                        self,
                    ).comp_owner@[j] as int])),
            decreases self.live@.len() - c2,
        {
            if self.live[c2] && !self.scope_live[self.comp_owner[c2]] {
                self.live.set(c2, false);
            }
            c2 = c2 + 1;
        }
        // Sever the edges and queue entries of the dead.
        proof {
            assert forall|e: Edge| #[trigger] self.sig_edges@.contains(e) implies (e.src as int)
                < self.sig_live@.len() && (e.dst as int) < self.live@.len() by {
                assert(old(self).sig_edges@.contains(e));
            }
            assert forall|e: Edge| #[trigger] self.memo_edges@.contains(e) implies (e.src as int)
                < self.live@.len() && (e.dst as int) < self.live@.len() by {
                assert(old(self).memo_edges@.contains(e));
            }
            assert forall|k2: int| 0 <= k2 < self.pending@.len() implies (#[trigger] self.pending@[
            k2]) < self.live@.len() by {
                assert(old(self).pending@[k2] < old(self).comp_count());
            }
        }
        let new_sig_edges = filter_edges(&self.sig_edges, &self.sig_live, &self.live);
        self.sig_edges = new_sig_edges;
        let new_memo_edges = filter_edges(&self.memo_edges, &self.live, &self.live);
        self.memo_edges = new_memo_edges;
        let new_pending = filter_ids(&self.pending, &self.live);
        self.pending = new_pending;
        proof {
            self.lemma_dispose_post(*old(self), scope_mark, sc);
        }
        Ok(())
    }

    /// After the mark-and-sweep of `dispose_scope`, the graph is well
    /// formed again and relates to the starting state as the contract states.
    proof fn lemma_dispose_post(self, a: Runtime, scope_mark: Seq<bool>, sc: usize)
        requires
            a.wf(),
            (sc as int) < a.scope_count(),
            a.scope_live@[sc as int],
            forall|k: int|
                0 <= k < a.tracking@.len() ==> !Runtime::scope_within(
                    a.parents@,
                    a.comp_owner@[#[trigger] a.tracking@[k] as int] as int,
                    sc as int,
                ),
            self.scope_live@ == scope_mark,
            scope_mark.len() == a.scope_live@.len(),
            forall|j: int| 0 <= j < sc ==> scope_mark[j] == a.scope_live@[j],
            forall|j: int|
                sc <= j < a.scope_count() ==> (scope_mark[j] <==> (a.scope_live@[j]
                    && !Runtime::scope_within(a.parents@, j, sc as int))),
            self.parents@ == a.parents@,
            self.sig_vals@ == a.sig_vals@,
            self.sig_owner@ == a.sig_owner@,
            self.kinds@ == a.kinds@,
            self.dirt@ == a.dirt@,
            self.caches@ == a.caches@,
            self.cached@ == a.cached@,
            self.comp_owner@ == a.comp_owner@,
            self.tracking@ == a.tracking@,
            self.writes@ == a.writes@,
            self.sig_live@.len() == a.sig_live@.len(),
            self.live@.len() == a.live@.len(),
            forall|j: int|
                0 <= j < a.sig_count() ==> (self.sig_live@[j] <==> (a.sig_live@[j] && scope_mark[
                a.sig_owner@[j] as int])),
            forall|j: int|
                0 <= j < a.comp_count() ==> (self.live@[j] <==> (a.live@[j] && scope_mark[
                a.comp_owner@[j] as int])),
            forall|e: Edge| #[trigger]
                self.sig_edges@.contains(e) <==> (a.sig_edges@.contains(e) && self.sig_live@[
                e.src as int] && self.live@[e.dst as int]),
            forall|e: Edge| #[trigger]
                self.memo_edges@.contains(e) <==> (a.memo_edges@.contains(e) && self.live@[
                e.src as int] && self.live@[e.dst as int]),
            self.pending@.no_duplicates(),
            forall|x: int| #[trigger]
                seq_has(self.pending@, x) <==> (seq_has(a.pending@, x) && 0 <= x < self.live@.len()
                    && self.live@[x]),
        ensures
            self.wf(),
            forall|sc2: int|
                0 <= sc2 < a.scope_count() ==> (#[trigger] self.scope_alive(sc2) <==> (
                a.scope_alive(sc2) && !Runtime::scope_within(a.parents@, sc2, sc as int))),
            forall|s: int|
                0 <= s < a.sig_count() ==> (#[trigger] self.sig_alive(s) <==> (a.sig_alive(s)
                    && !Runtime::scope_within(a.parents@, a.sig_scope(s), sc as int))),
            forall|c: int|
                0 <= c < a.comp_count() ==> (#[trigger] self.comp_alive(c) <==> (a.comp_alive(c)
                    && !Runtime::scope_within(a.parents@, a.comp_scope(c), sc as int))),
            forall|s2: int, c2: int| #[trigger]
                self.sig_subscribed(s2, c2) <==> (a.sig_subscribed(s2, c2) && self.sig_alive(s2)
                    && self.comp_alive(c2)),
            forall|m2: int, c2: int| #[trigger]
                self.memo_subscribed(m2, c2) <==> (a.memo_subscribed(m2, c2) && self.comp_alive(m2)
                    && self.comp_alive(c2)),
            forall|c: int| #[trigger]
                self.pending_contains(c) <==> (a.pending_contains(c) && self.comp_alive(c)),
    {
        assert forall|sc2: int|
            0 <= sc2 < a.scope_count() implies (#[trigger] self.scope_alive(sc2) <==> (
        a.scope_alive(sc2) && !Runtime::scope_within(a.parents@, sc2, sc as int))) by {
            if sc2 < sc {
                if Runtime::scope_within(a.parents@, sc2, sc as int) {
                    lemma_within_ge(a.parents@, sc2, sc as int);
                }
            }
        }
        // A live scope keeps a live parent: not being in the subtree passes
        // to the parent.
        assert forall|sc2: int|
            1 <= sc2 < self.scope_count() && self.scope_live@[sc2] implies self.scope_live@[(
        #[trigger] self.parents@[sc2]) as int] by {
            let p = a.parents@[sc2] as int;
            assert(Runtime::scope_within(a.parents@, sc2, sc as int) == (sc2 == sc
                || Runtime::scope_within(a.parents@, p, sc as int)));
            assert(a.scope_live@[sc2] && a.scope_live@[p]);
        }
        assert forall|s: int|
            0 <= s < a.sig_count() implies (#[trigger] self.sig_alive(s) <==> (a.sig_alive(s)
                && !Runtime::scope_within(a.parents@, a.sig_scope(s), sc as int))) by {
            let ow = a.sig_owner@[s] as int;
            if a.sig_live@[s] {
                assert(a.scope_live@[ow]);
                if ow < sc {
                    if Runtime::scope_within(a.parents@, ow, sc as int) {
                        lemma_within_ge(a.parents@, ow, sc as int);
                    }
                }
            }
        }
        assert forall|c: int|
            0 <= c < a.comp_count() implies (#[trigger] self.comp_alive(c) <==> (a.comp_alive(c)
                && !Runtime::scope_within(a.parents@, a.comp_scope(c), sc as int))) by {
            let ow = a.comp_owner@[c] as int;
            if a.live@[c] {
                assert(a.scope_live@[ow]);
                if ow < sc {
                    if Runtime::scope_within(a.parents@, ow, sc as int) {
                        lemma_within_ge(a.parents@, ow, sc as int);
                    }
                }
            }
        }
        // Members of live scopes still sit in live scopes.
        assert forall|s: int| 0 <= s < self.sig_count() implies (#[trigger] self.sig_owner@[s])
            < self.scope_count() && (self.sig_live@[s] ==> self.scope_live@[self.sig_owner@[s] as int]) by {}
        assert forall|c: int| 0 <= c < self.comp_count() implies (#[trigger] self.comp_owner@[c])
            < self.scope_count() && (self.live@[c] ==> self.scope_live@[self.comp_owner@[c] as int]) by {}
        // Edge endpoints are live by construction of the filter.
        assert forall|e: Edge| #[trigger] self.sig_edges@.contains(e) implies (e.src as int)
            < self.sig_count() && self.sig_live@[e.src as int] && (e.dst as int)
            < self.comp_count() && self.live@[e.dst as int] by {
            assert(a.sig_edges@.contains(e));
        }
        assert forall|e: Edge| #[trigger] self.memo_edges@.contains(e) implies (e.src as int)
            < self.comp_count() && self.live@[e.src as int] && self.kinds@[e.src as int] is Memo
            && (e.dst as int) < self.comp_count() && self.live@[e.dst as int] by {
            assert(a.memo_edges@.contains(e));
        }
        // The pending queue kept only live effects.
        assert forall|k: int| 0 <= k < self.pending@.len() implies (#[trigger] self.pending@[k])
            < self.comp_count() && self.live@[self.pending@[k] as int] && self.kinds@[self.pending@[
        k] as int] is Effect by {
            let x = self.pending@[k] as int;
            assert(seq_has(self.pending@, x));
            assert(seq_has(a.pending@, x));
            let j = choose|j: int| 0 <= j < a.pending@.len() && a.pending@[j] == x;
            assert(a.pending@[j] < a.comp_count());
        }
        // The running computations live outside the subtree and survive.
        assert forall|k: int| 0 <= k < self.tracking@.len() implies (#[trigger] self.tracking@[k])
            < self.comp_count() && self.live@[self.tracking@[k] as int] by {
            let t = a.tracking@[k] as int;
            assert(a.tracking@[k] == self.tracking@[k]);
            assert(a.live@[t]);
            assert(!Runtime::scope_within(a.parents@, a.comp_owner@[t] as int, sc as int));
            assert(self.comp_alive(t));
        }
        // Dirtiness closure: the kept edges and queue entries carry it.
        assert forall|e: Edge| #[trigger] self.memo_edges@.contains(e) && self.dirt@[e.src as int]
            implies self.dirt@[e.dst as int] by {
            assert(a.memo_edges@.contains(e));
        }
        assert forall|c: int|
            0 <= c < self.comp_count() && self.kinds@[c] is Effect && self.live@[c] && #[trigger] self
            .dirt@[c] implies self.pending_contains(c) by {
            assert(a.dirt@[c]);
            assert(a.pending_contains(c));
            assert(seq_has(a.pending@, c));
        }
        // The subscription relations, restated over the relations of `a`.
        assert forall|s2: int, c2: int| #[trigger]
            self.sig_subscribed(s2, c2) <==> (a.sig_subscribed(s2, c2) && self.sig_alive(s2)
                && self.comp_alive(c2)) by {
            if self.sig_subscribed(s2, c2) {
                let e = choose|e: Edge|
                    #[trigger] self.sig_edges@.contains(e) && e.src == s2 && e.dst == c2;
                assert(a.sig_edges@.contains(e));
            }
            if a.sig_subscribed(s2, c2) && self.sig_alive(s2) && self.comp_alive(c2) {
                let e = choose|e: Edge|
                    #[trigger] a.sig_edges@.contains(e) && e.src == s2 && e.dst == c2;
                assert(self.sig_edges@.contains(e));
            }
        }
        assert forall|m2: int, c2: int| #[trigger]
            self.memo_subscribed(m2, c2) <==> (a.memo_subscribed(m2, c2) && self.comp_alive(m2)
                && self.comp_alive(c2)) by {
            if self.memo_subscribed(m2, c2) {
                let e = choose|e: Edge|
                    #[trigger] self.memo_edges@.contains(e) && e.src == m2 && e.dst == c2;
                assert(a.memo_edges@.contains(e));
            }
            if a.memo_subscribed(m2, c2) && self.comp_alive(m2) && self.comp_alive(c2) {
                let e = choose|e: Edge|
                    #[trigger] a.memo_edges@.contains(e) && e.src == m2 && e.dst == c2;
                assert(self.live@[e.src as int] && self.live@[e.dst as int]);
                assert(self.memo_edges@.contains(e));
            }
        }
    }

    /// How many effects await the next flush.
    pub fn pending_count(&self) -> (n: usize)
        ensures
            n == self.pending_view().len(),
    {
        self.pending.len()
    }

    /// How deep the tracking stack currently is; a flush may only start at
    /// depth zero.
    pub fn tracking_depth(&self) -> (n: usize)
        ensures
            n == self.tracking_view().len(),
    {
        self.tracking.len()
    }
}

/// Every scope of `a` keeps its liveness and parent in `b`.
pub open spec fn scopes_preserved(a: Runtime, b: Runtime) -> bool {
    &&& forall|sc: int| 0 <= sc < a.scope_count() ==> #[trigger] b.scope_alive(sc) == a.scope_alive(sc)
    &&& forall|sc: int|
        0 <= sc < a.scope_count() ==> #[trigger] b.scope_parent(sc) == a.scope_parent(sc)
}

/// Every signal of `a` keeps its liveness, value and owner in `b`.
pub open spec fn signals_preserved(a: Runtime, b: Runtime) -> bool {
    &&& forall|s: int| 0 <= s < a.sig_count() ==> #[trigger] b.sig_alive(s) == a.sig_alive(s)
    &&& forall|s: int| 0 <= s < a.sig_count() ==> #[trigger] b.sig_value(s) == a.sig_value(s)
    &&& forall|s: int| 0 <= s < a.sig_count() ==> #[trigger] b.sig_scope(s) == a.sig_scope(s)
}

/// Every computation of `a` keeps its kind, liveness, owner, dirty flag and
/// cache in `b`.
pub open spec fn comps_preserved(a: Runtime, b: Runtime) -> bool {
    &&& forall|c: int| 0 <= c < a.comp_count() ==> #[trigger] b.is_memo(c) == a.is_memo(c)
    &&& forall|c: int| 0 <= c < a.comp_count() ==> #[trigger] b.comp_alive(c) == a.comp_alive(c)
    &&& forall|c: int| 0 <= c < a.comp_count() ==> #[trigger] b.comp_scope(c) == a.comp_scope(c)
    &&& forall|c: int| 0 <= c < a.comp_count() ==> #[trigger] b.comp_dirty(c) == a.comp_dirty(c)
    &&& forall|c: int|
        0 <= c < a.comp_count() ==> #[trigger] b.memo_has_cache(c) == a.memo_has_cache(c)
    &&& forall|c: int| 0 <= c < a.comp_count() ==> #[trigger] b.memo_cache(c) == a.memo_cache(c)
}

/// Whether the integer `x` occurs in the id list.
pub open spec fn seq_has(ids: Seq<usize>, x: int) -> bool {
    exists|i: int| 0 <= i < ids.len() && ids[i] == x
}

/// How many flags of the list are unset; write propagation can only lower
/// it, which bounds the marking worklist.
spec fn count_clean(flags: Seq<bool>) -> nat
    decreases flags.len(),
{
    if flags.len() == 0 {
        0
    } else {
        count_clean(flags.drop_last()) + (if flags.last() {
            0nat
        } else {
            1nat
        })
    }
}

proof fn lemma_count_clean_set(flags: Seq<bool>, i: int)
    requires
        0 <= i < flags.len(),
        !flags[i],
    ensures
        count_clean(flags.update(i, true)) < count_clean(flags),
    decreases flags.len(),
{
    if i == flags.len() - 1 {
        assert(flags.update(i, true).drop_last() =~= flags.drop_last());
    } else {
        assert(flags.update(i, true).drop_last() =~= flags.drop_last().update(i, true));
        lemma_count_clean_set(flags.drop_last(), i);
    }
}

proof fn lemma_seq_has_push(ids: Seq<usize>, x: usize, y: int)
    requires
        seq_has(ids, y),
    ensures
        seq_has(ids.push(x), y),
{
    let i = choose|i: int| 0 <= i < ids.len() && ids[i] == y;
    assert(ids.push(x)[i] == y);
}

proof fn lemma_seq_has_drop_last(ids: Seq<usize>, y: int)
    requires
        ids.len() > 0,
        seq_has(ids, y),
        y != ids.last(),
    ensures
        seq_has(ids.drop_last(), y),
{
    let i = choose|i: int| 0 <= i < ids.len() && ids[i] == y;
    assert(i < ids.len() - 1);
    assert(ids.drop_last()[i] == y);
}

/// Push the target of every edge leaving `src` onto the worklist.
fn collect_dsts(edges: &Vec<Edge>, src: usize, stack: &mut Vec<usize>)
    ensures
        forall|y: int| #[trigger]
            seq_has(final(stack)@, y) <==> (seq_has(old(stack)@, y) || exists|e: Edge| #[trigger]
                edges@.contains(e) && e.src == src && e.dst == y),
{
    let mut k: usize = 0;
    while k < edges.len()
        invariant
            k <= edges@.len(),
            forall|y: int| #[trigger]
                seq_has(stack@, y) <==> (seq_has(old(stack)@, y) || exists|j: int|
                    0 <= j < k && (#[trigger] edges@[j]).src == src && edges@[j].dst == y),
        decreases edges@.len() - k,
    {
        let ghost pre = stack@;
        let e = edges[k];
        if e.src == src {
            stack.push(e.dst);
        }
        proof {
            assert forall|y: int| #[trigger] seq_has(stack@, y) implies (seq_has(old(stack)@, y)
                || exists|j: int|
                0 <= j < k + 1 && (#[trigger] edges@[j]).src == src && edges@[j].dst == y) by {
                let i = choose|i: int| 0 <= i < stack@.len() && stack@[i] == y;
                if i < pre.len() {
                    assert(seq_has(pre, y));
                } else {
                    assert(edges@[k as int].src == src && edges@[k as int].dst == y);
                }
            }
            assert forall|y: int|
                (seq_has(old(stack)@, y) || exists|j: int|
                    0 <= j < k + 1 && (#[trigger] edges@[j]).src == src && edges@[j].dst
                        == y) implies #[trigger] seq_has(stack@, y) by {
                if seq_has(old(stack)@, y) {
                    if e.src == src {
                        lemma_seq_has_push(pre, e.dst, y);
                    }
                } else {
                    let j = choose|j: int|
                        0 <= j < k + 1 && (#[trigger] edges@[j]).src == src && edges@[j].dst == y;
                    if j < k {
                        assert(seq_has(pre, y));
                        if e.src == src {
                            lemma_seq_has_push(pre, e.dst, y);
                        }
                    } else {
                        assert(stack@[stack@.len() - 1] == e.dst);
                    }
                }
            }
        }
        k = k + 1;
    }
    proof {
        assert forall|y: int| #[trigger]
            seq_has(stack@, y) <==> (seq_has(old(stack)@, y) || exists|e: Edge| #[trigger]
                edges@.contains(e) && e.src == src && e.dst == y) by {
            if seq_has(stack@, y) && !seq_has(old(stack)@, y) {
                let j = choose|j: int|
                    0 <= j < k && (#[trigger] edges@[j]).src == src && edges@[j].dst == y;
                assert(edges@.contains(edges@[j]));
            }
            if exists|e: Edge| #[trigger] edges@.contains(e) && e.src == src && e.dst == y {
                let e = choose|e: Edge| #[trigger] edges@.contains(e) && e.src == src && e.dst == y;
                let j = choose|j: int| 0 <= j < edges@.len() && edges@[j] == e;
                assert(edges@[j].src == src && edges@[j].dst == y);
            }
        }
    }
}

/// With parents strictly older, a scope inside `anc`'s subtree has an id at
/// least `anc`.
proof fn lemma_within_ge(parents: Seq<usize>, sc: int, anc: int)
    requires
        Runtime::scope_within(parents, sc, anc),
    ensures
        sc >= anc,
    decreases sc,
{
    if sc != anc {
        lemma_within_ge(parents, parents[sc] as int, anc);
    }
}

/// Keep the edges whose two endpoints are still live.
fn filter_edges(edges: &Vec<Edge>, src_live: &Vec<bool>, dst_live: &Vec<bool>) -> (out: Vec<Edge>)
    requires
        forall|e: Edge| #[trigger]
            edges@.contains(e) ==> (e.src as int) < src_live@.len() && (e.dst as int)
                < dst_live@.len(),
    ensures
        forall|e: Edge| #[trigger]
            out@.contains(e) <==> (edges@.contains(e) && src_live@[e.src as int] && dst_live@[e.dst as int]),
{
    let mut out: Vec<Edge> = Vec::new();
    let mut k: usize = 0;
    while k < edges.len()
        invariant
            k <= edges@.len(),
            forall|e: Edge| #[trigger]
                edges@.contains(e) ==> (e.src as int) < src_live@.len() && (e.dst as int)
                    < dst_live@.len(),
            forall|e: Edge| #[trigger]
                out@.contains(e) ==> (exists|j: int| 0 <= j < k && edges@[j] == e)
                    && src_live@[e.src as int] && dst_live@[e.dst as int],
            forall|j: int|
                0 <= j < k && src_live@[(#[trigger] edges@[j]).src as int] && dst_live@[edges@[
                j].dst as int] ==> out@.contains(edges@[j]),
        decreases edges@.len() - k,
    {
        let ghost pre = out@;
        let e = edges[k];
        proof {
            assert(edges@.contains(edges@[k as int]));
        }
        if src_live[e.src] && dst_live[e.dst] {
            out.push(e);
            proof {
                assert forall|x: Edge| #[trigger] out@.contains(x) implies (exists|j: int|
                    0 <= j < k + 1 && edges@[j] == x) && src_live@[x.src as int] && dst_live@[
                x.dst as int] by {
                    let i = choose|i: int| 0 <= i < out@.len() && out@[i] == x;
                    if i < pre.len() {
                        assert(pre.contains(x));
                    } else {
                        assert(edges@[k as int] == x);
                    }
                }
                assert forall|j: int|
                    0 <= j < k + 1 && src_live@[(#[trigger] edges@[j]).src as int] && dst_live@[
                edges@[j].dst as int] implies out@.contains(edges@[j]) by {
                    if j < k {
                        assert(pre.contains(edges@[j]));
                        let i = choose|i: int| 0 <= i < pre.len() && pre[i] == edges@[j];
                        assert(out@[i] == edges@[j]);
                    } else {
                        assert(out@[out@.len() - 1] == edges@[j]);
                    }
                }
            }
        }
        k = k + 1;
    }
    proof {
        assert forall|e: Edge| #[trigger]
            out@.contains(e) <==> (edges@.contains(e) && src_live@[e.src as int] && dst_live@[
        e.dst as int]) by {
            if out@.contains(e) {
                let j = choose|j: int| 0 <= j < k && edges@[j] == e;
                assert(edges@.contains(e));
            }
            if edges@.contains(e) && src_live@[e.src as int] && dst_live@[e.dst as int] {
                let j = choose|j: int| 0 <= j < edges@.len() && edges@[j] == e;
                assert(out@.contains(edges@[j]));
            }
        }
    }
    out
}

/// Keep the ids that are still live.
fn filter_ids(ids: &Vec<usize>, live: &Vec<bool>) -> (out: Vec<usize>)
    requires
        ids@.no_duplicates(),
        forall|k: int| 0 <= k < ids@.len() ==> (#[trigger] ids@[k]) < live@.len(),
    ensures
        out@.no_duplicates(),
        forall|x: int| #[trigger]
            seq_has(out@, x) <==> (seq_has(ids@, x) && 0 <= x < live@.len() && live@[x]),
{
    let mut out: Vec<usize> = Vec::new();
    let mut k: usize = 0;
    while k < ids.len()
        invariant
            k <= ids@.len(),
            ids@.no_duplicates(),
            out@.no_duplicates(),
            forall|k2: int| 0 <= k2 < ids@.len() ==> (#[trigger] ids@[k2]) < live@.len(),
            forall|x: int| #[trigger]
                seq_has(out@, x) ==> (exists|j: int| 0 <= j < k && ids@[j] == x) && 0 <= x
                    < live@.len() && live@[x],
            forall|j: int|
                0 <= j < k && live@[(#[trigger] ids@[j]) as int] ==> seq_has(out@, ids@[j] as int),
        decreases ids@.len() - k,
    {
        let ghost pre = out@;
        let e = ids[k];
        if live[e] {
            proof {
                if seq_has(pre, e as int) {
                    let j = choose|j: int| 0 <= j < k && ids@[j] == e as int;
                    assert(ids@[j] == ids@[k as int]);
                    assert(false);
                }
            }
            out.push(e);
            proof {
                assert forall|x: int| #[trigger] seq_has(out@, x) implies (exists|j: int|
                    0 <= j < k + 1 && ids@[j] == x) && 0 <= x < live@.len() && live@[x] by {
                    let i = choose|i: int| 0 <= i < out@.len() && out@[i] == x;
                    if i < pre.len() {
                        assert(seq_has(pre, x));
                    } else {
                        assert(ids@[k as int] == x);
                    }
                }
                assert forall|j: int|
                    0 <= j < k + 1 && live@[(#[trigger] ids@[j]) as int] implies seq_has(
                    out@,
                    ids@[j] as int,
                ) by {
                    if j < k {
                        assert(seq_has(pre, ids@[j] as int));
                        let i = choose|i: int| 0 <= i < pre.len() && pre[i] == ids@[j] as int;
                        assert(out@[i] == ids@[j]);
                    } else {
                        assert(out@[out@.len() - 1] == ids@[j]);
                    }
                }
            }
        }
        k = k + 1;
    }
    proof {
        assert forall|x: int| #[trigger]
            seq_has(out@, x) <==> (seq_has(ids@, x) && 0 <= x < live@.len() && live@[x]) by {
            if seq_has(out@, x) {
                let j = choose|j: int| 0 <= j < k && ids@[j] == x;
                assert(seq_has(ids@, x));
            }
            if seq_has(ids@, x) && 0 <= x < live@.len() && live@[x] {
                let j = choose|j: int| 0 <= j < ids@.len() && ids@[j] == x;
                assert(seq_has(out@, ids@[j] as int));
            }
        }
    }
    out
}

/// Scan an id list for `x`.
fn contains_usize(ids: &Vec<usize>, x: usize) -> (r: bool)
    ensures
        r <==> seq_has(ids@, x as int),
{
    let mut i: usize = 0;
    while i < ids.len()
        invariant
            i <= ids@.len(),
            forall|j: int| 0 <= j < i ==> ids@[j] != x,
        decreases ids@.len() - i,
    {
        if ids[i] == x {
            return true;
        }
        i = i + 1;
    }
    false
}

/// Scan an edge list for the exact pair.
fn contains_edge(list: &Vec<Edge>, src: usize, dst: usize) -> (r: bool)
    ensures
        r <==> list@.contains(Edge { src, dst }),
{
    let mut i: usize = 0;
    while i < list.len()
        invariant
            i <= list@.len(),
            forall|j: int| 0 <= j < i ==> list@[j] != (Edge { src, dst }),
        decreases list@.len() - i,
    {
        if list[i].src == src && list[i].dst == dst {
            assert(list@[i as int] == (Edge { src, dst }));
            return true;
        }
        i = i + 1;
    }
    false
}

/// Drop every edge aimed at computation `c`, keeping the rest.
fn drop_edges_to(list: &mut Vec<Edge>, c: usize)
    ensures
        forall|e: Edge| #[trigger]
            final(list)@.contains(e) <==> (old(list)@.contains(e) && e.dst != c),
{
    let ghost orig = list@;
    let mut out: Vec<Edge> = Vec::new();
    let mut k: usize = 0;
    while k < list.len()
        invariant
            k <= list@.len(),
            list@ == orig,
            forall|e: Edge| #[trigger]
                out@.contains(e) ==> (exists|j: int| 0 <= j < k && orig[j] == e) && e.dst != c,
            forall|j: int| 0 <= j < k && (#[trigger] orig[j]).dst != c ==> out@.contains(orig[j]),
        decreases list@.len() - k,
    {
        let ghost pre = out@;
        let e = list[k];
        if e.dst != c {
            out.push(e);
            proof {
                assert forall|x: Edge| #[trigger] out@.contains(x) implies (exists|j: int|
                    0 <= j < k + 1 && orig[j] == x) && x.dst != c by {
                    let i = choose|i: int| 0 <= i < out@.len() && out@[i] == x;
                    if i < pre.len() {
                        assert(pre.contains(x));
                    } else {
                        assert(orig[k as int] == x);
                    }
                }
                assert forall|j: int| 0 <= j < k + 1 && (#[trigger] orig[j]).dst != c implies out@
                    .contains(orig[j]) by {
                    if j < k {
                        assert(pre.contains(orig[j]));
                        let i = choose|i: int| 0 <= i < pre.len() && pre[i] == orig[j];
                        assert(out@[i] == orig[j]);
                    } else {
                        assert(out@[out@.len() - 1] == orig[j]);
                    }
                }
            }
        }
        k = k + 1;
    }
    *list = out;
    proof {
        assert forall|e: Edge| #[trigger] list@.contains(e) implies (orig.contains(e) && e.dst
            != c) by {
            let j = choose|j: int| 0 <= j < k && orig[j] == e;
            assert(orig[j] == e);
        }
        assert forall|e: Edge| orig.contains(e) && e.dst != c implies #[trigger] list@.contains(
            e,
        ) by {
            let j = choose|j: int| 0 <= j < orig.len() && orig[j] == e;
            assert(orig[j].dst != c);
        }
    }
}

/// Drop every occurrence of `c` from a duplicate-free id list.
fn remove_usize(ids: &mut Vec<usize>, c: usize)
    requires
        old(ids)@.no_duplicates(),
    ensures
        final(ids)@.no_duplicates(),
        forall|x: int| #[trigger] seq_has(final(ids)@, x) <==> (seq_has(old(ids)@, x) && x != c),
{
    let ghost orig = ids@;
    let mut out: Vec<usize> = Vec::new();
    let mut k: usize = 0;
    while k < ids.len()
        invariant
            k <= ids@.len(),
            ids@ == orig,
            orig.no_duplicates(),
            out@.no_duplicates(),
            forall|x: int| #[trigger]
                seq_has(out@, x) ==> (exists|j: int| 0 <= j < k && orig[j] == x) && x != c,
            forall|j: int| 0 <= j < k && (#[trigger] orig[j]) != c ==> seq_has(out@, orig[j] as int),
        decreases ids@.len() - k,
    {
        let ghost pre = out@;
        let e = ids[k];
        if e != c {
            proof {
                if seq_has(pre, e as int) {
                    let j = choose|j: int| 0 <= j < k && orig[j] == e as int;
                    assert(orig[j] == orig[k as int]);
                    assert(false);
                }
            }
            out.push(e);
            proof {
                assert forall|x: int| #[trigger] seq_has(out@, x) implies (exists|j: int|
                    0 <= j < k + 1 && orig[j] == x) && x != c by {
                    let i = choose|i: int| 0 <= i < out@.len() && out@[i] == x;
                    if i < pre.len() {
                        assert(seq_has(pre, x));
                    } else {
                        assert(orig[k as int] == x);
                    }
                }
                assert forall|j: int| 0 <= j < k + 1 && (#[trigger] orig[j]) != c implies seq_has(
                    out@,
                    orig[j] as int,
                ) by {
                    if j < k {
                        assert(seq_has(pre, orig[j] as int));
                        let i = choose|i: int| 0 <= i < pre.len() && pre[i] == orig[j] as int;
                        assert(out@[i] == orig[j]);
                    } else {
                        assert(out@[out@.len() - 1] == orig[j]);
                    }
                }
            }
        }
        k = k + 1;
    }
    *ids = out;
    proof {
        assert forall|x: int| seq_has(orig, x) && x != c implies #[trigger] seq_has(ids@, x) by {
            let j = choose|j: int| 0 <= j < orig.len() && orig[j] == x;
            assert(orig[j] != c);
        }
    }
}

/// Scope liveness and the parent table agree between two states.
pub open spec fn same_scopes(a: Runtime, b: Runtime) -> bool {
    &&& b.scope_count() == a.scope_count()
    &&& b.scope_parents() == a.scope_parents()
    &&& forall|sc: int| 0 <= sc < a.scope_count() ==> #[trigger] b.scope_alive(sc) == a.scope_alive(sc)
}

/// Signal values, liveness and owners agree between two states.
pub open spec fn same_signal_states(a: Runtime, b: Runtime) -> bool {
    &&& b.sig_count() == a.sig_count()
    &&& forall|s: int| 0 <= s < a.sig_count() ==> #[trigger] b.sig_alive(s) == a.sig_alive(s)
    &&& forall|s: int| 0 <= s < a.sig_count() ==> #[trigger] b.sig_value(s) == a.sig_value(s)
    &&& forall|s: int| 0 <= s < a.sig_count() ==> #[trigger] b.sig_scope(s) == a.sig_scope(s)
}

/// Computation kinds, liveness and owners agree between two states.
pub open spec fn same_comp_states(a: Runtime, b: Runtime) -> bool {
    &&& b.comp_count() == a.comp_count()
    &&& forall|c: int| 0 <= c < a.comp_count() ==> #[trigger] b.is_memo(c) == a.is_memo(c)
    &&& forall|c: int| 0 <= c < a.comp_count() ==> #[trigger] b.comp_alive(c) == a.comp_alive(c)
    &&& forall|c: int| 0 <= c < a.comp_count() ==> #[trigger] b.comp_scope(c) == a.comp_scope(c)
}

/// Dirty flags agree between two states.
pub open spec fn same_dirty(a: Runtime, b: Runtime) -> bool {
    forall|c: int| 0 <= c < a.comp_count() ==> #[trigger] b.comp_dirty(c) == a.comp_dirty(c)
}

/// Memo caches agree between two states.
pub open spec fn same_caches(a: Runtime, b: Runtime) -> bool {
    &&& forall|c: int| 0 <= c < a.comp_count() ==> #[trigger] b.memo_has_cache(c) == a.memo_has_cache(c)
    &&& forall|c: int| 0 <= c < a.comp_count() ==> #[trigger] b.memo_cache(c) == a.memo_cache(c)
}

/// Signal subscriptions agree between two states.
pub open spec fn same_sig_edges(a: Runtime, b: Runtime) -> bool {
    forall|s: int, c: int| #[trigger] b.sig_subscribed(s, c) == a.sig_subscribed(s, c)
}

/// Memo subscriptions agree between two states.
pub open spec fn same_memo_edges(a: Runtime, b: Runtime) -> bool {
    forall|m: int, c: int| #[trigger] b.memo_subscribed(m, c) == a.memo_subscribed(m, c)
}

/// The per-run write records agree between two states.
pub open spec fn same_writes(a: Runtime, b: Runtime) -> bool {
    forall|c: int, s: int| #[trigger] b.wrote_in_run(c, s) == a.wrote_in_run(c, s)
}

/// Whether a change of signal `s` reaches computation `c` through the
/// subscription edges in at most `n` memo hops: either `c` subscribes to
/// `s` directly, or some memo that the change reaches subscribes to `s`'s
/// chain and `c` subscribes to that memo.
pub open spec fn dirty_reaches(rt: Runtime, s: int, c: int, n: nat) -> bool
    decreases n,
{
    rt.sig_subscribed(s, c) || (n > 0 && exists|m: int|
        rt.is_memo(m) && #[trigger] rt.memo_subscribed(m, c) && dirty_reaches(rt, s, m, (n - 1) as nat))
}

/// Whether a change of `s` reaches `c` over any number of memo hops.
pub open spec fn dirty_reachable(rt: Runtime, s: int, c: int) -> bool {
    exists|n: nat| dirty_reaches(rt, s, c, n)
}

/// Transitive completeness of marking: in a well-formed graph in which
/// every direct subscriber of `s` is dirty — the state a changed write
/// leaves behind — every computation the change reaches, over any number of
/// memo hops, is dirty; a reached live effect is queued.
pub proof fn lemma_dirty_reaches_closed(rt: Runtime, s: int, c: int, n: nat)
    requires
        rt.wf(),
        forall|c2: int| rt.sig_subscribed(s, c2) ==> rt.comp_dirty(c2),
        dirty_reaches(rt, s, c, n),
    ensures
        rt.comp_dirty(c),
        rt.is_effect(c) && rt.comp_alive(c) ==> rt.pending_contains(c),
    decreases n,
{
    if rt.sig_subscribed(s, c) {
        assert(rt.comp_dirty(c));
    } else {
        let m = choose|m: int|
            rt.is_memo(m) && #[trigger] rt.memo_subscribed(m, c) && dirty_reaches(
                rt,
                s,
                m,
                (n - 1) as nat,
            );
        lemma_dirty_reaches_closed(rt, s, m, (n - 1) as nat);
        lemma_dirty_closure(rt, m, c);
    }
    if rt.is_effect(c) && rt.comp_alive(c) {
        assert(rt.dirt@[c]);
    }
}

/// A live scope's id lies inside the arena.
pub proof fn lemma_scope_alive_in_range(rt: Runtime, sc: int)
    requires
        rt.scope_alive(sc),
    ensures
        0 <= sc < rt.scope_count(),
{
}

/// Scope disposal is final: with a well-formed graph, a disposed
/// computation is queued nowhere and subscribed to nothing, so no write can
/// reach it and `begin_next_pending` (the only way an effect runs) can never
/// hand it out — even if a dependency is written immediately after disposal.
pub proof fn lemma_disposed_stays_silent(rt: Runtime, c: int)
    requires
        rt.wf(),
        0 <= c < rt.comp_count(),
        !rt.comp_alive(c),
    ensures
        !rt.pending_contains(c),
        forall|s: int| !rt.sig_subscribed(s, c),
        forall|m: int| !rt.memo_subscribed(m, c),
{
    rt.lemma_wf_unfolded(c);
}

/// Dirtiness is closed under subscription: a dirty memo's subscribers are
/// already dirty (transitively, by applying this along a chain), and a dirty
/// live effect is already queued. This is what a write's marking pass
/// establishes for every dependent of the written signal.
pub proof fn lemma_dirty_closure(rt: Runtime, m: int, c: int)
    requires
        rt.wf(),
        rt.memo_subscribed(m, c),
        rt.comp_dirty(m),
    ensures
        rt.comp_dirty(c),
        rt.is_effect(c) && rt.comp_alive(c) ==> rt.pending_contains(c),
{
    let e = choose|e: Edge| #[trigger] rt.memo_edges@.contains(e) && e.src == m && e.dst == c;
    rt.lemma_edge_dirty(e);
    if rt.is_effect(c) && rt.comp_alive(c) {
        assert(rt.dirt@[c]);
    }
}

/// Glitch-freedom, as the scheduler guarantees it: once a write has marked
/// a memo dirty, its cache cannot be read at all (`read_memo` yields
/// `Stale`), and everything downstream of it is marked too — so an effect
/// re-running in the flush can only ever observe values recomputed after
/// the write, never a mix of old and new.
pub proof fn lemma_glitch_freedom(rt: Runtime, m: int)
    requires
        rt.wf(),
        rt.is_memo(m),
        rt.comp_dirty(m),
    ensures
        !rt.memo_readable(m),
        forall|c: int| rt.memo_subscribed(m, c) ==> rt.comp_dirty(c),
{
    assert forall|c: int| rt.memo_subscribed(m, c) implies rt.comp_dirty(c) by {
        lemma_dirty_closure(rt, m, c);
    }
}

} // verus!
