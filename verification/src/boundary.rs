//! Error-boundary failure aggregation and the rendered choice it drives: a
//! boundary watches the computations of a child scope, collects every
//! structured domain failure they yield, and, once any failure is present,
//! substitutes a fallback view that observes the whole collected set.

use crate::runtime::Fault;
use crate::runtime::Runtime;
use vstd::prelude::*;

verus! {

/// A conditional render point: at most one branch is mounted at a time,
/// each under a scope of its own. Switching branches disposes the previous
/// branch's entire scope — severing every subscription created while that
/// branch was mounted — before the new branch's scope is created, so no
/// subscription leaks across a switch.
pub struct Conditional {
    parent: usize,
    active: bool,
    branch: usize,
    scope: usize,
}

impl Conditional {
    /// The scope the conditional itself lives in.
    pub closed spec fn parent_scope(self) -> int {
        self.parent as int
    }

    /// Whether some branch is mounted.
    pub closed spec fn is_active(self) -> bool {
        self.active
    }

    /// The mounted branch's index.
    pub closed spec fn active_branch(self) -> int {
        self.branch as int
    }

    /// The mounted branch's scope.
    pub closed spec fn active_scope(self) -> int {
        self.scope as int
    }

    /// A conditional under `parent` with nothing mounted yet.
    pub fn new(parent: usize) -> (c: Conditional)
        ensures
            !c.is_active(),
            c.parent_scope() == parent,
    {
        Conditional { parent, active: false, branch: 0, scope: 0 }
    }

    /// The mounted branch and its scope, if any branch is mounted.
    pub fn mounted(&self) -> (r: Option<(usize, usize)>)
        ensures
            r is Some <==> self.is_active(),
            r matches Some(m) ==> m.0 == self.active_branch() && m.1 == self.active_scope(),
    {
        if self.active {
            Some((self.branch, self.scope))
        } else {
            None
        }
    }

    /// Re-evaluate the condition: mount `branch`. Nothing happens when it
    /// is already mounted. Otherwise the previous branch's scope is
    /// disposed first — after that, none of its effects can ever run again
    /// — and a fresh scope is opened for the new branch. Returns whether
    /// the mounted branch changed.
    pub fn switch(&mut self, rt: &mut Runtime, branch: usize) -> (r: Result<bool, Fault>)
        requires
            old(rt).wf(),
        ensures
            final(rt).wf(),
            final(self).parent_scope() == old(self).parent_scope(),
            // Success is owed exactly when the branch is already mounted,
            // or the old scope (if any) can be disposed — it is alive and
            // no running computation sits inside it — and the parent scope
            // survives that disposal.
            r is Ok <==> ((old(self).is_active() && old(self).active_branch() == branch) || ((old(
                self,
            ).is_active() ==> (old(rt).scope_alive(old(self).active_scope()) && forall|k: int|
                0 <= k < old(rt).tracking_view().len() ==> !Runtime::scope_within(
                    old(rt).scope_parents(),
                    old(rt).comp_scope((#[trigger] old(rt).tracking_view()[k]) as int),
                    old(self).active_scope(),
                )) && old(rt).scope_alive(old(self).parent_scope()) && !Runtime::scope_within(
                old(rt).scope_parents(),
                old(self).parent_scope(),
                old(self).active_scope(),
            )) && (!old(self).is_active() ==> old(rt).scope_alive(old(self).parent_scope())))),
            r is Err ==> !final(self).is_active() || *final(self) == *old(self),
            r matches Ok(changed) ==> ({
                &&& final(self).is_active()
                &&& final(self).active_branch() == branch
                &&& (changed <==> !(old(self).is_active() && old(self).active_branch() == branch))
                &&& (!changed ==> *final(rt) == *old(rt) && *final(self) == *old(self))
                &&& (changed ==> ({
                    &&& final(self).active_scope() == old(rt).scope_count()
                    &&& final(rt).scope_count() == old(rt).scope_count() + 1
                    &&& final(rt).scope_alive(final(self).active_scope())
                    &&& final(rt).scope_parent(final(self).active_scope()) == old(
                        self,
                    ).parent_scope()
                    &&& (old(self).is_active() && 0 <= old(self).active_scope() < old(
                        rt,
                    ).scope_count() ==> !final(rt).scope_alive(old(self).active_scope()))
                }))
            }),
    {
        if self.active && self.branch == branch {
            return Ok(false);
        }
        if self.active {
            match rt.dispose_scope(self.scope) {
                Ok(()) => {},
                Err(f) => {
                    return Err(f);
                },
            }
        }
        let ghost mid = *rt;
        match rt.create_scope(self.parent) {
            Ok(sc) => {
                proof {
                    assert(self.parent as int == old(self).parent_scope());
                    assert(mid.scope_alive(old(self).parent_scope()));
                    if old(self).is_active() {
                        crate::runtime::lemma_scope_alive_in_range(mid, old(self).parent_scope());
                        assert(0 <= old(self).parent_scope() < old(rt).scope_count());
                        assert(mid.scope_alive(old(self).parent_scope()) == (old(rt).scope_alive(
                            old(self).parent_scope(),
                        ) && !Runtime::scope_within(
                            old(rt).scope_parents(),
                            old(self).parent_scope(),
                            old(self).active_scope(),
                        )));
                    }
                }
                self.active = true;
                self.branch = branch;
                self.scope = sc;
                Ok(true)
            },
            Err(f) => {
                proof {
                    assert(self.parent as int == old(self).parent_scope());
                    assert(!mid.scope_alive(old(self).parent_scope()));
                    if !(0 <= old(self).parent_scope() < old(rt).scope_count()) {
                        if old(rt).scope_alive(old(self).parent_scope()) {
                            crate::runtime::lemma_scope_alive_in_range(
                                *old(rt),
                                old(self).parent_scope(),
                            );
                        }
                    }
                    if old(self).is_active() && 0 <= old(self).parent_scope() < old(
                        rt,
                    ).scope_count() {
                        assert(mid.scope_alive(old(self).parent_scope()) == (old(rt).scope_alive(
                            old(self).parent_scope(),
                        ) && !Runtime::scope_within(
                            old(rt).scope_parents(),
                            old(self).parent_scope(),
                            old(self).active_scope(),
                        )));
                    }
                }
                self.active = false;
                Err(f)
            },
        }
    }
}

/// The discriminated choice a boundary (or conditional) renders: the content
/// branch with its scope, or the fallback with the collected failures.
#[derive(Clone, Debug, PartialEq, Eq)]
pub enum ViewChoice {
    /// The child content, owned by the given scope.
    Content { scope: usize },
    /// The fallback, observing every collected failure.
    Fallback { failures: Vec<u64> },
}

/// An error boundary: the set of structured failures its children yielded
/// during tracked evaluation. Failures merge into a set — two failing
/// children aggregate, they do not overwrite one another.
pub struct ErrorBoundary {
    failures: Vec<u64>,
}

impl ErrorBoundary {
    /// The collected failures, as a set: order and repetition carry nothing.
    pub closed spec fn failures(self) -> Set<u64> {
        self.failures@.to_set()
    }

    /// Internal shape: the list never repeats a failure.
    pub closed spec fn wf(self) -> bool {
        self.failures@.no_duplicates()
    }

    /// A boundary that has observed nothing.
    pub fn new() -> (b: ErrorBoundary)
        ensures
            b.wf(),
            b.failures() == Set::<u64>::empty(),
    {
        let b = ErrorBoundary { failures: Vec::new() };
        proof {
            assert(b.failures@.to_set() =~= Set::<u64>::empty());
        }
        b
    }

    /// Record one child's structured failure. Failures aggregate: the set
    /// grows by the new failure and forgets nothing.
    pub fn report(&mut self, failure: u64)
        requires
            old(self).wf(),
        ensures
            final(self).wf(),
            final(self).failures() == old(self).failures().insert(failure),
    {
        let mut i: usize = 0;
        while i < self.failures.len()
            invariant
                i <= self.failures@.len(),
                self.failures@ == old(self).failures@,
                old(self).failures@.no_duplicates(),
                forall|j: int| 0 <= j < i ==> self.failures@[j] != failure,
            decreases self.failures@.len() - i,
        {
            if self.failures[i] == failure {
                proof {
                    assert(old(self).failures@.to_set().contains(failure));
                    assert(self.failures@.to_set() =~= old(self).failures@.to_set().insert(
                        failure,
                    ));
                }
                return ;
            }
            i = i + 1;
        }
        self.failures.push(failure);
        proof {
            assert(self.failures@ == old(self).failures@.push(failure));
            assert(forall|j: int|
                0 <= j < old(self).failures@.len() ==> old(self).failures@[j] != failure);
            assert(self.failures@.no_duplicates());
            assert forall|x: u64| #[trigger] self.failures@.contains(x) implies (old(
                self,
            ).failures@.contains(x) || x == failure) by {
                let k = choose|k: int|
                    0 <= k < self.failures@.len() && self.failures@[k] == x;
                if k < old(self).failures@.len() {
                    assert(old(self).failures@[k] == x);
                }
            }
            assert forall|x: u64| #[trigger] old(self).failures@.contains(x) implies self
                .failures@.contains(x) by {
                let k = choose|k: int|
                    0 <= k < old(self).failures@.len() && old(self).failures@[k] == x;
                assert(self.failures@[k] == x);
            }
            assert(self.failures@[self.failures@.len() - 1] == failure);
            assert(self.failures@.contains(failure));
            assert(self.failures@.to_set() =~= old(self).failures@.to_set().insert(failure));
        }
    }

    /// How many distinct failures the boundary holds.
    pub fn failure_count(&self) -> (n: usize)
        requires
            self.wf(),
        ensures
            n == self.failures().len(),
    {
        proof {
            self.failures@.unique_seq_to_set();
        }
        self.failures.len()
    }

    /// Whether any failure has been observed.
    pub fn has_failures(&self) -> (r: bool)
        requires
            self.wf(),
        ensures
            r <==> self.failures().len() != 0,
    {
        proof {
            self.failures@.unique_seq_to_set();
        }
        self.failures.len() > 0
    }

    /// Forget the collected failures, e.g. when the child scope is rebuilt
    /// for a retry.
    pub fn clear(&mut self)
        ensures
            final(self).wf(),
            final(self).failures() == Set::<u64>::empty(),
    {
        self.failures = Vec::new();
        proof {
            assert(self.failures@.to_set() =~= Set::<u64>::empty());
        }
    }

    /// The rendered choice: the content scope while nothing failed, else the
    /// fallback observing exactly the collected failures.
    pub fn current_view(&self, content_scope: usize) -> (v: ViewChoice)
        requires
            self.wf(),
        ensures
            self.failures().len() == 0 ==> v == (ViewChoice::Content { scope: content_scope }),
            self.failures().len() != 0 ==> (v matches ViewChoice::Fallback { failures }
                && failures@.to_set() == self.failures() && failures@.no_duplicates()),
    {
        proof {
            self.failures@.unique_seq_to_set();
        }
        if self.failures.len() == 0 {
            ViewChoice::Content { scope: content_scope }
        } else {
            let mut copy: Vec<u64> = Vec::new();
            let mut i: usize = 0;
            while i < self.failures.len()
                invariant
                    i <= self.failures@.len(),
                    copy@ == self.failures@.subrange(0, i as int),
                decreases self.failures@.len() - i,
            {
                copy.push(self.failures[i]);
                proof {
                    assert(copy@ =~= self.failures@.subrange(0, i + 1));
                }
                i = i + 1;
            }
            proof {
                assert(copy@ =~= self.failures@);
            }
            ViewChoice::Fallback { failures: copy }
        }
    }
}

/// Error aggregation: a boundary that collects two distinct failures over
/// any starting set observes a set holding both, of at least two failures —
/// never a first-wins single failure.
pub proof fn lemma_error_aggregation(base: Set<u64>, f1: u64, f2: u64)
    requires
        base.finite(),
        f1 != f2,
    ensures
        base.insert(f1).insert(f2).contains(f1),
        base.insert(f1).insert(f2).contains(f2),
        base.insert(f1).insert(f2).len() >= 2,
{
    let pair = Set::<u64>::empty().insert(f1).insert(f2);
    vstd::set::axiom_set_insert_len(Set::<u64>::empty(), f1);
    vstd::set::axiom_set_insert_len(Set::<u64>::empty().insert(f1), f2);
    assert(pair.len() == 2);
    let s = base.insert(f1).insert(f2);
    assert(pair.subset_of(s));
    vstd::set_lib::lemma_len_subset(pair, s);
}

} // verus!
