//! A fine-grained reactive core: mutable signals with subscriber tracking,
//! lazily cached memos, eagerly scheduled effects with a deduplicated pending
//! queue, lifetime scopes that sever every subscription on disposal, a keyed
//! list reconciler, and error-boundary failure aggregation.
//!
//! The library owns the dependency graph and every decision about it; the
//! host that embeds it supplies the computation bodies (it evaluates memos
//! and effects between `begin_run` and the matching `finish` call) and the
//! rendering side effects.

pub mod boundary;
pub mod reconcile;
pub mod runtime;
