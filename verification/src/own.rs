//! Resource cells: opaque ownership units with one-time teardown.
//!
//! A `ScopeValue` stands for one resource whose teardown must run exactly
//! once, when the cell is released. What the teardown does externally is
//! described by an `Effect`; an embedder performs the listed effects in
//! order. Cells that refer to state kept inside the tree (observer
//! registrations, task bindings) also update that state when they are torn
//! down.

use vstd::prelude::*;
use crate::surface::SurfaceId;

verus! {

/// One externally visible teardown action.
#[derive(Clone, Copy, PartialEq, Eq, Structural, Debug)]
pub enum Effect {
    /// Drop the wrapped application value registered under this key.
    ReleaseValue(u64),
    /// Run the deferred closure registered under this key.
    RunDeferred(u64),
    /// Detach the event listener with this registry index.
    DetachListener(usize),
    /// Drop the shared size-observation subscription with this index.
    DisconnectObserver(usize),
    /// Stop observing `target` on the observer with index `observer`.
    Unobserve { observer: usize, target: SurfaceId },
    /// Cancel the cooperative task with this index.
    CancelTask(usize),
    /// Release the surface element handle.
    ReleaseElement(SurfaceId),
}

pub(crate) enum Atom {
    Payload(u64),
    Deferred(u64),
    Listener(usize),
    ObserverOwned(usize),
    Observation { observer: usize, target: SurfaceId },
    Task(usize),
}

/// A wrapper that holds one resource opaquely and guarantees its teardown
/// runs exactly once, when the owning scope is released.
pub struct ScopeValue {
    pub(crate) atom: Atom,
}

impl ScopeValue {
    /// The externally visible action performed by this cell's teardown.
    pub closed spec fn effect(self) -> Effect {
        match self.atom {
            Atom::Payload(k) => Effect::ReleaseValue(k),
            Atom::Deferred(k) => Effect::RunDeferred(k),
            Atom::Listener(k) => Effect::DetachListener(k),
            Atom::ObserverOwned(o) => Effect::DisconnectObserver(o),
            Atom::Observation { observer, target } => Effect::Unobserve { observer, target },
            Atom::Task(t) => Effect::CancelTask(t),
        }
    }
}

/// How each resource kind maps to its teardown effect; for use inside the
/// crate, where the cells are built and torn down.
pub(crate) proof fn lemma_effect(v: ScopeValue)
    ensures
        v.effect() == match v.atom {
            Atom::Payload(k) => Effect::ReleaseValue(k),
            Atom::Deferred(k) => Effect::RunDeferred(k),
            Atom::Listener(k) => Effect::DetachListener(k),
            Atom::ObserverOwned(o) => Effect::DisconnectObserver(o),
            Atom::Observation { observer, target } => Effect::Unobserve { observer, target },
            Atom::Task(t) => Effect::CancelTask(t),
        },
{
}

/// A cell's teardown effect is never a surface-element release; those are
/// emitted only by the release cascade itself.
pub(crate) proof fn lemma_effect_not_release(v: ScopeValue)
    ensures
        !(v.effect() is ReleaseElement),
{
}

/// Marker for values that can stand in a scope.
pub trait ScopeValueTrait_ {
}

impl ScopeValueTrait_ for ScopeValue {
}

/// Wrap an application value, identified by a caller-chosen key, so that it
/// can be owned by a node. Tearing the cell down asks the embedder to drop
/// the value with that key.
pub fn scope_any(value: u64) -> (r: ScopeValue)
    ensures
        r.effect() == Effect::ReleaseValue(value),
{
    ScopeValue { atom: Atom::Payload(value) }
}

/// Wrap a deferred closure, identified by a caller-chosen key. Tearing the
/// cell down asks the embedder to run the closure with that key, once.
pub fn defer(key: u64) -> (r: ScopeValue)
    ensures
        r.effect() == Effect::RunDeferred(key),
{
    ScopeValue { atom: Atom::Deferred(key) }
}

} // verus!
