//! Multiplexed size observation.
//!
//! One shared subscription may watch many targets; each registration is
//! released on its own, and the shared subscription stays alive for the
//! remaining targets until its own owner releases it. The embedder binds
//! the real platform observer under the returned index and asks
//! `should_notify` before delivering a measurement.

use vstd::prelude::*;
use crate::el::{El, NodeView, Owner, Tree};
use crate::own::{Effect, ScopeValue};
use crate::surface::SurfaceId;

verus! {

/// The registry record of one shared subscription: whether it is still
/// alive, and the targets currently observed.
pub struct ResizeObserver_ {
    pub(crate) alive: bool,
    pub(crate) targets: Vec<SurfaceId>,
}

/// The box model a registration asks the platform to measure: the
/// options of an observation.
#[derive(Clone, Copy, PartialEq, Eq, Structural, Debug)]
pub enum ObserveBox {
    ContentBox,
    BorderBox,
    DevicePixelContentBox,
}

/// A shared handle to one subscription in the observation registry.
#[derive(Clone, Copy, PartialEq, Eq, Structural, Debug)]
pub struct ResizeObserver(pub(crate) usize);

impl ResizeObserver {
    /// The registry index as it appears in specifications.
    pub closed spec fn id_view(self) -> int {
        self.0 as int
    }

    /// The registry index, under which the embedder keeps the real
    /// observer and its callback.
    pub fn id(&self) -> (r: usize)
        ensures
            r as int == self.id_view(),
    {
        self.0
    }

    /// Create a shared subscription. The returned cell releases the whole
    /// subscription when torn down; own it somewhere to bound its life.
    pub fn new(t: &mut Tree) -> (r: (ResizeObserver, ScopeValue))
        requires
            old(t).wf(),
        ensures
            final(t).wf(),
            r.0.id_view() == old(t).observers_view().len(),
            r.1.effect() == Effect::DisconnectObserver(r.0.id_view() as usize),
            final(t).observers_view() == old(t).observers_view().push(
                crate::el::ObserverView { alive: true, targets: Seq::empty() }),
            Tree::observe_frames(*old(t), *final(t)),
    {
        proof {
            t.lemma_registry_reprs();
        }
        let i = t.observers.len();
        t.observers.push(ResizeObserver_ { alive: true, targets: Vec::new() });
        let cell = ScopeValue { atom: crate::own::Atom::ObserverOwned(i) };
        proof {
            crate::own::lemma_effect(cell);
            t.lemma_registry_frames(*old(t));
            t.lemma_registry_reprs();
            old(t).lemma_registry_reprs();
            t.lemma_same_listeners(*old(t));
            t.lemma_same_tasks(*old(t));
            t.lemma_root_cell_repr();
            old(t).lemma_root_cell_repr();
            assert(t.observers_view() =~= old(t).observers_view().push(
                crate::el::ObserverView { alive: true, targets: Seq::empty() }));
        }
        (ResizeObserver(i), cell)
    }

    /// Register one more target with the shared subscription. The platform
    /// fires the callback once immediately for the new target, and then on
    /// changes, for as long as `should_notify` answers true. The returned
    /// cell unregisters only this target when torn down.
    pub fn observe(&self, t: &mut Tree, target: SurfaceId) -> (h: ScopeValue)
        requires
            old(t).wf(),
            self.id_view() < old(t).observers_view().len(),
        ensures
            final(t).wf(),
            h.effect() == (Effect::Unobserve {
                observer: self.id_view() as usize,
                target,
            }),
            final(t).observers_view().len() == old(t).observers_view().len(),
            forall |k: int| 0 <= k < old(t).observers_view().len() && k != self.id_view()
                ==> #[trigger] final(t).observers_view()[k]
                    == old(t).observers_view()[k],
            final(t).observers_view()[self.id_view()].alive
                == old(t).observers_view()[self.id_view()].alive,
            final(t).observers_view()[self.id_view()].targets.contains(target),
            forall |q: SurfaceId| q != target
                ==> #[trigger] final(t).observers_view()[self.id_view()]
                        .targets.contains(q)
                    == old(t).observers_view()[self.id_view()].targets.contains(q),
            Tree::observe_frames(*old(t), *final(t)),
    {
        let ghost pre = *old(t);
        proof {
            pre.lemma_registry_reprs();
        }
        let i = self.0;
        let ghost tv0 = t.observers@[i as int].targets@;
        let n = t.observers[i].targets.len();
        let mut found = false;
        let mut k: usize = 0;
        while k < n && !found
            invariant
                i < t.observers@.len(),
                n == t.observers@[i as int].targets@.len(),
                t.observers@[i as int].targets@ == tv0,
                k <= n,
                *t == pre,
                !found ==> forall |j: int| 0 <= j < k ==> #[trigger] tv0[j] != target,
                found ==> tv0.contains(target),
            decreases n - k + (if found { 0int } else { 1int }),
        {
            if t.observers[i].targets[k] == target {
                proof {
                    assert(tv0[k as int] == target);
                }
                found = true;
            } else {
                k = k + 1;
            }
        }
        if !found {
            proof {
                if tv0.contains(target) {
                    let j = choose |j: int| 0 <= j < tv0.len() && tv0[j] == target;
                }
            }
            t.observers[i].targets.push(target);
        }
        let cell = ScopeValue { atom: crate::own::Atom::Observation {
            observer: i,
            target,
        } };
        proof {
            crate::own::lemma_effect(cell);
            t.lemma_registry_frames(pre);
            t.lemma_registry_reprs();
            pre.lemma_registry_reprs();
            t.lemma_same_listeners(pre);
            t.lemma_same_tasks(pre);
            t.lemma_root_cell_repr();
            pre.lemma_root_cell_repr();
            assert(t.observers_view().len() == pre.observers_view().len());
            if found {
                assert(t.observers@[i as int].targets@ == tv0);
                assert(t.observers_view()[self.id_view()].targets.contains(target));
                assert(t.observers == pre.observers);
                t.lemma_same_observers(pre);
            } else {
                assert(t.observers@[i as int].alive == pre.observers@[i as int].alive);
                assert(t.observers_view()[self.id_view()].alive
                    == pre.observers_view()[self.id_view()].alive);
                assert(t.observers_view()[self.id_view()].targets[tv0.len() as int]
                    == target);
                assert(t.observers_view()[self.id_view()].targets.contains(target));
            }
            assert forall |kk: int| 0 <= kk < pre.observers_view().len()
                && kk != self.id_view()
                implies #[trigger] t.observers_view()[kk]
                    == pre.observers_view()[kk] by {
                assert(t.observers@[kk] == pre.observers@[kk]);
            }
            if !found {
                assert(t.observers_view()[self.id_view()].targets
                    =~= tv0.push(target));
                assert forall |q: SurfaceId| q != target
                    implies #[trigger] t.observers_view()[self.id_view()]
                            .targets.contains(q)
                        == pre.observers_view()[self.id_view()].targets.contains(q) by {
                    let nv = tv0.push(target);
                    if nv.contains(q) {
                        let j = choose |j: int| 0 <= j < nv.len() && nv[j] == q;
                        assert(tv0[j] == q);
                    }
                    if tv0.contains(q) {
                        let j = choose |j: int| 0 <= j < tv0.len() && tv0[j] == q;
                        assert(nv[j] == q);
                    }
                }
            }
        }
        cell
    }

    /// Register one more target, stating which box the platform should
    /// measure. The options ride along to the embedder's platform call;
    /// the registry records the target exactly as `observe` does, and the
    /// returned cell unregisters only this target when torn down.
    pub fn observe_with_options(&self, t: &mut Tree, target: SurfaceId,
        opts: ObserveBox) -> (h: ScopeValue)
        requires
            old(t).wf(),
            self.id_view() < old(t).observers_view().len(),
        ensures
            final(t).wf(),
            h.effect() == (Effect::Unobserve {
                observer: self.id_view() as usize,
                target,
            }),
            final(t).observers_view().len() == old(t).observers_view().len(),
            forall |k: int| 0 <= k < old(t).observers_view().len() && k != self.id_view()
                ==> #[trigger] final(t).observers_view()[k]
                    == old(t).observers_view()[k],
            final(t).observers_view()[self.id_view()].alive
                == old(t).observers_view()[self.id_view()].alive,
            final(t).observers_view()[self.id_view()].targets.contains(target),
            forall |q: SurfaceId| q != target
                ==> #[trigger] final(t).observers_view()[self.id_view()]
                        .targets.contains(q)
                    == old(t).observers_view()[self.id_view()].targets.contains(q),
            Tree::observe_frames(*old(t), *final(t)),
    {
        let _box_model = opts;
        self.observe(t, target)
    }

    /// Whether a measurement for `target` should be delivered: the shared
    /// subscription is still alive and the target is still registered.
    pub fn should_notify(&self, t: &Tree, target: SurfaceId) -> (r: bool)
        requires
            self.id_view() < t.observers_view().len(),
        ensures
            r == (t.observers_view()[self.id_view()].alive
                && t.observers_view()[self.id_view()].targets.contains(target)),
    {
        proof {
            t.lemma_registry_reprs();
        }
        let i = self.0;
        if !t.observers[i].alive {
            return false;
        }
        let ghost tv = t.observers@[i as int].targets@;
        let n = t.observers[i].targets.len();
        let mut k: usize = 0;
        while k < n
            invariant
                i < t.observers@.len(),
                i as int == self.id_view(),
                (i as int) < t.observers_view().len(),
                n == tv.len(),
                tv == t.observers@[i as int].targets@,
                t.observers@[i as int].alive,
                k <= n,
                forall |j: int| 0 <= j < k ==> #[trigger] tv[j] != target,
            decreases n - k,
        {
            if t.observers[i].targets[k] == target {
                proof {
                    t.lemma_registry_reprs();
                    assert(tv[k as int] == target);
                    assert(t.observers_view()[self.id_view()].targets.contains(target));
                    assert(t.observers_view()[self.id_view()].alive);
                }
                return true;
            }
            k = k + 1;
        }
        proof {
            if tv.contains(target) {
                let j = choose |j: int| 0 <= j < tv.len() && tv[j] == target;
            }
            assert(!t.observers_view()[self.id_view()].targets.contains(target));
        }
        false
    }
}

impl El {
    /// Create a dedicated subscription observing this node's surface, and
    /// own both the subscription and the registration: each is torn down
    /// with the node. The embedder binds the real callback under the
    /// returned handle's index.
    pub fn ref_on_resize(&self, t: &mut Tree) -> (obs: ResizeObserver)
        requires
            old(t).wf(),
            old(t).alive(*self),
        ensures
            final(t).wf(),
            obs.id_view() == old(t).observers_view().len(),
            final(t).observers_view().len() == old(t).observers_view().len() + 1,
            final(t).observers_view()[obs.id_view()].alive,
            final(t).observers_view()[obs.id_view()].targets
                .contains(old(t).surface_of(*self)),
            forall |k: int| 0 <= k < old(t).observers_view().len()
                ==> #[trigger] final(t).observers_view()[k]
                    == old(t).observers_view()[k],
            final(t).cells(*self) == old(t).cells(*self)
                + seq![
                    Effect::DisconnectObserver(obs.id_view() as usize),
                    Effect::Unobserve {
                        observer: obs.id_view() as usize,
                        target: old(t).surface_of(*self),
                    },
                ],
            final(t).node_view(*self) == (NodeView {
                cells: final(t).cells(*self),
                ..old(t).node_view(*self)
            }),
            forall |x: El| old(t).valid(x) && x != *self
                ==> #[trigger] final(t).node_view(x) == old(t).node_view(x),
            final(t).surface_view() == old(t).surface_view(),
            final(t).listeners_view() == old(t).listeners_view(),
            final(t).tasks_view() == old(t).tasks_view(),
            final(t).body_view() == old(t).body_view(),
            final(t).root_view() == old(t).root_view(),
            final(t).root_cell_view() == old(t).root_cell_view(),
            final(t).node_count() == old(t).node_count(),
            forall |x: El| old(t).valid(x)
                ==> #[trigger] final(t).chain(x) == old(t).chain(x),
    {
        let ghost pre = *old(t);
        let s = self.raw(t);
        let (obs, owner_cell) = ResizeObserver::new(t);
        let ghost t1 = *t;
        self.ref_own(t, owner_cell);
        let ghost t2 = *t;
        let reg = obs.observe(t, s);
        let ghost t3 = *t;
        self.ref_own(t, reg);
        proof {
            assert(t.cells(*self) =~= pre.cells(*self)
                + seq![
                    Effect::DisconnectObserver(obs.id_view() as usize),
                    Effect::Unobserve {
                        observer: obs.id_view() as usize,
                        target: pre.surface_of(*self),
                    },
                ]);
            assert forall |x: El| pre.valid(x) && x != *self
                implies #[trigger] t.node_view(x) == pre.node_view(x) by {
                assert(t1.node_view(x) == pre.node_view(x));
                assert(t2.node_view(x) == t1.node_view(x));
                assert(t3.node_view(x) == t2.node_view(x));
            }
            assert(t.observers_view()[obs.id_view()].targets
                .contains(pre.surface_of(*self)));
        }
        obs
    }

    /// Chainable form of `ref_on_resize`; the new subscription's index is
    /// the previous observer count.
    pub fn on_resize(self, t: &mut Tree) -> (r: El)
        requires
            old(t).wf(),
            old(t).alive(self),
        ensures
            r == self,
            final(t).wf(),
            final(t).observers_view().len() == old(t).observers_view().len() + 1,
            final(t).observers_view()[old(t).observers_view().len() as int].alive,
            final(t).observers_view()[old(t).observers_view().len() as int].targets
                .contains(old(t).surface_of(self)),
            forall |k: int| 0 <= k < old(t).observers_view().len()
                ==> #[trigger] final(t).observers_view()[k]
                    == old(t).observers_view()[k],
            final(t).cells(self) == old(t).cells(self)
                + seq![
                    Effect::DisconnectObserver(old(t).observers_view().len() as usize),
                    Effect::Unobserve {
                        observer: old(t).observers_view().len() as usize,
                        target: old(t).surface_of(self),
                    },
                ],
            final(t).node_view(self) == (NodeView {
                cells: final(t).cells(self),
                ..old(t).node_view(self)
            }),
            forall |x: El| old(t).valid(x) && x != self
                ==> #[trigger] final(t).node_view(x) == old(t).node_view(x),
            final(t).surface_view() == old(t).surface_view(),
            final(t).listeners_view() == old(t).listeners_view(),
            final(t).tasks_view() == old(t).tasks_view(),
            final(t).body_view() == old(t).body_view(),
            final(t).root_view() == old(t).root_view(),
            final(t).root_cell_view() == old(t).root_cell_view(),
    {
        let obs = self.ref_on_resize(t);
        proof {
            assert(obs.id_view() == old(t).observers_view().len());
        }
        self
    }
}

} // verus!
