//! The process-wide root anchor: the final strong owner of whatever is
//! placed in it. Replacing its contents tears the previous contents down.

use vstd::prelude::*;
use crate::el::{El, NodeView, Owner, Tree};
use crate::surface::SurfaceId;
use crate::own::{Effect, ScopeValue};

verus! {

/// Root the lifetime of a value with no relation to the tree structure.
/// The previous anchored cell, if any, runs its teardown; the effects to
/// perform are returned.
pub fn set_root_non_dom(t: &mut Tree, value: ScopeValue) -> (fx: Vec<Effect>)
    requires
        old(t).wf(),
    ensures
        final(t).wf(),
        final(t).root_cell_view() == Some(value.effect()),
        fx@ == (match old(t).root_cell_view() {
            Some(f) => seq![f],
            None => Seq::<Effect>::empty(),
        }),
        final(t).root_view() == old(t).root_view(),
        final(t).node_count() == old(t).node_count(),
        forall |x: crate::el::El| old(t).valid(x)
            ==> #[trigger] final(t).node_view(x) == old(t).node_view(x),
        final(t).surface_view() == old(t).surface_view(),
        final(t).body_view() == old(t).body_view(),
        Tree::registry_monotone(*old(t), *final(t)),
{
    let ghost pre = *old(t);
    let mut fx: Vec<Effect> = Vec::new();
    let mut slot = Some(value);
    core::mem::swap(&mut t.root_cell, &mut slot);
    proof {
        t.lemma_registry_frames(pre);
        t.lemma_same_observers(pre);
        t.lemma_same_listeners(pre);
        t.lemma_same_tasks(pre);
        t.lemma_root_cell_repr();
        pre.lemma_root_cell_repr();
    }
    let ghost t1 = *t;
    match slot {
        Some(c) => {
            proof {
                crate::own::lemma_effect(c);
            }
            t.teardown_cell(c, &mut fx);
            proof {
                assert(fx@ =~= Seq::<Effect>::empty().push(c.effect()));
                t.lemma_root_cell_repr();
                t1.lemma_root_cell_repr();
            }
        },
        None => {},
    }
    proof {
        t.lemma_field_views(t1);
        t1.lemma_field_views(pre);
        assert forall |x: crate::el::El| pre.valid(x)
            implies #[trigger] t.node_view(x) == pre.node_view(x) by {
            assert(t1.node_view(x) == pre.node_view(x));
        }
        assert(Tree::registry_monotone(pre, t1)) by {
            t1.lemma_same_listeners(pre);
            t1.lemma_same_observers(pre);
            t1.lemma_same_tasks(pre);
        }
        Tree::lemma_monotone_trans(pre, t1, *t);
        t.lemma_root_cell_repr();
        pre.lemma_root_cell_repr();
    }
    fx
}

/// Replace the surface element carrying the given `id` attribute with the
/// node's element, in place under its holder, and anchor the node in the
/// root. A missing id carrier is a usage error and is excluded up front.
/// Works on an empty anchor; replacing a populated anchor is `set_root`'s
/// job.
pub fn set_root_replace(t: &mut Tree, id: &str, el2: El)
    requires
        old(t).wf(),
        old(t).root_view().len() == 0,
        old(t).root_cell_view() is None,
        old(t).alive(el2),
        old(t).is_detached(el2),
        exists |s: crate::surface::SurfaceId| old(t).surface_view().alive(s)
            && #[trigger] old(t).surface_view().attr(s, "id"@) == Some(id@),
        forall |s: crate::surface::SurfaceId| old(t).surface_view().alive(s)
            && old(t).surface_view().attr(s, "id"@) == Some(id@)
            ==> old(t).unwrapped(s) && old(t).surface_view().parent(s) is Some,
    ensures
        final(t).wf(),
        final(t).root_view() == seq![el2],
        final(t).node_view(el2) == (NodeView {
            owner: Owner::Root,
            ..old(t).node_view(el2)
        }),
        exists |s: crate::surface::SurfaceId| old(t).surface_view().alive(s)
            && #[trigger] old(t).surface_view().attr(s, "id"@) == Some(id@)
            && final(t).surface_view().parent(s) is None
            && (exists |q: crate::surface::SurfaceId|
                old(t).surface_view().parent(s) == Some(q)
                && #[trigger] final(t).surface_view().children(q)
                    == old(t).surface_view().children(q)
                        .update(old(t).surface_view().pos(s),
                            old(t).surface_of(el2))),
        forall |x: El| old(t).valid(x) && x != el2
            ==> #[trigger] final(t).node_view(x) == old(t).node_view(x),
{
    crate::el::set_root_replace_impl(t, id, el2)
}

} // verus!

verus! {

/// Replace the root anchor's contents with the given nodes: the previous
/// anchored nodes and cell are torn down, the body's surface children are
/// replaced by the new nodes' surfaces, and the new nodes are owned by the
/// anchor from then on. The teardown effects to perform are returned.
pub fn set_root(t: &mut Tree, els: Vec<El>) -> (fx: Vec<Effect>)
    requires
        old(t).wf(),
        forall |k: int| 0 <= k < els@.len() ==> old(t).alive(#[trigger] els@[k]),
        forall |k: int| 0 <= k < els@.len() ==> old(t).is_detached(#[trigger] els@[k]),
        forall |k: int, l: int| 0 <= k < l < els@.len()
            ==> #[trigger] els@[k] != #[trigger] els@[l],
    ensures
        final(t).wf(),
        final(t).root_view() == els@,
        final(t).root_cell_view() is None,
        forall |k: int| 0 <= k < els@.len()
            ==> final(t).node_view(#[trigger] els@[k]) == (NodeView {
                owner: Owner::Root,
                ..old(t).node_view(els@[k])
            }),
        final(t).surface_view().children(final(t).body_view())
            == els@.map_values(|e: El| old(t).surface_of(e)),
        forall |k: int| 0 <= k < old(t).root_view().len()
            ==> !final(t).alive(#[trigger] old(t).root_view()[k]),
        forall |k: int| 0 <= k < old(t).root_view().len()
            ==> crate::el::eff_count(fx@, Effect::ReleaseElement(
                old(t).surface_of(#[trigger] old(t).root_view()[k]))) == 1,
        (match old(t).root_cell_view() {
            Some(f) => fx@.len() >= 1 && fx@.last() == f,
            None => true,
        }),
        forall |x: El| old(t).valid(x) && #[trigger] old(t).alive(x)
            && (exists |k: int| 0 <= k < old(t).root_view().len()
                && #[trigger] old(t).in_subtree(old(t).root_view()[k], x))
            ==> !final(t).alive(x)
                && !final(t).surface_view().slot_view(old(t).surface_of(x)).alive,
        forall |s: SurfaceId|
            #[trigger] crate::el::eff_count(fx@, Effect::ReleaseElement(s))
            == (if exists |k: int| 0 <= k < old(t).root_view().len()
                    && #[trigger] old(t).subtree_surf(old(t).root_view()[k], s)
                { 1nat } else { 0nat }),
        Tree::registry_monotone(*old(t), *final(t)),
        final(t).body_view() == old(t).body_view(),
{
    let fx = crate::el::set_root_impl(t, els);
    proof {
        assert forall |x: El| old(t).valid(x) && #[trigger] old(t).alive(x)
            && (exists |k: int| 0 <= k < old(t).root_view().len()
                && #[trigger] old(t).in_subtree(old(t).root_view()[k], x))
            implies !final(t).alive(x)
                && !final(t).surface_view().slot_view(old(t).surface_of(x)).alive by {
            assert(crate::el::under_roots(*old(t), old(t).root_view(), 0, x));
        }
        assert forall |s: SurfaceId|
            #[trigger] crate::el::eff_count(fx@, Effect::ReleaseElement(s))
            == (if exists |k: int| 0 <= k < old(t).root_view().len()
                    && #[trigger] old(t).subtree_surf(old(t).root_view()[k], s)
                { 1nat } else { 0nat }) by {
            assert(crate::el::rooted_surf(*old(t), old(t).root_view(), 0, s)
                <==> (exists |k: int| 0 <= k < old(t).root_view().len()
                    && #[trigger] old(t).subtree_surf(old(t).root_view()[k], s)));
        }
    }
    fx
}

} // verus!
