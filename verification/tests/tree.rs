use rooting::container::Container;
use rooting::el::{el, El, Tree};
use rooting::own::{defer, scope_any, Effect};
use rooting::resize::ResizeObserver;

#[test]
fn extend_mirrors_surface_order() {
    let mut t = Tree::new();
    let a = el(&mut t, "div");
    let b = el(&mut t, "span");
    let c = el(&mut t, "p");
    a.ref_extend(&mut t, vec![b, c]);
    let kids = t.surface().get_children(a.raw(&t));
    assert_eq!(kids.len(), 2);
    assert_eq!(kids[0].raw_index(), b.raw(&t).raw_index());
    assert_eq!(kids[1].raw_index(), c.raw(&t).raw_index());
}

#[test]
fn splice_replaces_middle_child() {
    let mut t = Tree::new();
    let a = el(&mut t, "div");
    let b = el(&mut t, "b");
    let c = el(&mut t, "c");
    a.ref_extend(&mut t, vec![b, c]);
    let d = el(&mut t, "d");
    let removed = a.ref_splice(&mut t, 1, 1, vec![d]);
    assert_eq!(removed.len(), 1);
    assert_eq!(removed[0].ptr_id(), c.ptr_id());
    let kids = t.surface().get_children(a.raw(&t));
    assert_eq!(kids.len(), 2);
    assert_eq!(kids[0].raw_index(), b.raw(&t).raw_index());
    assert_eq!(kids[1].raw_index(), d.raw(&t).raw_index());
    // the removed child stays live and reusable
    assert_eq!(c.weak().upgrade(&t), Some(c));
    a.ref_push(&mut t, c);
    let kids2 = t.surface().get_children(a.raw(&t));
    assert_eq!(kids2.len(), 3);
    assert_eq!(kids2[2].raw_index(), c.raw(&t).raw_index());
}

#[test]
fn text_attrs_and_classes() {
    let mut t = Tree::new();
    let a = el(&mut t, "div")
        .text(&mut t, "hello")
        .id(&mut t, "root")
        .attr(&mut t, "k", "v")
        .classes(&mut t, &["x", "y"]);
    let s = a.raw(&t);
    assert_eq!(t.surface().get_text(s), Some("hello".to_owned()));
    assert_eq!(t.surface().get_attr(s, "id"), Some("root".to_owned()));
    assert_eq!(t.surface().get_attr(s, "k"), Some("v".to_owned()));
    assert!(t.surface().check_class(s, "x"));
    assert!(t.surface().check_class(s, "y"));
    a.ref_remove_classes(&mut t, &["x"]);
    assert!(!t.surface().check_class(s, "x"));
    assert!(t.surface().check_class(s, "y"));
    a.ref_modify_classes(&mut t, &[("y", false), ("z", true)]);
    assert!(!t.surface().check_class(s, "y"));
    assert!(t.surface().check_class(s, "z"));
    a.ref_remove_attr(&mut t, "k");
    assert_eq!(t.surface().get_attr(s, "k"), None);
    assert_eq!(t.surface().get_element_by_id("root").map(|x| x.raw_index()),
        Some(s.raw_index()));
}

#[test]
fn release_runs_each_cell_teardown_once_then_surface() {
    let mut t = Tree::new();
    let a = el(&mut t, "div");
    a.ref_own(&mut t, scope_any(7));
    a.ref_own(&mut t, defer(9));
    let token = a.ref_on(&mut t, "click");
    let s = a.raw(&t);
    let fx = t.release(a);
    assert_eq!(fx, vec![
        Effect::ReleaseValue(7),
        Effect::RunDeferred(9),
        Effect::DetachListener(token),
        Effect::ReleaseElement(s),
    ]);
    assert_eq!(a.weak().upgrade(&t), None);
    assert!(!t.surface().is_alive(s));
}

#[test]
fn manual_cascade_children_before_parent() {
    let mut t = Tree::new();
    let p = el(&mut t, "div");
    let c = el(&mut t, "span");
    c.ref_own(&mut t, scope_any(1));
    p.ref_push(&mut t, c);
    // detach then release deepest first: the child's teardown precedes the
    // parent's surface release
    let removed = p.ref_splice(&mut t, 0, 1, vec![]);
    assert_eq!(removed.len(), 1);
    let cs = c.raw(&t);
    let ps = p.raw(&t);
    let mut fx = t.release(c);
    fx.extend(t.release(p));
    assert_eq!(fx, vec![
        Effect::ReleaseValue(1),
        Effect::ReleaseElement(cs),
        Effect::ReleaseElement(ps),
    ]);
}

#[test]
fn weak_handle_goes_stale_only_on_release() {
    let mut t = Tree::new();
    let a = el(&mut t, "div");
    let w = a.weak();
    assert_eq!(w.upgrade(&t), Some(a));
    let _ = t.release(a);
    assert_eq!(w.upgrade(&t), None);
}

#[test]
fn push_then_detach_restores_counts() {
    let mut t = Tree::new();
    let p = el(&mut t, "div");
    let c = el(&mut t, "i");
    p.ref_push(&mut t, c);
    assert_eq!(t.surface().child_count(p.raw(&t)), 1);
    let removed = p.ref_splice(&mut t, 0, 1, vec![]);
    assert_eq!(removed[0].ptr_id(), c.ptr_id());
    assert_eq!(t.surface().child_count(p.raw(&t)), 0);
}

#[test]
fn listener_registered_with_options() {
    let mut t = Tree::new();
    let a = el(&mut t, "div");
    let tok = a.ref_on_with_options(&mut t, "scroll",
        rooting::el::ListenOptions { capture: true, passive: true });
    assert_eq!(tok, 0);
    let tok2 = a.ref_listen(&mut t, "keydown");
    assert_eq!(tok2, 1);
}

#[test]
fn cascade_release_tears_down_whole_subtree() {
    let mut t = Tree::new();
    let p = el(&mut t, "div");
    let c = el(&mut t, "span");
    let g = el(&mut t, "i");
    c.ref_push(&mut t, g);
    p.ref_push(&mut t, c);
    p.ref_own(&mut t, scope_any(1));
    c.ref_own(&mut t, scope_any(2));
    g.ref_own(&mut t, scope_any(3));
    let (ps, cs, gs) = (p.raw(&t), c.raw(&t), g.raw(&t));
    let fx = t.release(p);
    // parent cells first; the child subtree (its cells, then the
    // grandchild's) before the child's own surface; the root's surface last
    assert_eq!(fx, vec![
        Effect::ReleaseValue(1),
        Effect::ReleaseValue(2),
        Effect::ReleaseValue(3),
        Effect::ReleaseElement(gs),
        Effect::ReleaseElement(cs),
        Effect::ReleaseElement(ps),
    ]);
    assert_eq!(p.weak().upgrade(&t), None);
    assert_eq!(c.weak().upgrade(&t), None);
    assert_eq!(g.weak().upgrade(&t), None);
    assert!(!t.surface().is_alive(ps));
    assert!(!t.surface().is_alive(cs));
    assert!(!t.surface().is_alive(gs));
}

#[test]
fn container_remove_middle_entry() {
    let mut t = Tree::new();
    let anchor = el(&mut t, "ul");
    let a = el(&mut t, "li");
    let b = el(&mut t, "li");
    let c = el(&mut t, "li");
    let mut cont: Container<El> = Container::new(&t, anchor);
    cont.push(&mut t, a);
    cont.push(&mut t, b);
    cont.push(&mut t, c);
    assert_eq!(cont.len(), 3);
    assert_eq!(t.surface().child_count(anchor.raw(&t)), 3);
    let removed = cont.remove(&mut t, 1);
    assert_eq!(removed.ptr_id(), b.ptr_id());
    assert_eq!(cont.len(), 2);
    let kids = t.surface().get_children(anchor.raw(&t));
    assert_eq!(kids.len(), 2);
    assert_eq!(kids[0].raw_index(), a.raw(&t).raw_index());
    assert_eq!(kids[1].raw_index(), c.raw(&t).raw_index());
}

#[test]
fn container_push_then_pop_restores_both_sequences() {
    let mut t = Tree::new();
    let anchor = el(&mut t, "ul");
    let a = el(&mut t, "li");
    let b = el(&mut t, "li");
    let mut cont: Container<El> = Container::new(&t, anchor);
    cont.push(&mut t, a);
    assert_eq!(cont.len(), 1);
    cont.push(&mut t, b);
    assert_eq!(cont.len(), 2);
    assert_eq!(t.surface().child_count(anchor.raw(&t)), 2);
    let back = cont.pop(&mut t);
    assert_eq!(back.map(|x| x.ptr_id()), Some(b.ptr_id()));
    assert_eq!(cont.len(), 1);
    assert_eq!(t.surface().child_count(anchor.raw(&t)), 1);
    assert_eq!(cont.get(0).map(|x| x.ptr_id()), Some(a.ptr_id()));
    assert!(cont.is_some());
    assert!(!cont.is_empty());
}

#[test]
fn container_splice_and_clear() {
    let mut t = Tree::new();
    let anchor = el(&mut t, "ul");
    let a = el(&mut t, "li");
    let b = el(&mut t, "li");
    let c = el(&mut t, "li");
    let d = el(&mut t, "li");
    let mut cont: Container<El> = Container::new(&t, anchor);
    cont.extend(&mut t, vec![a, b, c]);
    let removed = cont.splice(&mut t, 1, 1, vec![d]);
    assert_eq!(removed.len(), 1);
    assert_eq!(removed[0].ptr_id(), b.ptr_id());
    assert_eq!(cont.len(), 3);
    assert_eq!(cont.iter().iter().map(|x| x.ptr_id()).collect::<Vec<_>>(),
        vec![a.ptr_id(), d.ptr_id(), c.ptr_id()]);
    let cleared = cont.clear(&mut t);
    assert_eq!(cleared.len(), 3);
    assert_eq!(cont.len(), 0);
    assert_eq!(t.surface().child_count(anchor.raw(&t)), 0);
}

#[test]
fn task_cancelled_before_completion_never_completes() {
    let mut t = Tree::new();
    let holder = el(&mut t, "div");
    let (task, cell) = rooting::spawn::spawn_rooted(&mut t);
    holder.ref_own(&mut t, cell);
    assert_eq!(rooting::spawn::task_state(&t, task), rooting::spawn::TaskState::Running);
    // the owner is released before the body yields: the cancel side wins
    let fx = t.release(holder);
    assert!(fx.contains(&Effect::CancelTask(task)));
    assert_eq!(rooting::spawn::task_state(&t, task),
        rooting::spawn::TaskState::Cancelled);
    // a late completion report loses the race
    let won = rooting::spawn::complete_task(&mut t, task);
    assert!(!won);
    assert_eq!(rooting::spawn::task_state(&t, task),
        rooting::spawn::TaskState::Cancelled);
}

#[test]
fn task_completed_before_release_ignores_cancellation() {
    let mut t = Tree::new();
    let holder = el(&mut t, "div");
    let (task, cell) = rooting::spawn::spawn_rooted(&mut t);
    holder.ref_own(&mut t, cell);
    let won = rooting::spawn::complete_task(&mut t, task);
    assert!(won);
    assert_eq!(rooting::spawn::task_state(&t, task),
        rooting::spawn::TaskState::Completed);
    // the cancel trigger fires during teardown but is a no-op
    let fx = t.release(holder);
    assert!(fx.contains(&Effect::CancelTask(task)));
    assert_eq!(rooting::spawn::task_state(&t, task),
        rooting::spawn::TaskState::Completed);
}

#[test]
fn observer_keeps_watching_after_one_handle_is_released() {
    let mut t = Tree::new();
    let a = el(&mut t, "div");
    let b = el(&mut t, "div");
    let keeper = el(&mut t, "div");
    let holder = el(&mut t, "div");
    let (obs, owner_cell) = ResizeObserver::new(&mut t);
    keeper.ref_own(&mut t, owner_cell);
    let sa = a.raw(&t);
    let sb = b.raw(&t);
    let ha = obs.observe(&mut t, sa);
    let hb = obs.observe(&mut t, sb);
    holder.ref_own(&mut t, ha);
    keeper.ref_own(&mut t, hb);
    assert!(obs.should_notify(&t, a.raw(&t)));
    assert!(obs.should_notify(&t, b.raw(&t)));
    // release the first registration only
    let fx = t.release(holder);
    assert!(fx.contains(&Effect::Unobserve { observer: obs.id(), target: a.raw(&t) }));
    assert!(!obs.should_notify(&t, a.raw(&t)));
    assert!(obs.should_notify(&t, b.raw(&t)));
    // the shared subscription dies only with its owner
    let _ = t.release(keeper);
    assert!(!obs.should_notify(&t, b.raw(&t)));
}

#[test]
fn on_resize_owns_subscription_and_registration() {
    let mut t = Tree::new();
    let a = el(&mut t, "div");
    let obs = a.ref_on_resize(&mut t);
    assert!(obs.should_notify(&t, a.raw(&t)));
    let s = a.raw(&t);
    let fx = t.release(a);
    assert!(fx.contains(&Effect::DisconnectObserver(obs.id())));
    assert!(fx.contains(&Effect::Unobserve { observer: obs.id(), target: s }));
}

#[test]
fn replace_swaps_node_in_parent() {
    let mut t = Tree::new();
    let p = el(&mut t, "div");
    let a = el(&mut t, "a");
    let b = el(&mut t, "b");
    p.ref_extend(&mut t, vec![a, b]);
    let d = el(&mut t, "d");
    let e2 = el(&mut t, "e");
    a.ref_replace(&mut t, vec![d, e2]);
    let kids = t.surface().get_children(p.raw(&t));
    assert_eq!(kids.len(), 3);
    assert_eq!(kids[0].raw_index(), d.raw(&t).raw_index());
    assert_eq!(kids[1].raw_index(), e2.raw(&t).raw_index());
    assert_eq!(kids[2].raw_index(), b.raw(&t).raw_index());
    // the replaced node is detached and reusable
    assert_eq!(a.weak().upgrade(&t), Some(a));
    b.ref_push(&mut t, a);
}

#[test]
fn clear_detaches_children_and_clears_text() {
    let mut t = Tree::new();
    let p = el(&mut t, "div");
    let a = el(&mut t, "a");
    p.ref_push(&mut t, a);
    let removed = p.ref_clear(&mut t);
    assert_eq!(removed.len(), 1);
    assert_eq!(removed[0].ptr_id(), a.ptr_id());
    assert_eq!(t.surface().child_count(p.raw(&t)), 0);
    assert_eq!(t.surface().get_text(p.raw(&t)), None);
    assert_eq!(a.weak().upgrade(&t), Some(a));
}

#[test]
fn text_detaches_children_in_the_same_step() {
    let mut t = Tree::new();
    let p = el(&mut t, "div");
    let a = el(&mut t, "a");
    p.ref_push(&mut t, a);
    let removed = p.ref_text(&mut t, "gone");
    assert_eq!(removed.len(), 1);
    assert_eq!(t.surface().child_count(p.raw(&t)), 0);
    assert_eq!(t.surface().get_text(p.raw(&t)), Some("gone".to_owned()));
}

#[test]
fn root_cell_replacement_tears_old_value_down() {
    let mut t = Tree::new();
    let fx0 = rooting::root::set_root_non_dom(&mut t, scope_any(5));
    assert_eq!(fx0, Vec::<Effect>::new());
    let fx1 = rooting::root::set_root_non_dom(&mut t, defer(6));
    assert_eq!(fx1, vec![Effect::ReleaseValue(5)]);
    let fx2 = rooting::root::set_root_non_dom(&mut t, scope_any(7));
    assert_eq!(fx2, vec![Effect::RunDeferred(6)]);
}

#[test]
fn set_root_mirrors_body_and_tears_old_contents_down() {
    let mut t = Tree::new();
    let a = el(&mut t, "main");
    let b = el(&mut t, "aside");
    let fx0 = rooting::root::set_root(&mut t, vec![a, b]);
    assert_eq!(fx0, Vec::<Effect>::new());
    let body = t.body();
    let kids = t.surface().get_children(body);
    assert_eq!(kids.len(), 2);
    assert_eq!(kids[0].raw_index(), a.raw(&t).raw_index());
    assert_eq!(kids[1].raw_index(), b.raw(&t).raw_index());
    // replacing the root releases the previous tree, children included
    let c = el(&mut t, "span");
    a.ref_push(&mut t, c);
    a.ref_own(&mut t, scope_any(9));
    let (asf, bsf, csf) = (a.raw(&t), b.raw(&t), c.raw(&t));
    let fresh = el(&mut t, "main");
    let fx1 = rooting::root::set_root(&mut t, vec![fresh]);
    // last root entry first: b, then a with its cell and child
    assert_eq!(fx1, vec![
        Effect::ReleaseElement(bsf),
        Effect::ReleaseValue(9),
        Effect::ReleaseElement(csf),
        Effect::ReleaseElement(asf),
    ]);
    assert_eq!(a.weak().upgrade(&t), None);
    assert_eq!(b.weak().upgrade(&t), None);
    assert_eq!(c.weak().upgrade(&t), None);
    let kids1 = t.surface().get_children(body);
    assert_eq!(kids1.len(), 1);
    assert_eq!(kids1[0].raw_index(), fresh.raw(&t).raw_index());
}

#[test]
fn set_root_replace_swaps_the_seeded_carrier() {
    let mut t = Tree::new();
    let body = t.body();
    // pre-existing document content, seeded by the embedder
    let before = t.seed_surface(Some(body), "header");
    let carrier = t.seed_surface(Some(body), "div");
    let after = t.seed_surface(Some(body), "footer");
    t.seed_attr(carrier, "id", "app");
    let replacement = el(&mut t, "main");
    rooting::root::set_root_replace(&mut t, "app", replacement);
    let kids = t.surface().get_children(body);
    assert_eq!(kids.len(), 3);
    assert_eq!(kids[0].raw_index(), before.raw_index());
    assert_eq!(kids[1].raw_index(), replacement.raw(&t).raw_index());
    assert_eq!(kids[2].raw_index(), after.raw_index());
    // the carrier left the document but its element handle survives
    assert_eq!(t.surface().parent_of(carrier), None);
    assert!(t.surface().is_alive(carrier));
}

#[test]
fn el_from_raw_wraps_a_seeded_element() {
    let mut t = Tree::new();
    let s = t.seed_surface(None, "canvas");
    let wrapped = rooting::el::el_from_raw(&mut t, s);
    assert_eq!(wrapped.raw(&t).raw_index(), s.raw_index());
    let p = el(&mut t, "div");
    p.ref_push(&mut t, wrapped);
    let kids = t.surface().get_children(p.raw(&t));
    assert_eq!(kids.len(), 1);
    assert_eq!(kids[0].raw_index(), s.raw_index());
}

#[test]
fn replace_of_a_parentless_node_tears_down_and_stashes() {
    let mut t = Tree::new();
    let r = el(&mut t, "div");
    let c = el(&mut t, "span");
    r.ref_push(&mut t, c);
    r.ref_own(&mut t, defer(9));
    let cs = c.raw(&t);
    let rs = r.raw(&t);
    rooting::root::set_root(&mut t, vec![r]);
    let n1 = el(&mut t, "p");
    let n2 = el(&mut t, "q");
    let n1s = n1.raw(&t);
    let n2s = n2.raw(&t);
    let fx = r.ref_replace(&mut t, vec![n1, n2]);
    // cells first, then the subtree's surface releases
    assert_eq!(fx, vec![Effect::RunDeferred(9), Effect::ReleaseElement(cs)]);
    // the old child is gone, its element released
    assert_eq!(c.weak().upgrade(&t), None);
    assert!(!t.surface().is_alive(cs));
    // the replacements' elements took the node's place under the body
    let kids = t.surface().get_children(t.body());
    assert_eq!(kids.len(), 2);
    assert_eq!(kids[0].raw_index(), n1s.raw_index());
    assert_eq!(kids[1].raw_index(), n2s.raw_index());
    // the node lives on, bare and inert, on a fresh element
    assert_eq!(r.weak().upgrade(&t), Some(r));
    assert_ne!(r.raw(&t).raw_index(), rs.raw_index());
    assert_eq!(t.surface().child_count(r.raw(&t)), 0);
    // the replacements stay alive while the node holds them
    assert_eq!(n1.weak().upgrade(&t), Some(n1));
    assert_eq!(n2.weak().upgrade(&t), Some(n2));
}

#[test]
fn set_root_tears_down_descendants_of_old_roots() {
    let mut t = Tree::new();
    let r = el(&mut t, "div");
    let c = el(&mut t, "span");
    r.ref_push(&mut t, c);
    let cs = c.raw(&t);
    let rs = r.raw(&t);
    rooting::root::set_root(&mut t, vec![r]);
    let n = el(&mut t, "p");
    let fx = rooting::root::set_root(&mut t, vec![n]);
    // the old root and its child are dead, each element released once
    assert_eq!(r.weak().upgrade(&t), None);
    assert_eq!(c.weak().upgrade(&t), None);
    assert!(!t.surface().is_alive(rs));
    assert!(!t.surface().is_alive(cs));
    let releases: Vec<&Effect> = fx
        .iter()
        .filter(|e| matches!(e, Effect::ReleaseElement(_)))
        .collect();
    assert_eq!(releases.len(), 2);
    assert!(fx.contains(&Effect::ReleaseElement(cs)));
    assert!(fx.contains(&Effect::ReleaseElement(rs)));
}

#[test]
fn observe_with_options_registers_the_target() {
    let mut t = Tree::new();
    let e = el(&mut t, "div");
    let s = e.raw(&t);
    let (obs, _own_cell) = rooting::resize::ResizeObserver::new(&mut t);
    let holder = el(&mut t, "div");
    let h = obs.observe_with_options(
        &mut t,
        s,
        rooting::resize::ObserveBox::BorderBox,
    );
    assert!(obs.should_notify(&t, s));
    holder.ref_own(&mut t, h);
    let fx = t.release(holder);
    assert!(fx.contains(&Effect::Unobserve {
        observer: obs.id(),
        target: s,
    }));
    assert!(!obs.should_notify(&t, s));
}
