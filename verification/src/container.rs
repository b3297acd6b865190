//! Ordered containers: a typed entry sequence kept in lockstep with one
//! anchor node's children.
//!
//! Every mutation first performs the matching structural edit on the
//! anchor, then the same edit on the entries, so the anchor's children are
//! always, position for position, the backing nodes of the entries.

use vstd::prelude::*;
use crate::el::{El, Owner, NodeView, Tree};

verus! {

/// Data that has a representative backing node, for use with `Container`.
pub trait ContainerEntry {
    /// The backing node, as specifications see it.
    spec fn el_of(&self) -> El;

    /// The backing node.
    fn el(&self) -> (r: El)
        ensures
            r == self.el_of(),
    ;
}

impl ContainerEntry for El {
    open spec fn el_of(&self) -> El {
        *self
    }

    fn el(&self) -> (r: El) {
        *self
    }
}

/// Pairs an owned sequence of entries with an anchor node, so that every
/// change of the sequence is mirrored onto the anchor's children in the
/// same step. Mutating a backing node behind the container's back
/// desynchronizes the two; that is a caller contract.
pub struct Container<T: ContainerEntry> {
    entries: Vec<T>,
    anchor: El,
}

impl<T: ContainerEntry> ContainerEntry for Container<T> {
    closed spec fn el_of(&self) -> El {
        self.anchor
    }

    fn el(&self) -> (r: El) {
        self.anchor
    }
}

/// A nested container's backing node is its anchor; exported so that a
/// caller can discharge the entry preconditions of an outer container.
pub proof fn lemma_container_entry<T: ContainerEntry>(c: &Container<T>)
    ensures
        c.el_of() == c.anchor_view(),
{
}

impl<T: ContainerEntry> Container<T> {
    /// The anchor node.
    pub closed spec fn anchor_view(self) -> El {
        self.anchor
    }

    /// The entries.
    pub closed spec fn entries_view(self) -> Seq<T> {
        self.entries@
    }

    /// The entries' backing nodes, in order.
    pub open spec fn els_view(self) -> Seq<El> {
        self.entries_view().map_values(|en: T| en.el_of())
    }

    /// The mirror invariant: the anchor is live and its children are
    /// exactly the entries' backing nodes.
    pub open spec fn wf(self, t: Tree) -> bool {
        &&& t.alive(self.anchor_view())
        &&& t.children(self.anchor_view()) == self.els_view()
    }

    /// Wrap a childless node as the anchor of an empty container.
    pub fn new(t: &Tree, el: El) -> (r: Container<T>)
        requires
            t.wf(),
            t.alive(el),
            t.children(el).len() == 0,
        ensures
            r.wf(*t),
            r.anchor_view() == el,
            r.entries_view() == Seq::<T>::empty(),
    {
        let r = Container { entries: Vec::new(), anchor: el };
        proof {
            assert(r.els_view() =~= Seq::<El>::empty());
            assert(t.children(el) =~= r.els_view());
        }
        r
    }

    /// Append one entry; its backing node becomes the anchor's last child.
    pub fn push(&mut self, t: &mut Tree, entry: T)
        requires
            old(self).wf(*old(t)),
            old(t).wf(),
            old(t).alive(entry.el_of()),
            old(t).is_detached(entry.el_of()),
            !old(t).in_subtree(entry.el_of(), old(self).anchor_view()),
        ensures
            final(t).wf(),
            final(self).wf(*final(t)),
            final(self).anchor_view() == old(self).anchor_view(),
            final(self).entries_view() == old(self).entries_view().push(entry),
            final(t).children(old(self).anchor_view())
                == old(t).children(old(self).anchor_view()).push(entry.el_of()),
            final(t).node_view(entry.el_of()) == (NodeView {
                owner: Owner::Parent(old(self).anchor_view()),
                sib: old(self).entries_view().len() as int,
                ..old(t).node_view(entry.el_of())
            }),
            forall |x: El| old(t).valid(x) && x != old(self).anchor_view()
                && x != entry.el_of()
                ==> #[trigger] final(t).node_view(x) == old(t).node_view(x),
            Tree::splice_frames(*old(t), *final(t)),
    {
        let c = entry.el();
        self.anchor.ref_push(t, c);
        self.entries.push(entry);
        proof {
            assert(final(self).els_view() =~= old(self).els_view().push(entry.el_of()));
        }
    }

    /// Insert one entry at position `i`; the anchor's children change the
    /// same way.
    pub fn insert(&mut self, t: &mut Tree, i: usize, entry: T)
        requires
            old(self).wf(*old(t)),
            old(t).wf(),
            i <= old(self).entries_view().len(),
            old(t).alive(entry.el_of()),
            old(t).is_detached(entry.el_of()),
            !old(t).in_subtree(entry.el_of(), old(self).anchor_view()),
        ensures
            final(t).wf(),
            final(self).wf(*final(t)),
            final(self).anchor_view() == old(self).anchor_view(),
            final(self).entries_view()
                == old(self).entries_view().insert(i as int, entry),
            final(t).children(old(self).anchor_view())
                == old(t).children(old(self).anchor_view())
                    .insert(i as int, entry.el_of()),
            Tree::splice_frames(*old(t), *final(t)),
    {
        let ghost pre = *old(t);
        let c = entry.el();
        let mut v: Vec<El> = Vec::new();
        v.push(c);
        let removed = self.anchor.ref_splice(t, i, 0, v);
        proof {
            broadcast use vstd::std_specs::vec::axiom_spec_len;
            assert(vstd::std_specs::vec::spec_vec_len(&self.entries)
                == self.entries@.len());
        }
        self.entries.insert(i, entry);
        proof {
            assert(seq![c][0] == c);
            assert(final(self).els_view()
                =~= old(self).els_view().insert(i as int, entry.el_of()));
            assert(final(t).children(old(self).anchor_view())
                =~= pre.children(old(self).anchor_view())
                    .insert(i as int, entry.el_of()));
            assert(final(t).children(old(self).anchor_view())
                == final(self).els_view());
        }
    }

    /// Remove `remove` entries at `offset` and insert `add` there, on both
    /// sequences in one step. The removed entries are returned; their
    /// backing nodes are left detached.
    pub fn splice(&mut self, t: &mut Tree, offset: usize, remove: usize, add: Vec<T>)
        -> (removed: Vec<T>)
        requires
            old(self).wf(*old(t)),
            old(t).wf(),
            offset + remove <= old(self).entries_view().len(),
            forall |k: int| 0 <= k < add@.len()
                ==> old(t).alive((#[trigger] add@[k]).el_of()),
            forall |k: int| 0 <= k < add@.len()
                ==> old(t).is_detached((#[trigger] add@[k]).el_of()),
            forall |k: int| 0 <= k < add@.len()
                ==> !old(t).in_subtree((#[trigger] add@[k]).el_of(),
                    old(self).anchor_view()),
            forall |k: int, l: int| 0 <= k < l < add@.len()
                ==> (#[trigger] add@[k]).el_of() != (#[trigger] add@[l]).el_of(),
        ensures
            final(t).wf(),
            final(self).wf(*final(t)),
            final(self).anchor_view() == old(self).anchor_view(),
            removed@ == old(self).entries_view().subrange(
                offset as int, offset as int + remove as int),
            final(self).entries_view()
                == old(self).entries_view().take(offset as int)
                    + add@ + old(self).entries_view().skip(offset as int + remove as int),
            forall |k: int| 0 <= k < remove
                ==> final(t).is_detached((#[trigger] removed@[k]).el_of()),
            Tree::splice_frames(*old(t), *final(t)),
    {
        let ghost pre = *old(t);
        let ghost entries0 = self.entries@;
        let mut els: Vec<El> = Vec::new();
        let mut k: usize = 0;
        while k < add.len()
            invariant
                k <= add@.len(),
                els@ == add@.take(k as int).map_values(|en: T| en.el_of()),
            decreases add@.len() - k,
        {
            let ghost els0 = els@;
            els.push(add[k].el());
            proof {
                assert(els@ =~= add@.take(k as int + 1).map_values(|en: T| en.el_of()));
            }
            k = k + 1;
        }
        proof {
            assert(add@.take(add@.len() as int) =~= add@);
            assert(els@ == add@.map_values(|en: T| en.el_of()));
            assert forall |a: int| 0 <= a < els@.len()
                implies old(t).alive(#[trigger] els@[a])
                    && old(t).is_detached(els@[a])
                    && !old(t).in_subtree(els@[a], old(self).anchor_view()) by {
                assert(els@[a] == add@[a].el_of());
            }
            assert forall |a: int, b: int| 0 <= a < b < els@.len()
                implies #[trigger] els@[a] != #[trigger] els@[b] by {
                assert(els@[a] == add@[a].el_of());
                assert(els@[b] == add@[b].el_of());
            }
        }
        let removed_els = self.anchor.ref_splice(t, offset, remove, els);
        // now the entries sequence, the same way
        let mut removed: Vec<T> = Vec::new();
        let mut k2: usize = 0;
        while k2 < remove
            invariant
                self.anchor == old(self).anchor,
                k2 <= remove,
                offset + remove <= entries0.len(),
                self.entries@ == entries0.take(offset as int)
                    + entries0.skip(offset as int + k2 as int),
                removed@ == entries0.subrange(offset as int, offset as int + k2 as int),
            decreases remove - k2,
        {
            proof {
                assert(self.entries@.len() == entries0.len() - k2);
                assert(self.entries@[offset as int]
                    == entries0[offset as int + k2 as int]) by {
                    assert(entries0.skip(offset as int + k2 as int)[0]
                        == entries0[offset as int + k2 as int]);
                }
                broadcast use vstd::std_specs::vec::axiom_spec_len;
                assert(vstd::std_specs::vec::spec_vec_len(&self.entries)
                    == self.entries@.len());
            }
            let x = self.entries.remove(offset);
            removed.push(x);
            proof {
                assert(self.entries@ =~= entries0.take(offset as int)
                    + entries0.skip(offset as int + k2 as int + 1));
                assert(removed@ =~= entries0.subrange(offset as int,
                    offset as int + k2 as int + 1)) by {
                    assert(removed@.last() == entries0[offset as int + k2 as int]);
                }
            }
            k2 = k2 + 1;
        }
        let ghost shrunk = entries0.take(offset as int)
            + entries0.skip(offset as int + remove as int);
        let mut k3: usize = 0;
        let mut add = add;
        let ghost addseq = add@;
        let total = add.len();
        while add.len() > 0
            invariant
                self.anchor == old(self).anchor,
                addseq.len() == total as int,
                k3 as int + add@.len() == addseq.len(),
                add@ == addseq.skip(k3 as int),
                offset <= shrunk.len(),
                self.entries@ == shrunk.take(offset as int)
                    + addseq.take(k3 as int) + shrunk.skip(offset as int),
            decreases add@.len(),
        {
            proof {
                assert(add@[0] == addseq[k3 as int]);
                broadcast use vstd::std_specs::vec::axiom_spec_len;
                assert(vstd::std_specs::vec::spec_vec_len(&self.entries)
                    == self.entries@.len());
                assert(offset as int + k3 as int <= self.entries@.len());
            }
            let x = add.remove(0);
            self.entries.insert(offset + k3, x);
            proof {
                assert(add@ =~= addseq.skip(k3 as int + 1));
                assert(self.entries@ =~= shrunk.take(offset as int)
                    + addseq.take(k3 as int + 1) + shrunk.skip(offset as int));
            }
            k3 = k3 + 1;
        }
        proof {
            assert(addseq.take(addseq.len() as int) =~= addseq);
            assert(self.entries@ =~= entries0.take(offset as int) + addseq
                + entries0.skip(offset as int + remove as int));
            assert(final(self).els_view()
                =~= pre.children(old(self).anchor_view()).take(offset as int)
                    + addseq.map_values(|en: T| en.el_of())
                    + pre.children(old(self).anchor_view())
                        .skip(offset as int + remove as int)) by {
                assert forall |a: int| 0 <= a < final(self).els_view().len()
                    implies #[trigger] final(self).els_view()[a]
                        == (pre.children(old(self).anchor_view()).take(offset as int)
                            + addseq.map_values(|en: T| en.el_of())
                            + pre.children(old(self).anchor_view())
                                .skip(offset as int + remove as int))[a] by {
                    assert(final(self).els_view()[a] == self.entries@[a].el_of());
                    assert(old(self).els_view()
                        == pre.children(old(self).anchor_view()));
                    if a < offset {
                        assert(self.entries@[a] == entries0[a]);
                        assert(old(self).els_view()[a] == entries0[a].el_of());
                    } else if a < offset + addseq.len() {
                        assert(self.entries@[a] == addseq[a - offset]);
                    } else {
                        assert(self.entries@[a]
                            == entries0[a - addseq.len() + remove]);
                        assert(old(self).els_view()[a - addseq.len() + remove]
                            == entries0[a - addseq.len() + remove].el_of());
                    }
                }
            }
            assert(final(t).children(old(self).anchor_view())
                == final(self).els_view());
            assert(final(t).alive(old(self).anchor_view())) by {
                assert(final(t).node_view(old(self).anchor_view()).alive
                    == pre.node_view(old(self).anchor_view()).alive);
            }
            assert(final(self).wf(*final(t)));
            assert(final(self).entries_view() =~= old(self).entries_view()
                .take(offset as int) + add@.take(0) + addseq
                + old(self).entries_view().skip(offset as int + remove as int)) by {
                assert(final(self).entries_view() == self.entries@);
            }
            assert(final(self).entries_view() =~= old(self).entries_view()
                .take(offset as int) + addseq
                + old(self).entries_view().skip(offset as int + remove as int));
            assert forall |k: int| 0 <= k < remove
                implies final(t).is_detached((#[trigger] removed@[k]).el_of()) by {
                assert(removed@[k] == entries0[offset as int + k]);
                assert(removed_els@[k]
                    == pre.children(old(self).anchor_view()).subrange(offset as int,
                        offset as int + remove as int)[k]);
                assert(old(self).els_view()[offset + k] == entries0[offset as int + k].el_of());
                assert(final(t).node_view(removed_els@[k]) == (NodeView {
                    owner: Owner::Detached,
                    sib: 0,
                    ..pre.node_view(removed_els@[k])
                }));
            }
        }
        removed
    }

    /// Remove the entry at `i`; exactly its backing node leaves the
    /// anchor's children, and the remaining entries keep their relative
    /// order.
    pub fn remove(&mut self, t: &mut Tree, i: usize) -> (removed: T)
        requires
            old(self).wf(*old(t)),
            old(t).wf(),
            i < old(self).entries_view().len(),
        ensures
            final(t).wf(),
            final(self).wf(*final(t)),
            final(self).anchor_view() == old(self).anchor_view(),
            removed == old(self).entries_view()[i as int],
            final(self).entries_view() == old(self).entries_view().remove(i as int),
            final(t).children(old(self).anchor_view())
                == old(t).children(old(self).anchor_view()).remove(i as int),
            final(t).is_detached(removed.el_of()),
            Tree::splice_frames(*old(t), *final(t)),
    {
        let ghost pre = *old(t);
        let mut out = self.splice(t, i, 1, Vec::new());
        let removed = out.remove(0);
        proof {
            assert(removed == old(self).entries_view()[i as int]) by {
                assert(old(self).entries_view().subrange(i as int, i as int + 1)[0]
                    == old(self).entries_view()[i as int]);
            }
            assert(final(self).entries_view()
                =~= old(self).entries_view().remove(i as int)) by {
                assert(Seq::<T>::empty() =~= self.entries@.take(0).skip(0).take(0));
            }
            assert(final(t).children(old(self).anchor_view())
                =~= pre.children(old(self).anchor_view()).remove(i as int));
        }
        removed
    }

    /// Remove the last entry, if any; `push` then `pop` restores both
    /// sequences.
    pub fn pop(&mut self, t: &mut Tree) -> (r: Option<T>)
        requires
            old(self).wf(*old(t)),
            old(t).wf(),
        ensures
            final(t).wf(),
            final(self).wf(*final(t)),
            final(self).anchor_view() == old(self).anchor_view(),
            old(self).entries_view().len() == 0 ==> r is None
                && final(self).entries_view() == old(self).entries_view()
                && *final(t) == *old(t),
            old(self).entries_view().len() > 0 ==> (match r {
                Some(x) => {
                    &&& x == old(self).entries_view().last()
                    &&& final(self).entries_view()
                        == old(self).entries_view().drop_last()
                    &&& final(t).children(old(self).anchor_view())
                        == old(t).children(old(self).anchor_view()).drop_last()
                    &&& final(t).is_detached(x.el_of())
                    &&& Tree::splice_frames(*old(t), *final(t))
                },
                None => false,
            }),
    {
        if self.entries.len() == 0 {
            return None;
        }
        let n = self.entries.len();
        let x = self.remove(t, n - 1);
        proof {
            assert(old(self).entries_view().remove(n - 1)
                =~= old(self).entries_view().drop_last());
            assert(old(t).children(old(self).anchor_view()).remove(n - 1)
                =~= old(t).children(old(self).anchor_view()).drop_last());
        }
        Some(x)
    }

    /// Append several entries at the end.
    pub fn extend(&mut self, t: &mut Tree, entries: Vec<T>)
        requires
            old(self).wf(*old(t)),
            old(t).wf(),
            forall |k: int| 0 <= k < entries@.len()
                ==> old(t).alive((#[trigger] entries@[k]).el_of()),
            forall |k: int| 0 <= k < entries@.len()
                ==> old(t).is_detached((#[trigger] entries@[k]).el_of()),
            forall |k: int| 0 <= k < entries@.len()
                ==> !old(t).in_subtree((#[trigger] entries@[k]).el_of(),
                    old(self).anchor_view()),
            forall |k: int, l: int| 0 <= k < l < entries@.len()
                ==> (#[trigger] entries@[k]).el_of() != (#[trigger] entries@[l]).el_of(),
        ensures
            final(t).wf(),
            final(self).wf(*final(t)),
            final(self).anchor_view() == old(self).anchor_view(),
            final(self).entries_view() == old(self).entries_view() + entries@,
            Tree::splice_frames(*old(t), *final(t)),
    {
        let n = self.entries.len();
        let ghost pre = *old(t);
        let removed = self.splice(t, n, 0, entries);
        proof {
            assert(final(self).entries_view()
                =~= old(self).entries_view() + entries@) by {
                assert(old(self).entries_view().take(n as int)
                    =~= old(self).entries_view());
                assert(old(self).entries_view().skip(n as int)
                    =~= Seq::<T>::empty());
            }
        }
    }

    /// Detach all entries' backing nodes from the anchor and clear the
    /// entries; the detached nodes are returned.
    pub fn clear(&mut self, t: &mut Tree) -> (removed: Vec<El>)
        requires
            old(self).wf(*old(t)),
            old(t).wf(),
        ensures
            final(t).wf(),
            final(self).wf(*final(t)),
            final(self).anchor_view() == old(self).anchor_view(),
            final(self).entries_view() == Seq::<T>::empty(),
            removed@ == old(self).els_view(),
            final(t).children(old(self).anchor_view()) == Seq::<El>::empty(),
    {
        let removed = self.anchor.ref_clear(t);
        self.entries.clear();
        proof {
            assert(final(self).els_view() =~= Seq::<El>::empty());
        }
        removed
    }

    /// Read the entry at `i`, if any.
    pub fn get(&self, i: usize) -> (r: Option<&T>)
        ensures
            (i as int) < self.entries_view().len()
                ==> (match r {
                    Some(x) => *x == self.entries_view()[i as int],
                    None => false,
                }),
            (i as int) >= self.entries_view().len() ==> r is None,
    {
        if i < self.entries.len() {
            Some(&self.entries[i])
        } else {
            None
        }
    }

    /// The first entry, if any.
    pub fn first(&self) -> (r: Option<&T>)
        ensures
            self.entries_view().len() > 0
                ==> (match r {
                    Some(x) => *x == self.entries_view()[0],
                    None => false,
                }),
            self.entries_view().len() == 0 ==> r is None,
    {
        self.get(0)
    }

    /// The last entry, if any.
    pub fn last(&self) -> (r: Option<&T>)
        ensures
            self.entries_view().len() > 0
                ==> (match r {
                    Some(x) => *x == self.entries_view().last(),
                    None => false,
                }),
            self.entries_view().len() == 0 ==> r is None,
    {
        if self.entries.len() == 0 {
            return None;
        }
        let n = self.entries.len();
        self.get(n - 1)
    }

    pub fn len(&self) -> (r: usize)
        ensures
            r as int == self.entries_view().len(),
    {
        self.entries.len()
    }

    pub fn is_empty(&self) -> (r: bool)
        ensures
            r == (self.entries_view().len() == 0),
    {
        self.entries.len() == 0
    }

    pub fn is_some(&self) -> (r: bool)
        ensures
            r == (self.entries_view().len() > 0),
    {
        self.entries.len() > 0
    }

    /// The entries, for iteration.
    pub fn iter(&self) -> (r: &Vec<T>)
        ensures
            r@ == self.entries_view(),
    {
        &self.entries
    }
}

} // verus!
