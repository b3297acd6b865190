//! Scoped tree nodes.
//!
//! A `Tree` is an arena of nodes. Each node pairs a surface element with an
//! ordered list of owned children, a list of owned resource cells, and a
//! recorded position among its siblings. Ownership forms a forest: a node is
//! owned by its parent, by a stash (see `ref_replace`), by the root anchor,
//! or by nobody (detached). Every structural edit updates the surface model
//! in the same step, so the two never disagree; releasing a node cascades
//! teardown through its whole subtree.
//!
//! Handles (`El`) are plain indices and never keep a node alive by
//! themselves; the arena does. This replaces a strong-parent/weak-child
//! reference discipline with explicit ownership edges, which rules out
//! ownership cycles outright. Because every mutation goes through one
//! exclusive borrow of the `Tree`, re-entrant mutation of a node from within
//! a callback is impossible by construction.

use vstd::prelude::*;
use crate::surface::{Surface, SurfaceId, SlotView};
use crate::own::{ScopeValue, Effect};
use crate::resize::ResizeObserver_;
use crate::spawn::TaskState;

verus! {

/// Handle to one node of the tree.
#[derive(Clone, Copy, PartialEq, Eq, Structural, Debug)]
pub struct El(pub(crate) usize);

impl El {
    /// The arena index as it appears in specifications.
    pub closed spec fn spec_raw(self) -> int {
        self.0 as int
    }

    /// A number identifying the node, for debugging.
    pub fn ptr_id(&self) -> (r: usize)
        ensures
            r as int == self.spec_raw(),
    {
        self.0
    }
}

/// A non-owning handle: it can be asked for the node again later, and
/// answers "gone" once the node has been released.
#[derive(Clone, Copy, PartialEq, Eq, Structural, Debug)]
pub struct WeakEl(pub(crate) El);

impl WeakEl {
    /// The node this weak handle refers to.
    pub closed spec fn target(self) -> El {
        self.0
    }

    /// Attempt to obtain the node again; answers `None` once it has been
    /// released.
    pub fn upgrade(&self, t: &Tree) -> (r: Option<El>)
        requires
            t.valid(self.target()),
        ensures
            r == (if t.alive(self.target()) {
                Some(self.target())
            } else {
                Option::<El>::None
            }),
    {
        if t.nodes[self.0.0].alive {
            Some(self.0)
        } else {
            None
        }
    }
}

/// Who owns a node.
#[derive(Clone, Copy, PartialEq, Eq, Structural)]
pub enum Owner {
    /// Nobody: the caller is responsible for attaching or releasing it.
    Detached,
    /// An ordinary tree edge: the node is a child of this node.
    Parent(El),
    /// Held in the stash of this node (see `ref_replace`).
    Stash(El),
    /// Held by the process-wide root anchor.
    Root,
}

pub(crate) struct ListenerRec {
    pub(crate) target: SurfaceId,
    pub(crate) event: String,
    pub(crate) capture: bool,
    pub(crate) passive: bool,
    pub(crate) active: bool,
}

/// The registry record of one event subscription, as specifications see
/// it.
pub struct ListenerView {
    pub target: SurfaceId,
    pub event: Seq<char>,
    pub capture: bool,
    pub passive: bool,
    pub active: bool,
}

/// Options for an event subscription: whether it listens in the capture
/// phase, and whether it is passive.
#[derive(Clone, Copy, PartialEq, Eq, Structural)]
pub struct ListenOptions {
    pub capture: bool,
    pub passive: bool,
}

pub(crate) struct NodeSlot {
    pub(crate) alive: bool,
    pub(crate) owner: Owner,
    pub(crate) index_in_parent: usize,
    pub(crate) children: Vec<El>,
    pub(crate) local: Vec<ScopeValue>,
    pub(crate) stash: Vec<El>,
    pub(crate) surface: SurfaceId,
}

/// The whole state of one node, as specifications see it. Resource cells
/// appear as the effects their teardown will perform, in order.
pub struct NodeView {
    pub alive: bool,
    pub owner: Owner,
    pub sib: int,
    pub children: Seq<El>,
    pub cells: Seq<Effect>,
    pub stash: Seq<El>,
    pub surface: SurfaceId,
}

/// The arena of scoped nodes, together with the surface model, the
/// observation registry, the task registry and the root anchor.
pub struct Tree {
    pub(crate) nodes: Vec<NodeSlot>,
    pub(crate) surface: Surface,
    pub(crate) body: SurfaceId,
    pub(crate) observers: Vec<ResizeObserver_>,
    pub(crate) listeners: Vec<ListenerRec>,
    pub(crate) tasks: Vec<TaskState>,
    pub(crate) root_nodes: Vec<El>,
    pub(crate) root_cell: Option<ScopeValue>,
    pub(crate) anc: Ghost<Map<int, Seq<int>>>,
}

impl Tree {
    /// How many nodes have ever been created (live or released).
    pub closed spec fn node_count(self) -> int {
        self.nodes@.len() as int
    }

    /// Whether the handle points at a node that has been created.
    pub open spec fn valid(self, e: El) -> bool {
        0 <= e.spec_raw() < self.node_count()
    }

    pub closed spec fn node_view(self, e: El) -> NodeView {
        let sl = self.nodes@[e.spec_raw()];
        NodeView {
            alive: sl.alive,
            owner: sl.owner,
            sib: sl.index_in_parent as int,
            children: sl.children@,
            cells: sl.local@.map_values(|c: ScopeValue| c.effect()),
            stash: sl.stash@,
            surface: sl.surface,
        }
    }

    pub open spec fn alive(self, e: El) -> bool {
        self.valid(e) && self.node_view(e).alive
    }

    pub open spec fn owner_of(self, e: El) -> Owner {
        self.node_view(e).owner
    }

    pub open spec fn is_detached(self, e: El) -> bool {
        self.owner_of(e) == Owner::Detached
    }

    /// The weak back-reference: the owning parent, if the node is attached.
    pub open spec fn parent_of(self, e: El) -> Option<El> {
        match self.owner_of(e) {
            Owner::Parent(p) => Some(p),
            _ => None,
        }
    }

    /// The owning parent, when there is one; the node itself otherwise.
    pub open spec fn parent_el(self, e: El) -> El {
        match self.owner_of(e) {
            Owner::Parent(p) => p,
            _ => e,
        }
    }

    /// The recorded position among the parent's children.
    pub open spec fn sib_index(self, e: El) -> int {
        self.node_view(e).sib
    }

    pub open spec fn children(self, e: El) -> Seq<El> {
        self.node_view(e).children
    }

    /// The teardown effects of the node's resource cells, in list order.
    pub open spec fn cells(self, e: El) -> Seq<Effect> {
        self.node_view(e).cells
    }

    pub open spec fn stash_of(self, e: El) -> Seq<El> {
        self.node_view(e).stash
    }

    pub open spec fn surface_of(self, e: El) -> SurfaceId {
        self.node_view(e).surface
    }

    /// The surface model, for specifications.
    pub closed spec fn surface_view(self) -> Surface {
        self.surface
    }

    /// The distinguished surface element standing for the document body.
    pub closed spec fn body_view(self) -> SurfaceId {
        self.body
    }

    /// The chain of owners above a node, outermost first, as arena indices.
    pub closed spec fn chain(self, e: El) -> Seq<int> {
        self.anc@[e.spec_raw()]
    }

    /// Whether `x` lies in the subtree owned by `root` (through child,
    /// stash or root edges), including `root` itself.
    pub open spec fn in_subtree(self, root: El, x: El) -> bool {
        x == root || self.chain(x).contains(root.spec_raw())
    }

    /// The nodes held by the root anchor.
    pub closed spec fn root_view(self) -> Seq<El> {
        self.root_nodes@
    }

    /// The teardown effect of the cell held by the root anchor, if any.
    pub closed spec fn root_cell_view(self) -> Option<Effect> {
        match self.root_cell {
            Some(c) => Some(c.effect()),
            None => None,
        }
    }

    /// The observation registry, for specifications.
    pub closed spec fn observers_view(self) -> Seq<ObserverView> {
        self.observers@.map_values(|o: ResizeObserver_| ObserverView {
            alive: o.alive,
            targets: o.targets@,
        })
    }

    /// The task registry, for specifications.
    pub closed spec fn tasks_view(self) -> Seq<TaskState> {
        self.tasks@
    }

    /// The event-subscription registry, for specifications.
    pub closed spec fn listeners_view(self) -> Seq<ListenerView> {
        self.listeners@.map_values(|l: ListenerRec| ListenerView {
            target: l.target,
            event: l.event@,
            capture: l.capture,
            passive: l.passive,
            active: l.active,
        })
    }

    /// The surfaces of a node's children, in order.
    pub open spec fn child_surfaces(self, e: El) -> Seq<SurfaceId> {
        self.children(e).map_values(|c: El| self.surface_of(c))
    }

    /// Whether no live node wraps the given surface element.
    pub closed spec fn unwrapped(self, s: SurfaceId) -> bool {
        forall |e: El| #[trigger] self.alive(e) ==> self.surface_of(e) != s
    }

    // ----- the invariant -----

    /// The owner edge of one live node is consistent: the owner is live,
    /// lists the node, and the ancestor chain extends the owner's chain.
    pub(crate) open spec fn owner_ok(self, e: El) -> bool {
        match self.owner_of(e) {
            Owner::Detached => self.chain(e).len() == 0,
            Owner::Parent(p) => {
                &&& self.alive(p)
                &&& 0 <= self.sib_index(e) < self.children(p).len()
                &&& self.children(p)[self.sib_index(e)] == e
                &&& self.chain(e) == self.chain(p).push(p.spec_raw())
            },
            Owner::Stash(s) => {
                &&& self.alive(s)
                &&& self.stash_of(s).contains(e)
                &&& self.chain(e) == self.chain(s).push(s.spec_raw())
            },
            Owner::Root => {
                &&& self.root_view().contains(e)
                &&& self.chain(e).len() == 0
            },
        }
    }

    /// The child at position `j` of `p` is live, owned by `p`, and records
    /// position `j`.
    pub(crate) open spec fn child_ok(self, p: El, j: int) -> bool {
        let c = self.children(p)[j];
        &&& self.valid(c)
        &&& self.node_view(c).alive
        &&& self.owner_of(c) == Owner::Parent(p)
        &&& self.sib_index(c) == j
    }

    /// The stash entry at position `j` of `p` is live and stash-owned by
    /// `p`.
    pub(crate) open spec fn stash_entry_ok(self, p: El, j: int) -> bool {
        let c = self.stash_of(p)[j];
        &&& self.valid(c)
        &&& self.node_view(c).alive
        &&& self.owner_of(c) == Owner::Stash(p)
    }

    /// The node's surface element is live, mirrors the children exactly,
    /// and is surface-attached precisely the way the node is tree-attached.
    pub(crate) open spec fn surface_ok(self, e: El) -> bool {
        let s = self.surface_of(e);
        &&& self.surface_view().alive(s)
        &&& self.surface_view().children(s) == self.child_surfaces(e)
        &&& match self.owner_of(e) {
                Owner::Detached => self.surface_view().parent(s) is None,
                Owner::Parent(p) => self.surface_view().parent(s)
                    == Some(self.surface_of(p)),
                _ => true,
            }
    }

    pub(crate) open spec fn root_entry_ok(self, j: int) -> bool {
        let e = self.root_view()[j];
        &&& self.valid(e)
        &&& self.node_view(e).alive
        &&& self.owner_of(e) == Owner::Root
    }

    /// All owner chains are consistent.
    pub(crate) open spec fn chains_ok(self) -> bool {
        forall |e: El| #[trigger] self.alive(e) ==> self.owner_ok(e)
    }

    /// The tree invariant.
    pub closed spec fn wf(self) -> bool {
        &&& self.surface_view().wf()
        &&& self.surface_view().alive(self.body_view())
        &&& self.unwrapped(self.body_view())
        &&& self.chains_ok()
        &&& (forall |p: El, j: int|
                self.alive(p) && 0 <= j < self.children(p).len()
                    ==> #[trigger] self.child_ok(p, j))
        &&& (forall |p: El, j: int|
                self.alive(p) && 0 <= j < self.stash_of(p).len()
                    ==> #[trigger] self.stash_entry_ok(p, j))
        &&& (forall |p: El, a: int, b: int|
                self.alive(p) && 0 <= a < b < self.stash_of(p).len()
                    ==> (#[trigger] self.stash_of(p)[a]) != (#[trigger] self.stash_of(p)[b]))
        &&& (forall |e: El| #[trigger] self.alive(e) ==> self.surface_ok(e))
        &&& (forall |a: El, b: El| self.alive(a) && self.alive(b) && a != b
                ==> #[trigger] self.surface_of(a) != #[trigger] self.surface_of(b))
        &&& (forall |j: int| 0 <= j < self.root_view().len()
                ==> #[trigger] self.root_entry_ok(j))
        &&& (forall |a: int, b: int| 0 <= a < b < self.root_view().len()
                ==> (#[trigger] self.root_view()[a]) != (#[trigger] self.root_view()[b]))
    }

    /// Every index on a live node's chain is a live ancestor, and the chain
    /// up to it extends that ancestor's own chain. In particular chains
    /// witness that ownership is acyclic.
    pub(crate) proof fn lemma_chain_prefix(self, x: El, ci: int)
        requires
            self.chains_ok(),
            self.alive(x),
            self.chain(x).contains(ci),
        ensures
            0 <= ci,
            ci < usize::MAX as int + 1,
            self.alive(El(ci as usize)),
            self.chain(x).len() > self.chain(El(ci as usize)).len(),
            self.chain(x).take(self.chain(El(ci as usize)).len() as int + 1)
                == self.chain(El(ci as usize)).push(ci),
        decreases self.chain(x).len(),
    {
        assert(self.owner_ok(x));
        match self.owner_of(x) {
            Owner::Parent(o) => {
                self.lemma_chain_step(x, o, ci);
            },
            Owner::Stash(o) => {
                self.lemma_chain_step(x, o, ci);
            },
            Owner::Detached => {
                assert(false);
            },
            Owner::Root => {
                assert(false);
            },
        }
    }

    /// Helper for `lemma_chain_prefix`: one step through the owner `o`.
    proof fn lemma_chain_step(self, x: El, o: El, ci: int)
        requires
            self.chains_ok(),
            self.alive(x),
            self.alive(o),
            self.chain(x) == self.chain(o).push(o.spec_raw()),
            self.chain(x).contains(ci),
        ensures
            0 <= ci,
            ci < usize::MAX as int + 1,
            self.alive(El(ci as usize)),
            self.chain(x).len() > self.chain(El(ci as usize)).len(),
            self.chain(x).take(self.chain(El(ci as usize)).len() as int + 1)
                == self.chain(El(ci as usize)).push(ci),
        decreases self.chain(x).len(), 0int,
    {
        let co = self.chain(o);
        if ci == o.spec_raw() {
            assert(El(ci as usize) == o);
            assert(self.chain(x).take(co.len() as int + 1) =~= co.push(ci));
        } else {
            let k = choose |k: int| 0 <= k < self.chain(x).len() && self.chain(x)[k] == ci;
            assert(k < co.len());
            assert(co[k] == ci);
            assert(co.contains(ci));
            self.lemma_chain_prefix(o, ci);
            let c = El(ci as usize);
            assert(co.take(self.chain(c).len() as int + 1) == self.chain(c).push(ci));
            assert(self.chain(x).take(self.chain(c).len() as int + 1)
                =~= co.take(self.chain(c).len() as int + 1));
        }
    }

    /// A live node never appears on its own chain.
    pub(crate) proof fn lemma_chain_no_self(self, x: El)
        requires
            self.chains_ok(),
            self.alive(x),
        ensures
            !self.chain(x).contains(x.spec_raw()),
    {
        if self.chain(x).contains(x.spec_raw()) {
            self.lemma_chain_prefix(x, x.spec_raw());
            assert(El(x.spec_raw() as usize) == x);
        }
    }

    /// Create an empty tree whose surface holds only the body element.
    pub fn new() -> (t: Tree)
        ensures
            t.wf(),
            t.node_count() == 0,
            t.surface_view().slot_count() == 1,
            t.surface_view().alive(t.body_view()),
            t.root_view().len() == 0,
            t.root_cell_view() is None,
            t.observers_view().len() == 0,
            t.listeners_view().len() == 0,
            t.tasks_view().len() == 0,
    {
        let mut surface = Surface::new();
        let body = surface.create("body");
        let t = Tree {
            nodes: Vec::new(),
            surface,
            body,
            observers: Vec::new(),
            listeners: Vec::new(),
            tasks: Vec::new(),
            root_nodes: Vec::new(),
            root_cell: None,
            anc: Ghost(Map::new(|i: int| true, |i: int| Seq::empty())),
        };
        proof {
            assert(t.observers_view() =~= Seq::<ObserverView>::empty());
            assert(t.listeners_view() =~= Seq::<ListenerView>::empty());
        }
        t
    }

    /// Frame proof: a state that leaves every live node's view, chain and
    /// surface view as in `pre` (apart from freshly created nodes that are
    /// detached, childless roots of their own) is still well formed.
    proof fn lemma_grow_wf(&self, pre: Tree, e: El)
        requires
            pre.wf(),
            self.node_count() == pre.node_count() + 1,
            e.spec_raw() == pre.node_count(),
            self.alive(e),
            self.node_view(e).owner == Owner::Detached,
            self.node_view(e).children.len() == 0,
            self.node_view(e).stash.len() == 0,
            self.chain(e).len() == 0,
            self.surface_view().wf(),
            pre.surface_view().slot_count() <= self.surface_view().slot_count(),
            self.surface_view().alive(self.surface_of(e)),
            self.surface_view().children(self.surface_of(e)).len() == 0,
            self.surface_view().parent(self.surface_of(e)) is None,
            pre.unwrapped(self.surface_of(e)),
            self.surface_of(e) != self.body_view(),
            self.body_view() == pre.body_view(),
            self.surface_view().alive(self.body_view()),
            self.root_view() == pre.root_view(),
            forall |x: El| pre.valid(x)
                ==> #[trigger] self.node_view(x) == pre.node_view(x),
            forall |x: El| pre.valid(x) ==> #[trigger] self.chain(x) == pre.chain(x),
            forall |s: SurfaceId| pre.surface_view().valid(s)
                ==> #[trigger] self.surface_view().slot_view(s)
                    == pre.surface_view().slot_view(s),
        ensures
            self.wf(),
    {
        assert forall |x: El| #[trigger] self.alive(x) && x != e implies pre.alive(x) by {
            assert(self.node_view(x) == pre.node_view(x));
        }
        assert forall |x: El| #[trigger] self.alive(x) implies self.owner_ok(x) by {
            if x == e {
            } else {
                assert(pre.owner_ok(x));
                match pre.owner_of(x) {
                    Owner::Parent(p) => {
                        assert(self.node_view(p) == pre.node_view(p));
                    },
                    Owner::Stash(s) => {
                        assert(self.node_view(s) == pre.node_view(s));
                    },
                    _ => {},
                }
            }
        }
        assert forall |p: El, j: int| self.alive(p) && 0 <= j < self.children(p).len()
            implies #[trigger] self.child_ok(p, j) by {
            assert(p != e);
            assert(pre.child_ok(p, j));
            let c = pre.children(p)[j];
            assert(self.node_view(c) == pre.node_view(c));
        }
        assert forall |p: El, j: int| self.alive(p) && 0 <= j < self.stash_of(p).len()
            implies #[trigger] self.stash_entry_ok(p, j) by {
            assert(p != e);
            assert(pre.stash_entry_ok(p, j));
            let c = pre.stash_of(p)[j];
            assert(self.node_view(c) == pre.node_view(c));
        }
        assert forall |p: El, a: int, b: int|
            self.alive(p) && 0 <= a < b < self.stash_of(p).len()
            implies (#[trigger] self.stash_of(p)[a]) != (#[trigger] self.stash_of(p)[b]) by {
            assert(p != e);
            assert(pre.stash_of(p) == self.stash_of(p));
        }
        assert forall |x: El| #[trigger] self.alive(x) implies self.surface_ok(x) by {
            if x == e {
                assert(self.child_surfaces(e) =~= Seq::<SurfaceId>::empty());
                assert(self.surface_view().children(self.surface_of(e))
                    =~= self.child_surfaces(e));
            } else {
                assert(pre.surface_ok(x));
                assert(self.node_view(x) == pre.node_view(x));
                assert(pre.surface_view().alive(pre.surface_of(x)));
                assert(self.surface_view().slot_view(self.surface_of(x))
                    == pre.surface_view().slot_view(pre.surface_of(x)));
                assert(self.child_surfaces(x) =~= pre.child_surfaces(x)) by {
                    assert forall |j: int| 0 <= j < self.children(x).len()
                        implies #[trigger] self.child_surfaces(x)[j]
                            == pre.child_surfaces(x)[j] by {
                        assert(pre.child_ok(x, j));
                        let c = pre.children(x)[j];
                        assert(self.node_view(c) == pre.node_view(c));
                    }
                }
                match pre.owner_of(x) {
                    Owner::Parent(p) => {
                        assert(pre.owner_ok(x));
                        assert(self.node_view(p) == pre.node_view(p));
                    },
                    _ => {},
                }
            }
        }
        assert forall |a: El, b: El| self.alive(a) && self.alive(b) && a != b
            implies (#[trigger] self.surface_of(a)) != (#[trigger] self.surface_of(b)) by {
            if a == e {
                assert(pre.alive(b));
                assert(pre.surface_of(b) != self.surface_of(e));
            } else if b == e {
                assert(pre.alive(a));
                assert(pre.surface_of(a) != self.surface_of(e));
            } else {
                assert(pre.alive(a) && pre.alive(b));
            }
        }
        assert forall |j: int| 0 <= j < self.root_view().len()
            implies #[trigger] self.root_entry_ok(j) by {
            assert(pre.root_entry_ok(j));
            let x = pre.root_view()[j];
            assert(self.node_view(x) == pre.node_view(x));
        }
    }

    /// The relation between the tree before and after the node-level part
    /// of an attach step.
    pub(crate) open spec fn attach_rel(self, pre: Tree, p: El, at: int, c: El) -> bool {
        &&& self.node_count() == pre.node_count()
        &&& self.body == pre.body
        &&& self.root_nodes == pre.root_nodes
        &&& self.node_view(p) == (NodeView {
                children: pre.children(p).insert(at, c),
                ..pre.node_view(p)
            })
        &&& self.node_view(c) == (NodeView {
                owner: Owner::Parent(p),
                sib: at,
                ..pre.node_view(c)
            })
        &&& (forall |jj: int| at <= jj < pre.children(p).len()
                ==> self.node_view(#[trigger] pre.children(p)[jj])
                    == (NodeView {
                        sib: jj + 1,
                        ..pre.node_view(pre.children(p)[jj])
                    }))
        &&& (forall |x: El| pre.valid(x) && x != p && x != c
                && !pre.children(p).skip(at).contains(x)
                ==> #[trigger] self.node_view(x) == pre.node_view(x))
        &&& (forall |x: El| pre.valid(x)
                ==> #[trigger] self.chain(x)
                    == (if x == c || pre.chain(x).contains(c.spec_raw()) {
                        pre.chain(p).push(p.spec_raw()) + pre.chain(x)
                    } else {
                        pre.chain(x)
                    }))
    }

    /// Pointwise description of how one node's view moved in an attach
    /// step.
    proof fn lemma_attach_view(&self, pre: Tree, p: El, at: int, c: El, x: El)
        requires
            pre.wf(),
            pre.alive(p),
            pre.alive(c),
            pre.is_detached(c),
            0 <= at <= pre.children(p).len(),
            self.attach_rel(pre, p, at, c),
            pre.valid(x),
        ensures
            self.node_view(x).alive == pre.node_view(x).alive,
            self.node_view(x).surface == pre.node_view(x).surface,
            self.node_view(x).cells == pre.node_view(x).cells,
            self.node_view(x).stash == pre.node_view(x).stash,
            self.node_view(x).children == (if x == p {
                pre.children(p).insert(at, c)
            } else {
                pre.node_view(x).children
            }),
            self.node_view(x).owner == (if x == c {
                Owner::Parent(p)
            } else {
                pre.node_view(x).owner
            }),
            self.node_view(x).sib == (if x == c {
                at
            } else if pre.node_view(x).owner == Owner::Parent(p) && pre.alive(x)
                && pre.node_view(x).sib >= at {
                pre.node_view(x).sib + 1
            } else {
                pre.node_view(x).sib
            }),
    {
        let kids = pre.children(p);
        pre.lemma_kids_facts(p);
        if x == p {
            assert(x != c);
            if pre.node_view(p).owner == Owner::Parent(p) && pre.alive(p) {
                assert(pre.owner_ok(p));
                assert(kids[pre.sib_index(p)] == p);
                assert(false);
            }
        } else if x == c {
        } else if pre.alive(x) && pre.node_view(x).owner == Owner::Parent(p) {
            assert(pre.owner_ok(x));
            let sib = pre.sib_index(x);
            assert(kids[sib] == x);
            if sib >= at {
                assert(kids.skip(at)[sib - at] == x);
                assert(self.node_view(x)
                    == (NodeView { sib: sib + 1, ..pre.node_view(x) }));
            } else {
                assert(!kids.skip(at).contains(x)) by {
                    if kids.skip(at).contains(x) {
                        let k = choose |k: int|
                            0 <= k < kids.skip(at).len() && kids.skip(at)[k] == x;
                        assert(kids[at + k] == x);
                    }
                }
                assert(self.node_view(x) == pre.node_view(x));
            }
        } else {
            assert(!kids.skip(at).contains(x)) by {
                if kids.skip(at).contains(x) {
                    let k = choose |k: int|
                        0 <= k < kids.skip(at).len() && kids.skip(at)[k] == x;
                    assert(kids[at + k] == x);
                    assert(pre.child_ok(p, at + k));
                }
            }
            assert(self.node_view(x) == pre.node_view(x));
        }
    }

    /// After `attach_at`'s state change, the invariant holds again.
    proof fn lemma_attach_wf(&self, pre: Tree, p: El, at: int, c: El)
        requires
            pre.wf(),
            pre.alive(p),
            pre.alive(c),
            pre.is_detached(c),
            !pre.in_subtree(c, p),
            0 <= at <= pre.children(p).len(),
            self.attach_rel(pre, p, at, c),
            self.observers == pre.observers,
            self.tasks == pre.tasks,
            self.root_cell == pre.root_cell,
            self.surface.wf(),
            self.surface.slot_count() == pre.surface.slot_count(),
            self.surface.children(pre.surface_of(p))
                == pre.surface.children(pre.surface_of(p)).insert(at, pre.surface_of(c)),
            self.surface.slot_view(pre.surface_of(c)) == (SlotView {
                parent: Some(pre.surface_of(p)),
                pos: at,
                ..pre.surface.slot_view(pre.surface_of(c))
            }),
            self.surface.slot_view(pre.surface_of(p)) == (SlotView {
                children: pre.surface.children(pre.surface_of(p))
                    .insert(at, pre.surface_of(c)),
                ..pre.surface.slot_view(pre.surface_of(p))
            }),
            forall |jj: int|
                at <= jj < pre.surface.children(pre.surface_of(p)).len()
                    ==> self.surface.slot_view(
                        #[trigger] pre.surface.children(pre.surface_of(p))[jj])
                        == (SlotView {
                            pos: jj + 1,
                            ..pre.surface.slot_view(
                                pre.surface.children(pre.surface_of(p))[jj])
                        }),
            forall |s: SurfaceId| pre.surface.valid(s)
                && s != pre.surface_of(p) && s != pre.surface_of(c)
                && !pre.surface.children(pre.surface_of(p)).skip(at).contains(s)
                ==> #[trigger] self.surface.slot_view(s) == pre.surface.slot_view(s),
        ensures
            self.wf(),
    {
        let kids = pre.children(p);
        let newkids = kids.insert(at, c);
        let ps = pre.surface_of(p);
        let cs = pre.surface_of(c);
        let pfx = pre.chain(p).push(p.spec_raw());
        pre.lemma_kids_facts(p);
        pre.lemma_detached_unlisted(c);
        assert(pre.owner_ok(c));
        assert(pre.owner_ok(p));
        assert(pre.surface_ok(p));
        assert(pre.surface_ok(c));
        assert(p != c);
        assert(pre.surface.children(ps) == pre.child_surfaces(p));
        assert(pre.child_surfaces(p).len() == kids.len());
        // every surface slot keeps its aliveness, children, parent link and
        // contents, except the three structured changes
        assert forall |s: SurfaceId| pre.surface.valid(s)
            implies #[trigger] self.surface.slot_view(s).alive
                == pre.surface.slot_view(s).alive by {
            if s == ps || s == cs {
            } else if pre.surface.children(ps).skip(at).contains(s) {
                let k = choose |k: int|
                    0 <= k < pre.surface.children(ps).skip(at).len()
                    && pre.surface.children(ps).skip(at)[k] == s;
                assert(pre.surface.children(ps)[at + k] == s);
                assert(self.surface.slot_view(pre.surface.children(ps)[at + k])
                    == (SlotView {
                        pos: at + k + 1,
                        ..pre.surface.slot_view(pre.surface.children(ps)[at + k])
                    }));
            } else {
                assert(self.surface.slot_view(s) == pre.surface.slot_view(s));
            }
        }
        // chains_ok
        assert forall |x: El| #[trigger] self.alive(x) implies self.owner_ok(x) by {
            self.lemma_attach_view(pre, p, at, c, x);
            assert(pre.alive(x));
            assert(pre.owner_ok(x));
            if x == c {
                assert(pre.chain(c).len() == 0);
                assert(self.chain(c) == pfx + pre.chain(c));
                assert(self.chain(c) =~= pfx);
                assert(!(p == c || pre.chain(p).contains(c.spec_raw())));
                assert(self.chain(p) == pre.chain(p));
                assert(self.chain(c) == self.chain(p).push(p.spec_raw()));
                self.lemma_attach_view(pre, p, at, c, p);
                assert(self.children(p)[at] == c);
            } else {
                match pre.owner_of(x) {
                    Owner::Detached => {
                        assert(pre.chain(x).len() == 0);
                        assert(self.chain(x) == pre.chain(x));
                    },
                    Owner::Root => {
                        assert(pre.chain(x).len() == 0);
                        assert(self.chain(x) == pre.chain(x));
                        assert(self.root_view() == pre.root_view());
                    },
                    Owner::Parent(o) => {
                        assert(pre.chain(x) == pre.chain(o).push(o.spec_raw()));
                        self.lemma_attach_owner_chain(pre, p, at, c, x, o);
                        self.lemma_attach_view(pre, p, at, c, o);
                        let sib = pre.sib_index(x);
                        assert(pre.children(o)[sib] == x);
                        if o == p {
                            if sib >= at {
                                assert(kids.skip(at)[sib - at] == x);
                                assert(self.sib_index(x) == sib + 1);
                                assert(self.children(p)[sib + 1] == x);
                            } else {
                                assert(self.sib_index(x) == sib);
                                assert(self.children(p)[sib] == x);
                            }
                        } else {
                            assert(self.children(o) == pre.children(o));
                            assert(self.sib_index(x) == sib);
                        }
                    },
                    Owner::Stash(o) => {
                        assert(pre.chain(x) == pre.chain(o).push(o.spec_raw()));
                        self.lemma_attach_owner_chain(pre, p, at, c, x, o);
                        self.lemma_attach_view(pre, p, at, c, o);
                        assert(self.stash_of(o) == pre.stash_of(o));
                    },
                }
            }
        }
        // child_ok
        assert forall |q: El, j: int| self.alive(q) && 0 <= j < self.children(q).len()
            implies #[trigger] self.child_ok(q, j) by {
            self.lemma_attach_view(pre, p, at, c, q);
            assert(pre.alive(q));
            if q == p {
                if j == at {
                    assert(self.children(q)[j] == c);
                    self.lemma_attach_view(pre, p, at, c, c);
                } else if j < at {
                    let d = kids[j];
                    assert(pre.child_ok(p, j));
                    assert(self.children(q)[j] == d);
                    self.lemma_attach_view(pre, p, at, c, d);
                    assert(d != c);
                } else {
                    let d = kids[j - 1];
                    assert(pre.child_ok(p, j - 1));
                    assert(self.children(q)[j] == d);
                    self.lemma_attach_view(pre, p, at, c, d);
                    assert(d != c);
                }
            } else {
                assert(self.children(q) == pre.children(q));
                assert(pre.child_ok(q, j));
                let d = pre.children(q)[j];
                self.lemma_attach_view(pre, p, at, c, d);
                assert(d != c);
                assert(self.node_view(d).owner == Owner::Parent(q));
                assert(self.node_view(d).sib == j) by {
                    if pre.node_view(d).owner == Owner::Parent(p) {
                        assert(q == p);
                        assert(false);
                    }
                }
            }
        }
        // stash
        assert forall |q: El, j: int| self.alive(q) && 0 <= j < self.stash_of(q).len()
            implies #[trigger] self.stash_entry_ok(q, j) by {
            self.lemma_attach_view(pre, p, at, c, q);
            assert(pre.alive(q));
            assert(self.stash_of(q) == pre.stash_of(q));
            assert(pre.stash_entry_ok(q, j));
            let d = pre.stash_of(q)[j];
            self.lemma_attach_view(pre, p, at, c, d);
            assert(d != c);
        }
        assert forall |q: El, a: int, b: int|
            self.alive(q) && 0 <= a < b < self.stash_of(q).len()
            implies (#[trigger] self.stash_of(q)[a]) != (#[trigger] self.stash_of(q)[b]) by {
            self.lemma_attach_view(pre, p, at, c, q);
            assert(pre.alive(q));
            assert(self.stash_of(q) == pre.stash_of(q));
        }
        // surfaces of distinct nodes stay distinct
        assert forall |a: El, b: El| self.alive(a) && self.alive(b) && a != b
            implies (#[trigger] self.surface_of(a)) != (#[trigger] self.surface_of(b)) by {
            self.lemma_attach_view(pre, p, at, c, a);
            self.lemma_attach_view(pre, p, at, c, b);
            assert(pre.alive(a) && pre.alive(b));
            assert(pre.surface_of(a) != pre.surface_of(b));
        }
        // surface mirror
        assert forall |x: El| #[trigger] self.alive(x) implies self.surface_ok(x) by {
            self.lemma_attach_view(pre, p, at, c, x);
            assert(pre.alive(x));
            assert(pre.surface_ok(x));
            let sx = pre.surface_of(x);
            assert(self.surface_of(x) == sx);
            assert(pre.surface.alive(sx));
            if x == p {
                assert(self.child_surfaces(p) =~= pre.child_surfaces(p).insert(at, cs)) by {
                    assert forall |j: int| 0 <= j < newkids.len()
                        implies #[trigger] self.child_surfaces(p)[j]
                            == pre.child_surfaces(p).insert(at, cs)[j] by {
                        if j < at {
                            assert(newkids[j] == kids[j]);
                            assert(pre.child_ok(p, j));
                            self.lemma_attach_view(pre, p, at, c, kids[j]);
                        } else if j == at {
                            assert(newkids[j] == c);
                            self.lemma_attach_view(pre, p, at, c, c);
                        } else {
                            assert(newkids[j] == kids[j - 1]);
                            assert(pre.child_ok(p, j - 1));
                            self.lemma_attach_view(pre, p, at, c, kids[j - 1]);
                        }
                    }
                }
                assert(self.surface.children(ps) == self.child_surfaces(p));
                match pre.owner_of(p) {
                    Owner::Detached => {
                        assert(self.surface.slot_view(ps).parent
                            == pre.surface.slot_view(ps).parent);
                    },
                    Owner::Parent(o) => {
                        assert(self.surface.slot_view(ps).parent
                            == pre.surface.slot_view(ps).parent);
                        self.lemma_attach_view(pre, p, at, c, o);
                    },
                    _ => {},
                }
            } else if x == c {
                assert(self.child_surfaces(c) =~= pre.child_surfaces(c)) by {
                    assert forall |j: int| 0 <= j < self.children(c).len()
                        implies #[trigger] self.child_surfaces(c)[j]
                            == pre.child_surfaces(c)[j] by {
                        assert(pre.child_ok(c, j));
                        self.lemma_attach_view(pre, p, at, c, pre.children(c)[j]);
                    }
                }
                assert(self.surface.children(cs) == pre.surface.children(cs));
                assert(self.surface.parent(cs) == Some(ps));
            } else {
                assert(self.child_surfaces(x) =~= pre.child_surfaces(x)) by {
                    assert forall |j: int| 0 <= j < self.children(x).len()
                        implies #[trigger] self.child_surfaces(x)[j]
                            == pre.child_surfaces(x)[j] by {
                        assert(pre.child_ok(x, j));
                        self.lemma_attach_view(pre, p, at, c, pre.children(x)[j]);
                    }
                }
                assert(sx != ps && sx != cs) by {
                    assert(pre.alive(p) && pre.alive(c));
                }
                if pre.surface.children(ps).skip(at).contains(sx) {
                    let k = choose |k: int|
                        0 <= k < pre.surface.children(ps).skip(at).len()
                        && pre.surface.children(ps).skip(at)[k] == sx;
                    assert(pre.surface.children(ps)[at + k] == sx);
                    assert(pre.child_surfaces(p)[at + k] == sx);
                    assert(pre.child_ok(p, at + k));
                    let y = kids[at + k];
                    assert(pre.surface_of(y) == sx);
                    assert(y == x) by {
                        if y != x {
                            assert(pre.alive(y) && pre.alive(x));
                        }
                    }
                    assert(self.surface.slot_view(sx)
                        == (SlotView {
                            pos: at + k + 1,
                            ..pre.surface.slot_view(sx)
                        }));
                } else {
                    assert(self.surface.slot_view(sx) == pre.surface.slot_view(sx));
                }
                match pre.owner_of(x) {
                    Owner::Parent(o) => {
                        self.lemma_attach_view(pre, p, at, c, o);
                        assert(self.surface_of(o) == pre.surface_of(o));
                        assert(pre.surface.parent(sx) == Some(pre.surface_of(o)));
                        assert(self.surface.slot_view(sx).parent
                            == pre.surface.slot_view(sx).parent);
                    },
                    _ => {},
                }
            }
        }
        // root anchor
        assert forall |j: int| 0 <= j < self.root_view().len()
            implies #[trigger] self.root_entry_ok(j) by {
            assert(pre.root_entry_ok(j));
            let x = pre.root_view()[j];
            self.lemma_attach_view(pre, p, at, c, x);
            assert(x != c);
        }
        assert forall |a: int, b: int| 0 <= a < b < self.root_view().len()
            implies (#[trigger] self.root_view()[a]) != (#[trigger] self.root_view()[b]) by {
            assert(pre.root_view()[a] != pre.root_view()[b]);
        }
        assert(self.surface_view().alive(self.body_view())) by {
            assert(self.surface.slot_view(self.body).alive
                == pre.surface.slot_view(self.body).alive);
        }
        assert forall |x: El| #[trigger] self.alive(x)
            implies self.surface_of(x) != self.body_view() by {
            self.lemma_attach_view(pre, p, at, c, x);
            assert(pre.alive(x));
            assert(pre.surface_of(x) != pre.body_view());
        }
    }

    /// In the attach step, a pre-existing owner edge keeps a consistent
    /// chain: either both the node and its owner gained the new prefix, or
    /// neither did.
    proof fn lemma_attach_owner_chain(&self, pre: Tree, p: El, at: int, c: El, x: El, o: El)
        requires
            pre.wf(),
            pre.alive(p),
            pre.alive(c),
            pre.is_detached(c),
            !pre.in_subtree(c, p),
            pre.valid(x),
            pre.valid(o),
            pre.alive(o),
            x != c,
            pre.chain(x) == pre.chain(o).push(o.spec_raw()),
            forall |y: El| pre.valid(y)
                ==> #[trigger] self.chain(y)
                    == (if y == c || pre.chain(y).contains(c.spec_raw()) {
                        pre.chain(p).push(p.spec_raw()) + pre.chain(y)
                    } else {
                        pre.chain(y)
                    }),
        ensures
            self.chain(x) == self.chain(o).push(o.spec_raw()),
    {
        let pfx = pre.chain(p).push(p.spec_raw());
        if pre.chain(x).contains(c.spec_raw()) {
            if o.spec_raw() == c.spec_raw() {
                assert(o == c);
                assert(pre.owner_ok(c));
                assert(pre.chain(o).len() == 0);
                assert(self.chain(x) == pfx + pre.chain(x));
                assert(self.chain(o) == pfx + pre.chain(o));
                assert(self.chain(x) =~= (pfx + pre.chain(o)).push(o.spec_raw()));
            } else {
                let k = choose |k: int|
                    0 <= k < pre.chain(x).len() && pre.chain(x)[k] == c.spec_raw();
                assert(k < pre.chain(o).len()) by {
                    if k == pre.chain(o).len() {
                        assert(pre.chain(x)[k] == o.spec_raw());
                    }
                }
                assert(pre.chain(o)[k] == c.spec_raw());
                assert(pre.chain(o).contains(c.spec_raw()));
                assert(self.chain(x) == pfx + pre.chain(x));
                assert(self.chain(o) == pfx + pre.chain(o));
                assert(self.chain(x) =~= (pfx + pre.chain(o)).push(o.spec_raw()));
            }
        } else {
            assert(!pre.chain(o).contains(c.spec_raw())) by {
                if pre.chain(o).contains(c.spec_raw()) {
                    let k = choose |k: int|
                        0 <= k < pre.chain(o).len() && pre.chain(o)[k] == c.spec_raw();
                    assert(pre.chain(x)[k] == c.spec_raw());
                }
            }
            assert(o != c) by {
                if o == c {
                    assert(pre.chain(x)[pre.chain(o).len() as int] == o.spec_raw());
                }
            }
            assert(self.chain(x) == pre.chain(x));
            assert(self.chain(o) == pre.chain(o));
        }
    }

    /// The relation between the tree before and after the node-level part
    /// of a detach step removing `c`, the child of `p` at position `at`.
    pub(crate) open spec fn detach_rel(self, pre: Tree, p: El, at: int, c: El) -> bool {
        &&& self.node_count() == pre.node_count()
        &&& self.body == pre.body
        &&& self.root_nodes == pre.root_nodes
        &&& self.node_view(p) == (NodeView {
                children: pre.children(p).remove(at),
                ..pre.node_view(p)
            })
        &&& self.node_view(c) == (NodeView {
                owner: Owner::Detached,
                sib: 0,
                ..pre.node_view(c)
            })
        &&& (forall |jj: int| at < jj < pre.children(p).len()
                ==> self.node_view(#[trigger] pre.children(p)[jj])
                    == (NodeView {
                        sib: jj - 1,
                        ..pre.node_view(pre.children(p)[jj])
                    }))
        &&& (forall |x: El| pre.valid(x) && x != p
                && !pre.children(p).skip(at).contains(x)
                ==> #[trigger] self.node_view(x) == pre.node_view(x))
        &&& (forall |x: El| pre.valid(x)
                ==> #[trigger] self.chain(x)
                    == (if x == c || pre.chain(x).contains(c.spec_raw()) {
                        pre.chain(x).skip(pre.chain(c).len() as int)
                    } else {
                        pre.chain(x)
                    }))
    }

    /// Pointwise description of how one node's view moved in a detach
    /// step.
    proof fn lemma_detach_view(&self, pre: Tree, p: El, at: int, c: El, x: El)
        requires
            pre.wf(),
            pre.alive(p),
            0 <= at < pre.children(p).len(),
            c == pre.children(p)[at],
            self.detach_rel(pre, p, at, c),
            pre.valid(x),
        ensures
            self.node_view(x).alive == pre.node_view(x).alive,
            self.node_view(x).surface == pre.node_view(x).surface,
            self.node_view(x).cells == pre.node_view(x).cells,
            self.node_view(x).stash == pre.node_view(x).stash,
            self.node_view(x).children == (if x == p {
                pre.children(p).remove(at)
            } else {
                pre.node_view(x).children
            }),
            self.node_view(x).owner == (if x == c {
                Owner::Detached
            } else {
                pre.node_view(x).owner
            }),
            self.node_view(x).sib == (if x == c {
                0
            } else if pre.node_view(x).owner == Owner::Parent(p) && pre.alive(x)
                && pre.node_view(x).sib > at {
                pre.node_view(x).sib - 1
            } else {
                pre.node_view(x).sib
            }),
    {
        let kids = pre.children(p);
        pre.lemma_kids_facts(p);
        assert(pre.child_ok(p, at));
        assert(kids.skip(at)[0] == c);
        if x == p {
            assert(x != c);
            if pre.node_view(p).owner == Owner::Parent(p) && pre.alive(p) {
                assert(pre.owner_ok(p));
                assert(kids[pre.sib_index(p)] == p);
                assert(false);
            }
        } else if x == c {
        } else if pre.alive(x) && pre.node_view(x).owner == Owner::Parent(p) {
            assert(pre.owner_ok(x));
            let sib = pre.sib_index(x);
            assert(kids[sib] == x);
            assert(sib != at);
            if sib > at {
                assert(kids.skip(at)[sib - at] == x);
                assert(self.node_view(x)
                    == (NodeView { sib: sib - 1, ..pre.node_view(x) }));
            } else {
                assert(!kids.skip(at).contains(x)) by {
                    if kids.skip(at).contains(x) {
                        let k = choose |k: int|
                            0 <= k < kids.skip(at).len() && kids.skip(at)[k] == x;
                        assert(kids[at + k] == x);
                    }
                }
                assert(self.node_view(x) == pre.node_view(x));
            }
        } else {
            assert(!kids.skip(at).contains(x)) by {
                if kids.skip(at).contains(x) {
                    let k = choose |k: int|
                        0 <= k < kids.skip(at).len() && kids.skip(at)[k] == x;
                    assert(kids[at + k] == x);
                    assert(pre.child_ok(p, at + k));
                }
            }
            assert(self.node_view(x) == pre.node_view(x));
        }
    }

    /// In the detach step, a surviving owner edge keeps a consistent chain:
    /// either both the node and its owner lost the stripped prefix, or
    /// neither did.
    proof fn lemma_detach_owner_chain(&self, pre: Tree, p: El, at: int, c: El, x: El, o: El)
        requires
            pre.wf(),
            pre.alive(p),
            0 <= at < pre.children(p).len(),
            c == pre.children(p)[at],
            pre.valid(x),
            pre.valid(o),
            pre.alive(o),
            x != c,
            pre.chain(x) == pre.chain(o).push(o.spec_raw()),
            forall |y: El| pre.valid(y)
                ==> #[trigger] self.chain(y)
                    == (if y == c || pre.chain(y).contains(c.spec_raw()) {
                        pre.chain(y).skip(pre.chain(c).len() as int)
                    } else {
                        pre.chain(y)
                    }),
        ensures
            self.chain(x) == self.chain(o).push(o.spec_raw()),
    {
        pre.lemma_kids_facts(p);
        assert(pre.child_ok(p, at));
        assert(pre.alive(c));
        assert(pre.owner_ok(c));
        let ll = pre.chain(c).len() as int;
        if pre.chain(x).contains(c.spec_raw()) {
            if o.spec_raw() == c.spec_raw() {
                assert(o == c);
                assert(pre.chain(o).len() == ll);
                assert(self.chain(x) == pre.chain(x).skip(ll));
                assert(self.chain(o) == pre.chain(o).skip(ll));
                assert(self.chain(o) =~= Seq::<int>::empty());
                assert(self.chain(x) =~= self.chain(o).push(o.spec_raw()));
            } else {
                assert(pre.chain(o).contains(c.spec_raw())) by {
                    let k = choose |k: int|
                        0 <= k < pre.chain(x).len() && pre.chain(x)[k] == c.spec_raw();
                    if k == pre.chain(o).len() {
                        assert(pre.chain(x)[k] == o.spec_raw());
                        assert(false);
                    }
                    assert(pre.chain(o)[k] == c.spec_raw());
                }
                pre.lemma_chain_prefix(o, c.spec_raw());
                assert(pre.chain(o).len() > ll);
                assert(self.chain(x) == pre.chain(x).skip(ll));
                assert(self.chain(o) == pre.chain(o).skip(ll));
                assert(self.chain(x) =~= self.chain(o).push(o.spec_raw()));
            }
        } else {
            assert(!pre.chain(o).contains(c.spec_raw())) by {
                if pre.chain(o).contains(c.spec_raw()) {
                    let k = choose |k: int|
                        0 <= k < pre.chain(o).len() && pre.chain(o)[k] == c.spec_raw();
                    assert(pre.chain(x)[k] == c.spec_raw());
                }
            }
            assert(o != c) by {
                if o == c {
                    assert(pre.chain(x)[pre.chain(o).len() as int] == o.spec_raw());
                }
            }
            assert(self.chain(x) == pre.chain(x));
            assert(self.chain(o) == pre.chain(o));
        }
    }

    /// After `detach_at`'s state change, the invariant holds again.
    proof fn lemma_detach_wf(&self, pre: Tree, p: El, at: int, c: El)
        requires
            pre.wf(),
            pre.alive(p),
            0 <= at < pre.children(p).len(),
            c == pre.children(p)[at],
            self.detach_rel(pre, p, at, c),
            self.observers == pre.observers,
            self.tasks == pre.tasks,
            self.root_cell == pre.root_cell,
            self.surface.wf(),
            self.surface.slot_count() == pre.surface.slot_count(),
            self.surface.children(pre.surface_of(p))
                == pre.surface.children(pre.surface_of(p)).remove(at),
            self.surface.slot_view(pre.surface_of(c)) == (SlotView {
                parent: None,
                pos: 0,
                ..pre.surface.slot_view(pre.surface_of(c))
            }),
            self.surface.slot_view(pre.surface_of(p)) == (SlotView {
                children: pre.surface.children(pre.surface_of(p)).remove(at),
                ..pre.surface.slot_view(pre.surface_of(p))
            }),
            forall |jj: int|
                at < jj < pre.surface.children(pre.surface_of(p)).len()
                    ==> self.surface.slot_view(
                        #[trigger] pre.surface.children(pre.surface_of(p))[jj])
                        == (SlotView {
                            pos: jj - 1,
                            ..pre.surface.slot_view(
                                pre.surface.children(pre.surface_of(p))[jj])
                        }),
            forall |s: SurfaceId| pre.surface.valid(s)
                && s != pre.surface_of(p)
                && !pre.surface.children(pre.surface_of(p)).skip(at).contains(s)
                ==> #[trigger] self.surface.slot_view(s) == pre.surface.slot_view(s),
        ensures
            self.wf(),
    {
        let kids = pre.children(p);
        let newkids = kids.remove(at);
        let ps = pre.surface_of(p);
        let cs = pre.surface_of(c);
        pre.lemma_kids_facts(p);
        assert(pre.child_ok(p, at));
        assert(pre.alive(c));
        assert(pre.owner_ok(c));
        assert(pre.owner_ok(p));
        assert(pre.surface_ok(p));
        assert(pre.surface_ok(c));
        assert(p != c);
        assert(pre.surface.children(ps) == pre.child_surfaces(p));
        assert(pre.child_surfaces(p).len() == kids.len());
        assert(pre.child_surfaces(p)[at] == cs);
        assert(pre.surface.children(ps).skip(at)[0] == cs);
        // aliveness of surface slots is untouched
        assert forall |s: SurfaceId| pre.surface.valid(s)
            implies #[trigger] self.surface.slot_view(s).alive
                == pre.surface.slot_view(s).alive by {
            if s == ps || s == cs {
            } else if pre.surface.children(ps).skip(at).contains(s) {
                let k = choose |k: int|
                    0 <= k < pre.surface.children(ps).skip(at).len()
                    && pre.surface.children(ps).skip(at)[k] == s;
                assert(pre.surface.children(ps)[at + k] == s);
                assert(k > 0);
                assert(self.surface.slot_view(pre.surface.children(ps)[at + k])
                    == (SlotView {
                        pos: at + k - 1,
                        ..pre.surface.slot_view(pre.surface.children(ps)[at + k])
                    }));
            } else {
                assert(self.surface.slot_view(s) == pre.surface.slot_view(s));
            }
        }
        // chains_ok
        assert forall |x: El| #[trigger] self.alive(x) implies self.owner_ok(x) by {
            self.lemma_detach_view(pre, p, at, c, x);
            assert(pre.alive(x));
            assert(pre.owner_ok(x));
            if x == c {
                assert(self.chain(c) == pre.chain(c).skip(pre.chain(c).len() as int));
                assert(self.chain(c) =~= Seq::<int>::empty());
            } else {
                match pre.owner_of(x) {
                    Owner::Detached => {
                        assert(pre.chain(x).len() == 0);
                        assert(self.chain(x) == pre.chain(x));
                    },
                    Owner::Root => {
                        assert(pre.chain(x).len() == 0);
                        assert(self.chain(x) == pre.chain(x));
                        assert(self.root_view() == pre.root_view());
                    },
                    Owner::Parent(o) => {
                        assert(pre.chain(x) == pre.chain(o).push(o.spec_raw()));
                        self.lemma_detach_owner_chain(pre, p, at, c, x, o);
                        self.lemma_detach_view(pre, p, at, c, o);
                        let sib = pre.sib_index(x);
                        assert(pre.children(o)[sib] == x);
                        if o == p {
                            assert(sib != at);
                            if sib > at {
                                assert(kids.skip(at)[sib - at] == x);
                                assert(self.sib_index(x) == sib - 1);
                                assert(self.children(p)[sib - 1] == x);
                            } else {
                                assert(self.sib_index(x) == sib);
                                assert(self.children(p)[sib] == x);
                            }
                        } else {
                            assert(self.children(o) == pre.children(o));
                            assert(self.sib_index(x) == sib);
                        }
                    },
                    Owner::Stash(o) => {
                        assert(pre.chain(x) == pre.chain(o).push(o.spec_raw()));
                        self.lemma_detach_owner_chain(pre, p, at, c, x, o);
                        self.lemma_detach_view(pre, p, at, c, o);
                        assert(self.stash_of(o) == pre.stash_of(o));
                    },
                }
            }
        }
        // child_ok
        assert forall |q: El, j: int| self.alive(q) && 0 <= j < self.children(q).len()
            implies #[trigger] self.child_ok(q, j) by {
            self.lemma_detach_view(pre, p, at, c, q);
            assert(pre.alive(q));
            if q == p {
                if j < at {
                    let d = kids[j];
                    assert(pre.child_ok(p, j));
                    assert(self.children(q)[j] == d);
                    self.lemma_detach_view(pre, p, at, c, d);
                    assert(d != c);
                } else {
                    let d = kids[j + 1];
                    assert(pre.child_ok(p, j + 1));
                    assert(self.children(q)[j] == d);
                    self.lemma_detach_view(pre, p, at, c, d);
                    assert(d != c);
                }
            } else {
                assert(self.children(q) == pre.children(q));
                assert(pre.child_ok(q, j));
                let d = pre.children(q)[j];
                self.lemma_detach_view(pre, p, at, c, d);
                assert(d != c) by {
                    if d == c {
                        assert(pre.owner_of(c) == Owner::Parent(q));
                        assert(pre.owner_of(c) == Owner::Parent(p));
                        assert(q == p);
                    }
                }
                assert(self.node_view(d).owner == Owner::Parent(q));
                assert(self.node_view(d).sib == j) by {
                    if pre.node_view(d).owner == Owner::Parent(p) {
                        assert(q == p);
                        assert(false);
                    }
                }
            }
        }
        // stash
        assert forall |q: El, j: int| self.alive(q) && 0 <= j < self.stash_of(q).len()
            implies #[trigger] self.stash_entry_ok(q, j) by {
            self.lemma_detach_view(pre, p, at, c, q);
            assert(pre.alive(q));
            assert(self.stash_of(q) == pre.stash_of(q));
            assert(pre.stash_entry_ok(q, j));
            let d = pre.stash_of(q)[j];
            self.lemma_detach_view(pre, p, at, c, d);
            assert(d != c) by {
                if d == c {
                    assert(pre.owner_of(c) is Stash);
                }
            }
        }
        assert forall |q: El, a: int, b: int|
            self.alive(q) && 0 <= a < b < self.stash_of(q).len()
            implies (#[trigger] self.stash_of(q)[a]) != (#[trigger] self.stash_of(q)[b]) by {
            self.lemma_detach_view(pre, p, at, c, q);
            assert(pre.alive(q));
            assert(self.stash_of(q) == pre.stash_of(q));
        }
        // surfaces of distinct nodes stay distinct
        assert forall |a: El, b: El| self.alive(a) && self.alive(b) && a != b
            implies (#[trigger] self.surface_of(a)) != (#[trigger] self.surface_of(b)) by {
            self.lemma_detach_view(pre, p, at, c, a);
            self.lemma_detach_view(pre, p, at, c, b);
            assert(pre.alive(a) && pre.alive(b));
            assert(pre.surface_of(a) != pre.surface_of(b));
        }
        // surface mirror
        assert forall |x: El| #[trigger] self.alive(x) implies self.surface_ok(x) by {
            self.lemma_detach_view(pre, p, at, c, x);
            assert(pre.alive(x));
            assert(pre.surface_ok(x));
            let sx = pre.surface_of(x);
            assert(self.surface_of(x) == sx);
            assert(pre.surface.alive(sx));
            if x == p {
                assert(self.child_surfaces(p) =~= pre.child_surfaces(p).remove(at)) by {
                    assert forall |j: int| 0 <= j < newkids.len()
                        implies #[trigger] self.child_surfaces(p)[j]
                            == pre.child_surfaces(p).remove(at)[j] by {
                        if j < at {
                            assert(newkids[j] == kids[j]);
                            assert(pre.child_ok(p, j));
                            self.lemma_detach_view(pre, p, at, c, kids[j]);
                        } else {
                            assert(newkids[j] == kids[j + 1]);
                            assert(pre.child_ok(p, j + 1));
                            self.lemma_detach_view(pre, p, at, c, kids[j + 1]);
                        }
                    }
                }
                assert(self.surface.children(ps) == self.child_surfaces(p));
                match pre.owner_of(p) {
                    Owner::Detached => {
                        assert(self.surface.slot_view(ps).parent
                            == pre.surface.slot_view(ps).parent);
                    },
                    Owner::Parent(o) => {
                        assert(self.surface.slot_view(ps).parent
                            == pre.surface.slot_view(ps).parent);
                        self.lemma_detach_view(pre, p, at, c, o);
                    },
                    _ => {},
                }
            } else if x == c {
                assert(self.child_surfaces(c) =~= pre.child_surfaces(c)) by {
                    assert forall |j: int| 0 <= j < self.children(c).len()
                        implies #[trigger] self.child_surfaces(c)[j]
                            == pre.child_surfaces(c)[j] by {
                        assert(pre.child_ok(c, j));
                        self.lemma_detach_view(pre, p, at, c, pre.children(c)[j]);
                    }
                }
                assert(self.surface.children(cs) == pre.surface.children(cs));
                assert(self.surface.parent(cs) is None);
            } else {
                assert(self.child_surfaces(x) =~= pre.child_surfaces(x)) by {
                    assert forall |j: int| 0 <= j < self.children(x).len()
                        implies #[trigger] self.child_surfaces(x)[j]
                            == pre.child_surfaces(x)[j] by {
                        assert(pre.child_ok(x, j));
                        self.lemma_detach_view(pre, p, at, c, pre.children(x)[j]);
                    }
                }
                assert(sx != ps && sx != cs) by {
                    assert(pre.alive(p) && pre.alive(c));
                }
                if pre.surface.children(ps).skip(at).contains(sx) {
                    let k = choose |k: int|
                        0 <= k < pre.surface.children(ps).skip(at).len()
                        && pre.surface.children(ps).skip(at)[k] == sx;
                    assert(pre.surface.children(ps)[at + k] == sx);
                    assert(pre.child_surfaces(p)[at + k] == sx);
                    assert(pre.child_ok(p, at + k));
                    let y = kids[at + k];
                    assert(pre.surface_of(y) == sx);
                    assert(y == x) by {
                        if y != x {
                            assert(pre.alive(y) && pre.alive(x));
                        }
                    }
                    assert(k > 0);
                    assert(self.surface.slot_view(sx)
                        == (SlotView {
                            pos: at + k - 1,
                            ..pre.surface.slot_view(sx)
                        }));
                } else {
                    assert(self.surface.slot_view(sx) == pre.surface.slot_view(sx));
                }
                match pre.owner_of(x) {
                    Owner::Parent(o) => {
                        self.lemma_detach_view(pre, p, at, c, o);
                        assert(self.surface_of(o) == pre.surface_of(o));
                        assert(pre.surface.parent(sx) == Some(pre.surface_of(o)));
                        assert(self.surface.slot_view(sx).parent
                            == pre.surface.slot_view(sx).parent);
                    },
                    _ => {},
                }
            }
        }
        // root anchor
        assert forall |j: int| 0 <= j < self.root_view().len()
            implies #[trigger] self.root_entry_ok(j) by {
            assert(pre.root_entry_ok(j));
            let x = pre.root_view()[j];
            self.lemma_detach_view(pre, p, at, c, x);
            assert(x != c) by {
                if x == c {
                    assert(pre.owner_of(c) == Owner::Root);
                }
            }
        }
        assert forall |a: int, b: int| 0 <= a < b < self.root_view().len()
            implies (#[trigger] self.root_view()[a]) != (#[trigger] self.root_view()[b]) by {
            assert(pre.root_view()[a] != pre.root_view()[b]);
        }
        assert(self.surface_view().alive(self.body_view())) by {
            assert(self.surface.slot_view(self.body).alive
                == pre.surface.slot_view(self.body).alive);
        }
        assert forall |x: El| #[trigger] self.alive(x)
            implies self.surface_of(x) != self.body_view() by {
            self.lemma_detach_view(pre, p, at, c, x);
            assert(pre.alive(x));
            assert(pre.surface_of(x) != pre.body_view());
        }
    }

    /// Detach the child of `p` at position `at`, removing its surface
    /// element from the surface parent in the same step; later siblings and
    /// their recorded positions move one place to the left. The detached
    /// node stays live, with no owner and position zero.
    pub(crate) fn detach_at(&mut self, p: El, at: usize) -> (c: El)
        requires
            old(self).wf(),
            old(self).alive(p),
            at < old(self).children(p).len(),
        ensures
            final(self).wf(),
            c == old(self).children(p)[at as int],
            final(self).alive(c),
            final(self).node_count() == old(self).node_count(),
            final(self).node_view(p) == (NodeView {
                children: old(self).children(p).remove(at as int),
                ..old(self).node_view(p)
            }),
            final(self).node_view(c) == (NodeView {
                owner: Owner::Detached,
                sib: 0,
                ..old(self).node_view(c)
            }),
            forall |j: int| at < j < old(self).children(p).len()
                ==> final(self).node_view(#[trigger] old(self).children(p)[j])
                    == (NodeView {
                        sib: j - 1,
                        ..old(self).node_view(old(self).children(p)[j])
                    }),
            forall |x: El| old(self).valid(x) && x != p
                && !old(self).children(p).skip(at as int).contains(x)
                ==> #[trigger] final(self).node_view(x) == old(self).node_view(x),
            forall |x: El| old(self).valid(x)
                ==> #[trigger] final(self).chain(x)
                    == (if x == c || old(self).chain(x).contains(c.spec_raw()) {
                        old(self).chain(x).skip(old(self).chain(c).len() as int)
                    } else {
                        old(self).chain(x)
                    }),
            final(self).surface_view().slot_count() == old(self).surface_view().slot_count(),
            final(self).surface_view().children(old(self).surface_of(p))
                == old(self).surface_view().children(old(self).surface_of(p))
                    .remove(at as int),
            forall |s: SurfaceId| old(self).surface_view().valid(s)
                ==> crate::surface::content_eq(
                    #[trigger] final(self).surface_view().slot_view(s),
                    old(self).surface_view().slot_view(s)),
            forall |s: SurfaceId| old(self).surface_view().valid(s)
                && s != old(self).surface_of(p)
                && !old(self).surface_view().children(old(self).surface_of(p))
                    .skip(at as int).contains(s)
                ==> #[trigger] final(self).surface_view().slot_view(s)
                    == old(self).surface_view().slot_view(s),
            final(self).surface_view().parent(final(self).surface_of(c)) is None,
            final(self).body_view() == old(self).body_view(),
            final(self).root_view() == old(self).root_view(),
            final(self).root_cell_view() == old(self).root_cell_view(),
            final(self).observers_view() == old(self).observers_view(),
            final(self).listeners_view() == old(self).listeners_view(),
            final(self).tasks_view() == old(self).tasks_view(),
    {
        let ghost pre = *old(self);
        let ghost kids = pre.children(p);
        let ghost newkids = kids.remove(at as int);
        proof {
            pre.lemma_kids_facts(p);
            assert(pre.child_ok(p, at as int));
            assert(pre.owner_ok(p));
            assert(pre.surface_ok(p));
            assert(kids.skip(at as int)[0] == kids[at as int]);
        }
        let pi = p.0;
        let c = self.nodes[pi].children.remove(at);
        let ci = c.0;
        proof {
            assert(c == kids[at as int]);
            assert(pre.valid(c));
            assert(c != p);
        }
        self.nodes[ci].owner = Owner::Detached;
        self.nodes[ci].index_in_parent = 0;
        proof {
            assert(self.node_view(p) == (NodeView { children: newkids, ..pre.node_view(p) }));
            assert(self.node_view(c) == (NodeView {
                owner: Owner::Detached,
                sib: 0,
                ..pre.node_view(c)
            }));
            assert forall |x: El| pre.valid(x) && x != p && x != c
                implies #[trigger] self.node_view(x) == pre.node_view(x) by {
                assert(self.nodes@[x.spec_raw()] == pre.nodes@[x.spec_raw()]);
            }
            assert forall |k: int| at <= k < newkids.len()
                implies self.node_view(#[trigger] newkids[k]) == pre.node_view(newkids[k]) by {
                assert(pre.child_ok(p, k + 1));
                assert(newkids[k] == kids[k + 1]);
            }
        }
        let m = self.nodes[pi].children.len();
        let mut j: usize = at;
        while j < m
            invariant
                pre.wf(),
                pre.alive(p),
                at < kids.len(),
                kids == pre.children(p),
                newkids == kids.remove(at as int),
                pi == p.spec_raw(),
                ci == c.spec_raw(),
                c == kids[at as int],
                pre.valid(c),
                c != p,
                m == newkids.len(),
                at <= j <= m,
                self.node_count() == pre.node_count(),
                self.surface == pre.surface,
                self.body == pre.body,
                self.observers == pre.observers,
                self.listeners == pre.listeners,
                self.tasks == pre.tasks,
                self.root_nodes == pre.root_nodes,
                self.root_cell == pre.root_cell,
                self.anc == pre.anc,
                self.node_view(p) == (NodeView { children: newkids, ..pre.node_view(p) }),
                self.node_view(c) == (NodeView {
                    owner: Owner::Detached,
                    sib: 0,
                    ..pre.node_view(c)
                }),
                forall |k: int| at <= k < j
                    ==> self.node_view(#[trigger] newkids[k])
                        == (NodeView { sib: k, ..pre.node_view(newkids[k]) }),
                forall |k: int| j <= k < m
                    ==> self.node_view(#[trigger] newkids[k]) == pre.node_view(newkids[k]),
                forall |x: El| pre.valid(x) && x != p && x != c
                    && !kids.skip(at as int).contains(x)
                    ==> #[trigger] self.node_view(x) == pre.node_view(x),
            decreases m - j,
        {
            proof {
                pre.lemma_kids_facts(p);
                assert(pre.child_ok(p, j + 1));
                assert(newkids[j as int] == kids[j + 1]);
            }
            let ghost it0 = *self;
            let ch = self.nodes[pi].children[j];
            proof {
                assert(ch == kids[j + 1]);
                assert(ch != c);
                assert(ch != p);
                assert(pre.valid(ch));
            }
            self.nodes[ch.0].index_in_parent = j;
            proof {
                assert forall |x: El| pre.valid(x) && x != ch
                    implies #[trigger] self.node_view(x) == it0.node_view(x) by {
                    assert(self.nodes@[x.spec_raw()] == it0.nodes@[x.spec_raw()]);
                }
                assert(it0.node_view(ch) == pre.node_view(ch));
                assert(self.node_view(ch)
                    == (NodeView { sib: j as int, ..pre.node_view(ch) }));
                assert(self.node_view(p) == it0.node_view(p));
                assert(self.node_view(c) == it0.node_view(c));
                assert forall |k: int| at <= k < j + 1
                    implies self.node_view(#[trigger] newkids[k])
                        == (NodeView { sib: k, ..pre.node_view(newkids[k]) }) by {
                    if k < j {
                        assert(newkids[k] == kids[k + 1]);
                        assert(newkids[k] != ch);
                        assert(pre.child_ok(p, k + 1));
                        assert(self.node_view(newkids[k]) == it0.node_view(newkids[k]));
                    }
                }
                assert forall |k: int| j + 1 <= k < m
                    implies self.node_view(#[trigger] newkids[k]) == pre.node_view(newkids[k])
                    by {
                    assert(newkids[k] == kids[k + 1]);
                    assert(newkids[k] != ch);
                    assert(pre.child_ok(p, k + 1));
                    assert(self.node_view(newkids[k]) == it0.node_view(newkids[k]));
                }
                assert forall |x: El| pre.valid(x) && x != p && x != c
                    && !kids.skip(at as int).contains(x)
                    implies #[trigger] self.node_view(x) == pre.node_view(x) by {
                    assert(kids.skip(at as int)[j + 1 - (at as int)] == ch);
                    assert(x != ch);
                    assert(self.node_view(x) == it0.node_view(x));
                }
            }
            j = j + 1;
        }
        let ghost mid = *self;
        let ps = self.nodes[pi].surface;
        proof {
            assert(ps == pre.surface_of(p));
            assert(pre.surface.children(ps) == pre.child_surfaces(p));
            assert(pre.surface.children(ps).len() == kids.len());
            assert(pre.child_surfaces(p)[at as int] == pre.surface_of(c));
        }
        let cs = self.surface.remove_at(ps, at);
        proof {
            assert(cs == pre.surface_of(c));
            self.anc@ = Map::new(
                |i: int| true,
                |i: int| if i == c.spec_raw() || pre.anc@[i].contains(c.spec_raw()) {
                    pre.anc@[i].skip(pre.chain(c).len() as int)
                } else {
                    pre.anc@[i]
                },
            );
            assert forall |x: El| pre.valid(x)
                implies #[trigger] self.node_view(x) == mid.node_view(x) by {
                assert(self.nodes@[x.spec_raw()] == mid.nodes@[x.spec_raw()]);
            }
            assert forall |x: El| pre.valid(x)
                implies #[trigger] self.chain(x)
                    == (if x == c || pre.chain(x).contains(c.spec_raw()) {
                        pre.chain(x).skip(pre.chain(c).len() as int)
                    } else {
                        pre.chain(x)
                    }) by {
                if x != c && x.spec_raw() == c.spec_raw() {
                    assert(x == c);
                }
            }
            assert(self.children(p) =~= newkids);
            assert forall |jj: int| at < jj < kids.len()
                implies self.node_view(#[trigger] kids[jj])
                    == (NodeView { sib: jj - 1, ..pre.node_view(kids[jj]) }) by {
                assert(newkids[jj - 1] == kids[jj]);
                assert(mid.node_view(kids[jj])
                    == (NodeView { sib: jj - 1, ..pre.node_view(kids[jj]) }));
            }
            assert(self.node_view(p) == (NodeView { children: newkids, ..pre.node_view(p) }));
            assert(self.node_view(c) == (NodeView {
                owner: Owner::Detached,
                sib: 0,
                ..pre.node_view(c)
            }));
            assert forall |x: El| pre.valid(x) && x != p
                && !kids.skip(at as int).contains(x)
                implies #[trigger] self.node_view(x) == pre.node_view(x) by {
                assert(x != c) by {
                    assert(kids.skip(at as int)[0] == c);
                }
                assert(mid.node_view(x) == pre.node_view(x));
            }
            assert(self.detach_rel(pre, p, at as int, c));
            self.lemma_detach_wf(pre, p, at as int, c);
        }
        c
    }

    /// A change that touches only the contents (tag, text, attributes,
    /// classes) of surface slots preserves the tree invariant.
    proof fn lemma_surface_content_wf(&self, pre: Tree)
        requires
            pre.wf(),
            self.nodes == pre.nodes,
            self.anc == pre.anc,
            self.root_nodes == pre.root_nodes,
            self.body == pre.body,
            self.surface.wf(),
            self.surface.slot_count() == pre.surface.slot_count(),
            forall |s: SurfaceId| pre.surface_view().valid(s)
                ==> (#[trigger] self.surface.slot_view(s)).alive
                        == pre.surface.slot_view(s).alive
                    && self.surface.slot_view(s).children
                        == pre.surface.slot_view(s).children
                    && self.surface.slot_view(s).parent
                        == pre.surface.slot_view(s).parent,
        ensures
            self.wf(),
    {
        assert forall |x: El| pre.valid(x)
            implies #[trigger] self.node_view(x) == pre.node_view(x)
                && self.chain(x) == pre.chain(x) by {
            assert(self.nodes@[x.spec_raw()] == pre.nodes@[x.spec_raw()]);
        }
        assert forall |x: El| #[trigger] self.alive(x) implies self.owner_ok(x) by {
            assert(pre.alive(x));
            assert(pre.owner_ok(x));
        }
        assert forall |p: El, j: int| self.alive(p) && 0 <= j < self.children(p).len()
            implies #[trigger] self.child_ok(p, j) by {
            assert(pre.alive(p));
            assert(pre.child_ok(p, j));
        }
        assert forall |p: El, j: int| self.alive(p) && 0 <= j < self.stash_of(p).len()
            implies #[trigger] self.stash_entry_ok(p, j) by {
            assert(pre.alive(p));
            assert(pre.stash_entry_ok(p, j));
        }
        assert forall |p: El, a: int, b: int|
            self.alive(p) && 0 <= a < b < self.stash_of(p).len()
            implies (#[trigger] self.stash_of(p)[a]) != (#[trigger] self.stash_of(p)[b]) by {
            assert(pre.alive(p));
            assert(pre.stash_of(p) == self.stash_of(p));
        }
        assert forall |x: El| #[trigger] self.alive(x) implies self.surface_ok(x) by {
            assert(pre.alive(x));
            assert(pre.surface_ok(x));
            assert(self.child_surfaces(x) =~= pre.child_surfaces(x)) by {
                assert forall |j: int| 0 <= j < self.children(x).len()
                    implies #[trigger] self.child_surfaces(x)[j]
                        == pre.child_surfaces(x)[j] by {
                    assert(pre.child_ok(x, j));
                }
            }
        }
        assert forall |a: El, b: El| self.alive(a) && self.alive(b) && a != b
            implies (#[trigger] self.surface_of(a)) != (#[trigger] self.surface_of(b)) by {
            assert(pre.alive(a) && pre.alive(b));
        }
        assert forall |j: int| 0 <= j < self.root_view().len()
            implies #[trigger] self.root_entry_ok(j) by {
            assert(pre.root_entry_ok(j));
        }
        assert forall |x: El| #[trigger] self.alive(x)
            implies self.surface_of(x) != self.body_view() by {
            assert(pre.alive(x));
            assert(pre.surface_of(x) != pre.body_view());
        }
    }

    /// A change that touches only one live node's resource cells preserves
    /// the tree invariant: nothing in it constrains the cells.
    proof fn lemma_cells_wf(&self, pre: Tree, e: El)
        requires
            pre.wf(),
            pre.alive(e),
            self.node_count() == pre.node_count(),
            self.surface == pre.surface,
            self.anc == pre.anc,
            self.root_nodes == pre.root_nodes,
            self.body == pre.body,
            forall |x: El| pre.valid(x) && x != e
                ==> #[trigger] self.node_view(x) == pre.node_view(x),
            self.node_view(e) == (NodeView {
                cells: self.node_view(e).cells,
                ..pre.node_view(e)
            }),
        ensures
            self.wf(),
    {
        assert forall |x: El| pre.valid(x)
            implies #[trigger] self.chain(x) == pre.chain(x) by {}
        assert forall |x: El| #[trigger] self.alive(x) implies self.owner_ok(x) by {
            assert(pre.alive(x)) by {
                if x != e {
                    assert(self.node_view(x) == pre.node_view(x));
                }
            }
            assert(pre.owner_ok(x));
            match pre.owner_of(x) {
                Owner::Parent(o) => {
                    if o != e {
                        assert(self.node_view(o) == pre.node_view(o));
                    }
                },
                Owner::Stash(o) => {
                    if o != e {
                        assert(self.node_view(o) == pre.node_view(o));
                    }
                },
                _ => {},
            }
        }
        assert forall |p: El, j: int| self.alive(p) && 0 <= j < self.children(p).len()
            implies #[trigger] self.child_ok(p, j) by {
            assert(pre.alive(p)) by {
                if p != e {
                    assert(self.node_view(p) == pre.node_view(p));
                }
            }
            assert(pre.child_ok(p, j));
            let d = pre.children(p)[j];
            if d != e {
                assert(self.node_view(d) == pre.node_view(d));
            }
        }
        assert forall |p: El, j: int| self.alive(p) && 0 <= j < self.stash_of(p).len()
            implies #[trigger] self.stash_entry_ok(p, j) by {
            assert(pre.alive(p)) by {
                if p != e {
                    assert(self.node_view(p) == pre.node_view(p));
                }
            }
            assert(pre.stash_entry_ok(p, j));
            let d = pre.stash_of(p)[j];
            if d != e {
                assert(self.node_view(d) == pre.node_view(d));
            }
        }
        assert forall |p: El, a: int, b: int|
            self.alive(p) && 0 <= a < b < self.stash_of(p).len()
            implies (#[trigger] self.stash_of(p)[a]) != (#[trigger] self.stash_of(p)[b]) by {
            assert(pre.alive(p)) by {
                if p != e {
                    assert(self.node_view(p) == pre.node_view(p));
                }
            }
            assert(self.stash_of(p) == pre.stash_of(p));
        }
        assert forall |x: El| #[trigger] self.alive(x) implies self.surface_ok(x) by {
            assert(pre.alive(x)) by {
                if x != e {
                    assert(self.node_view(x) == pre.node_view(x));
                }
            }
            assert(pre.surface_ok(x));
            assert(self.child_surfaces(x) =~= pre.child_surfaces(x)) by {
                assert forall |j: int| 0 <= j < self.children(x).len()
                    implies #[trigger] self.child_surfaces(x)[j]
                        == pre.child_surfaces(x)[j] by {
                    assert(pre.child_ok(x, j));
                    let d = pre.children(x)[j];
                    if d != e {
                        assert(self.node_view(d) == pre.node_view(d));
                    }
                }
            }
            match pre.owner_of(x) {
                Owner::Parent(o) => {
                    if o != e {
                        assert(self.node_view(o) == pre.node_view(o));
                    }
                },
                _ => {},
            }
        }
        assert forall |a: El, b: El| self.alive(a) && self.alive(b) && a != b
            implies (#[trigger] self.surface_of(a)) != (#[trigger] self.surface_of(b)) by {
            assert(pre.alive(a)) by {
                if a != e {
                    assert(self.node_view(a) == pre.node_view(a));
                }
            }
            assert(pre.alive(b)) by {
                if b != e {
                    assert(self.node_view(b) == pre.node_view(b));
                }
            }
            assert(self.surface_of(a) == pre.surface_of(a));
            assert(self.surface_of(b) == pre.surface_of(b));
        }
        assert forall |j: int| 0 <= j < self.root_view().len()
            implies #[trigger] self.root_entry_ok(j) by {
            assert(pre.root_entry_ok(j));
            let d = pre.root_view()[j];
            if d != e {
                assert(self.node_view(d) == pre.node_view(d));
            }
        }
        assert forall |x: El| #[trigger] self.alive(x)
            implies self.surface_of(x) != self.body_view() by {
            assert(pre.alive(x)) by {
                if x != e {
                    assert(self.node_view(x) == pre.node_view(x));
                }
            }
            assert(self.node_view(x).surface == pre.node_view(x).surface) by {
                if x != e {
                    assert(self.node_view(x) == pre.node_view(x));
                }
            }
            assert(pre.surface_of(x) != pre.body_view());
        }
    }

    /// Facts about a live node's child list that follow from the
    /// invariant: entries are distinct, live, never the parent itself, and
    /// each satisfies `child_ok`.
    pub(crate) proof fn lemma_kids_facts(self, p: El)
        requires
            self.wf(),
            self.alive(p),
        ensures
            forall |j: int| 0 <= j < self.children(p).len()
                ==> #[trigger] self.child_ok(p, j),
            forall |a: int, b: int| 0 <= a < b < self.children(p).len()
                ==> (#[trigger] self.children(p)[a]) != (#[trigger] self.children(p)[b]),
            forall |a: int| 0 <= a < self.children(p).len()
                ==> (#[trigger] self.children(p)[a]) != p,
    {
        assert forall |j: int| 0 <= j < self.children(p).len()
            implies #[trigger] self.child_ok(p, j) by {}
        assert forall |a: int, b: int| 0 <= a < b < self.children(p).len()
            implies (#[trigger] self.children(p)[a]) != (#[trigger] self.children(p)[b]) by {
            assert(self.child_ok(p, a));
            assert(self.child_ok(p, b));
        }
        assert forall |a: int| 0 <= a < self.children(p).len()
            implies (#[trigger] self.children(p)[a]) != p by {
            assert(self.child_ok(p, a));
            if self.children(p)[a] == p {
                assert(self.owner_of(p) == Owner::Parent(p));
                assert(self.owner_ok(p));
                assert(self.chain(p) == self.chain(p).push(p.spec_raw()));
                assert(self.chain(p).len() == self.chain(p).len() + 1);
            }
        }
    }

    /// A detached node is listed nowhere: not as a child, not in a stash,
    /// not in the root anchor.
    pub(crate) proof fn lemma_detached_unlisted(self, c: El)
        requires
            self.wf(),
            self.alive(c),
            self.is_detached(c),
        ensures
            forall |p: El, j: int| self.alive(p) && 0 <= j < self.children(p).len()
                ==> (#[trigger] self.children(p)[j]) != c,
            forall |p: El, j: int| self.alive(p) && 0 <= j < self.stash_of(p).len()
                ==> (#[trigger] self.stash_of(p)[j]) != c,
            forall |j: int| 0 <= j < self.root_view().len()
                ==> (#[trigger] self.root_view()[j]) != c,
    {
        assert forall |p: El, j: int| self.alive(p) && 0 <= j < self.children(p).len()
            implies (#[trigger] self.children(p)[j]) != c by {
            assert(self.child_ok(p, j));
        }
        assert forall |p: El, j: int| self.alive(p) && 0 <= j < self.stash_of(p).len()
            implies (#[trigger] self.stash_of(p)[j]) != c by {
            assert(self.stash_entry_ok(p, j));
        }
        assert forall |j: int| 0 <= j < self.root_view().len()
            implies (#[trigger] self.root_view()[j]) != c by {
            assert(self.root_entry_ok(j));
        }
    }

    /// Attach the detached node `c` as a child of `p` at position `at`,
    /// inserting its surface element at the same position; later siblings
    /// and their recorded positions move one place to the right.
    pub(crate) fn attach_at(&mut self, p: El, at: usize, c: El)
        requires
            old(self).wf(),
            old(self).alive(p),
            old(self).alive(c),
            old(self).is_detached(c),
            !old(self).in_subtree(c, p),
            at <= old(self).children(p).len(),
        ensures
            final(self).wf(),
            final(self).node_count() == old(self).node_count(),
            final(self).node_view(p) == (NodeView {
                children: old(self).children(p).insert(at as int, c),
                ..old(self).node_view(p)
            }),
            final(self).node_view(c) == (NodeView {
                owner: Owner::Parent(p),
                sib: at as int,
                ..old(self).node_view(c)
            }),
            forall |j: int| at <= j < old(self).children(p).len()
                ==> final(self).node_view(#[trigger] old(self).children(p)[j])
                    == (NodeView {
                        sib: j + 1,
                        ..old(self).node_view(old(self).children(p)[j])
                    }),
            forall |x: El| old(self).valid(x) && x != p && x != c
                && !old(self).children(p).skip(at as int).contains(x)
                ==> #[trigger] final(self).node_view(x) == old(self).node_view(x),
            forall |x: El| old(self).valid(x)
                ==> #[trigger] final(self).chain(x)
                    == (if x == c || old(self).chain(x).contains(c.spec_raw()) {
                        old(self).chain(p).push(p.spec_raw()) + old(self).chain(x)
                    } else {
                        old(self).chain(x)
                    }),
            final(self).surface_view().slot_count() == old(self).surface_view().slot_count(),
            final(self).surface_view().children(old(self).surface_of(p))
                == old(self).surface_view().children(old(self).surface_of(p))
                    .insert(at as int, old(self).surface_of(c)),
            forall |s: SurfaceId| old(self).surface_view().valid(s)
                ==> crate::surface::content_eq(
                    #[trigger] final(self).surface_view().slot_view(s),
                    old(self).surface_view().slot_view(s)),
            forall |s: SurfaceId| old(self).surface_view().valid(s)
                && s != old(self).surface_of(p) && s != old(self).surface_of(c)
                && !old(self).surface_view().children(old(self).surface_of(p))
                    .skip(at as int).contains(s)
                ==> #[trigger] final(self).surface_view().slot_view(s)
                    == old(self).surface_view().slot_view(s),
            final(self).body_view() == old(self).body_view(),
            final(self).root_view() == old(self).root_view(),
            final(self).root_cell_view() == old(self).root_cell_view(),
            final(self).observers_view() == old(self).observers_view(),
            final(self).listeners_view() == old(self).listeners_view(),
            final(self).tasks_view() == old(self).tasks_view(),
    {
        let ghost pre = *old(self);
        let ghost kids = pre.children(p);
        let ghost newkids = kids.insert(at as int, c);
        proof {
            pre.lemma_kids_facts(p);
            pre.lemma_detached_unlisted(c);
            assert(pre.owner_ok(c));
            assert(pre.owner_ok(p));
            assert(pre.surface_ok(p));
            assert(pre.surface_ok(c));
        }
        let pi = p.0;
        let ci = c.0;
        self.nodes[pi].children.insert(at, c);
        self.nodes[ci].owner = Owner::Parent(p);
        self.nodes[ci].index_in_parent = at;
        proof {
            assert(self.node_view(p) == (NodeView { children: newkids, ..pre.node_view(p) }));
            assert(self.node_view(c) == (NodeView {
                owner: Owner::Parent(p),
                sib: at as int,
                ..pre.node_view(c)
            }));
            assert forall |x: El| pre.valid(x) && x != p && x != c
                implies #[trigger] self.node_view(x) == pre.node_view(x) by {
                assert(self.nodes@[x.spec_raw()] == pre.nodes@[x.spec_raw()]);
            }
            assert forall |k: int| at + 1 <= k < newkids.len()
                implies self.node_view(#[trigger] newkids[k]) == pre.node_view(newkids[k]) by {
                assert(pre.child_ok(p, k - 1));
                assert(newkids[k] == kids[k - 1]);
            }
        }
        let n = self.nodes[pi].children.len();
        let mut j: usize = at + 1;
        while j < n
            invariant
                pre.wf(),
                pre.alive(p),
                pre.alive(c),
                pre.is_detached(c),
                at <= kids.len(),
                kids == pre.children(p),
                newkids == kids.insert(at as int, c),
                pi == p.spec_raw(),
                ci == c.spec_raw(),
                n == kids.len() + 1,
                at + 1 <= j <= n,
                self.node_count() == pre.node_count(),
                self.surface == pre.surface,
                self.body == pre.body,
                self.observers == pre.observers,
                self.listeners == pre.listeners,
                self.tasks == pre.tasks,
                self.root_nodes == pre.root_nodes,
                self.root_cell == pre.root_cell,
                self.anc == pre.anc,
                self.node_view(p) == (NodeView { children: newkids, ..pre.node_view(p) }),
                self.node_view(c) == (NodeView {
                    owner: Owner::Parent(p),
                    sib: at as int,
                    ..pre.node_view(c)
                }),
                forall |k: int| at < k < j
                    ==> self.node_view(#[trigger] newkids[k])
                        == (NodeView { sib: k, ..pre.node_view(newkids[k]) }),
                forall |k: int| j <= k < n
                    ==> self.node_view(#[trigger] newkids[k]) == pre.node_view(newkids[k]),
                forall |x: El| pre.valid(x) && x != p && x != c
                    && !kids.skip(at as int).contains(x)
                    ==> #[trigger] self.node_view(x) == pre.node_view(x),
            decreases n - j,
        {
            proof {
                pre.lemma_kids_facts(p);
                pre.lemma_detached_unlisted(c);
                assert(pre.child_ok(p, j - 1));
                assert(newkids[j as int] == kids[j - 1]);
            }
            let ghost it0 = *self;
            let ch = self.nodes[pi].children[j];
            proof {
                assert(ch == kids[j - 1]);
                assert(ch != c);
                assert(ch != p);
                assert(pre.valid(ch));
            }
            self.nodes[ch.0].index_in_parent = j;
            proof {
                assert forall |x: El| pre.valid(x) && x != ch
                    implies #[trigger] self.node_view(x) == it0.node_view(x) by {
                    assert(self.nodes@[x.spec_raw()] == it0.nodes@[x.spec_raw()]);
                }
                assert(it0.node_view(ch) == pre.node_view(ch));
                assert(self.node_view(ch)
                    == (NodeView { sib: j as int, ..pre.node_view(ch) }));
                assert(self.node_view(p) == it0.node_view(p));
                assert(self.node_view(c) == it0.node_view(c));
                assert forall |k: int| at < k < j + 1
                    implies self.node_view(#[trigger] newkids[k])
                        == (NodeView { sib: k, ..pre.node_view(newkids[k]) }) by {
                    if k < j {
                        assert(newkids[k] == kids[k - 1]);
                        assert(newkids[k] != ch);
                        assert(pre.child_ok(p, k - 1));
                        assert(self.node_view(newkids[k]) == it0.node_view(newkids[k]));
                    }
                }
                assert forall |k: int| j + 1 <= k < n
                    implies self.node_view(#[trigger] newkids[k]) == pre.node_view(newkids[k])
                    by {
                    assert(newkids[k] == kids[k - 1]);
                    assert(newkids[k] != ch);
                    assert(pre.child_ok(p, k - 1));
                    assert(self.node_view(newkids[k]) == it0.node_view(newkids[k]));
                }
                assert forall |x: El| pre.valid(x) && x != p && x != c
                    && !kids.skip(at as int).contains(x)
                    implies #[trigger] self.node_view(x) == pre.node_view(x) by {
                    assert(kids.skip(at as int)[j - 1 - (at as int)] == ch);
                    assert(x != ch);
                    assert(self.node_view(x) == it0.node_view(x));
                }
            }
            j = j + 1;
        }
        let ghost mid = *self;
        let ps = self.nodes[pi].surface;
        let cs = self.nodes[ci].surface;
        proof {
            assert(ps == pre.surface_of(p));
            assert(cs == pre.surface_of(c));
            assert(cs != ps) by {
                assert(p != c);
            }
            assert(pre.surface_view().children(ps).len() == kids.len()) by {
                assert(pre.surface_ok(p));
            }
            assert(pre.surface_view().parent(cs) is None) by {
                assert(pre.surface_ok(c));
            }
        }
        self.surface.insert_at(ps, at, cs);
        proof {
            let ghost pfx = pre.chain(p).push(p.spec_raw());
            self.anc@ = Map::new(
                |i: int| true,
                |i: int| if i == c.spec_raw() || pre.anc@[i].contains(c.spec_raw()) {
                    pfx + pre.anc@[i]
                } else {
                    pre.anc@[i]
                },
            );
            assert forall |x: El| pre.valid(x)
                implies #[trigger] self.node_view(x) == mid.node_view(x) by {
                assert(self.nodes@[x.spec_raw()] == mid.nodes@[x.spec_raw()]);
            }
            assert forall |x: El| pre.valid(x)
                implies #[trigger] self.chain(x)
                    == (if x == c || pre.chain(x).contains(c.spec_raw()) {
                        pfx + pre.chain(x)
                    } else {
                        pre.chain(x)
                    }) by {
                if x != c && x.spec_raw() == c.spec_raw() {
                    assert(x == c);
                }
            }
            assert(self.children(p) =~= newkids);
            assert forall |jj: int| at <= jj < kids.len()
                implies self.node_view(#[trigger] kids[jj])
                    == (NodeView { sib: jj + 1, ..pre.node_view(kids[jj]) }) by {
                assert(newkids[jj + 1] == kids[jj]);
                assert(mid.node_view(kids[jj])
                    == (NodeView { sib: jj + 1, ..pre.node_view(kids[jj]) }));
            }
            assert(self.node_view(p) == (NodeView { children: newkids, ..pre.node_view(p) }));
            assert(self.node_view(c) == (NodeView {
                owner: Owner::Parent(p),
                sib: at as int,
                ..pre.node_view(c)
            }));
            assert forall |x: El| pre.valid(x) && x != p && x != c
                && !kids.skip(at as int).contains(x)
                implies #[trigger] self.node_view(x) == pre.node_view(x) by {
                assert(mid.node_view(x) == pre.node_view(x));
            }
            assert(self.attach_rel(pre, p, at as int, c));
            self.lemma_attach_wf(pre, p, at as int, c);
        }
    }

    /// The body element of the surface.
    pub fn body(&self) -> (r: SurfaceId)
        ensures
            r == self.body_view(),
    {
        self.body
    }

    /// Read access to the surface model.
    pub fn surface(&self) -> (r: &Surface)
        ensures
            *r == self.surface_view(),
    {
        &self.surface
    }

    /// Mirror a pre-existing document element into the surface model,
    /// without wrapping it in a node: either free-standing, or as the last
    /// child of an unwrapped live element such as the body. This is how an
    /// embedder seeds the model with content that existed before the tree
    /// took over; the element can then be wrapped with `el_from_raw` or
    /// replaced with `set_root_replace`.
    pub fn seed_surface(&mut self, parent: Option<SurfaceId>, tag: &str) -> (s: SurfaceId)
        requires
            old(self).wf(),
            match parent {
                Some(q) => old(self).surface_view().alive(q) && old(self).unwrapped(q),
                None => true,
            },
        ensures
            final(self).wf(),
            s.spec_raw() == old(self).surface_view().slot_count(),
            final(self).surface_view().slot_count()
                == old(self).surface_view().slot_count() + 1,
            final(self).unwrapped(s),
            final(self).surface_view().slot_view(s) == (SlotView {
                alive: true,
                tag: tag@,
                text: None,
                attrs: Seq::empty(),
                classes: Seq::empty(),
                children: Seq::empty(),
                parent,
                pos: match parent {
                    Some(q) => old(self).surface_view().children(q).len() as int,
                    None => 0,
                },
            }),
            match parent {
                Some(q) => final(self).surface_view().children(q)
                    == old(self).surface_view().children(q).push(s),
                None => true,
            },
            forall |u: SurfaceId| old(self).surface_view().valid(u)
                && Some(u) != parent
                ==> #[trigger] final(self).surface_view().slot_view(u)
                    == old(self).surface_view().slot_view(u),
            final(self).node_count() == old(self).node_count(),
            forall |x: El| old(self).valid(x)
                ==> #[trigger] final(self).node_view(x) == old(self).node_view(x),
            forall |x: El| old(self).valid(x)
                ==> #[trigger] final(self).chain(x) == old(self).chain(x),
            final(self).body_view() == old(self).body_view(),
            final(self).root_view() == old(self).root_view(),
            final(self).root_cell_view() == old(self).root_cell_view(),
            final(self).observers_view() == old(self).observers_view(),
            final(self).listeners_view() == old(self).listeners_view(),
            final(self).tasks_view() == old(self).tasks_view(),
    {
        let ghost pre = *old(self);
        let s = self.surface.create(tag);
        let ghost mid = *self;
        proof {
            assert forall |x: El| pre.alive(x)
                implies pre.surface_view().valid(#[trigger] pre.surface_of(x)) by {
                assert(pre.surface_ok(x));
            }
            assert forall |x: El| pre.alive(x)
                implies (#[trigger] mid.surface.slot_view(pre.surface_of(x))).alive
                        == pre.surface_view().slot_view(pre.surface_of(x)).alive
                    && mid.surface.slot_view(pre.surface_of(x)).children
                        == pre.surface_view().slot_view(pre.surface_of(x)).children
                    && mid.surface.slot_view(pre.surface_of(x)).parent
                        == pre.surface_view().slot_view(pre.surface_of(x)).parent by {
                assert(pre.surface_ok(x));
            }
            assert(mid.surface_view().slot_view(pre.body_view()).alive) by {
                assert(mid.surface.slot_view(pre.body_view())
                    == pre.surface_view().slot_view(pre.body_view()));
            }
            mid.lemma_offstage_surface_wf(pre);
        }
        match parent {
            Some(q) => {
                let at = self.surface.child_count(q);
                proof {
                    assert(mid.surface_view().alive(q)) by {
                        assert(mid.surface.slot_view(q)
                            == pre.surface_view().slot_view(q));
                    }
                    assert(mid.surface_view().alive(s));
                    assert(mid.surface_view().parent(s) is None);
                    assert(s != q);
                }
                self.surface.insert_at(q, at, s);
                proof {
                    let ghost fin = *self;
                    assert(mid.surface_view().children(q).skip(at as int).len() == 0);
                    assert forall |x: El| mid.alive(x)
                        implies (#[trigger] fin.surface.slot_view(mid.surface_of(x)))
                            == mid.surface_view().slot_view(mid.surface_of(x)) by {
                        let sx = mid.surface_of(x);
                        assert(pre.alive(x));
                        assert(sx == pre.surface_of(x));
                        assert(sx != q) by {
                            assert(pre.surface_of(x) != q);
                        }
                        assert(sx != s) by {
                            assert(pre.surface_view().valid(sx)) by {
                                assert(pre.surface_ok(x));
                            }
                        }
                        assert(!mid.surface_view().children(q).skip(at as int)
                            .contains(sx));
                    }
                    assert(fin.surface_view().slot_view(mid.body_view()).alive) by {
                        if mid.body_view() == q {
                        } else if mid.body_view() == s {
                        } else {
                            assert(fin.surface.slot_view(mid.body_view())
                                == mid.surface_view().slot_view(mid.body_view()));
                        }
                    }
                    fin.lemma_offstage_surface_wf(mid);
                    assert(fin.unwrapped(s)) by {
                        assert forall |x: El| #[trigger] fin.alive(x)
                            implies fin.surface_of(x) != s by {
                            assert(pre.alive(x));
                            assert(fin.surface_of(x) == pre.surface_of(x));
                            assert(pre.surface_view().valid(pre.surface_of(x))) by {
                                assert(pre.surface_ok(x));
                            }
                        }
                    }
                    assert(fin.surface_view().slot_view(s) == (SlotView {
                        parent: Some(q),
                        pos: at as int,
                        ..mid.surface_view().slot_view(s)
                    }));
                }
            },
            None => {
                proof {
                    assert(final(self).unwrapped(s)) by {
                        assert forall |x: El| #[trigger] final(self).alive(x)
                            implies final(self).surface_of(x) != s by {
                            assert(pre.alive(x));
                            assert(final(self).surface_of(x) == pre.surface_of(x));
                            assert(pre.surface_view().valid(pre.surface_of(x))) by {
                                assert(pre.surface_ok(x));
                            }
                        }
                    }
                }
            },
        }
        s
    }

    /// Set an attribute on a seeded (or any live) surface element directly,
    /// for mirroring pre-existing document attributes such as an id.
    pub fn seed_attr(&mut self, s: SurfaceId, key: &str, value: &str)
        requires
            old(self).wf(),
            old(self).surface_view().alive(s),
        ensures
            final(self).wf(),
            final(self).surface_view().attr(s, key@) == Some(value@),
            forall |q: Seq<char>| q != key@
                ==> #[trigger] final(self).surface_view().attr(s, q)
                    == old(self).surface_view().attr(s, q),
            final(self).surface_view().slot_count()
                == old(self).surface_view().slot_count(),
            forall |u: SurfaceId| old(self).surface_view().valid(u) && u != s
                ==> #[trigger] final(self).surface_view().slot_view(u)
                    == old(self).surface_view().slot_view(u),
            final(self).surface_view().slot_view(s) == (SlotView {
                attrs: final(self).surface_view().slot_view(s).attrs,
                ..old(self).surface_view().slot_view(s)
            }),
            final(self).node_count() == old(self).node_count(),
            forall |x: El| old(self).valid(x)
                ==> #[trigger] final(self).node_view(x) == old(self).node_view(x),
            forall |x: El| old(self).valid(x)
                ==> #[trigger] final(self).chain(x) == old(self).chain(x),
            final(self).body_view() == old(self).body_view(),
            final(self).root_view() == old(self).root_view(),
            final(self).root_cell_view() == old(self).root_cell_view(),
            final(self).observers_view() == old(self).observers_view(),
            final(self).listeners_view() == old(self).listeners_view(),
            final(self).tasks_view() == old(self).tasks_view(),
    {
        let ghost pre = *old(self);
        self.surface.set_attr(s, key, value);
        proof {
            self.lemma_surface_content_wf(pre);
            assert forall |x: El| pre.valid(x)
                implies #[trigger] self.node_view(x) == pre.node_view(x)
                    && self.chain(x) == pre.chain(x) by {
                assert(self.nodes@[x.spec_raw()] == pre.nodes@[x.spec_raw()]);
            }
        }
    }
}

/// The registry record of one shared subscription, as specifications see
/// it.
pub struct ObserverView {
    pub alive: bool,
    pub targets: Seq<SurfaceId>,
}

impl Tree {
    /// One step of the removal phase of a splice: detaching the child at
    /// `offset` once `kk` children have already been detached there
    /// restores the phase invariant with `kk + 1`.
    #[verifier::rlimit(100)]
    proof fn lemma_splice_detach_step(pre: Tree, cur: Tree, post: Tree, e: El, offset: int,
        kk: int, c: El)
        requires
            pre.wf(),
            pre.alive(e),
            0 <= offset,
            0 <= kk,
            offset + kk < pre.children(e).len(),
            cur.wf(),
            cur.alive(e),
            cur.node_count() == pre.node_count(),
            cur.children(e) == pre.children(e).take(offset)
                + pre.children(e).skip(offset + kk),
            cur.node_view(e) == (NodeView {
                children: cur.children(e),
                ..pre.node_view(e)
            }),
            forall |i: int| 0 <= i < kk
                ==> cur.node_view(#[trigger] pre.children(e)[offset + i]) == (NodeView {
                    owner: Owner::Detached,
                    sib: 0,
                    ..pre.node_view(pre.children(e)[offset + i])
                }),
            forall |j: int| offset + kk <= j < pre.children(e).len()
                ==> cur.node_view(#[trigger] pre.children(e)[j]) == (NodeView {
                    sib: j - kk,
                    ..pre.node_view(pre.children(e)[j])
                }),
            forall |x: El| pre.valid(x) && x != e
                && !pre.children(e).skip(offset).contains(x)
                ==> #[trigger] cur.node_view(x) == pre.node_view(x),
            cur.chain(e) == pre.chain(e),
            forall |s: SurfaceId| pre.surface_view().valid(s)
                ==> crate::surface::content_eq(
                    #[trigger] cur.surface_view().slot_view(s),
                    pre.surface_view().slot_view(s)),
            cur.surface_view().slot_count() == pre.surface_view().slot_count(),
            // what the detach call guaranteed
            c == cur.children(e)[offset],
            post.wf(),
            post.node_count() == cur.node_count(),
            post.node_view(e) == (NodeView {
                children: cur.children(e).remove(offset),
                ..cur.node_view(e)
            }),
            post.node_view(c) == (NodeView {
                owner: Owner::Detached,
                sib: 0,
                ..cur.node_view(c)
            }),
            forall |j: int| offset < j < cur.children(e).len()
                ==> post.node_view(#[trigger] cur.children(e)[j]) == (NodeView {
                    sib: j - 1,
                    ..cur.node_view(cur.children(e)[j])
                }),
            forall |x: El| cur.valid(x) && x != e
                && !cur.children(e).skip(offset).contains(x)
                ==> #[trigger] post.node_view(x) == cur.node_view(x),
            forall |x: El| cur.valid(x)
                ==> #[trigger] post.chain(x)
                    == (if x == c || cur.chain(x).contains(c.spec_raw()) {
                        cur.chain(x).skip(cur.chain(c).len() as int)
                    } else {
                        cur.chain(x)
                    }),
            forall |s: SurfaceId| cur.surface_view().valid(s)
                ==> crate::surface::content_eq(
                    #[trigger] post.surface_view().slot_view(s),
                    cur.surface_view().slot_view(s)),
            post.surface_view().slot_count() == cur.surface_view().slot_count(),
        ensures
            c == pre.children(e)[offset + kk],
            post.alive(e),
            post.children(e) == pre.children(e).take(offset)
                + pre.children(e).skip(offset + kk + 1),
            post.node_view(e) == (NodeView {
                children: post.children(e),
                ..pre.node_view(e)
            }),
            forall |i: int| 0 <= i < kk + 1
                ==> post.node_view(#[trigger] pre.children(e)[offset + i]) == (NodeView {
                    owner: Owner::Detached,
                    sib: 0,
                    ..pre.node_view(pre.children(e)[offset + i])
                }),
            forall |j: int| offset + kk + 1 <= j < pre.children(e).len()
                ==> post.node_view(#[trigger] pre.children(e)[j]) == (NodeView {
                    sib: j - kk - 1,
                    ..pre.node_view(pre.children(e)[j])
                }),
            forall |x: El| pre.valid(x) && x != e
                && !pre.children(e).skip(offset).contains(x)
                ==> #[trigger] post.node_view(x) == pre.node_view(x),
            post.chain(e) == pre.chain(e),
            forall |s: SurfaceId| pre.surface_view().valid(s)
                ==> crate::surface::content_eq(
                    #[trigger] post.surface_view().slot_view(s),
                    pre.surface_view().slot_view(s)),
            post.surface_view().slot_count() == pre.surface_view().slot_count(),
    {
        let kids = pre.children(e);
        pre.lemma_kids_facts(e);
        assert(c == kids.skip(offset + kk)[0]);
        assert(c == kids[offset + kk]);
        assert(pre.child_ok(e, offset + kk));
        assert(post.children(e) =~= kids.take(offset) + kids.skip(offset + kk + 1)) by {
            assert(post.children(e) == cur.children(e).remove(offset));
        }
        assert(post.node_view(e) == (NodeView {
            children: post.children(e),
            ..pre.node_view(e)
        }));
        assert forall |i: int| 0 <= i < kk + 1
            implies post.node_view(#[trigger] kids[offset + i]) == (NodeView {
                owner: Owner::Detached,
                sib: 0,
                ..pre.node_view(kids[offset + i])
            }) by {
            if i < kk {
                let d = kids[offset + i];
                assert(pre.child_ok(e, offset + i));
                assert(d != e);
                assert(d != c) by {
                    assert(pre.child_ok(e, offset + kk));
                }
                assert(!cur.children(e).skip(offset).contains(d)) by {
                    if cur.children(e).skip(offset).contains(d) {
                        let z = choose |z: int|
                            0 <= z < cur.children(e).skip(offset).len()
                            && cur.children(e).skip(offset)[z] == d;
                        assert(cur.children(e)[offset + z] == d);
                        assert(kids[offset + kk + z] == d);
                        assert(pre.child_ok(e, offset + kk + z));
                    }
                }
                assert(post.node_view(d) == cur.node_view(d));
            } else {
                assert(cur.node_view(c) == (NodeView {
                    sib: offset,
                    ..pre.node_view(c)
                }));
            }
        }
        assert forall |j: int| offset + kk + 1 <= j < kids.len()
            implies post.node_view(#[trigger] kids[j]) == (NodeView {
                sib: j - kk - 1,
                ..pre.node_view(kids[j])
            }) by {
            let d = kids[j];
            assert(pre.child_ok(e, j));
            assert(cur.children(e)[j - kk] == d) by {
                assert(kids.skip(offset + kk)[j - offset - kk] == d);
            }
            assert(cur.node_view(d) == (NodeView { sib: j - kk, ..pre.node_view(d) }));
            assert(post.node_view(d) == (NodeView { sib: j - kk - 1, ..cur.node_view(d) }));
        }
        assert forall |x: El| pre.valid(x) && x != e
            && !kids.skip(offset).contains(x)
            implies #[trigger] post.node_view(x) == pre.node_view(x) by {
            assert(cur.node_view(x) == pre.node_view(x));
            assert(!cur.children(e).skip(offset).contains(x)) by {
                if cur.children(e).skip(offset).contains(x) {
                    let z = choose |z: int|
                        0 <= z < cur.children(e).skip(offset).len()
                        && cur.children(e).skip(offset)[z] == x;
                    assert(cur.children(e)[offset + z] == x);
                    assert(kids[offset + kk + z] == x);
                    assert(kids.skip(offset)[kk + z] == x);
                }
            }
            assert(post.node_view(x) == cur.node_view(x));
        }
        assert(post.chain(e) == cur.chain(e)) by {
            if cur.chain(e).contains(c.spec_raw()) {
                cur.lemma_chain_prefix(e, c.spec_raw());
                assert(cur.alive(c)) by {
                    cur.lemma_kids_facts(e);
                    assert(cur.child_ok(e, offset));
                }
                assert(cur.owner_ok(c));
                assert(cur.chain(c) == cur.chain(e).push(e.spec_raw()));
                assert(false);
            }
            assert(e != c);
        }
        assert forall |s: SurfaceId| pre.surface_view().valid(s)
            implies crate::surface::content_eq(
                #[trigger] post.surface_view().slot_view(s),
                pre.surface_view().slot_view(s)) by {
            assert(crate::surface::content_eq(
                post.surface_view().slot_view(s),
                cur.surface_view().slot_view(s)));
        }
    }

    /// One step of the insertion phase of a splice: attaching `addseq[i]`
    /// at `offset + i` restores the phase invariant with `i + 1`.
    #[verifier::rlimit(100)]
    proof fn lemma_splice_attach_step(tmid: Tree, cur: Tree, post: Tree, e: El, offset: int,
        i: int, addseq: Seq<El>, shrunk: Seq<El>)
        requires
            tmid.wf(),
            tmid.alive(e),
            0 <= offset <= shrunk.len(),
            0 <= i < addseq.len(),
            shrunk == tmid.children(e),
            forall |k2: int| 0 <= k2 < addseq.len()
                ==> tmid.alive(#[trigger] addseq[k2]),
            forall |k2: int, l: int| 0 <= k2 < l < addseq.len()
                ==> #[trigger] addseq[k2] != #[trigger] addseq[l],
            forall |k2: int| 0 <= k2 < addseq.len() ==> (#[trigger] addseq[k2]) != e,
            cur.wf(),
            cur.alive(e),
            cur.node_count() == tmid.node_count(),
            cur.children(e) == shrunk.take(offset) + addseq.take(i) + shrunk.skip(offset),
            cur.node_view(e) == (NodeView {
                children: cur.children(e),
                ..tmid.node_view(e)
            }),
            forall |k2: int| 0 <= k2 < i
                ==> cur.node_view(#[trigger] addseq[k2]) == (NodeView {
                    owner: Owner::Parent(e),
                    sib: offset + k2,
                    ..tmid.node_view(addseq[k2])
                }),
            forall |k2: int| i <= k2 < addseq.len()
                ==> cur.node_view(#[trigger] addseq[k2]) == tmid.node_view(addseq[k2]),
            forall |k2: int| i <= k2 < addseq.len()
                ==> cur.is_detached(#[trigger] addseq[k2]),
            forall |k2: int| i <= k2 < addseq.len()
                ==> !cur.in_subtree(#[trigger] addseq[k2], e),
            forall |j: int| offset <= j < shrunk.len()
                ==> cur.node_view(#[trigger] shrunk[j]) == (NodeView {
                    sib: j + i,
                    ..tmid.node_view(shrunk[j])
                }),
            forall |x: El| tmid.valid(x) && x != e
                && !shrunk.skip(offset).contains(x)
                && !addseq.contains(x)
                ==> #[trigger] cur.node_view(x) == tmid.node_view(x),
            cur.chain(e) == tmid.chain(e),
            forall |s: SurfaceId| tmid.surface_view().valid(s)
                ==> crate::surface::content_eq(
                    #[trigger] cur.surface_view().slot_view(s),
                    tmid.surface_view().slot_view(s)),
            cur.surface_view().slot_count() == tmid.surface_view().slot_count(),
            // what the attach call guaranteed
            post.wf(),
            post.node_count() == cur.node_count(),
            post.node_view(e) == (NodeView {
                children: cur.children(e).insert(offset + i, addseq[i]),
                ..cur.node_view(e)
            }),
            post.node_view(addseq[i]) == (NodeView {
                owner: Owner::Parent(e),
                sib: offset + i,
                ..cur.node_view(addseq[i])
            }),
            forall |j: int| offset + i <= j < cur.children(e).len()
                ==> post.node_view(#[trigger] cur.children(e)[j]) == (NodeView {
                    sib: j + 1,
                    ..cur.node_view(cur.children(e)[j])
                }),
            forall |x: El| cur.valid(x) && x != e && x != addseq[i]
                && !cur.children(e).skip(offset + i).contains(x)
                ==> #[trigger] post.node_view(x) == cur.node_view(x),
            forall |x: El| cur.valid(x)
                ==> #[trigger] post.chain(x)
                    == (if x == addseq[i]
                            || cur.chain(x).contains(addseq[i].spec_raw()) {
                        cur.chain(e).push(e.spec_raw()) + cur.chain(x)
                    } else {
                        cur.chain(x)
                    }),
            forall |s: SurfaceId| cur.surface_view().valid(s)
                ==> crate::surface::content_eq(
                    #[trigger] post.surface_view().slot_view(s),
                    cur.surface_view().slot_view(s)),
            post.surface_view().slot_count() == cur.surface_view().slot_count(),
        ensures
            post.alive(e),
            post.children(e) == shrunk.take(offset) + addseq.take(i + 1)
                + shrunk.skip(offset),
            post.node_view(e) == (NodeView {
                children: post.children(e),
                ..tmid.node_view(e)
            }),
            forall |k2: int| 0 <= k2 < i + 1
                ==> post.node_view(#[trigger] addseq[k2]) == (NodeView {
                    owner: Owner::Parent(e),
                    sib: offset + k2,
                    ..tmid.node_view(addseq[k2])
                }),
            forall |k2: int| i + 1 <= k2 < addseq.len()
                ==> post.node_view(#[trigger] addseq[k2]) == tmid.node_view(addseq[k2]),
            forall |k2: int| i + 1 <= k2 < addseq.len()
                ==> post.is_detached(#[trigger] addseq[k2]),
            forall |k2: int| i + 1 <= k2 < addseq.len()
                ==> !post.in_subtree(#[trigger] addseq[k2], e),
            forall |j: int| offset <= j < shrunk.len()
                ==> post.node_view(#[trigger] shrunk[j]) == (NodeView {
                    sib: j + i + 1,
                    ..tmid.node_view(shrunk[j])
                }),
            forall |x: El| tmid.valid(x) && x != e
                && !shrunk.skip(offset).contains(x)
                && !addseq.contains(x)
                ==> #[trigger] post.node_view(x) == tmid.node_view(x),
            post.chain(e) == tmid.chain(e),
            forall |s: SurfaceId| tmid.surface_view().valid(s)
                ==> crate::surface::content_eq(
                    #[trigger] post.surface_view().slot_view(s),
                    tmid.surface_view().slot_view(s)),
            post.surface_view().slot_count() == tmid.surface_view().slot_count(),
    {
        let a = addseq[i];
        let oi = offset + i;
        assert(cur.children(e).len() == shrunk.len() + i);
        assert(post.children(e) =~= shrunk.take(offset) + addseq.take(i + 1)
            + shrunk.skip(offset)) by {
            assert(post.children(e) == cur.children(e).insert(offset + i, a));
        }
        assert(post.node_view(e) == (NodeView {
            children: post.children(e),
            ..tmid.node_view(e)
        }));
        assert(post.node_view(a) == (NodeView {
            owner: Owner::Parent(e),
            sib: offset + i,
            ..tmid.node_view(a)
        })) by {
            assert(cur.node_view(a) == tmid.node_view(a));
        }
        assert forall |k2: int| 0 <= k2 < i + 1
            implies post.node_view(#[trigger] addseq[k2]) == (NodeView {
                owner: Owner::Parent(e),
                sib: offset + k2,
                ..tmid.node_view(addseq[k2])
            }) by {
            if k2 < i {
                let d = addseq[k2];
                assert(d != a);
                assert(d != e);
                assert(!cur.children(e).skip(oi).contains(d)) by {
                    if cur.children(e).skip(oi).contains(d) {
                        let z = choose |z: int|
                            0 <= z < cur.children(e).skip(oi).len()
                            && cur.children(e).skip(oi)[z] == d;
                        assert(cur.children(e)[oi + z] == d);
                        assert(cur.node_view(d).sib == offset + k2);
                        cur.lemma_kids_facts(e);
                        assert(cur.child_ok(e, oi + z));
                    }
                }
                assert(post.node_view(d) == cur.node_view(d));
            }
        }
        assert forall |k2: int| i + 1 <= k2 < addseq.len()
            implies post.node_view(#[trigger] addseq[k2]) == tmid.node_view(addseq[k2])
                && post.is_detached(addseq[k2]) && !post.in_subtree(addseq[k2], e) by {
            let d = addseq[k2];
            assert(d != a);
            assert(d != e);
            assert(!cur.children(e).skip(oi).contains(d)) by {
                if cur.children(e).skip(oi).contains(d) {
                    let z = choose |z: int|
                        0 <= z < cur.children(e).skip(oi).len()
                        && cur.children(e).skip(oi)[z] == d;
                    assert(cur.children(e)[oi + z] == d);
                    cur.lemma_kids_facts(e);
                    assert(cur.child_ok(e, oi + z));
                }
            }
            assert(post.node_view(d) == cur.node_view(d));
            assert(post.chain(d) == cur.chain(d)) by {
                assert(cur.alive(d));
                assert(cur.chain(d).len() == 0) by {
                    assert(cur.owner_ok(d));
                }
            }
            assert(post.chain(e) == cur.chain(e));
        }
        assert forall |j: int| offset <= j < shrunk.len()
            implies post.node_view(#[trigger] shrunk[j]) == (NodeView {
                sib: j + i + 1,
                ..tmid.node_view(shrunk[j])
            }) by {
            let d = shrunk[j];
            assert(cur.node_view(d) == (NodeView { sib: j + i, ..tmid.node_view(d) }));
            assert(cur.children(e)[j + i] == d) by {
                if j < offset {
                } else {
                    assert(shrunk.skip(offset)[j - offset] == d);
                }
            }
            assert(cur.children(e).skip(oi)[j - offset] == d);
            assert(post.node_view(d) == (NodeView { sib: j + i + 1, ..cur.node_view(d) }));
        }
        assert forall |x: El| tmid.valid(x) && x != e
            && !shrunk.skip(offset).contains(x)
            && !addseq.contains(x)
            implies #[trigger] post.node_view(x) == tmid.node_view(x) by {
            assert(cur.node_view(x) == tmid.node_view(x));
            assert(x != a) by {
                assert(addseq[i] == a);
            }
            assert(!cur.children(e).skip(oi).contains(x)) by {
                if cur.children(e).skip(oi).contains(x) {
                    let z = choose |z: int|
                        0 <= z < cur.children(e).skip(oi).len()
                        && cur.children(e).skip(oi)[z] == x;
                    assert(cur.children(e)[oi + z] == x);
                    assert(shrunk.skip(offset)[z] == x);
                }
            }
            assert(post.node_view(x) == cur.node_view(x));
        }
        assert(post.chain(e) == cur.chain(e));
        assert forall |s: SurfaceId| tmid.surface_view().valid(s)
            implies crate::surface::content_eq(
                #[trigger] post.surface_view().slot_view(s),
                tmid.surface_view().slot_view(s)) by {
            assert(crate::surface::content_eq(
                post.surface_view().slot_view(s),
                cur.surface_view().slot_view(s)));
        }
    }
}

impl El {
    /// Add and remove children: remove `remove` children starting at
    /// `offset`, then insert `add` there, renumbering the survivors. The
    /// removed children stay live but detached; the caller decides whether
    /// to reuse or release them. Surface and logical children change in the
    /// same step.
    #[verifier::rlimit(100)]
    pub fn ref_splice(&self, t: &mut Tree, offset: usize, remove: usize, add: Vec<El>)
        -> (removed: Vec<El>)
        requires
            old(t).wf(),
            old(t).alive(*self),
            offset + remove <= old(t).children(*self).len(),
            forall |k: int| 0 <= k < add@.len() ==> old(t).alive(#[trigger] add@[k]),
            forall |k: int| 0 <= k < add@.len()
                ==> old(t).is_detached(#[trigger] add@[k]),
            forall |k: int| 0 <= k < add@.len()
                ==> !old(t).in_subtree(#[trigger] add@[k], *self),
            forall |k: int, l: int| 0 <= k < l < add@.len()
                ==> #[trigger] add@[k] != #[trigger] add@[l],
        ensures
            final(t).wf(),
            final(t).node_count() == old(t).node_count(),
            removed@ == old(t).children(*self).subrange(
                offset as int, offset as int + remove as int),
            final(t).children(*self) == old(t).children(*self).take(offset as int)
                + add@ + old(t).children(*self).skip(offset as int + remove as int),
            final(t).node_view(*self) == (NodeView {
                children: final(t).children(*self),
                ..old(t).node_view(*self)
            }),
            forall |k: int| 0 <= k < remove
                ==> final(t).node_view(#[trigger] removed@[k]) == (NodeView {
                    owner: Owner::Detached,
                    sib: 0,
                    ..old(t).node_view(removed@[k])
                }),
            forall |k: int| 0 <= k < add@.len()
                ==> final(t).node_view(#[trigger] add@[k]) == (NodeView {
                    owner: Owner::Parent(*self),
                    sib: offset + k,
                    ..old(t).node_view(add@[k])
                }),
            forall |j: int| offset + remove <= j < old(t).children(*self).len()
                ==> final(t).node_view(#[trigger] old(t).children(*self)[j])
                    == (NodeView {
                        sib: j - remove + add@.len(),
                        ..old(t).node_view(old(t).children(*self)[j])
                    }),
            forall |x: El| old(t).valid(x) && x != *self
                && !old(t).children(*self).skip(offset as int).contains(x)
                && !add@.contains(x)
                ==> #[trigger] final(t).node_view(x) == old(t).node_view(x),
            final(t).chain(*self) == old(t).chain(*self),
            final(t).surface_view().slot_count() == old(t).surface_view().slot_count(),
            forall |s: SurfaceId| old(t).surface_view().valid(s)
                ==> crate::surface::content_eq(
                    #[trigger] final(t).surface_view().slot_view(s),
                    old(t).surface_view().slot_view(s)),
            final(t).body_view() == old(t).body_view(),
            final(t).root_view() == old(t).root_view(),
            final(t).root_cell_view() == old(t).root_cell_view(),
            final(t).observers_view() == old(t).observers_view(),
            final(t).listeners_view() == old(t).listeners_view(),
            final(t).tasks_view() == old(t).tasks_view(),
    {
        let ghost pre = *old(t);
        let ghost kids = pre.children(*self);
        let e = *self;
        let mut removed: Vec<El> = Vec::new();
        proof {
            assert(kids.take(offset as int) + kids.skip(offset as int) =~= kids);
            assert(Seq::<El>::empty() =~= kids.subrange(offset as int, offset as int));
            assert forall |j: int| offset <= j < kids.len()
                implies t.node_view(#[trigger] kids[j]) == (NodeView {
                    sib: j,
                    ..pre.node_view(kids[j])
                }) by {
                assert(pre.child_ok(e, j));
            }
        }
        let mut k: usize = 0;
        while k < remove
            invariant
                pre.wf(),
                pre.alive(e),
                offset + remove <= kids.len(),
                kids == pre.children(e),
                k <= remove,
                removed@.len() == k,
                t.wf(),
                t.alive(e),
                t.node_count() == pre.node_count(),
                t.children(e) == kids.take(offset as int) + kids.skip(offset as int + k),
                t.node_view(e) == (NodeView {
                    children: kids.take(offset as int) + kids.skip(offset as int + k),
                    ..pre.node_view(e)
                }),
                removed@ == kids.subrange(offset as int, offset as int + k),
                forall |i: int| 0 <= i < k
                    ==> t.node_view(#[trigger] kids[offset + i]) == (NodeView {
                        owner: Owner::Detached,
                        sib: 0,
                        ..pre.node_view(kids[offset + i])
                    }),
                forall |j: int| offset + k <= j < kids.len()
                    ==> t.node_view(#[trigger] kids[j]) == (NodeView {
                        sib: j - k,
                        ..pre.node_view(kids[j])
                    }),
                forall |x: El| pre.valid(x) && x != e
                    && !kids.skip(offset as int).contains(x)
                    ==> #[trigger] t.node_view(x) == pre.node_view(x),
                t.chain(e) == pre.chain(e),
                t.surface_view().slot_count() == pre.surface_view().slot_count(),
                forall |s: SurfaceId| pre.surface_view().valid(s)
                    ==> crate::surface::content_eq(
                        #[trigger] t.surface_view().slot_view(s),
                        pre.surface_view().slot_view(s)),
                t.body_view() == pre.body_view(),
                t.root_view() == pre.root_view(),
                t.root_cell_view() == pre.root_cell_view(),
                t.observers_view() == pre.observers_view(),
                t.listeners_view() == pre.listeners_view(),
                t.tasks_view() == pre.tasks_view(),
            decreases remove - k,
        {
            let ghost cur = *t;
            proof {
                assert(t.children(e).len() == kids.len() - k);
            }
            let c = t.detach_at(e, offset);
            removed.push(c);
            proof {
                Tree::lemma_splice_detach_step(pre, cur, *t, e, offset as int, k as int, c);
                assert(removed@ =~= kids.subrange(offset as int, offset as int + k + 1));
            }
            k = k + 1;
        }
        let ghost tmid = *t;
        let mut i: usize = 0;
        let ghost shrunk = kids.take(offset as int) + kids.skip(offset as int + remove as int);
        proof {
            assert(t.children(e) == shrunk);
            assert forall |k2: int| 0 <= k2 < add@.len()
                implies tmid.node_view(#[trigger] add@[k2]) == pre.node_view(add@[k2])
                    && (#[trigger] add@[k2]) != e by {
                let d = add@[k2];
                assert(pre.alive(d));
                assert(d != e);
                assert(!kids.skip(offset as int).contains(d)) by {
                    if kids.skip(offset as int).contains(d) {
                        let z = choose |z: int|
                            0 <= z < kids.skip(offset as int).len()
                            && kids.skip(offset as int)[z] == d;
                        assert(kids[offset + z] == d);
                        assert(pre.child_ok(e, offset + z));
                    }
                }
            }
            assert(add@.take(0) =~= Seq::<El>::empty());
            assert(shrunk.take(offset as int) + add@.take(0) + shrunk.skip(offset as int)
                =~= shrunk);
            assert forall |k2: int| 0 <= k2 < add@.len()
                implies tmid.is_detached(#[trigger] add@[k2])
                    && !tmid.in_subtree(add@[k2], e) by {
                assert(tmid.node_view(add@[k2]) == pre.node_view(add@[k2]));
            }
            assert forall |j: int| offset <= j < shrunk.len()
                implies t.node_view(#[trigger] shrunk[j]) == (NodeView {
                    sib: j,
                    ..tmid.node_view(shrunk[j])
                }) by {}
        }
        while i < add.len()
            invariant
                tmid.wf(),
                tmid.alive(e),
                offset <= shrunk.len(),
                shrunk == tmid.children(e),
                i <= add.len(),
                forall |k2: int| 0 <= k2 < add@.len()
                    ==> tmid.alive(#[trigger] add@[k2]),
                forall |k2: int, l: int| 0 <= k2 < l < add@.len()
                    ==> #[trigger] add@[k2] != #[trigger] add@[l],
                forall |k2: int| 0 <= k2 < add@.len() ==> (#[trigger] add@[k2]) != e,
                t.wf(),
                t.alive(e),
                t.node_count() == tmid.node_count(),
                t.children(e) == shrunk.take(offset as int) + add@.take(i as int)
                    + shrunk.skip(offset as int),
                t.node_view(e) == (NodeView {
                    children: t.children(e),
                    ..tmid.node_view(e)
                }),
                forall |k2: int| 0 <= k2 < i
                    ==> t.node_view(#[trigger] add@[k2]) == (NodeView {
                        owner: Owner::Parent(e),
                        sib: offset + k2,
                        ..tmid.node_view(add@[k2])
                    }),
                forall |k2: int| i <= k2 < add@.len()
                    ==> t.node_view(#[trigger] add@[k2]) == tmid.node_view(add@[k2]),
                forall |k2: int| i <= k2 < add@.len()
                    ==> t.is_detached(#[trigger] add@[k2]),
                forall |k2: int| i <= k2 < add@.len()
                    ==> !t.in_subtree(#[trigger] add@[k2], e),
                forall |j: int| offset <= j < shrunk.len()
                    ==> t.node_view(#[trigger] shrunk[j]) == (NodeView {
                        sib: j + i,
                        ..tmid.node_view(shrunk[j])
                    }),
                forall |x: El| tmid.valid(x) && x != e
                    && !shrunk.skip(offset as int).contains(x)
                    && !add@.contains(x)
                    ==> #[trigger] t.node_view(x) == tmid.node_view(x),
                t.chain(e) == tmid.chain(e),
                t.surface_view().slot_count() == tmid.surface_view().slot_count(),
                forall |s: SurfaceId| tmid.surface_view().valid(s)
                    ==> crate::surface::content_eq(
                        #[trigger] t.surface_view().slot_view(s),
                        tmid.surface_view().slot_view(s)),
                t.body_view() == tmid.body_view(),
                t.root_view() == tmid.root_view(),
                t.root_cell_view() == tmid.root_cell_view(),
                t.observers_view() == tmid.observers_view(),
                t.listeners_view() == tmid.listeners_view(),
                t.tasks_view() == tmid.tasks_view(),
            decreases add.len() - i,
        {
            let ghost cur = *t;
            let a = add[i];
            let cl = t.nodes[e.0].children.len();
            proof {
                assert(t.alive(a));
                assert(t.is_detached(a));
                assert(!t.in_subtree(a, e));
                assert(cl as int == t.children(e).len());
                assert(offset as int + i as int <= cl as int);
            }
            t.attach_at(e, offset + i, a);
            proof {
                Tree::lemma_splice_attach_step(tmid, cur, *t, e, offset as int, i as int,
                    add@, shrunk);
            }
            i = i + 1;
        }
        proof {
            assert(t.children(e) =~= kids.take(offset as int) + add@
                + kids.skip(offset as int + remove as int)) by {
                assert(add@.take(add@.len() as int) =~= add@);
                assert(shrunk.take(offset as int) =~= kids.take(offset as int));
                assert(shrunk.skip(offset as int)
                    =~= kids.skip(offset as int + remove as int));
            }
            assert forall |k2: int| 0 <= k2 < remove
                implies final(t).node_view(#[trigger] removed@[k2]) == (NodeView {
                    owner: Owner::Detached,
                    sib: 0,
                    ..pre.node_view(removed@[k2])
                }) by {
                let d = removed@[k2];
                assert(d == kids[offset + k2]);
                assert(tmid.node_view(d) == (NodeView {
                    owner: Owner::Detached,
                    sib: 0,
                    ..pre.node_view(d)
                }));
                pre.lemma_kids_facts(e);
                assert(pre.child_ok(e, offset + k2));
                assert(d != e);
                assert(!shrunk.skip(offset as int).contains(d)) by {
                    if shrunk.skip(offset as int).contains(d) {
                        let z = choose |z: int|
                            0 <= z < shrunk.skip(offset as int).len()
                            && shrunk.skip(offset as int)[z] == d;
                        assert(kids.skip(offset as int + remove as int)[z] == d);
                        assert(kids[offset + remove + z] == d);
                        assert(pre.child_ok(e, offset + remove + z));
                    }
                }
                assert(!add@.contains(d)) by {
                    if add@.contains(d) {
                        let z = choose |z: int|
                            0 <= z < add@.len() && add@[z] == d;
                        assert(pre.is_detached(d));
                        assert(pre.child_ok(e, offset + k2));
                    }
                }
                assert(t.node_view(d) == tmid.node_view(d));
            }
            assert forall |k2: int| 0 <= k2 < add@.len()
                implies final(t).node_view(#[trigger] add@[k2]) == (NodeView {
                    owner: Owner::Parent(e),
                    sib: offset + k2,
                    ..pre.node_view(add@[k2])
                }) by {
                assert(tmid.node_view(add@[k2]) == pre.node_view(add@[k2]));
            }
            assert forall |j: int| offset + remove <= j < kids.len()
                implies final(t).node_view(#[trigger] kids[j]) == (NodeView {
                    sib: j - remove + add@.len(),
                    ..pre.node_view(kids[j])
                }) by {
                let d = kids[j];
                assert(tmid.node_view(d) == (NodeView {
                    sib: j - remove,
                    ..pre.node_view(d)
                }));
                assert(shrunk[j - remove] == d) by {
                    assert(kids.skip(offset as int + remove as int)
                        [j - (offset as int) - (remove as int)] == d);
                }
                assert(t.node_view(d) == (NodeView {
                    sib: j - remove + add@.len(),
                    ..tmid.node_view(d)
                }));
            }
            assert forall |x: El| pre.valid(x) && x != e
                && !kids.skip(offset as int).contains(x)
                && !add@.contains(x)
                implies #[trigger] final(t).node_view(x) == pre.node_view(x) by {
                assert(tmid.node_view(x) == pre.node_view(x));
                assert(!shrunk.skip(offset as int).contains(x)) by {
                    if shrunk.skip(offset as int).contains(x) {
                        let z = choose |z: int|
                            0 <= z < shrunk.skip(offset as int).len()
                            && shrunk.skip(offset as int)[z] == x;
                        assert(kids.skip(offset as int + remove as int)[z] == x);
                        assert(kids[offset + remove + z] == x);
                        assert(kids.skip(offset as int)[(remove as int) + z] == x);
                    }
                }
                assert(t.node_view(x) == tmid.node_view(x));
            }
            assert(final(t).node_view(e) == (NodeView {
                children: final(t).children(e),
                ..pre.node_view(e)
            }));
        }
        removed
    }
}

impl El {
    /// Set the text content. Setting text replaces the element's children
    /// on the surface, so any children are detached in the same step; use
    /// `ref_text` to receive them.
    pub fn text(self, t: &mut Tree, text: &str) -> (r: El)
        requires
            old(t).wf(),
            old(t).alive(self),
        ensures
            r == self,
            final(t).wf(),
            final(t).children(self) == Seq::<El>::empty(),
            final(t).surface_view().text(final(t).surface_of(self)) == Some(text@),
            final(t).node_view(self) == (NodeView {
                children: Seq::empty(),
                ..old(t).node_view(self)
            }),
            forall |k: int| 0 <= k < old(t).children(self).len()
                ==> final(t).node_view(#[trigger] old(t).children(self)[k]) == (NodeView {
                    owner: Owner::Detached,
                    sib: 0,
                    ..old(t).node_view(old(t).children(self)[k])
                }),
            forall |x: El| old(t).valid(x) && x != self
                && !old(t).children(self).contains(x)
                ==> #[trigger] final(t).node_view(x) == old(t).node_view(x),
            final(t).chain(self) == old(t).chain(self),
            final(t).node_count() == old(t).node_count(),
            final(t).surface_view().slot_count() == old(t).surface_view().slot_count(),
            final(t).body_view() == old(t).body_view(),
            final(t).root_view() == old(t).root_view(),
            final(t).root_cell_view() == old(t).root_cell_view(),
            final(t).observers_view() == old(t).observers_view(),
            final(t).listeners_view() == old(t).listeners_view(),
            final(t).tasks_view() == old(t).tasks_view(),
    {
        let removed = self.ref_text(t, text);
        self
    }

    /// Set the text content, detaching and returning any children (the
    /// surface replaces them with the text in the same step).
    pub fn ref_text(&self, t: &mut Tree, text: &str) -> (removed: Vec<El>)
        requires
            old(t).wf(),
            old(t).alive(*self),
        ensures
            final(t).wf(),
            removed@ == old(t).children(*self),
            final(t).children(*self) == Seq::<El>::empty(),
            final(t).surface_view().text(final(t).surface_of(*self)) == Some(text@),
            final(t).node_view(*self) == (NodeView {
                children: Seq::empty(),
                ..old(t).node_view(*self)
            }),
            forall |k: int| 0 <= k < removed@.len()
                ==> final(t).node_view(#[trigger] removed@[k]) == (NodeView {
                    owner: Owner::Detached,
                    sib: 0,
                    ..old(t).node_view(removed@[k])
                }),
            forall |x: El| old(t).valid(x) && x != *self
                && !old(t).children(*self).contains(x)
                ==> #[trigger] final(t).node_view(x) == old(t).node_view(x),
            final(t).chain(*self) == old(t).chain(*self),
            final(t).node_count() == old(t).node_count(),
            final(t).surface_view().slot_count() == old(t).surface_view().slot_count(),
            final(t).body_view() == old(t).body_view(),
            final(t).root_view() == old(t).root_view(),
            final(t).root_cell_view() == old(t).root_cell_view(),
            final(t).observers_view() == old(t).observers_view(),
            final(t).listeners_view() == old(t).listeners_view(),
            final(t).tasks_view() == old(t).tasks_view(),
    {
        self.bare_out(t, Some(text))
    }

    /// Remove all children (detaching and returning them) and clear any
    /// directly set text, in one step.
    pub fn ref_clear(&self, t: &mut Tree) -> (removed: Vec<El>)
        requires
            old(t).wf(),
            old(t).alive(*self),
        ensures
            final(t).wf(),
            removed@ == old(t).children(*self),
            final(t).children(*self) == Seq::<El>::empty(),
            final(t).surface_view().text(final(t).surface_of(*self)) is None,
            final(t).node_view(*self) == (NodeView {
                children: Seq::empty(),
                ..old(t).node_view(*self)
            }),
            forall |k: int| 0 <= k < removed@.len()
                ==> final(t).node_view(#[trigger] removed@[k]) == (NodeView {
                    owner: Owner::Detached,
                    sib: 0,
                    ..old(t).node_view(removed@[k])
                }),
            forall |x: El| old(t).valid(x) && x != *self
                && !old(t).children(*self).contains(x)
                ==> #[trigger] final(t).node_view(x) == old(t).node_view(x),
            final(t).chain(*self) == old(t).chain(*self),
            final(t).node_count() == old(t).node_count(),
            final(t).surface_view().slot_count() == old(t).surface_view().slot_count(),
            final(t).body_view() == old(t).body_view(),
            final(t).root_view() == old(t).root_view(),
            final(t).root_cell_view() == old(t).root_cell_view(),
            final(t).observers_view() == old(t).observers_view(),
            final(t).listeners_view() == old(t).listeners_view(),
            final(t).tasks_view() == old(t).tasks_view(),
    {
        self.bare_out(t, None)
    }

    /// Shared body of `ref_text` and `ref_clear`: detach every child, then
    /// set or clear the text.
    fn bare_out(&self, t: &mut Tree, text: Option<&str>) -> (removed: Vec<El>)
        requires
            old(t).wf(),
            old(t).alive(*self),
        ensures
            final(t).wf(),
            removed@ == old(t).children(*self),
            final(t).children(*self) == Seq::<El>::empty(),
            final(t).surface_view().text(final(t).surface_of(*self)) == (match text {
                Some(x) => Some(x@),
                None => None,
            }),
            final(t).node_view(*self) == (NodeView {
                children: Seq::empty(),
                ..old(t).node_view(*self)
            }),
            forall |k: int| 0 <= k < removed@.len()
                ==> final(t).node_view(#[trigger] removed@[k]) == (NodeView {
                    owner: Owner::Detached,
                    sib: 0,
                    ..old(t).node_view(removed@[k])
                }),
            forall |x: El| old(t).valid(x) && x != *self
                && !old(t).children(*self).contains(x)
                ==> #[trigger] final(t).node_view(x) == old(t).node_view(x),
            final(t).chain(*self) == old(t).chain(*self),
            final(t).node_count() == old(t).node_count(),
            final(t).surface_view().slot_count() == old(t).surface_view().slot_count(),
            final(t).body_view() == old(t).body_view(),
            final(t).root_view() == old(t).root_view(),
            final(t).root_cell_view() == old(t).root_cell_view(),
            final(t).observers_view() == old(t).observers_view(),
            final(t).listeners_view() == old(t).listeners_view(),
            final(t).tasks_view() == old(t).tasks_view(),
    {
        let ghost pre = *old(t);
        let ghost kids = pre.children(*self);
        let n = t.nodes[self.0].children.len();
        let removed = self.ref_splice(t, 0, n, Vec::new());
        let ghost mid = *t;
        proof {
            assert(removed@ =~= kids);
            assert(mid.children(*self) =~= Seq::<El>::empty()) by {
                assert(kids.take(0) =~= Seq::<El>::empty());
                assert(kids.skip(n as int) =~= Seq::<El>::empty());
            }
            assert(mid.node_view(*self) == (NodeView {
                children: Seq::empty(),
                ..pre.node_view(*self)
            }));
            assert forall |x: El| pre.valid(x) && x != *self && !kids.contains(x)
                implies #[trigger] mid.node_view(x) == pre.node_view(x) by {
                assert(!kids.skip(0).contains(x)) by {
                    if kids.skip(0).contains(x) {
                        let z = choose |z: int|
                            0 <= z < kids.skip(0).len() && kids.skip(0)[z] == x;
                        assert(kids[z] == x);
                    }
                }
                assert(!Seq::<El>::empty().contains(x));
            }
            assert forall |k: int| 0 <= k < removed@.len()
                implies mid.node_view(#[trigger] removed@[k]) == (NodeView {
                    owner: Owner::Detached,
                    sib: 0,
                    ..pre.node_view(removed@[k])
                }) by {
                assert(removed@[k] == kids.subrange(0, n as int)[k]);
            }
            assert(mid.alive(*self)) by {
                assert(mid.node_view(*self).alive == pre.node_view(*self).alive);
            }
            assert(mid.surface_ok(*self));
            assert(mid.surface_view().children(mid.surface_of(*self))
                =~= Seq::<SurfaceId>::empty()) by {
                assert(mid.child_surfaces(*self).len() == 0);
            }
        }
        let s = t.nodes[self.0].surface;
        t.surface.set_text(s, text);
        proof {
            t.lemma_surface_content_wf(mid);
            assert forall |x: El| pre.valid(x)
                implies #[trigger] t.node_view(x) == mid.node_view(x)
                    && t.chain(x) == mid.chain(x) by {
                assert(t.nodes@[x.spec_raw()] == mid.nodes@[x.spec_raw()]);
            }
        }
        removed
    }

    /// Replace this node among its parent's children with zero or more
    /// replacement nodes, via the parent's splice; the node itself comes
    /// out detached and no external effect is owed. A node with no owning
    /// parent is replaced in place instead: its resource cells run their
    /// teardown and its whole subtree is torn down exactly as a release
    /// would do, the replacements are stashed on the node — it owns them
    /// for as long as it lives — their surface elements take the place
    /// the node's element occupied, and the node keeps a fresh, inert
    /// surface element; the returned list holds the teardown's external
    /// effects, in order.
    #[verifier::rlimit(100)]
    #[verifier::spinoff_prover]
    pub fn ref_replace(&self, t: &mut Tree, other: Vec<El>) -> (fx: Vec<Effect>)
        requires
            old(t).wf(),
            old(t).alive(*self),
            forall |k: int| 0 <= k < other@.len() ==> old(t).alive(#[trigger] other@[k]),
            forall |k: int| 0 <= k < other@.len()
                ==> old(t).is_detached(#[trigger] other@[k]),
            forall |k: int| 0 <= k < other@.len()
                ==> !old(t).in_subtree(#[trigger] other@[k], old(t).parent_el(*self)),
            forall |k: int, l: int| 0 <= k < l < other@.len()
                ==> #[trigger] other@[k] != #[trigger] other@[l],
        ensures
            final(t).wf(),
            final(t).node_count() == old(t).node_count(),
            old(t).parent_of(*self) is Some ==> ({
                let p = old(t).parent_el(*self);
                let sib = old(t).sib_index(*self);
                &&& final(t).children(p) == old(t).children(p).take(sib)
                        + other@ + old(t).children(p).skip(sib + 1)
                &&& final(t).node_view(*self) == (NodeView {
                        owner: Owner::Detached,
                        sib: 0,
                        ..old(t).node_view(*self)
                    })
                &&& (forall |k: int| 0 <= k < other@.len()
                        ==> final(t).node_view(#[trigger] other@[k]) == (NodeView {
                            owner: Owner::Parent(p),
                            sib: sib + k,
                            ..old(t).node_view(other@[k])
                        }))
                &&& fx@ == Seq::<Effect>::empty()
                &&& Tree::splice_frames(*old(t), *final(t))
            }),
            old(t).parent_of(*self) is None ==> ({
                &&& final(t).surface_view().slot_count()
                        == old(t).surface_view().slot_count() + 1
                &&& final(t).surface_of(*self).spec_raw()
                        == old(t).surface_view().slot_count()
                &&& final(t).surface_view().slot_view(final(t).surface_of(*self))
                        == (SlotView {
                            alive: true,
                            tag: "div"@,
                            text: None,
                            attrs: Seq::empty(),
                            classes: Seq::empty(),
                            children: Seq::empty(),
                            parent: None,
                            pos: 0,
                        })
                &&& final(t).node_view(*self) == (NodeView {
                        children: Seq::empty(),
                        cells: Seq::empty(),
                        stash: other@,
                        surface: final(t).surface_of(*self),
                        ..old(t).node_view(*self)
                    })
                &&& (forall |k: int| 0 <= k < other@.len()
                        ==> final(t).node_view(#[trigger] other@[k]) == (NodeView {
                            owner: Owner::Stash(*self),
                            ..old(t).node_view(other@[k])
                        }))
                &&& (forall |x: El| old(t).alive(x)
                        && #[trigger] old(t).in_subtree(*self, x) && x != *self
                        ==> !final(t).alive(x)
                            && !final(t).surface_view().alive(old(t).surface_of(x)))
                &&& (forall |x: El| old(t).valid(x) && old(t).alive(x)
                        && !old(t).in_subtree(*self, x) && !other@.contains(x)
                        ==> #[trigger] final(t).node_view(x) == old(t).node_view(x))
                &&& fx@.len() >= old(t).cells(*self).len()
                &&& fx@.take(old(t).cells(*self).len() as int) == old(t).cells(*self)
                &&& (forall |s: SurfaceId|
                        #[trigger] eff_count(fx@, Effect::ReleaseElement(s))
                        == (if exists |x: El| #[trigger] old(t).alive(x)
                                && old(t).in_subtree(*self, x) && x != *self
                                && old(t).surface_of(x) == s
                            { 1nat } else { 0nat }))
                &&& final(t).surface_view().parent(old(t).surface_of(*self)) is None
                &&& (other@.len() > 0 ==> ({
                        ||| (forall |k: int| 0 <= k < other@.len()
                                ==> final(t).surface_view().parent(
                                    old(t).surface_of(#[trigger] other@[k])) is None)
                        ||| (exists |q: SurfaceId, off: int|
                                #[trigger] Tree::placed_run(*old(t), *final(t),
                                    q, off, other@))
                    }))
                &&& Tree::registry_monotone(*old(t), *final(t))
                &&& final(t).body_view() == old(t).body_view()
                &&& final(t).root_view() == old(t).root_view()
                &&& final(t).root_cell_view() == old(t).root_cell_view()
            }),
    {
        let ghost pre = *old(t);
        match t.nodes[self.0].owner {
            Owner::Parent(p) => {
                let sib = t.nodes[self.0].index_in_parent;
                proof {
                    assert(pre.owner_of(*self) == Owner::Parent(p));
                    assert(pre.alive(*self));
                    assert(pre.owner_ok(*self));
                    assert(pre.children(p)[sib as int] == *self);
                    assert(pre.parent_el(*self) == p);
                    assert(sib as int + 1 <= pre.children(p).len());
                }
                let removed = p.ref_splice(t, sib, 1, other);
                proof {
                    assert(removed@[0] == *self) by {
                        assert(pre.children(p).subrange(sib as int, sib as int + 1)[0]
                            == pre.children(p)[sib as int]);
                    }
                }
                let fx: Vec<Effect> = Vec::new();
                proof {
                    assert(fx@ =~= Seq::<Effect>::empty());
                }
                fx
            },
            _ => {
                let e = *self;
                let mut fx: Vec<Effect> = Vec::new();
                proof {
                    pre.lemma_count_bound();
                    assert(pre.node_view(e).owner == pre.owner_of(e));
                    assert(!(pre.owner_of(e) is Parent));
                    assert(pre.parent_of(e) is None);
                    assert(pre.parent_el(e) == e);
                    assert forall |k: int| 0 <= k < other@.len()
                        implies (#[trigger] other@[k]) != e
                            && !Tree::under_kids(pre, e, other@[k].spec_raw())
                            && !Tree::under_stash(pre, e, other@[k].spec_raw()) by {
                        let c = other@[k];
                        assert(!pre.in_subtree(c, e));
                        assert(pre.alive(c));
                        assert(pre.owner_ok(c));
                        assert(pre.chain(c).len() == 0);
                        if Tree::under_kids(pre, e, c.spec_raw()) {
                            let l = choose |l: int| 0 <= l < pre.children(e).len()
                                && #[trigger] pre.subtree_raw(pre.children(e)[l])
                                    .contains(c.spec_raw());
                            let d = pre.children(e)[l];
                            assert(pre.child_ok(e, l));
                            assert(c.spec_raw() == d.spec_raw()
                                || pre.chain(c).contains(d.spec_raw()));
                            assert(c == d);
                            assert(pre.owner_of(d) == Owner::Parent(e));
                            assert(pre.is_detached(c));
                        }
                        if Tree::under_stash(pre, e, c.spec_raw()) {
                            let l = choose |l: int| 0 <= l < pre.stash_of(e).len()
                                && #[trigger] pre.subtree_raw(pre.stash_of(e)[l])
                                    .contains(c.spec_raw());
                            let d = pre.stash_of(e)[l];
                            assert(pre.stash_entry_ok(e, l));
                            assert(c.spec_raw() == d.spec_raw()
                                || pre.chain(c).contains(d.spec_raw()));
                            assert(c == d);
                            assert(pre.owner_of(d) == Owner::Stash(e));
                            assert(pre.is_detached(c));
                        }
                    }
                }
                t.bare_node(e, &mut fx);
                let ghost mid = *t;
                proof {
                    // the teardown record, with nothing recorded beforehand
                    assert(fx@.take(pre.cells(e).len() as int) == pre.cells(e)) by {
                        assert((0 + pre.cells(e).len()) as int
                            == pre.cells(e).len() as int);
                        assert(fx@.take(pre.cells(e).len() as int)
                            == Seq::<Effect>::empty() + pre.cells(e));
                        assert(Seq::<Effect>::empty() + pre.cells(e) =~= pre.cells(e));
                    }
                    assert forall |s: SurfaceId|
                        #[trigger] eff_count(fx@, Effect::ReleaseElement(s))
                        == (if Tree::kids_surf(pre, e, s)
                                || Tree::stash_surf_upto(pre, e,
                                    pre.stash_of(e).len() as int, s)
                            { 1nat } else { 0nat }) by {
                        let f = Effect::ReleaseElement(s);
                        let cs = pre.cells(e);
                        let d = fx@.skip(cs.len() as int);
                        assert(fx@ =~= cs + d) by {
                            assert(fx@.take(cs.len() as int) == cs);
                        }
                        lemma_eff_count_concat(cs, d, f);
                        assert forall |kk: int| 0 <= kk < cs.len()
                            implies (#[trigger] cs[kk]) != f by {
                            crate::own::lemma_effect_not_release(
                                pre.nodes@[e.spec_raw()].local@[kk]);
                            assert(cs[kk]
                                == pre.nodes@[e.spec_raw()].local@[kk].effect());
                        }
                        lemma_eff_count_absent(cs, f);
                        assert(d == fx@.skip((0 + cs.len()) as int));
                        assert(eff_count(cs + d, f) == eff_count(d, f));
                    }
                    // tie the per-edge description of the torn-down surfaces
                    // to the subtree below `e`
                    assert forall |s: SurfaceId|
                        (Tree::kids_surf(pre, e, s)
                            || Tree::stash_surf_upto(pre, e,
                                pre.stash_of(e).len() as int, s))
                        <==> (exists |x: El| #[trigger] pre.alive(x)
                            && pre.in_subtree(e, x) && x != e
                            && pre.surface_of(x) == s) by {
                        if Tree::kids_surf(pre, e, s) {
                            let y = choose |y: El| #[trigger] pre.alive(y)
                                && Tree::under_kids_upto(pre, e,
                                    pre.children(e).len() as int, y.spec_raw())
                                && pre.surface_of(y) == s;
                            let l = choose |l: int| 0 <= l < pre.children(e).len()
                                && #[trigger] pre.subtree_raw(pre.children(e)[l])
                                    .contains(y.spec_raw());
                            assert(pre.child_ok(e, l));
                            assert(pre.alive(pre.children(e)[l]));
                            assert(pre.owner_ok(pre.children(e)[l]));
                            pre.lemma_child_subtree(e, pre.children(e)[l]);
                            assert(pre.subtree_raw(e).remove(e.spec_raw())
                                .contains(y.spec_raw()));
                            assert(pre.in_subtree(e, y) && y != e);
                        }
                        if Tree::stash_surf_upto(pre, e,
                            pre.stash_of(e).len() as int, s) {
                            let y = choose |y: El| #[trigger] pre.alive(y)
                                && Tree::under_stash_upto(pre, e,
                                    pre.stash_of(e).len() as int, y.spec_raw())
                                && pre.surface_of(y) == s;
                            let l = choose |l: int| 0 <= l < pre.stash_of(e).len()
                                && #[trigger] pre.subtree_raw(pre.stash_of(e)[l])
                                    .contains(y.spec_raw());
                            assert(pre.stash_entry_ok(e, l));
                            assert(pre.alive(pre.stash_of(e)[l]));
                            assert(pre.owner_ok(pre.stash_of(e)[l]));
                            pre.lemma_child_subtree(e, pre.stash_of(e)[l]);
                            assert(pre.subtree_raw(e).remove(e.spec_raw())
                                .contains(y.spec_raw()));
                            assert(pre.in_subtree(e, y) && y != e);
                        }
                        if exists |x: El| #[trigger] pre.alive(x)
                            && pre.in_subtree(e, x) && x != e
                            && pre.surface_of(x) == s {
                            let y = choose |y: El| #[trigger] pre.alive(y)
                                && pre.in_subtree(e, y) && y != e
                                && pre.surface_of(y) == s;
                            pre.lemma_subtree_split(e, y);
                            if Tree::under_kids(pre, e, y.spec_raw()) {
                                assert(Tree::kids_surf(pre, e, s));
                            } else {
                                assert(Tree::stash_surf_upto(pre, e,
                                    pre.stash_of(e).len() as int, s));
                            }
                        }
                    }
                    // the replacements came through the teardown untouched
                    assert forall |k: int| 0 <= k < other@.len()
                        implies #[trigger] mid.node_view(other@[k])
                                == pre.node_view(other@[k])
                            && mid.alive(other@[k])
                            && mid.is_detached(other@[k])
                            && !mid.in_subtree(other@[k], e)
                            && mid.surface_view().parent(
                                pre.surface_of(other@[k])) is None by {
                        let c = other@[k];
                        assert(pre.valid(c) && pre.alive(c));
                        assert(mid.node_view(c) == pre.node_view(c));
                        assert(mid.alive(c)) by {
                            assert(mid.alive_raw(c.spec_raw())) by {
                                assert(pre.alive_raw(c.spec_raw()));
                            }
                        }
                        assert(mid.is_detached(c));
                        assert(mid.surface_ok(c));
                        assert(!mid.in_subtree(c, e)) by {
                            assert(mid.chain(e) == pre.chain(e));
                            assert(!pre.in_subtree(c, e));
                        }
                    }
                    assert(mid.alive(e));
                }
                t.stash_all(e, &other);
                let ghost stg = *t;
                proof {
                    assert(stg.node_view(e) == (NodeView {
                        cells: Seq::empty(),
                        children: Seq::empty(),
                        stash: other@,
                        ..pre.node_view(e)
                    }));
                    assert(stg.alive(e)) by {
                        assert(stg.alive_raw(e.spec_raw()) == mid.alive_raw(e.spec_raw()));
                    }
                    assert(!(stg.owner_of(e) is Parent));
                    assert forall |k: int| 0 <= k < other@.len()
                        implies stg.alive(#[trigger] other@[k])
                            && stg.owner_of(other@[k]) == Owner::Stash(e)
                            && other@[k] != e
                            && stg.surface_view().parent(
                                stg.surface_of(other@[k])) is None by {
                        let c = other@[k];
                        assert(stg.node_view(c) == (NodeView {
                            owner: Owner::Stash(e),
                            ..mid.node_view(c)
                        }));
                        assert(stg.alive(c)) by {
                            assert(stg.alive_raw(c.spec_raw()) == mid.alive_raw(c.spec_raw()));
                        }
                        assert(stg.surface == mid.surface);
                        assert(stg.surface_of(c) == mid.surface_of(c));
                    }
                }
                t.swap_surface_places(e, &other);
                let ghost swp = *t;
                let s2 = t.reset_surface(e, "div");
                proof {
                    let post = *t;
                    // the node itself: bare, stashing the replacements, on a
                    // fresh inert element
                    assert(swp.node_view(e) == stg.node_view(e));
                    assert(post.node_view(e) == (NodeView {
                        children: Seq::empty(),
                        cells: Seq::empty(),
                        stash: other@,
                        surface: s2,
                        ..pre.node_view(e)
                    }));
                    assert(post.surface_of(e) == s2);
                    // the replacements, stashed
                    assert forall |k: int| 0 <= k < other@.len()
                        implies #[trigger] post.node_view(other@[k]) == (NodeView {
                            owner: Owner::Stash(e),
                            ..pre.node_view(other@[k])
                        }) by {
                        let c = other@[k];
                        assert(swp.node_view(c) == stg.node_view(c));
                        assert(post.node_view(c) == swp.node_view(c)) by {
                            assert(c != e);
                            assert(stg.valid(c));
                        }
                        assert(stg.node_view(c) == (NodeView {
                            owner: Owner::Stash(e),
                            ..mid.node_view(c)
                        }));
                        assert(mid.node_view(c) == pre.node_view(c));
                    }
                    // the subtree below `e` is dead, its surfaces released
                    assert forall |x: El| pre.alive(x)
                        && #[trigger] pre.in_subtree(e, x) && x != e
                        implies !post.alive(x)
                            && !post.surface_view().alive(pre.surface_of(x)) by {
                        assert(pre.valid(x));
                        pre.lemma_subtree_split(e, x);
                        assert(!mid.alive_raw(x.spec_raw()));
                        assert(!mid.alive(x));
                        assert(!stg.alive(x)) by {
                            assert(stg.alive_raw(x.spec_raw()) == mid.alive_raw(x.spec_raw()));
                        }
                        assert(!swp.alive(x)) by {
                            assert(swp.node_view(x) == stg.node_view(x));
                        }
                        assert(!post.alive(x)) by {
                            assert(x != e);
                            assert(post.node_view(x) == swp.node_view(x));
                        }
                        let sx = pre.surface_of(x);
                        assert(pre.surface_view().valid(sx)) by {
                            assert(pre.surface_ok(x));
                        }
                        assert(!mid.surface_view().alive(sx));
                        assert(!stg.surface_view().alive(sx)) by {
                            assert(stg.surface == mid.surface);
                        }
                        assert(!swp.surface_view().slot_view(sx).alive) by {
                            assert(stg.surface_view().valid(sx));
                        }
                        assert(!post.surface_view().slot_view(sx).alive) by {
                            assert(swp.surface_view().valid(sx));
                            assert(post.surface_view().slot_view(sx)
                                == swp.surface_view().slot_view(sx));
                        }
                    }
                    // everything outside came through unchanged
                    assert forall |x: El| pre.valid(x) && pre.alive(x)
                        && !pre.in_subtree(e, x) && !other@.contains(x)
                        implies #[trigger] post.node_view(x) == pre.node_view(x) by {
                        assert(x != e);
                        assert(!Tree::under_kids(pre, e, x.spec_raw())) by {
                            if Tree::under_kids(pre, e, x.spec_raw()) {
                                let l = choose |l: int| 0 <= l < pre.children(e).len()
                                    && #[trigger] pre.subtree_raw(pre.children(e)[l])
                                        .contains(x.spec_raw());
                                assert(pre.child_ok(e, l));
                                assert(pre.alive(pre.children(e)[l]));
                                assert(pre.owner_ok(pre.children(e)[l]));
                                pre.lemma_child_subtree(e, pre.children(e)[l]);
                                assert(pre.subtree_raw(e).contains(x.spec_raw()));
                            }
                        }
                        assert(!Tree::under_stash(pre, e, x.spec_raw())) by {
                            if Tree::under_stash(pre, e, x.spec_raw()) {
                                let l = choose |l: int| 0 <= l < pre.stash_of(e).len()
                                    && #[trigger] pre.subtree_raw(pre.stash_of(e)[l])
                                        .contains(x.spec_raw());
                                assert(pre.stash_entry_ok(e, l));
                                assert(pre.alive(pre.stash_of(e)[l]));
                                assert(pre.owner_ok(pre.stash_of(e)[l]));
                                pre.lemma_child_subtree(e, pre.stash_of(e)[l]);
                                assert(pre.subtree_raw(e).contains(x.spec_raw()));
                            }
                        }
                        assert(mid.node_view(x) == pre.node_view(x));
                        assert(stg.node_view(x) == mid.node_view(x));
                        assert(swp.node_view(x) == stg.node_view(x));
                        assert(post.node_view(x) == swp.node_view(x));
                    }
                    // placement of the replacements' elements
                    assert(post.surface_view().parent(pre.surface_of(e)) is None) by {
                        assert(swp.surface_view().parent(stg.surface_of(e)) is None);
                        assert(stg.surface_of(e) == pre.surface_of(e));
                        assert(stg.surface_view().valid(pre.surface_of(e))) by {
                            assert(pre.surface_ok(e));
                            assert(stg.surface == mid.surface);
                        }
                        assert(post.surface_view().slot_view(pre.surface_of(e))
                            == swp.surface_view().slot_view(pre.surface_of(e)));
                    }
                    if other@.len() > 0 {
                        match stg.surface_view().parent(stg.surface_of(e)) {
                            Some(q) => {
                                let pos = stg.surface_view().pos(stg.surface_of(e));
                                assert(stg.wf());
                                stg.surface_view().lemma_parent_link(
                                    stg.surface_of(e), q);
                                assert(0 <= pos
                                    < stg.surface_view().children(q).len());
                                assert(swp.surface_view().children(q)
                                    == stg.surface_view().children(q).take(pos)
                                        + other@.map_values(|x: El| stg.surface_of(x))
                                        + stg.surface_view().children(q).skip(pos + 1));
                                assert(post.surface_view().children(q)
                                    == swp.surface_view().children(q)) by {
                                    assert(swp.surface_view().valid(q));
                                    assert(post.surface_view().slot_view(q)
                                        == swp.surface_view().slot_view(q));
                                }
                                assert(post.surface_view().alive(q)) by {
                                    assert(swp.surface_view().alive(q));
                                }
                                assert forall |k: int| 0 <= k < other@.len()
                                    implies post.surface_view().children(q)[pos + k]
                                        == pre.surface_of(#[trigger] other@[k]) by {
                                    assert(stg.surface_of(other@[k])
                                        == pre.surface_of(other@[k]));
                                    assert(swp.surface_view().children(q)[pos + k]
                                        == other@.map_values(
                                            |x: El| stg.surface_of(x))[k]);
                                }
                                assert(0 <= pos);
                                assert(pos + other@.len()
                                    <= post.surface_view().children(q).len());
                                assert(Tree::placed_run(pre, post, q, pos,
                                    other@)) by {
                                    assert forall |k: int| 0 <= k < other@.len()
                                        implies post.surface_view()
                                            .children(q)[pos + k]
                                            == pre.surface_of(#[trigger] other@[k])
                                        by {}
                                }
                            },
                            None => {
                                assert(swp.surface_view() == stg.surface_view());
                                assert forall |k: int| 0 <= k < other@.len()
                                    implies post.surface_view().parent(
                                        pre.surface_of(#[trigger] other@[k]))
                                        is None by {
                                    let sk = pre.surface_of(other@[k]);
                                    assert(stg.surface_view().parent(
                                        stg.surface_of(other@[k])) is None);
                                    assert(stg.surface_of(other@[k]) == sk);
                                    assert(stg.surface_view().valid(sk)) by {
                                        assert(mid.surface_ok(other@[k]));
                                        assert(stg.surface == mid.surface);
                                    }
                                    assert(post.surface_view().slot_view(sk)
                                        == swp.surface_view().slot_view(sk));
                                }
                            },
                        }
                    }
                    // registries only wound down
                    assert(Tree::registry_monotone(mid, post)) by {
                        assert(post.observers_view() == mid.observers_view());
                        assert(post.listeners_view() == mid.listeners_view());
                        assert(post.tasks_view() == mid.tasks_view());
                    }
                    Tree::lemma_monotone_trans(pre, mid, post);
                }
                fx
            },
        }
    }

    /// Set the element id (the `id` attribute).
    pub fn id(self, t: &mut Tree, id: &str) -> (r: El)
        requires
            old(t).wf(),
            old(t).alive(self),
        ensures
            r == self,
            final(t).wf(),
            final(t).surface_view().attr(final(t).surface_of(self), "id"@) == Some(id@),
            Tree::content_step(*old(t), *final(t), old(t).surface_of(self)),
    {
        self.ref_attr(t, "id", id);
        self
    }

    /// Set an arbitrary attribute.
    pub fn attr(self, t: &mut Tree, key: &str, value: &str) -> (r: El)
        requires
            old(t).wf(),
            old(t).alive(self),
        ensures
            r == self,
            final(t).wf(),
            final(t).surface_view().attr(final(t).surface_of(self), key@) == Some(value@),
            forall |q: Seq<char>| q != key@
                ==> #[trigger] final(t).surface_view().attr(old(t).surface_of(self), q)
                    == old(t).surface_view().attr(old(t).surface_of(self), q),
            Tree::content_step(*old(t), *final(t), old(t).surface_of(self)),
    {
        self.ref_attr(t, key, value);
        self
    }

    pub fn ref_attr(&self, t: &mut Tree, key: &str, value: &str)
        requires
            old(t).wf(),
            old(t).alive(*self),
        ensures
            final(t).wf(),
            final(t).surface_view().attr(final(t).surface_of(*self), key@) == Some(value@),
            forall |q: Seq<char>| q != key@
                ==> #[trigger] final(t).surface_view().attr(old(t).surface_of(*self), q)
                    == old(t).surface_view().attr(old(t).surface_of(*self), q),
            Tree::content_step(*old(t), *final(t), old(t).surface_of(*self)),
    {
        let ghost pre = *old(t);
        let s = t.nodes[self.0].surface;
        proof {
            assert(pre.surface_ok(*self));
        }
        t.surface.set_attr(s, key, value);
        proof {
            t.lemma_surface_content_wf(pre);
        }
    }

    /// Remove an attribute from the element.
    pub fn ref_remove_attr(&self, t: &mut Tree, key: &str)
        requires
            old(t).wf(),
            old(t).alive(*self),
        ensures
            final(t).wf(),
            final(t).surface_view().attr(final(t).surface_of(*self), key@) is None,
            forall |q: Seq<char>| q != key@
                ==> #[trigger] final(t).surface_view().attr(old(t).surface_of(*self), q)
                    == old(t).surface_view().attr(old(t).surface_of(*self), q),
            Tree::content_step(*old(t), *final(t), old(t).surface_of(*self)),
    {
        let ghost pre = *old(t);
        let s = t.nodes[self.0].surface;
        proof {
            assert(pre.surface_ok(*self));
        }
        t.surface.remove_attr(s, key);
        proof {
            t.lemma_surface_content_wf(pre);
        }
    }

    /// Add all of the listed class names (those not yet present).
    pub fn classes(self, t: &mut Tree, keys: &[&str]) -> (r: El)
        requires
            old(t).wf(),
            old(t).alive(self),
        ensures
            r == self,
            final(t).wf(),
            forall |j: int| 0 <= j < keys@.len()
                ==> final(t).surface_view().has_class(
                    final(t).surface_of(self), (#[trigger] keys@[j])@),
            Tree::content_step(*old(t), *final(t), old(t).surface_of(self)),
    {
        self.ref_classes(t, keys);
        self
    }

    pub fn ref_classes(&self, t: &mut Tree, keys: &[&str])
        requires
            old(t).wf(),
            old(t).alive(*self),
        ensures
            final(t).wf(),
            forall |j: int| 0 <= j < keys@.len()
                ==> final(t).surface_view().has_class(
                    final(t).surface_of(*self), (#[trigger] keys@[j])@),
            forall |q: Seq<char>|
                (forall |j: int| 0 <= j < keys@.len() ==> (#[trigger] keys@[j])@ != q)
                ==> #[trigger] final(t).surface_view().has_class(old(t).surface_of(*self), q)
                    == old(t).surface_view().has_class(old(t).surface_of(*self), q),
            Tree::content_step(*old(t), *final(t), old(t).surface_of(*self)),
    {
        let ghost pre = *old(t);
        let s = t.nodes[self.0].surface;
        proof {
            assert(pre.surface_ok(*self));
        }
        let n = keys.len();
        let mut i: usize = 0;
        while i < n
            invariant
                pre.wf(),
                pre.alive(*self),
                s == pre.surface_of(*self),
                n == keys@.len(),
                i <= n,
                t.wf(),
                t.nodes == pre.nodes,
                t.anc == pre.anc,
                t.root_nodes == pre.root_nodes,
                t.root_cell == pre.root_cell,
                t.body == pre.body,
                t.observers == pre.observers,
                t.listeners == pre.listeners,
                t.tasks == pre.tasks,
                t.surface_view().wf(),
                t.surface_view().slot_count() == pre.surface_view().slot_count(),
                t.surface_view().alive(s),
                forall |u: SurfaceId| pre.surface_view().valid(u) && u != s
                    ==> #[trigger] t.surface_view().slot_view(u)
                        == pre.surface_view().slot_view(u),
                t.surface_view().slot_view(s) == (SlotView {
                    classes: t.surface_view().slot_view(s).classes,
                    ..pre.surface_view().slot_view(s)
                }),
                forall |j: int| 0 <= j < i
                    ==> t.surface_view().has_class(s, (#[trigger] keys@[j])@),
                forall |q: Seq<char>|
                    (forall |j: int| 0 <= j < i ==> (#[trigger] keys@[j])@ != q)
                    ==> #[trigger] t.surface_view().has_class(s, q)
                        == pre.surface_view().has_class(s, q),
            decreases n - i,
        {
            let ghost cur = *t;
            t.surface.add_class(s, keys[i]);
            proof {
                t.lemma_surface_content_wf(cur);
                assert forall |j: int| 0 <= j < i + 1
                    implies t.surface_view().has_class(s, (#[trigger] keys@[j])@) by {
                    if j < i {
                        if keys@[j]@ != keys@[i as int]@ {
                            assert(t.surface_view().has_class(s, keys@[j]@)
                                == cur.surface_view().has_class(s, keys@[j]@));
                        }
                    }
                }
            }
            i = i + 1;
        }
        proof {
            t.lemma_surface_content_wf(pre);
        }
    }

    /// Remove all of the listed class names (those present).
    pub fn ref_remove_classes(&self, t: &mut Tree, keys: &[&str])
        requires
            old(t).wf(),
            old(t).alive(*self),
        ensures
            final(t).wf(),
            forall |j: int| 0 <= j < keys@.len()
                ==> !final(t).surface_view().has_class(
                    final(t).surface_of(*self), (#[trigger] keys@[j])@),
            forall |q: Seq<char>|
                (forall |j: int| 0 <= j < keys@.len() ==> (#[trigger] keys@[j])@ != q)
                ==> #[trigger] final(t).surface_view().has_class(old(t).surface_of(*self), q)
                    == old(t).surface_view().has_class(old(t).surface_of(*self), q),
            Tree::content_step(*old(t), *final(t), old(t).surface_of(*self)),
    {
        let ghost pre = *old(t);
        let s = t.nodes[self.0].surface;
        proof {
            assert(pre.surface_ok(*self));
        }
        let n = keys.len();
        let mut i: usize = 0;
        while i < n
            invariant
                pre.wf(),
                pre.alive(*self),
                s == pre.surface_of(*self),
                n == keys@.len(),
                i <= n,
                t.wf(),
                t.nodes == pre.nodes,
                t.anc == pre.anc,
                t.root_nodes == pre.root_nodes,
                t.root_cell == pre.root_cell,
                t.body == pre.body,
                t.observers == pre.observers,
                t.listeners == pre.listeners,
                t.tasks == pre.tasks,
                t.surface_view().wf(),
                t.surface_view().slot_count() == pre.surface_view().slot_count(),
                t.surface_view().alive(s),
                forall |u: SurfaceId| pre.surface_view().valid(u) && u != s
                    ==> #[trigger] t.surface_view().slot_view(u)
                        == pre.surface_view().slot_view(u),
                t.surface_view().slot_view(s) == (SlotView {
                    classes: t.surface_view().slot_view(s).classes,
                    ..pre.surface_view().slot_view(s)
                }),
                forall |j: int| 0 <= j < i
                    ==> !t.surface_view().has_class(s, (#[trigger] keys@[j])@),
                forall |q: Seq<char>|
                    (forall |j: int| 0 <= j < i ==> (#[trigger] keys@[j])@ != q)
                    ==> #[trigger] t.surface_view().has_class(s, q)
                        == pre.surface_view().has_class(s, q),
            decreases n - i,
        {
            let ghost cur = *t;
            t.surface.remove_class(s, keys[i]);
            proof {
                t.lemma_surface_content_wf(cur);
                assert forall |j: int| 0 <= j < i + 1
                    implies !t.surface_view().has_class(s, (#[trigger] keys@[j])@) by {
                    if j < i {
                        if keys@[j]@ != keys@[i as int]@ {
                            assert(t.surface_view().has_class(s, keys@[j]@)
                                == cur.surface_view().has_class(s, keys@[j]@));
                        }
                    }
                }
            }
            i = i + 1;
        }
        proof {
            t.lemma_surface_content_wf(pre);
        }
    }

    /// Add or remove each listed class name, according to its flag. With a
    /// key listed twice, the last entry wins.
    pub fn ref_modify_classes(&self, t: &mut Tree, keys: &[(&str, bool)])
        requires
            old(t).wf(),
            old(t).alive(*self),
        ensures
            final(t).wf(),
            forall |j: int| 0 <= j < keys@.len()
                && (forall |l: int| j < l < keys@.len()
                        ==> ((#[trigger] keys@[l]).0)@ != (keys@[j].0)@)
                ==> final(t).surface_view().has_class(
                        final(t).surface_of(*self), ((#[trigger] keys@[j]).0)@)
                    == keys@[j].1,
            forall |q: Seq<char>|
                (forall |j: int| 0 <= j < keys@.len() ==> ((#[trigger] keys@[j]).0)@ != q)
                ==> #[trigger] final(t).surface_view().has_class(old(t).surface_of(*self), q)
                    == old(t).surface_view().has_class(old(t).surface_of(*self), q),
            Tree::content_step(*old(t), *final(t), old(t).surface_of(*self)),
    {
        let ghost pre = *old(t);
        let s = t.nodes[self.0].surface;
        proof {
            assert(pre.surface_ok(*self));
        }
        let n = keys.len();
        let mut i: usize = 0;
        while i < n
            invariant
                pre.wf(),
                pre.alive(*self),
                s == pre.surface_of(*self),
                n == keys@.len(),
                i <= n,
                t.wf(),
                t.nodes == pre.nodes,
                t.anc == pre.anc,
                t.root_nodes == pre.root_nodes,
                t.root_cell == pre.root_cell,
                t.body == pre.body,
                t.observers == pre.observers,
                t.listeners == pre.listeners,
                t.tasks == pre.tasks,
                t.surface_view().wf(),
                t.surface_view().slot_count() == pre.surface_view().slot_count(),
                t.surface_view().alive(s),
                forall |u: SurfaceId| pre.surface_view().valid(u) && u != s
                    ==> #[trigger] t.surface_view().slot_view(u)
                        == pre.surface_view().slot_view(u),
                t.surface_view().slot_view(s) == (SlotView {
                    classes: t.surface_view().slot_view(s).classes,
                    ..pre.surface_view().slot_view(s)
                }),
                forall |j: int| 0 <= j < i
                    && (forall |l: int| j < l < i
                            ==> ((#[trigger] keys@[l]).0)@ != (keys@[j].0)@)
                    ==> t.surface_view().has_class(s, ((#[trigger] keys@[j]).0)@)
                        == keys@[j].1,
                forall |q: Seq<char>|
                    (forall |j: int| 0 <= j < i ==> ((#[trigger] keys@[j]).0)@ != q)
                    ==> #[trigger] t.surface_view().has_class(s, q)
                        == pre.surface_view().has_class(s, q),
            decreases n - i,
        {
            let ghost cur = *t;
            let on = keys[i].1;
            if on {
                t.surface.add_class(s, keys[i].0);
            } else {
                t.surface.remove_class(s, keys[i].0);
            }
            proof {
                t.lemma_surface_content_wf(cur);
                assert forall |j: int| 0 <= j < i + 1
                    && (forall |l: int| j < l < i + 1
                            ==> ((#[trigger] keys@[l]).0)@ != (keys@[j].0)@)
                    implies t.surface_view().has_class(s, ((#[trigger] keys@[j]).0)@)
                        == keys@[j].1 by {
                    if j < i {
                        assert((keys@[i as int].0)@ != (keys@[j].0)@);
                        assert(t.surface_view().has_class(s, (keys@[j].0)@)
                            == cur.surface_view().has_class(s, (keys@[j].0)@));
                    }
                }
            }
            i = i + 1;
        }
        proof {
            t.lemma_surface_content_wf(pre);
        }
    }

    /// Add a single node to the end of the children.
    pub fn push(self, t: &mut Tree, add: El) -> (r: El)
        requires
            old(t).wf(),
            old(t).alive(self),
            old(t).alive(add),
            old(t).is_detached(add),
            !old(t).in_subtree(add, self),
        ensures
            r == self,
            final(t).wf(),
            final(t).children(self) == old(t).children(self).push(add),
            final(t).node_view(add) == (NodeView {
                owner: Owner::Parent(self),
                sib: old(t).children(self).len() as int,
                ..old(t).node_view(add)
            }),
            Tree::splice_frames(*old(t), *final(t)),
    {
        self.ref_push(t, add);
        self
    }

    pub fn ref_push(&self, t: &mut Tree, add: El)
        requires
            old(t).wf(),
            old(t).alive(*self),
            old(t).alive(add),
            old(t).is_detached(add),
            !old(t).in_subtree(add, *self),
        ensures
            final(t).wf(),
            final(t).children(*self) == old(t).children(*self).push(add),
            final(t).node_view(add) == (NodeView {
                owner: Owner::Parent(*self),
                sib: old(t).children(*self).len() as int,
                ..old(t).node_view(add)
            }),
            final(t).node_view(*self) == (NodeView {
                children: old(t).children(*self).push(add),
                ..old(t).node_view(*self)
            }),
            forall |x: El| old(t).valid(x) && x != *self && x != add
                ==> #[trigger] final(t).node_view(x) == old(t).node_view(x),
            final(t).chain(*self) == old(t).chain(*self),
            Tree::splice_frames(*old(t), *final(t)),
    {
        let mut v: Vec<El> = Vec::new();
        v.push(add);
        let ghost pre = *old(t);
        let n = t.nodes[self.0].children.len();
        let removed = self.ref_splice(t, n, 0, v);
        proof {
            assert(final(t).children(*self) =~= pre.children(*self).push(add)) by {
                assert(pre.children(*self).take(n as int) =~= pre.children(*self));
            }
            assert(seq![add][0] == add);
            assert forall |x: El| pre.valid(x) && x != *self && x != add
                implies #[trigger] final(t).node_view(x) == pre.node_view(x) by {
                assert(!pre.children(*self).skip(n as int).contains(x)) by {
                    assert(pre.children(*self).skip(n as int).len() == 0);
                }
                assert(!seq![add].contains(x)) by {
                    if seq![add].contains(x) {
                        let z = choose |z: int| 0 <= z < 1 && seq![add][z] == x;
                    }
                }
            }
        }
    }

    /// Add several nodes to the end of the children.
    pub fn extend(self, t: &mut Tree, add: Vec<El>) -> (r: El)
        requires
            old(t).wf(),
            old(t).alive(self),
            forall |k: int| 0 <= k < add@.len() ==> old(t).alive(#[trigger] add@[k]),
            forall |k: int| 0 <= k < add@.len()
                ==> old(t).is_detached(#[trigger] add@[k]),
            forall |k: int| 0 <= k < add@.len()
                ==> !old(t).in_subtree(#[trigger] add@[k], self),
            forall |k: int, l: int| 0 <= k < l < add@.len()
                ==> #[trigger] add@[k] != #[trigger] add@[l],
        ensures
            r == self,
            final(t).wf(),
            final(t).children(self) == old(t).children(self) + add@,
            forall |k: int| 0 <= k < add@.len()
                ==> final(t).node_view(#[trigger] add@[k]) == (NodeView {
                    owner: Owner::Parent(self),
                    sib: old(t).children(self).len() + k,
                    ..old(t).node_view(add@[k])
                }),
            Tree::splice_frames(*old(t), *final(t)),
    {
        self.ref_extend(t, add);
        self
    }

    pub fn ref_extend(&self, t: &mut Tree, add: Vec<El>)
        requires
            old(t).wf(),
            old(t).alive(*self),
            forall |k: int| 0 <= k < add@.len() ==> old(t).alive(#[trigger] add@[k]),
            forall |k: int| 0 <= k < add@.len()
                ==> old(t).is_detached(#[trigger] add@[k]),
            forall |k: int| 0 <= k < add@.len()
                ==> !old(t).in_subtree(#[trigger] add@[k], *self),
            forall |k: int, l: int| 0 <= k < l < add@.len()
                ==> #[trigger] add@[k] != #[trigger] add@[l],
        ensures
            final(t).wf(),
            final(t).children(*self) == old(t).children(*self) + add@,
            forall |k: int| 0 <= k < add@.len()
                ==> final(t).node_view(#[trigger] add@[k]) == (NodeView {
                    owner: Owner::Parent(*self),
                    sib: old(t).children(*self).len() + k,
                    ..old(t).node_view(add@[k])
                }),
            final(t).node_view(*self) == (NodeView {
                children: old(t).children(*self) + add@,
                ..old(t).node_view(*self)
            }),
            forall |x: El| old(t).valid(x) && x != *self && !add@.contains(x)
                ==> #[trigger] final(t).node_view(x) == old(t).node_view(x),
            final(t).chain(*self) == old(t).chain(*self),
            Tree::splice_frames(*old(t), *final(t)),
    {
        let ghost pre = *old(t);
        let ghost a = add@;
        let n = t.nodes[self.0].children.len();
        let removed = self.ref_splice(t, n, 0, add);
        proof {
            assert(final(t).children(*self) =~= pre.children(*self) + a) by {
                assert(pre.children(*self).take(n as int) =~= pre.children(*self));
            }
            assert forall |x: El| pre.valid(x) && x != *self && !a.contains(x)
                implies #[trigger] final(t).node_view(x) == pre.node_view(x) by {
                assert(!pre.children(*self).skip(n as int).contains(x)) by {
                    assert(pre.children(*self).skip(n as int).len() == 0);
                }
            }
        }
    }

    /// Attach a resource cell: the value is owned by this node and torn
    /// down when the node is released.
    pub fn own(self, t: &mut Tree, value: ScopeValue) -> (r: El)
        requires
            old(t).wf(),
            old(t).alive(self),
        ensures
            r == self,
            final(t).wf(),
            final(t).cells(self) == old(t).cells(self).push(value.effect()),
            Tree::cells_step(*old(t), *final(t), self),
    {
        self.ref_own(t, value);
        self
    }

    pub fn ref_own(&self, t: &mut Tree, value: ScopeValue)
        requires
            old(t).wf(),
            old(t).alive(*self),
        ensures
            final(t).wf(),
            final(t).cells(*self) == old(t).cells(*self).push(value.effect()),
            Tree::cells_step(*old(t), *final(t), *self),
    {
        let ghost pre = *old(t);
        let ghost fx = value.effect();
        t.nodes[self.0].local.push(value);
        proof {
            assert(t.node_view(*self).cells =~= pre.cells(*self).push(fx));
            assert forall |x: El| pre.valid(x) && x != *self
                implies #[trigger] t.node_view(x) == pre.node_view(x) by {
                assert(t.nodes@[x.spec_raw()] == pre.nodes@[x.spec_raw()]);
            }
            t.lemma_cells_wf(pre, *self);
        }
    }

    /// Register an event subscription on the element and own it as a
    /// resource cell: it is detached when the node is torn down. Returns
    /// the registry index, under which an embedder binds the real callback.
    pub fn ref_on(&self, t: &mut Tree, event: &str) -> (token: usize)
        requires
            old(t).wf(),
            old(t).alive(*self),
        ensures
            final(t).wf(),
            token as int == old(t).listeners_view().len(),
            final(t).listeners_view() == old(t).listeners_view().push(ListenerView {
                target: old(t).surface_of(*self),
                event: event@,
                capture: false,
                passive: false,
                active: true,
            }),
            final(t).cells(*self) == old(t).cells(*self).push(
                Effect::DetachListener(token)),
            Tree::listen_step(*old(t), *final(t), *self),
    {
        self.ref_on_with_options(t, event, ListenOptions { capture: false, passive: false })
    }

    pub fn ref_on_with_options(&self, t: &mut Tree, event: &str, opts: ListenOptions)
        -> (token: usize)
        requires
            old(t).wf(),
            old(t).alive(*self),
        ensures
            final(t).wf(),
            token as int == old(t).listeners_view().len(),
            final(t).listeners_view() == old(t).listeners_view().push(ListenerView {
                target: old(t).surface_of(*self),
                event: event@,
                capture: opts.capture,
                passive: opts.passive,
                active: true,
            }),
            final(t).cells(*self) == old(t).cells(*self).push(
                Effect::DetachListener(token)),
            Tree::listen_step(*old(t), *final(t), *self),
    {
        let ghost pre = *old(t);
        let s = t.nodes[self.0].surface;
        let token = t.listeners.len();
        t.listeners.push(ListenerRec {
            target: s,
            event: event.to_owned(),
            capture: opts.capture,
            passive: opts.passive,
            active: true,
        });
        t.nodes[self.0].local.push(ScopeValue { atom: crate::own::Atom::Listener(token) });
        proof {
            crate::own::lemma_effect(t.nodes@[self.spec_raw()].local@.last());
        }
        proof {
            assert(t.listeners_view() =~= pre.listeners_view().push(ListenerView {
                target: pre.surface_of(*self),
                event: event@,
                capture: opts.capture,
                passive: opts.passive,
                active: true,
            }));
            assert(t.node_view(*self).cells
                =~= pre.cells(*self).push(Effect::DetachListener(token)));
            assert forall |x: El| pre.valid(x) && x != *self
                implies #[trigger] t.node_view(x) == pre.node_view(x) by {
                assert(t.nodes@[x.spec_raw()] == pre.nodes@[x.spec_raw()]);
            }
            t.lemma_cells_wf(pre, *self);
        }
        token
    }

    /// Chainable form of `ref_on`.
    pub fn on(self, t: &mut Tree, event: &str) -> (r: El)
        requires
            old(t).wf(),
            old(t).alive(self),
        ensures
            r == self,
            final(t).wf(),
            final(t).listeners_view() == old(t).listeners_view().push(ListenerView {
                target: old(t).surface_of(self),
                event: event@,
                capture: false,
                passive: false,
                active: true,
            }),
            final(t).cells(self) == old(t).cells(self).push(
                Effect::DetachListener(old(t).listeners_view().len() as usize)),
            Tree::listen_step(*old(t), *final(t), self),
    {
        let token = self.ref_on(t, event);
        self
    }

    /// Chainable form of `ref_on_with_options`.
    pub fn on_with_options(self, t: &mut Tree, event: &str, opts: ListenOptions) -> (r: El)
        requires
            old(t).wf(),
            old(t).alive(self),
        ensures
            r == self,
            final(t).wf(),
            final(t).listeners_view() == old(t).listeners_view().push(ListenerView {
                target: old(t).surface_of(self),
                event: event@,
                capture: opts.capture,
                passive: opts.passive,
                active: true,
            }),
            final(t).cells(self) == old(t).cells(self).push(
                Effect::DetachListener(old(t).listeners_view().len() as usize)),
            Tree::listen_step(*old(t), *final(t), self),
    {
        let token = self.ref_on_with_options(t, event, opts);
        self
    }

    /// Alias of `ref_on`: add a listener that is detached when this node is
    /// torn down.
    pub fn ref_listen(&self, t: &mut Tree, event: &str) -> (token: usize)
        requires
            old(t).wf(),
            old(t).alive(*self),
        ensures
            final(t).wf(),
            token as int == old(t).listeners_view().len(),
            final(t).listeners_view() == old(t).listeners_view().push(ListenerView {
                target: old(t).surface_of(*self),
                event: event@,
                capture: false,
                passive: false,
                active: true,
            }),
            final(t).cells(*self) == old(t).cells(*self).push(
                Effect::DetachListener(token)),
            Tree::listen_step(*old(t), *final(t), *self),
    {
        self.ref_on(t, event)
    }

    /// The surface element wrapped by this node.
    pub fn raw(&self, t: &Tree) -> (r: SurfaceId)
        requires
            t.valid(*self),
        ensures
            r == t.surface_of(*self),
    {
        t.nodes[self.0].surface
    }

    /// Produce a weak, non-owning handle to this node.
    pub fn weak(&self) -> (r: WeakEl)
        ensures
            r.target() == *self,
    {
        WeakEl(*self)
    }
}

impl Tree {
    /// What a pure content edit of surface slot `s0` leaves untouched:
    /// everything about the nodes, the registries, and every other surface
    /// slot; `s0` itself keeps its structure.
    pub open spec fn content_step(pre: Tree, post: Tree, s0: SurfaceId) -> bool {
        &&& post.node_count() == pre.node_count()
        &&& (forall |x: El| pre.valid(x)
                ==> #[trigger] post.node_view(x) == pre.node_view(x))
        &&& (forall |x: El| pre.valid(x) ==> #[trigger] post.chain(x) == pre.chain(x))
        &&& post.surface_view().slot_count() == pre.surface_view().slot_count()
        &&& (forall |u: SurfaceId| pre.surface_view().valid(u) && u != s0
                ==> #[trigger] post.surface_view().slot_view(u)
                    == pre.surface_view().slot_view(u))
        &&& post.surface_view().slot_view(s0).alive
                == pre.surface_view().slot_view(s0).alive
        &&& post.surface_view().slot_view(s0).children
                == pre.surface_view().slot_view(s0).children
        &&& post.surface_view().slot_view(s0).parent
                == pre.surface_view().slot_view(s0).parent
        &&& post.body_view() == pre.body_view()
        &&& post.root_view() == pre.root_view()
        &&& post.root_cell_view() == pre.root_cell_view()
        &&& post.observers_view() == pre.observers_view()
        &&& post.listeners_view() == pre.listeners_view()
        &&& post.tasks_view() == pre.tasks_view()
    }

    /// What a structural splice leaves untouched: surface contents, the
    /// registries and the root anchor.
    pub open spec fn splice_frames(pre: Tree, post: Tree) -> bool {
        &&& post.node_count() == pre.node_count()
        &&& post.surface_view().slot_count() == pre.surface_view().slot_count()
        &&& (forall |s: SurfaceId| pre.surface_view().valid(s)
                ==> crate::surface::content_eq(
                    #[trigger] post.surface_view().slot_view(s),
                    pre.surface_view().slot_view(s)))
        &&& post.body_view() == pre.body_view()
        &&& post.root_view() == pre.root_view()
        &&& post.root_cell_view() == pre.root_cell_view()
        &&& post.observers_view() == pre.observers_view()
        &&& post.listeners_view() == pre.listeners_view()
        &&& post.tasks_view() == pre.tasks_view()
    }

    /// What attaching a resource cell to `e` leaves untouched: everything
    /// except `e`'s cell list.
    pub open spec fn cells_step(pre: Tree, post: Tree, e: El) -> bool {
        &&& post.node_count() == pre.node_count()
        &&& (forall |x: El| pre.valid(x) && x != e
                ==> #[trigger] post.node_view(x) == pre.node_view(x))
        &&& post.node_view(e) == (NodeView {
                cells: post.node_view(e).cells,
                ..pre.node_view(e)
            })
        &&& (forall |x: El| pre.valid(x) ==> #[trigger] post.chain(x) == pre.chain(x))
        &&& post.surface_view() == pre.surface_view()
        &&& post.body_view() == pre.body_view()
        &&& post.root_view() == pre.root_view()
        &&& post.root_cell_view() == pre.root_cell_view()
        &&& post.observers_view() == pre.observers_view()
        &&& post.listeners_view() == pre.listeners_view()
        &&& post.tasks_view() == pre.tasks_view()
    }

    /// What binding a task leaves untouched: everything except the task
    /// registry.
    pub open spec fn spawn_frames(pre: Tree, post: Tree) -> bool {
        &&& post.node_count() == pre.node_count()
        &&& (forall |x: El| pre.valid(x)
                ==> #[trigger] post.node_view(x) == pre.node_view(x))
        &&& (forall |x: El| pre.valid(x) ==> #[trigger] post.chain(x) == pre.chain(x))
        &&& post.surface_view() == pre.surface_view()
        &&& post.body_view() == pre.body_view()
        &&& post.root_view() == pre.root_view()
        &&& post.root_cell_view() == pre.root_cell_view()
        &&& post.observers_view() == pre.observers_view()
        &&& post.listeners_view() == pre.listeners_view()
    }

    /// What an observation-registry change leaves untouched: everything
    /// except the observer registry.
    pub open spec fn observe_frames(pre: Tree, post: Tree) -> bool {
        &&& post.node_count() == pre.node_count()
        &&& (forall |x: El| pre.valid(x)
                ==> #[trigger] post.node_view(x) == pre.node_view(x))
        &&& (forall |x: El| pre.valid(x) ==> #[trigger] post.chain(x) == pre.chain(x))
        &&& post.surface_view() == pre.surface_view()
        &&& post.body_view() == pre.body_view()
        &&& post.root_view() == pre.root_view()
        &&& post.root_cell_view() == pre.root_cell_view()
        &&& post.tasks_view() == pre.tasks_view()
        &&& post.listeners_view() == pre.listeners_view()
    }

    /// Crate-internal face of the registry views.
    pub(crate) proof fn lemma_registry_reprs(&self)
        ensures
            self.tasks_view() == self.tasks@,
            self.listeners_view().len() == self.listeners@.len(),
            self.observers_view().len() == self.observers@.len(),
            forall |i: int| 0 <= i < self.observers@.len()
                ==> (#[trigger] self.observers_view()[i]) == (ObserverView {
                    alive: self.observers@[i].alive,
                    targets: self.observers@[i].targets@,
                }),
    {
    }

    /// View congruences for states that share the structural fields.
    pub(crate) proof fn lemma_field_views(&self, pre: Tree)
        requires
            self.nodes == pre.nodes,
            self.anc == pre.anc,
            self.surface == pre.surface,
            self.root_nodes == pre.root_nodes,
            self.body == pre.body,
        ensures
            self.node_count() == pre.node_count(),
            forall |x: El| pre.valid(x)
                ==> #[trigger] self.node_view(x) == pre.node_view(x),
            forall |x: El| pre.valid(x) ==> #[trigger] self.chain(x) == pre.chain(x),
            self.surface_view() == pre.surface_view(),
            self.body_view() == pre.body_view(),
            self.root_view() == pre.root_view(),
    {
        assert forall |x: El| pre.valid(x)
            implies #[trigger] self.node_view(x) == pre.node_view(x)
                && self.chain(x) == pre.chain(x) by {
            assert(self.nodes@[x.spec_raw()] == pre.nodes@[x.spec_raw()]);
        }
    }

    /// View congruences for states that share a registry field.
    pub(crate) proof fn lemma_same_observers(&self, pre: Tree)
        requires
            self.observers == pre.observers,
        ensures
            self.observers_view() == pre.observers_view(),
    {
        assert(self.observers_view() =~= pre.observers_view());
    }

    pub(crate) proof fn lemma_same_listeners(&self, pre: Tree)
        requires
            self.listeners == pre.listeners,
        ensures
            self.listeners_view() == pre.listeners_view(),
    {
        assert(self.listeners_view() =~= pre.listeners_view());
    }

    pub(crate) proof fn lemma_same_tasks(&self, pre: Tree)
        requires
            self.tasks == pre.tasks,
        ensures
            self.tasks_view() == pre.tasks_view(),
    {
    }

    /// Crate-internal face of the anchored cell.
    pub(crate) proof fn lemma_root_cell_repr(&self)
        ensures
            self.root_cell_view() == (match self.root_cell {
                Some(c) => Some(c.effect()),
                None => None,
            }),
    {
    }

    /// A change confined to the registries or the anchored cell neither
    /// disturbs the invariant nor any node or surface state.
    pub(crate) proof fn lemma_registry_frames(&self, pre: Tree)
        requires
            pre.wf(),
            self.nodes == pre.nodes,
            self.surface == pre.surface,
            self.anc == pre.anc,
            self.root_nodes == pre.root_nodes,
            self.body == pre.body,
        ensures
            self.wf(),
            self.node_count() == pre.node_count(),
            forall |x: El| pre.valid(x)
                ==> #[trigger] self.node_view(x) == pre.node_view(x),
            forall |x: El| pre.valid(x) ==> #[trigger] self.chain(x) == pre.chain(x),
            self.surface_view() == pre.surface_view(),
            self.body_view() == pre.body_view(),
            self.root_view() == pre.root_view(),
    {
        self.lemma_registry_wf(pre);
        assert forall |x: El| pre.valid(x)
            implies #[trigger] self.node_view(x) == pre.node_view(x)
                && self.chain(x) == pre.chain(x) by {
            assert(self.nodes@[x.spec_raw()] == pre.nodes@[x.spec_raw()]);
        }
    }

    /// What registering a listener on `e` leaves untouched: everything
    /// except `e`'s cell list and the listener registry.
    pub open spec fn listen_step(pre: Tree, post: Tree, e: El) -> bool {
        &&& post.node_count() == pre.node_count()
        &&& (forall |x: El| pre.valid(x) && x != e
                ==> #[trigger] post.node_view(x) == pre.node_view(x))
        &&& post.node_view(e) == (NodeView {
                cells: post.node_view(e).cells,
                ..pre.node_view(e)
            })
        &&& (forall |x: El| pre.valid(x) ==> #[trigger] post.chain(x) == pre.chain(x))
        &&& post.surface_view() == pre.surface_view()
        &&& post.body_view() == pre.body_view()
        &&& post.root_view() == pre.root_view()
        &&& post.root_cell_view() == pre.root_cell_view()
        &&& post.observers_view() == pre.observers_view()
        &&& post.tasks_view() == pre.tasks_view()
    }
}

/// How many times an effect occurs in a list.
pub open spec fn eff_count(s: Seq<Effect>, f: Effect) -> nat
    decreases s.len(),
{
    if s.len() == 0 {
        0
    } else {
        eff_count(s.drop_last(), f) + (if s.last() == f { 1nat } else { 0nat })
    }
}

/// Counting distributes over concatenation.
pub proof fn lemma_eff_count_concat(a: Seq<Effect>, b: Seq<Effect>, f: Effect)
    ensures
        eff_count(a + b, f) == eff_count(a, f) + eff_count(b, f),
    decreases b.len(),
{
    if b.len() == 0 {
        assert(a + b =~= a);
    } else {
        lemma_eff_count_concat(a, b.drop_last(), f);
        assert((a + b).drop_last() =~= a + b.drop_last());
        assert((a + b).last() == b.last());
    }
}

/// Counting an effect that matches no element gives zero.
pub proof fn lemma_eff_count_absent(s: Seq<Effect>, f: Effect)
    requires
        forall |i: int| 0 <= i < s.len() ==> #[trigger] s[i] != f,
    ensures
        eff_count(s, f) == 0,
    decreases s.len(),
{
    if s.len() > 0 {
        assert(s.last() != f);
        assert forall |i: int| 0 <= i < s.drop_last().len()
            implies #[trigger] s.drop_last()[i] != f by {
            assert(s[i] != f);
        }
        lemma_eff_count_absent(s.drop_last(), f);
    }
}

impl Tree {
    /// How the registries move when one cell with effect `f` is torn down.
    pub open spec fn registry_step(pre: Tree, post: Tree, f: Effect) -> bool {
        match f {
            Effect::DetachListener(k) => {
                &&& post.observers_view() == pre.observers_view()
                &&& post.tasks_view() == pre.tasks_view()
                &&& if (k as int) < pre.listeners_view().len() {
                        post.listeners_view() == pre.listeners_view().update(k as int,
                            ListenerView {
                                active: false,
                                ..pre.listeners_view()[k as int]
                            })
                    } else {
                        post.listeners_view() == pre.listeners_view()
                    }
            },
            Effect::DisconnectObserver(o) => {
                &&& post.listeners_view() == pre.listeners_view()
                &&& post.tasks_view() == pre.tasks_view()
                &&& if (o as int) < pre.observers_view().len() {
                        post.observers_view() == pre.observers_view().update(o as int,
                            ObserverView {
                                alive: false,
                                ..pre.observers_view()[o as int]
                            })
                    } else {
                        post.observers_view() == pre.observers_view()
                    }
            },
            Effect::Unobserve { observer, target } => {
                &&& post.listeners_view() == pre.listeners_view()
                &&& post.tasks_view() == pre.tasks_view()
                &&& if (observer as int) < pre.observers_view().len() {
                        &&& post.observers_view().len() == pre.observers_view().len()
                        &&& (forall |i: int| 0 <= i < pre.observers_view().len()
                                && i != observer as int
                                ==> #[trigger] post.observers_view()[i]
                                    == pre.observers_view()[i])
                        &&& post.observers_view()[observer as int].alive
                            == pre.observers_view()[observer as int].alive
                        &&& !post.observers_view()[observer as int].targets.contains(target)
                        &&& (forall |q: SurfaceId| q != target
                                ==> #[trigger] post.observers_view()[observer as int]
                                        .targets.contains(q)
                                    == pre.observers_view()[observer as int]
                                        .targets.contains(q))
                    } else {
                        post.observers_view() == pre.observers_view()
                    }
            },
            Effect::CancelTask(ts) => {
                &&& post.listeners_view() == pre.listeners_view()
                &&& post.observers_view() == pre.observers_view()
                &&& if (ts as int) < pre.tasks_view().len()
                        && pre.tasks_view()[ts as int] == TaskState::Running {
                        post.tasks_view() == pre.tasks_view().update(ts as int,
                            TaskState::Cancelled)
                    } else {
                        post.tasks_view() == pre.tasks_view()
                    }
            },
            _ => {
                &&& post.listeners_view() == pre.listeners_view()
                &&& post.observers_view() == pre.observers_view()
                &&& post.tasks_view() == pre.tasks_view()
            },
        }
    }

    /// Weak, transitive consequences of any number of registry steps: no
    /// registration grows back, and a decided task stays decided.
    pub open spec fn registry_monotone(pre: Tree, post: Tree) -> bool {
        &&& post.listeners_view().len() == pre.listeners_view().len()
        &&& (forall |k: int| 0 <= k < pre.listeners_view().len()
                ==> (#[trigger] post.listeners_view()[k]) == pre.listeners_view()[k]
                    || post.listeners_view()[k] == (ListenerView {
                        active: false,
                        ..pre.listeners_view()[k]
                    }))
        &&& post.observers_view().len() == pre.observers_view().len()
        &&& (forall |o: int| 0 <= o < pre.observers_view().len()
                ==> ((#[trigger] post.observers_view()[o]).alive
                        ==> pre.observers_view()[o].alive))
        &&& (forall |o: int, q: SurfaceId| 0 <= o < pre.observers_view().len()
                ==> ((#[trigger] post.observers_view()[o].targets.contains(q))
                        ==> pre.observers_view()[o].targets.contains(q)))
        &&& post.tasks_view().len() == pre.tasks_view().len()
        &&& (forall |i: int| 0 <= i < pre.tasks_view().len()
                ==> (#[trigger] post.tasks_view()[i]) == pre.tasks_view()[i]
                    || (pre.tasks_view()[i] == TaskState::Running
                        && post.tasks_view()[i] == TaskState::Cancelled))
    }

    /// Registry changes do not touch the invariant.
    proof fn lemma_registry_wf(&self, pre: Tree)
        requires
            pre.wf(),
            self.nodes == pre.nodes,
            self.surface == pre.surface,
            self.anc == pre.anc,
            self.root_nodes == pre.root_nodes,
            self.body == pre.body,
        ensures
            self.wf(),
    {
        assert forall |x: El| pre.valid(x)
            implies #[trigger] self.node_view(x) == pre.node_view(x)
                && self.chain(x) == pre.chain(x) by {
            assert(self.nodes@[x.spec_raw()] == pre.nodes@[x.spec_raw()]);
        }
        assert forall |x: El| #[trigger] self.alive(x) implies self.owner_ok(x) by {
            assert(pre.alive(x));
            assert(pre.owner_ok(x));
        }
        assert forall |p: El, j: int| self.alive(p) && 0 <= j < self.children(p).len()
            implies #[trigger] self.child_ok(p, j) by {
            assert(pre.alive(p));
            assert(pre.child_ok(p, j));
        }
        assert forall |p: El, j: int| self.alive(p) && 0 <= j < self.stash_of(p).len()
            implies #[trigger] self.stash_entry_ok(p, j) by {
            assert(pre.alive(p));
            assert(pre.stash_entry_ok(p, j));
        }
        assert forall |p: El, a: int, b: int|
            self.alive(p) && 0 <= a < b < self.stash_of(p).len()
            implies (#[trigger] self.stash_of(p)[a]) != (#[trigger] self.stash_of(p)[b]) by {
            assert(pre.alive(p));
            assert(pre.stash_of(p) == self.stash_of(p));
        }
        assert forall |x: El| #[trigger] self.alive(x) implies self.surface_ok(x) by {
            assert(pre.alive(x));
            assert(pre.surface_ok(x));
            assert(self.child_surfaces(x) =~= pre.child_surfaces(x)) by {
                assert forall |j: int| 0 <= j < self.children(x).len()
                    implies #[trigger] self.child_surfaces(x)[j]
                        == pre.child_surfaces(x)[j] by {
                    assert(pre.child_ok(x, j));
                }
            }
        }
        assert forall |a: El, b: El| self.alive(a) && self.alive(b) && a != b
            implies (#[trigger] self.surface_of(a)) != (#[trigger] self.surface_of(b)) by {
            assert(pre.alive(a) && pre.alive(b));
        }
        assert forall |j: int| 0 <= j < self.root_view().len()
            implies #[trigger] self.root_entry_ok(j) by {
            assert(pre.root_entry_ok(j));
        }
        assert forall |x: El| #[trigger] self.alive(x)
            implies self.surface_of(x) != self.body_view() by {
            assert(pre.alive(x));
            assert(pre.surface_of(x) != pre.body_view());
        }
    }

    /// Tear one resource cell down: record its external effect and update
    /// the registry it refers to.
    pub(crate) fn teardown_cell(&mut self, v: ScopeValue, fx: &mut Vec<Effect>)
        requires
            old(self).wf(),
        ensures
            final(self).wf(),
            final(self).nodes == old(self).nodes,
            final(self).surface == old(self).surface,
            final(self).anc == old(self).anc,
            final(self).root_nodes == old(self).root_nodes,
            final(self).root_cell == old(self).root_cell,
            final(self).body == old(self).body,
            final(fx)@ == old(fx)@.push(v.effect()),
            Tree::registry_step(*old(self), *final(self), v.effect()),
            Tree::registry_monotone(*old(self), *final(self)),
    {
        let ghost pre = *old(self);
        proof {
            crate::own::lemma_effect(v);
        }
        match v.atom {
            crate::own::Atom::Payload(k) => {
                fx.push(Effect::ReleaseValue(k));
            },
            crate::own::Atom::Deferred(k) => {
                fx.push(Effect::RunDeferred(k));
            },
            crate::own::Atom::Listener(k) => {
                if k < self.listeners.len() {
                    self.listeners[k].active = false;
                    proof {
                        assert(self.listeners_view() =~= pre.listeners_view().update(
                            k as int,
                            ListenerView {
                                active: false,
                                ..pre.listeners_view()[k as int]
                            }));
                    }
                }
                fx.push(Effect::DetachListener(k));
            },
            crate::own::Atom::ObserverOwned(o) => {
                if o < self.observers.len() {
                    self.observers[o].alive = false;
                    proof {
                        assert(self.observers_view() =~= pre.observers_view().update(
                            o as int,
                            ObserverView {
                                alive: false,
                                ..pre.observers_view()[o as int]
                            }));
                    }
                }
                fx.push(Effect::DisconnectObserver(o));
            },
            crate::own::Atom::Observation { observer, target } => {
                if observer < self.observers.len() {
                    let ghost tv0 = self.observers@[observer as int].targets@;
                    let mut kept: Vec<SurfaceId> = Vec::new();
                    let n = self.observers[observer].targets.len();
                    let mut i: usize = 0;
                    while i < n
                        invariant
                            observer < self.observers@.len(),
                            n == self.observers@[observer as int].targets@.len(),
                            self.observers@[observer as int].targets@ == tv0,
                            i <= n,
                            !kept@.contains(target),
                            forall |q: SurfaceId| q != target
                                ==> (#[trigger] kept@.contains(q)
                                    <==> tv0.take(i as int).contains(q)),
                            forall |q: SurfaceId| #[trigger] kept@.contains(q)
                                ==> tv0.contains(q),
                        decreases n - i,
                    {
                        let tg = self.observers[observer].targets[i];
                        let ghost kept0 = kept@;
                        if tg != target {
                            kept.push(tg);
                        }
                        proof {
                            let i1: int = i as int + 1;
                            assert(tv0.take(i1).drop_last() =~= tv0.take(i as int));
                            assert(tv0.take(i1).last() == tg);
                            assert forall |q: SurfaceId| q != target
                                implies (#[trigger] kept@.contains(q)
                                    <==> tv0.take(i1).contains(q)) by {
                                if kept@.contains(q) {
                                    let z = choose |z: int|
                                        0 <= z < kept@.len() && kept@[z] == q;
                                    if z < kept0.len() {
                                        assert(kept0[z] == q);
                                        assert(kept0.contains(q));
                                        assert(tv0.take(i as int).contains(q));
                                        let w = choose |w: int|
                                            0 <= w < tv0.take(i as int).len()
                                            && tv0.take(i as int)[w] == q;
                                        assert(tv0.take(i1)[w] == q);
                                        assert(tv0.take(i1).contains(q));
                                    } else {
                                        assert(q == tg);
                                        assert(tv0.take(i1)[i as int] == q);
                                        assert(tv0.take(i1).contains(q));
                                    }
                                }
                                if tv0.take(i1).contains(q) {
                                    let z = choose |z: int|
                                        0 <= z < tv0.take(i1).len()
                                        && tv0.take(i1)[z] == q;
                                    if z < i {
                                        assert(tv0.take(i as int)[z] == q);
                                        assert(tv0.take(i as int).contains(q));
                                        assert(kept0.contains(q));
                                        let w = choose |w: int|
                                            0 <= w < kept0.len() && kept0[w] == q;
                                        assert(kept@[w] == q);
                                        assert(kept@.contains(q));
                                    } else {
                                        assert(q == tg);
                                        assert(kept@[kept@.len() - 1] == tg);
                                        assert(kept@.contains(q));
                                    }
                                }
                            }
                            assert forall |q: SurfaceId| #[trigger] kept@.contains(q)
                                implies tv0.contains(q) by {
                                let z = choose |z: int|
                                    0 <= z < kept@.len() && kept@[z] == q;
                                if z < kept0.len() {
                                    assert(kept0[z] == q);
                                } else {
                                    assert(q == tg);
                                    assert(tv0[i as int] == tg);
                                }
                            }
                        }
                        i = i + 1;
                    }
                    proof {
                        assert(tv0.take(n as int) =~= tv0);
                    }
                    self.observers[observer].targets = kept;
                    proof {
                        assert(self.observers_view().len() == pre.observers_view().len());
                        assert forall |j: int| 0 <= j < pre.observers_view().len()
                            && j != observer as int
                            implies #[trigger] self.observers_view()[j]
                                == pre.observers_view()[j] by {
                            assert(self.observers@[j] == pre.observers@[j]);
                        }
                    }
                }
                fx.push(Effect::Unobserve { observer, target });
            },
            crate::own::Atom::Task(ts) => {
                if ts < self.tasks.len() {
                    let running = match self.tasks[ts] {
                        TaskState::Running => true,
                        _ => false,
                    };
                    if running {
                        self.tasks[ts] = TaskState::Cancelled;
                        proof {
                            assert(self.tasks_view() =~= pre.tasks_view().update(
                                ts as int, TaskState::Cancelled));
                        }
                    }
                }
                fx.push(Effect::CancelTask(ts));
            },
        }
        proof {
            self.lemma_registry_wf(pre);
        }
    }
}

impl Tree {
    /// The relation between the tree before and after the node-level part
    /// of removing `c`, the first stash entry of `p`.
    pub(crate) open spec fn unstash_rel(self, pre: Tree, p: El, c: El) -> bool {
        &&& self.node_count() == pre.node_count()
        &&& self.body == pre.body
        &&& self.root_nodes == pre.root_nodes
        &&& self.node_view(p) == (NodeView {
                stash: pre.stash_of(p).drop_first(),
                ..pre.node_view(p)
            })
        &&& self.node_view(c) == (NodeView {
                owner: Owner::Detached,
                ..pre.node_view(c)
            })
        &&& (forall |x: El| pre.valid(x) && x != p && x != c
                ==> #[trigger] self.node_view(x) == pre.node_view(x))
        &&& (forall |x: El| pre.valid(x)
                ==> #[trigger] self.chain(x)
                    == (if x == c || pre.chain(x).contains(c.spec_raw()) {
                        pre.chain(x).skip(pre.chain(c).len() as int)
                    } else {
                        pre.chain(x)
                    }))
    }

    /// After removing the first stash entry, the invariant holds again.
    #[verifier::rlimit(100)]
    proof fn lemma_unstash_wf(&self, pre: Tree, p: El, c: El)
        requires
            pre.wf(),
            pre.alive(p),
            pre.stash_of(p).len() > 0,
            c == pre.stash_of(p)[0],
            c != p,
            self.unstash_rel(pre, p, c),
            self.observers == pre.observers,
            self.listeners == pre.listeners,
            self.tasks == pre.tasks,
            self.root_cell == pre.root_cell,
            self.surface.wf(),
            self.surface.slot_count() == pre.surface.slot_count(),
            self.surface.parent(pre.surface_of(c)) is None,
            forall |s: SurfaceId| pre.surface.valid(s)
                ==> (#[trigger] self.surface.slot_view(s)).alive
                    == pre.surface.slot_view(s).alive,
            forall |s: SurfaceId| pre.surface.valid(s)
                ==> crate::surface::content_eq(
                    #[trigger] self.surface.slot_view(s),
                    pre.surface.slot_view(s)),
            // surface structure: every wrapped surface keeps children and
            // parent links, except that the unstashed node's surface lost
            // its (unwrapped) parent
            forall |x: El| pre.alive(x)
                ==> (#[trigger] self.surface.slot_view(pre.surface_of(x))).children
                    == pre.surface.slot_view(pre.surface_of(x)).children,
            forall |x: El| pre.alive(x) && x != c
                ==> (#[trigger] self.surface.slot_view(pre.surface_of(x))).parent
                    == pre.surface.slot_view(pre.surface_of(x)).parent,
        ensures
            self.wf(),
    {
        let stash = pre.stash_of(p);
        assert(pre.stash_entry_ok(p, 0));
        assert(pre.alive(c));
        assert(pre.owner_ok(c));
        assert(pre.owner_ok(p));
        // pointwise move of views
        assert forall |x: El| pre.valid(x)
            implies #[trigger] self.node_view(x).alive == pre.node_view(x).alive
                && self.node_view(x).surface == pre.node_view(x).surface
                && self.node_view(x).children == pre.node_view(x).children
                && self.node_view(x).sib == pre.node_view(x).sib
                && (x != c ==> self.node_view(x).owner == pre.node_view(x).owner)
                && (x != p ==> self.node_view(x).stash == pre.node_view(x).stash) by {
            if x == p {
            } else if x == c {
            } else {
                assert(self.node_view(x) == pre.node_view(x));
            }
        }
        // chains_ok
        assert forall |x: El| #[trigger] self.alive(x) implies self.owner_ok(x) by {
            assert(pre.alive(x));
            assert(pre.owner_ok(x));
            if x == c {
                assert(self.chain(c) == pre.chain(c).skip(pre.chain(c).len() as int));
                assert(self.chain(c) =~= Seq::<int>::empty());
            } else {
                match pre.owner_of(x) {
                    Owner::Detached => {
                        assert(pre.chain(x).len() == 0);
                        assert(self.chain(x) == pre.chain(x));
                    },
                    Owner::Root => {
                        assert(pre.chain(x).len() == 0);
                        assert(self.chain(x) == pre.chain(x));
                        assert(self.root_view() == pre.root_view());
                    },
                    Owner::Parent(o) => {
                        assert(pre.chain(x) == pre.chain(o).push(o.spec_raw()));
                        self.lemma_unstash_owner_chain(pre, p, c, x, o);
                        assert(self.children(o) == pre.children(o));
                        assert(self.children(o)[self.sib_index(x)] == x);
                    },
                    Owner::Stash(o) => {
                        assert(pre.chain(x) == pre.chain(o).push(o.spec_raw()));
                        self.lemma_unstash_owner_chain(pre, p, c, x, o);
                        if o == p {
                            let z = choose |z: int|
                                0 <= z < stash.len() && stash[z] == x;
                            assert(z != 0);
                            assert(self.stash_of(p)[z - 1] == x);
                            assert(self.stash_of(p).contains(x));
                        } else {
                            assert(self.stash_of(o) == pre.stash_of(o));
                        }
                    },
                }
            }
        }
        // child_ok
        assert forall |q: El, j: int| self.alive(q) && 0 <= j < self.children(q).len()
            implies #[trigger] self.child_ok(q, j) by {
            assert(pre.alive(q));
            assert(self.children(q) == pre.children(q));
            assert(pre.child_ok(q, j));
            let d = pre.children(q)[j];
            assert(d != c) by {
                if d == c {
                    assert(pre.owner_of(c) is Parent);
                }
            }
        }
        // stash entries
        assert forall |q: El, j: int| self.alive(q) && 0 <= j < self.stash_of(q).len()
            implies #[trigger] self.stash_entry_ok(q, j) by {
            assert(pre.alive(q));
            if q == p {
                assert(self.stash_of(q)[j] == stash[j + 1]);
                assert(pre.stash_entry_ok(p, j + 1));
                let d = stash[j + 1];
                assert(d != c) by {
                    if d == c {
                        assert(stash[0] == stash[j + 1]);
                    }
                }
            } else {
                assert(self.stash_of(q) == pre.stash_of(q));
                assert(pre.stash_entry_ok(q, j));
                let d = pre.stash_of(q)[j];
                assert(d != c) by {
                    if d == c {
                        assert(pre.owner_of(c) == Owner::Stash(q));
                        assert(pre.owner_of(c) == Owner::Stash(p));
                    }
                }
            }
        }
        assert forall |q: El, a: int, b: int|
            self.alive(q) && 0 <= a < b < self.stash_of(q).len()
            implies (#[trigger] self.stash_of(q)[a]) != (#[trigger] self.stash_of(q)[b]) by {
            assert(pre.alive(q));
            if q == p {
                assert(self.stash_of(q)[a] == stash[a + 1]);
                assert(self.stash_of(q)[b] == stash[b + 1]);
            } else {
                assert(self.stash_of(q) == pre.stash_of(q));
            }
        }
        // surface mirror
        assert forall |x: El| #[trigger] self.alive(x) implies self.surface_ok(x) by {
            assert(pre.alive(x));
            assert(pre.surface_ok(x));
            let sx = pre.surface_of(x);
            assert(self.surface_of(x) == sx);
            assert(self.surface.slot_view(sx).alive == pre.surface.slot_view(sx).alive);
            assert(self.child_surfaces(x) =~= pre.child_surfaces(x)) by {
                assert forall |j: int| 0 <= j < self.children(x).len()
                    implies #[trigger] self.child_surfaces(x)[j]
                        == pre.child_surfaces(x)[j] by {
                    assert(pre.child_ok(x, j));
                }
            }
            assert(self.surface.slot_view(sx).children
                == pre.surface.slot_view(sx).children);
            match pre.owner_of(x) {
                Owner::Detached => {
                    if x != c {
                        assert(self.surface.slot_view(sx).parent
                            == pre.surface.slot_view(sx).parent);
                    }
                },
                Owner::Parent(o) => {
                    assert(x != c);
                    assert(self.surface.slot_view(sx).parent
                        == pre.surface.slot_view(sx).parent);
                },
                _ => {},
            }
        }
        assert forall |a: El, b: El| self.alive(a) && self.alive(b) && a != b
            implies (#[trigger] self.surface_of(a)) != (#[trigger] self.surface_of(b)) by {
            assert(pre.alive(a) && pre.alive(b));
        }
        assert forall |j: int| 0 <= j < self.root_view().len()
            implies #[trigger] self.root_entry_ok(j) by {
            assert(pre.root_entry_ok(j));
            let x = pre.root_view()[j];
            assert(x != c) by {
                if x == c {
                    assert(pre.owner_of(c) == Owner::Root);
                }
            }
        }
        assert(self.surface_view().alive(self.body_view()));
        assert forall |x: El| #[trigger] self.alive(x)
            implies self.surface_of(x) != self.body_view() by {
            assert(pre.alive(x));
            assert(self.node_view(x).surface == pre.node_view(x).surface);
            assert(pre.surface_of(x) != pre.body_view());
        }
    }

    /// Chain consistency for surviving owner edges in an unstash step;
    /// same argument as for a detach.
    proof fn lemma_unstash_owner_chain(&self, pre: Tree, p: El, c: El, x: El, o: El)
        requires
            pre.wf(),
            pre.alive(p),
            pre.stash_of(p).len() > 0,
            c == pre.stash_of(p)[0],
            pre.valid(x),
            pre.valid(o),
            pre.alive(o),
            x != c,
            pre.chain(x) == pre.chain(o).push(o.spec_raw()),
            forall |y: El| pre.valid(y)
                ==> #[trigger] self.chain(y)
                    == (if y == c || pre.chain(y).contains(c.spec_raw()) {
                        pre.chain(y).skip(pre.chain(c).len() as int)
                    } else {
                        pre.chain(y)
                    }),
        ensures
            self.chain(x) == self.chain(o).push(o.spec_raw()),
    {
        assert(pre.stash_entry_ok(p, 0));
        assert(pre.alive(c));
        assert(pre.owner_ok(c));
        let ll = pre.chain(c).len() as int;
        if pre.chain(x).contains(c.spec_raw()) {
            if o.spec_raw() == c.spec_raw() {
                assert(o == c);
                assert(pre.chain(o).len() == ll);
                assert(self.chain(x) == pre.chain(x).skip(ll));
                assert(self.chain(o) == pre.chain(o).skip(ll));
                assert(self.chain(o) =~= Seq::<int>::empty());
                assert(self.chain(x) =~= self.chain(o).push(o.spec_raw()));
            } else {
                assert(pre.chain(o).contains(c.spec_raw())) by {
                    let k = choose |k: int|
                        0 <= k < pre.chain(x).len() && pre.chain(x)[k] == c.spec_raw();
                    if k == pre.chain(o).len() {
                        assert(pre.chain(x)[k] == o.spec_raw());
                        assert(false);
                    }
                    assert(pre.chain(o)[k] == c.spec_raw());
                }
                pre.lemma_chain_prefix(o, c.spec_raw());
                assert(pre.chain(o).len() > ll);
                assert(self.chain(x) == pre.chain(x).skip(ll));
                assert(self.chain(o) == pre.chain(o).skip(ll));
                assert(self.chain(x) =~= self.chain(o).push(o.spec_raw()));
            }
        } else {
            assert(!pre.chain(o).contains(c.spec_raw())) by {
                if pre.chain(o).contains(c.spec_raw()) {
                    let k = choose |k: int|
                        0 <= k < pre.chain(o).len() && pre.chain(o)[k] == c.spec_raw();
                    assert(pre.chain(x)[k] == c.spec_raw());
                }
            }
            assert(o != c) by {
                if o == c {
                    assert(pre.chain(x)[pre.chain(o).len() as int] == o.spec_raw());
                }
            }
            assert(self.chain(x) == pre.chain(x));
            assert(self.chain(o) == pre.chain(o));
        }
    }

    /// Remove the first stash entry of `p`, leaving it detached. If its
    /// surface element sits under a surface parent (necessarily an
    /// unwrapped one), it is removed from there in the same step.
    fn unstash_first(&mut self, p: El) -> (c: El)
        requires
            old(self).wf(),
            old(self).alive(p),
            old(self).stash_of(p).len() > 0,
        ensures
            final(self).wf(),
            c == old(self).stash_of(p)[0],
            final(self).alive(c),
            final(self).is_detached(c),
            final(self).node_count() == old(self).node_count(),
            final(self).node_view(p) == (NodeView {
                stash: old(self).stash_of(p).drop_first(),
                ..old(self).node_view(p)
            }),
            final(self).node_view(c) == (NodeView {
                owner: Owner::Detached,
                ..old(self).node_view(c)
            }),
            forall |x: El| old(self).valid(x) && x != p && x != c
                ==> #[trigger] final(self).node_view(x) == old(self).node_view(x),
            forall |x: El| old(self).valid(x)
                ==> #[trigger] final(self).chain(x)
                    == (if x == c || old(self).chain(x).contains(c.spec_raw()) {
                        old(self).chain(x).skip(old(self).chain(c).len() as int)
                    } else {
                        old(self).chain(x)
                    }),
            final(self).surface_view().slot_count() == old(self).surface_view().slot_count(),
            forall |s: SurfaceId| old(self).surface_view().valid(s)
                ==> (#[trigger] final(self).surface_view().slot_view(s)).alive
                    == old(self).surface_view().slot_view(s).alive,
            forall |s: SurfaceId| old(self).surface_view().valid(s)
                ==> crate::surface::content_eq(
                    #[trigger] final(self).surface_view().slot_view(s),
                    old(self).surface_view().slot_view(s)),
            final(self).surface_view().parent(old(self).surface_of(c)) is None,
            final(self).body_view() == old(self).body_view(),
            final(self).root_view() == old(self).root_view(),
            final(self).root_cell_view() == old(self).root_cell_view(),
            final(self).observers_view() == old(self).observers_view(),
            final(self).listeners_view() == old(self).listeners_view(),
            final(self).tasks_view() == old(self).tasks_view(),
    {
        let ghost pre = *old(self);
        let pi = p.0;
        let c = self.nodes[pi].stash.remove(0);
        proof {
            assert(pre.stash_entry_ok(p, 0));
            assert(c == pre.stash_of(p)[0]);
            assert(pre.valid(c));
            assert(pre.alive(c));
            assert(c != p) by {
                if c == p {
                    assert(pre.owner_ok(p));
                    assert(pre.chain(p) == pre.chain(p).push(p.spec_raw()));
                }
            }
        }
        let ci = c.0;
        self.nodes[ci].owner = Owner::Detached;
        let ghost mid = *self;
        let cs = self.nodes[ci].surface;
        proof {
            assert(cs == pre.surface_of(c));
            assert(pre.surface_ok(c));
            assert(pre.surface_view().alive(cs));
        }
        match self.surface.parent_of(cs) {
            Some(q) => {
                let pos = self.surface.pos_of(cs);
                proof {
                    assert(pre.surface_view().parent(cs) == Some(q));
                    pre.surface_view().lemma_parent_link(cs, q);
                }
                let back = self.surface.remove_at(q, pos);
                proof {
                    assert(back == cs);
                }
            },
            None => {},
        }
        proof {
            // chains: strip the stash prefix over c's subtree
            self.anc@ = Map::new(
                |i: int| true,
                |i: int| if i == c.spec_raw() || pre.anc@[i].contains(c.spec_raw()) {
                    pre.anc@[i].skip(pre.chain(c).len() as int)
                } else {
                    pre.anc@[i]
                },
            );
            assert forall |x: El| pre.valid(x)
                implies #[trigger] self.node_view(x) == mid.node_view(x) by {
                assert(self.nodes@[x.spec_raw()] == mid.nodes@[x.spec_raw()]);
            }
            assert forall |x: El| pre.valid(x)
                implies #[trigger] self.chain(x)
                    == (if x == c || pre.chain(x).contains(c.spec_raw()) {
                        pre.chain(x).skip(pre.chain(c).len() as int)
                    } else {
                        pre.chain(x)
                    }) by {
                if x != c && x.spec_raw() == c.spec_raw() {
                    assert(x == c);
                }
            }
            assert(self.node_view(p) == (NodeView {
                stash: pre.stash_of(p).drop_first(),
                ..pre.node_view(p)
            })) by {
                assert(mid.node_view(p).stash =~= pre.stash_of(p).drop_first());
            }
            assert(self.node_view(c) == (NodeView {
                owner: Owner::Detached,
                ..pre.node_view(c)
            }));
            assert forall |x: El| pre.valid(x) && x != p && x != c
                implies #[trigger] self.node_view(x) == pre.node_view(x) by {
                assert(mid.node_view(x) == pre.node_view(x));
            }
            assert(self.unstash_rel(pre, p, c));
            // how the surface moved, by case on whether cs had a parent
            match pre.surface_view().parent(cs) {
                Some(q) => {
                    pre.surface_view().lemma_parent_link(cs, q);
                    let posc = pre.surface_view().pos(cs);
                    let qkids = pre.surface_view().children(q);
                    // classification of any surface slot
                    assert forall |s: SurfaceId| pre.surface_view().valid(s) && s != q
                        && !qkids.skip(posc).contains(s)
                        implies #[trigger] self.surface.slot_view(s)
                            == pre.surface.slot_view(s) by {}
                    assert(qkids.skip(posc)[0] == cs);
                    assert forall |s: SurfaceId| pre.surface_view().valid(s)
                        implies (#[trigger] self.surface.slot_view(s)).alive
                            == pre.surface.slot_view(s).alive
                            && self.surface.slot_view(s).children
                                == (if s == q { qkids.remove(posc) }
                                    else { pre.surface.slot_view(s).children })
                            && self.surface.slot_view(s).parent
                                == (if s == cs { Option::<SurfaceId>::None }
                                    else { pre.surface.slot_view(s).parent })
                            && crate::surface::content_eq(
                                self.surface.slot_view(s),
                                pre.surface.slot_view(s)) by {
                        if s == q {
                            assert(cs != q) by {
                                if cs == q {
                                    assert(pre.surface_view().children(q)[posc] == q);
                                }
                            }
                        } else if s == cs {
                        } else if qkids.skip(posc).contains(s) {
                            let k = choose |k: int|
                                0 <= k < qkids.skip(posc).len()
                                && qkids.skip(posc)[k] == s;
                            assert(qkids[posc + k] == s);
                            if k == 0 {
                                assert(s == cs);
                                assert(false);
                            } else {
                                assert(self.surface.slot_view(qkids[posc + k])
                                    == (crate::surface::SlotView {
                                        pos: posc + k - 1,
                                        ..pre.surface.slot_view(qkids[posc + k])
                                    }));
                            }
                        } else {
                            assert(self.surface.slot_view(s) == pre.surface.slot_view(s));
                        }
                    }
                    // no live node's surface is q or one of the moved
                    // siblings' parents in a way that changes its links
                    assert forall |x: El| pre.alive(x)
                        implies (#[trigger] self.surface.slot_view(pre.surface_of(x)))
                                .children
                            == pre.surface.slot_view(pre.surface_of(x)).children by {
                        assert(pre.surface_ok(x));
                        let sx = pre.surface_of(x);
                        if sx == q {
                            assert(pre.surface_view().children(q)
                                == pre.child_surfaces(x));
                            assert(pre.child_ok(x, posc));
                            let y = pre.children(x)[posc];
                            assert(pre.child_surfaces(x)[posc] == pre.surface_of(y));
                            assert(pre.surface_of(y) == cs);
                            assert(y == c) by {
                                if y != c {
                                    assert(pre.alive(y) && pre.alive(c));
                                }
                            }
                            assert(pre.owner_of(c) == Owner::Parent(x));
                            assert(pre.owner_of(c) == Owner::Stash(p));
                            assert(false);
                        }
                    }
                    assert forall |x: El| pre.alive(x) && x != c
                        implies (#[trigger] self.surface.slot_view(pre.surface_of(x)))
                                .parent
                            == pre.surface.slot_view(pre.surface_of(x)).parent by {
                        assert(pre.surface_ok(x));
                        assert(pre.surface_of(x) != cs) by {
                            assert(pre.alive(x) && pre.alive(c));
                        }
                    }
                },
                None => {
                    assert(self.surface == mid.surface);
                    assert forall |s: SurfaceId| pre.surface_view().valid(s)
                        implies #[trigger] self.surface.slot_view(s)
                            == pre.surface.slot_view(s) by {}
                },
            }
            self.lemma_unstash_wf(pre, p, c);
        }
        c
    }
}

impl Tree {
    /// Aliveness by raw arena index.
    pub closed spec fn alive_raw(self, i: int) -> bool {
        0 <= i < self.node_count() && self.nodes@[i].alive
    }

    /// The set of raw indices of live nodes in the subtree owned by `e`,
    /// including `e` itself.
    pub closed spec fn subtree_raw(self, e: El) -> Set<int> {
        Set::new(|i: int| self.alive_raw(i)
            && (i == e.spec_raw() || self.anc@[i].contains(e.spec_raw())))
    }

    /// Whether the given nodes' surface elements (as recorded in `t0`)
    /// stand consecutively, in order, as children of `q` in `t`, starting
    /// at position `off`.
    pub open spec fn placed_run(t0: Tree, t: Tree, q: SurfaceId, off: int, els: Seq<El>) -> bool {
        &&& t.surface_view().alive(q)
        &&& 0 <= off
        &&& off + els.len() <= t.surface_view().children(q).len()
        &&& (forall |k: int| 0 <= k < els.len()
                ==> t.surface_view().children(q)[off + k]
                    == t0.surface_of(#[trigger] els[k]))
    }

    /// Whether some live node of `e`'s subtree wraps the surface `s`.
    pub open spec fn subtree_surf(self, e: El, s: SurfaceId) -> bool {
        exists |x: El| #[trigger] self.alive(x) && self.in_subtree(e, x)
            && self.surface_of(x) == s
    }

    /// Arena indices fit in `usize`.
    proof fn lemma_count_bound(self)
        ensures
            self.node_count() <= usize::MAX,
    {
        broadcast use vstd::std_specs::vec::axiom_spec_len;
        assert(vstd::std_specs::vec::spec_vec_len(&self.nodes) == self.nodes@.len());
    }

    proof fn lemma_subtree_finite(self, e: El)
        ensures
            self.subtree_raw(e).finite(),
            self.subtree_raw(e).len() <= self.node_count(),
    {
        vstd::set_lib::lemma_int_range(0, self.node_count());
        vstd::set_lib::lemma_len_subset(
            self.subtree_raw(e),
            vstd::set_lib::set_int_range(0, self.node_count()),
        );
    }

    /// The subtree of a direct child or stash entry of `e` is strictly
    /// inside `e`'s subtree.
    proof fn lemma_child_subtree(self, e: El, c: El)
        requires
            self.wf(),
            self.alive(e),
            self.alive(c),
            self.chain(c) == self.chain(e).push(e.spec_raw()),
        ensures
            self.subtree_raw(c).subset_of(self.subtree_raw(e).remove(e.spec_raw())),
            self.subtree_raw(c).len() < self.subtree_raw(e).len(),
    {
        self.lemma_count_bound();
        assert(self.chain(c).contains(e.spec_raw())) by {
            assert(self.chain(c).last() == e.spec_raw());
        }
        assert forall |i: int| self.subtree_raw(c).contains(i)
            implies self.subtree_raw(e).remove(e.spec_raw()).contains(i) by {
            assert(self.alive_raw(i));
            let x = El(i as usize);
            assert(self.alive(x));
            if i == c.spec_raw() {
                assert(self.chain(x).contains(e.spec_raw()));
                assert(i != e.spec_raw()) by {
                    if i == e.spec_raw() {
                        assert(x == e);
                        self.lemma_chain_no_self(e);
                    }
                }
            } else {
                assert(self.anc@[i].contains(c.spec_raw()));
                assert(self.chain(x).contains(c.spec_raw()));
                self.lemma_chain_prefix(x, c.spec_raw());
                assert(self.chain(x).take(self.chain(c).len() as int + 1)
                    == self.chain(c).push(c.spec_raw()));
                assert(self.chain(x)[self.chain(e).len() as int] == e.spec_raw()) by {
                    assert(self.chain(c).push(c.spec_raw())[self.chain(e).len() as int]
                        == e.spec_raw());
                }
                assert(self.chain(x).contains(e.spec_raw()));
                assert(i != e.spec_raw()) by {
                    if i == e.spec_raw() {
                        assert(x == e);
                        self.lemma_chain_no_self(e);
                    }
                }
            }
        }
        self.lemma_subtree_finite(e);
        vstd::set_lib::lemma_len_subset(
            self.subtree_raw(c),
            self.subtree_raw(e).remove(e.spec_raw()),
        );
        assert(self.subtree_raw(e).contains(e.spec_raw()));
        assert(self.subtree_raw(e).remove(e.spec_raw()).len()
            == self.subtree_raw(e).len() - 1);
    }

    /// Detaching a node (stripping the owner prefix from the chains of its
    /// subtree) does not change which nodes belong to that subtree.
    proof fn lemma_strip_subtree(post: Tree, pre: Tree, c: El)
        requires
            pre.wf(),
            pre.alive(c),
            post.node_count() == pre.node_count(),
            forall |x: El| pre.valid(x)
                ==> #[trigger] post.alive_raw(x.spec_raw()) == pre.alive_raw(x.spec_raw()),
            forall |x: El| pre.valid(x)
                ==> #[trigger] post.chain(x)
                    == (if x == c || pre.chain(x).contains(c.spec_raw()) {
                        pre.chain(x).skip(pre.chain(c).len() as int)
                    } else {
                        pre.chain(x)
                    }),
        ensures
            post.subtree_raw(c) =~= pre.subtree_raw(c),
    {
        pre.lemma_count_bound();
        assert(post.node_count() == pre.node_count());
        assert forall |i: int| #[trigger] post.subtree_raw(c).contains(i)
            implies pre.subtree_raw(c).contains(i) by {
            let x = El(i as usize);
            assert(pre.valid(x));
            assert(pre.alive_raw(i));
            if i != c.spec_raw() {
                assert(post.chain(x).contains(c.spec_raw()));
                if !pre.chain(x).contains(c.spec_raw()) && x != c {
                    assert(post.chain(x) == pre.chain(x));
                    assert(false);
                }
            }
        }
        assert forall |i: int| #[trigger] pre.subtree_raw(c).contains(i)
            implies post.subtree_raw(c).contains(i) by {
            let x = El(i as usize);
            assert(pre.valid(x));
            if i != c.spec_raw() {
                assert(pre.chain(x).contains(c.spec_raw()));
                assert(pre.alive(x));
                pre.lemma_chain_prefix(x, c.spec_raw());
                let ll = pre.chain(c).len() as int;
                assert(pre.chain(x).take(ll + 1) == pre.chain(c).push(c.spec_raw()));
                assert(pre.chain(x)[ll] == c.spec_raw()) by {
                    assert(pre.chain(c).push(c.spec_raw())[ll] == c.spec_raw());
                }
                assert(post.chain(x) == pre.chain(x).skip(ll));
                assert(post.chain(x)[0] == c.spec_raw());
                assert(post.chain(x).contains(c.spec_raw()));
            }
        }
    }

    /// Composition of the weak registry facts.
    pub(crate) proof fn lemma_monotone_trans(a: Tree, b: Tree, c: Tree)
        requires
            Tree::registry_monotone(a, b),
            Tree::registry_monotone(b, c),
        ensures
            Tree::registry_monotone(a, c),
    {
        assert forall |k: int| 0 <= k < a.listeners_view().len()
            implies (#[trigger] c.listeners_view()[k]) == a.listeners_view()[k]
                || c.listeners_view()[k] == (ListenerView {
                    active: false,
                    ..a.listeners_view()[k]
                }) by {
            assert(b.listeners_view()[k] == a.listeners_view()[k]
                || b.listeners_view()[k] == (ListenerView {
                    active: false,
                    ..a.listeners_view()[k]
                }));
        }
        assert forall |i: int| 0 <= i < a.tasks_view().len()
            implies (#[trigger] c.tasks_view()[i]) == a.tasks_view()[i]
                || (a.tasks_view()[i] == TaskState::Running
                    && c.tasks_view()[i] == TaskState::Cancelled) by {
            assert(b.tasks_view()[i] == a.tasks_view()[i]
                || (a.tasks_view()[i] == TaskState::Running
                    && b.tasks_view()[i] == TaskState::Cancelled));
        }
    }

    /// Mark a fully bared node (no children, no stash, no cells required)
    /// as released, and release its surface element.
    fn kill_node(&mut self, e: El)
        requires
            old(self).wf(),
            old(self).alive(e),
            old(self).is_detached(e),
            old(self).children(e).len() == 0,
            old(self).stash_of(e).len() == 0,
        ensures
            final(self).wf(),
            final(self).node_count() == old(self).node_count(),
            final(self).surface_view().slot_count() == old(self).surface_view().slot_count(),
            forall |i: int| #[trigger] final(self).alive_raw(i)
                <==> (old(self).alive_raw(i) && i != e.spec_raw()),
            forall |x: El| old(self).valid(x) && x != e
                ==> #[trigger] final(self).node_view(x) == old(self).node_view(x),
            forall |x: El| old(self).valid(x)
                ==> #[trigger] final(self).chain(x) == old(self).chain(x),
            !final(self).surface_view().alive(old(self).surface_of(e)),
            forall |s: SurfaceId| old(self).surface_view().valid(s)
                && s != old(self).surface_of(e)
                ==> #[trigger] final(self).surface_view().slot_view(s)
                    == old(self).surface_view().slot_view(s),
            crate::surface::content_eq(
                final(self).surface_view().slot_view(old(self).surface_of(e)),
                (SlotView {
                    alive: false,
                    ..old(self).surface_view().slot_view(old(self).surface_of(e))
                })),
            final(self).body_view() == old(self).body_view(),
            final(self).root_view() == old(self).root_view(),
            final(self).root_cell_view() == old(self).root_cell_view(),
            final(self).observers_view() == old(self).observers_view(),
            final(self).listeners_view() == old(self).listeners_view(),
            final(self).tasks_view() == old(self).tasks_view(),
    {
        let ghost pre = *old(self);
        let ei = e.0;
        let es = self.nodes[ei].surface;
        proof {
            assert(pre.surface_ok(e));
            assert(pre.surface_view().children(es) == pre.child_surfaces(e));
            assert(pre.child_surfaces(e).len() == 0);
            pre.lemma_detached_unlisted(e);
        }
        self.nodes[ei].alive = false;
        self.surface.release(es);
        proof {
            assert forall |x: El| pre.valid(x) && x != e
                implies #[trigger] self.node_view(x) == pre.node_view(x) by {
                assert(self.nodes@[x.spec_raw()] == pre.nodes@[x.spec_raw()]);
            }
            assert forall |i: int| #[trigger] self.alive_raw(i)
                implies (pre.alive_raw(i) && i != e.spec_raw()) by {
                if i == e.spec_raw() {
                    assert(!self.nodes@[i].alive);
                }
            }
            assert(self.body != es) by {
                if self.body == es {
                    assert(pre.surface_view().alive(pre.body_view()));
                }
            }
            // the invariant again: e is gone, everything else untouched
            assert forall |x: El| #[trigger] self.alive(x) implies self.owner_ok(x) by {
                assert(x != e);
                assert(pre.alive(x));
                assert(pre.owner_ok(x));
                match pre.owner_of(x) {
                    Owner::Parent(o) => {
                        assert(o != e) by {
                            if o == e {
                                assert(pre.children(e)[pre.sib_index(x)] == x);
                            }
                        }
                        assert(self.node_view(o) == pre.node_view(o));
                    },
                    Owner::Stash(o) => {
                        assert(o != e) by {
                            if o == e {
                                assert(pre.stash_of(e).contains(x));
                            }
                        }
                        assert(self.node_view(o) == pre.node_view(o));
                    },
                    _ => {},
                }
            }
            assert forall |p: El, j: int| self.alive(p) && 0 <= j < self.children(p).len()
                implies #[trigger] self.child_ok(p, j) by {
                assert(p != e);
                assert(pre.alive(p));
                assert(pre.child_ok(p, j));
                let d = pre.children(p)[j];
                assert(d != e);
                assert(self.node_view(d) == pre.node_view(d));
            }
            assert forall |p: El, j: int| self.alive(p) && 0 <= j < self.stash_of(p).len()
                implies #[trigger] self.stash_entry_ok(p, j) by {
                assert(p != e);
                assert(pre.alive(p));
                assert(pre.stash_entry_ok(p, j));
                let d = pre.stash_of(p)[j];
                assert(d != e);
                assert(self.node_view(d) == pre.node_view(d));
            }
            assert forall |p: El, a: int, b: int|
                self.alive(p) && 0 <= a < b < self.stash_of(p).len()
                implies (#[trigger] self.stash_of(p)[a])
                    != (#[trigger] self.stash_of(p)[b]) by {
                assert(p != e);
                assert(pre.alive(p));
                assert(self.stash_of(p) == pre.stash_of(p));
            }
            assert forall |x: El| #[trigger] self.alive(x) implies self.surface_ok(x) by {
                assert(x != e);
                assert(pre.alive(x));
                assert(pre.surface_ok(x));
                let sx = pre.surface_of(x);
                assert(sx != es) by {
                    assert(pre.alive(x) && pre.alive(e));
                }
                assert(self.surface.slot_view(sx) == pre.surface.slot_view(sx));
                assert(self.child_surfaces(x) =~= pre.child_surfaces(x)) by {
                    assert forall |j: int| 0 <= j < self.children(x).len()
                        implies #[trigger] self.child_surfaces(x)[j]
                            == pre.child_surfaces(x)[j] by {
                        assert(pre.child_ok(x, j));
                        let d = pre.children(x)[j];
                        assert(d != e);
                        assert(self.node_view(d) == pre.node_view(d));
                    }
                }
                match pre.owner_of(x) {
                    Owner::Parent(o) => {
                        assert(o != e) by {
                            if o == e {
                                assert(pre.children(e)[pre.sib_index(x)] == x);
                            }
                        }
                        assert(self.node_view(o) == pre.node_view(o));
                    },
                    _ => {},
                }
            }
            assert forall |a: El, b: El| self.alive(a) && self.alive(b) && a != b
                implies (#[trigger] self.surface_of(a)) != (#[trigger] self.surface_of(b))
                by {
                assert(pre.alive(a) && pre.alive(b));
            }
            assert forall |j: int| 0 <= j < self.root_view().len()
                implies #[trigger] self.root_entry_ok(j) by {
                assert(pre.root_entry_ok(j));
                let x = pre.root_view()[j];
                assert(x != e);
                assert(self.node_view(x) == pre.node_view(x));
            }
            assert forall |x: El| #[trigger] self.alive(x)
                implies self.surface_of(x) != self.body_view() by {
                assert(x != e);
                assert(pre.alive(x));
                assert(self.node_view(x) == pre.node_view(x));
                assert(pre.surface_of(x) != pre.body_view());
            }
        }
    }
}

impl Tree {
    /// Public face of the structural-equality invariant: a live node's
    /// surface element is live and its surface child list equals the
    /// surfaces of its children, position for position; every child records
    /// this node and its true index.
    pub proof fn lemma_mirror(&self, e: El)
        requires
            self.wf(),
            self.alive(e),
        ensures
            self.surface_view().valid(self.surface_of(e)),
            self.surface_view().alive(self.surface_of(e)),
            self.surface_view().children(self.surface_of(e)) == self.child_surfaces(e),
            self.child_surfaces(e).len() == self.children(e).len(),
            forall |j: int| 0 <= j < self.children(e).len()
                ==> self.alive(#[trigger] self.children(e)[j])
                    && self.parent_of(self.children(e)[j]) == Some(e)
                    && self.sib_index(self.children(e)[j]) == j,
    {
        assert(self.surface_ok(e));
        assert forall |j: int| 0 <= j < self.children(e).len()
            implies self.alive(#[trigger] self.children(e)[j])
                && self.parent_of(self.children(e)[j]) == Some(e)
                && self.sib_index(self.children(e)[j]) == j by {
            assert(self.child_ok(e, j));
        }
    }

    /// Every index on a live node's chain names a created node.
    pub(crate) proof fn lemma_chain_elems_valid(self, x: El)
        requires
            self.chains_ok(),
            self.alive(x),
        ensures
            forall |k: int| 0 <= k < self.chain(x).len()
                ==> 0 <= #[trigger] self.chain(x)[k] < self.node_count(),
    {
        assert forall |k: int| 0 <= k < self.chain(x).len()
            implies 0 <= #[trigger] self.chain(x)[k] < self.node_count() by {
            assert(self.chain(x).contains(self.chain(x)[k]));
            self.lemma_chain_prefix(x, self.chain(x)[k]);
            assert(self.alive(El(self.chain(x)[k] as usize)));
        }
    }

    /// Whether `i` lies under one of the first `j` children of `e` (in the
    /// given state).
    pub open spec fn under_kids_upto(pre: Tree, e: El, j: int, i: int) -> bool {
        exists |l: int| 0 <= l < j
            && #[trigger] pre.subtree_raw(pre.children(e)[l]).contains(i)
    }

    /// Whether `i` lies under one of `e`'s children.
    pub open spec fn under_kids(pre: Tree, e: El, i: int) -> bool {
        Tree::under_kids_upto(pre, e, pre.children(e).len() as int, i)
    }

    /// Whether a live node under one of the first `j` children wraps `s`.
    pub open spec fn kids_surf_upto(pre: Tree, e: El, j: int, s: SurfaceId) -> bool {
        exists |x: El| #[trigger] pre.alive(x)
            && Tree::under_kids_upto(pre, e, j, x.spec_raw())
            && pre.surface_of(x) == s
    }

    pub open spec fn kids_surf(pre: Tree, e: El, s: SurfaceId) -> bool {
        Tree::kids_surf_upto(pre, e, pre.children(e).len() as int, s)
    }

    /// Whether `i` lies under one of the first `j` stash entries of `e`.
    pub open spec fn under_stash_upto(pre: Tree, e: El, j: int, i: int) -> bool {
        exists |l: int| 0 <= l < j
            && #[trigger] pre.subtree_raw(pre.stash_of(e)[l]).contains(i)
    }

    pub open spec fn under_stash(pre: Tree, e: El, i: int) -> bool {
        Tree::under_stash_upto(pre, e, pre.stash_of(e).len() as int, i)
    }

    pub open spec fn stash_surf_upto(pre: Tree, e: El, j: int, s: SurfaceId) -> bool {
        exists |x: El| #[trigger] pre.alive(x)
            && Tree::under_stash_upto(pre, e, j, x.spec_raw())
            && pre.surface_of(x) == s
    }

    pub open spec fn stash_surf(pre: Tree, e: El, s: SurfaceId) -> bool {
        Tree::stash_surf_upto(pre, e, pre.stash_of(e).len() as int, s)
    }

    /// Tear down all resource cells of `e`, recording their effects in
    /// order.
    fn release_cells(&mut self, e: El, fx: &mut Vec<Effect>)
        requires
            old(self).wf(),
            old(self).alive(e),
        ensures
            final(self).wf(),
            final(self).node_count() == old(self).node_count(),
            final(self).surface == old(self).surface,
            final(self).anc == old(self).anc,
            final(self).root_nodes == old(self).root_nodes,
            final(self).root_cell == old(self).root_cell,
            final(self).body == old(self).body,
            final(self).node_view(e) == (NodeView {
                cells: Seq::empty(),
                ..old(self).node_view(e)
            }),
            forall |x: El| old(self).valid(x) && x != e
                ==> #[trigger] final(self).node_view(x) == old(self).node_view(x),
            final(fx)@ == old(fx)@ + old(self).cells(e),
            Tree::registry_monotone(*old(self), *final(self)),
    {
        let ghost pre = *old(self);
        let ghost fx0 = fx@;
        let ei = e.0;
        proof {
            assert(fx@ =~= fx0 + pre.cells(e).take(0));
        }
        proof {
            assert(pre.cells(e).skip(0) =~= pre.cells(e));
            assert(pre.nodes@[e.spec_raw()].local@.skip(0)
                =~= pre.nodes@[e.spec_raw()].local@);
        }
        let ghost k: int = 0;
        while self.nodes[ei].local.len() > 0
            invariant
                pre.wf(),
                pre.alive(e),
                ei == e.spec_raw(),
                0 <= k <= pre.cells(e).len(),
                self.wf(),
                self.node_count() == pre.node_count(),
                self.surface == pre.surface,
                self.anc == pre.anc,
                self.root_nodes == pre.root_nodes,
                self.root_cell == pre.root_cell,
                self.body == pre.body,
                self.nodes@[e.spec_raw()].local@
                    == pre.nodes@[e.spec_raw()].local@.skip(k),
                self.node_view(e) == (NodeView {
                    cells: pre.cells(e).skip(k),
                    ..pre.node_view(e)
                }),
                forall |x: El| pre.valid(x) && x != e
                    ==> #[trigger] self.node_view(x) == pre.node_view(x),
                fx@ == fx0 + pre.cells(e).take(k),
                Tree::registry_monotone(pre, *self),
            decreases self.nodes@[ei as int].local@.len(),
        {
            let ghost cur = *self;
            proof {
                broadcast use vstd::std_specs::vec::axiom_spec_len;
                assert(vstd::std_specs::vec::spec_vec_len(&self.nodes@[ei as int].local)
                    == self.nodes@[ei as int].local@.len());
            }
            let v = self.nodes[ei].local.remove(0);
            proof {
                crate::own::lemma_effect(v);
                assert(v == pre.nodes@[e.spec_raw()].local@[k]);
                assert(v.effect() == pre.cells(e)[k]) by {
                    assert(pre.cells(e)[k]
                        == pre.nodes@[e.spec_raw()].local@[k].effect());
                }
                assert(self.nodes@[e.spec_raw()].local@
                    =~= pre.nodes@[e.spec_raw()].local@.skip(k + 1));
                assert(self.node_view(e).cells =~= pre.cells(e).skip(k + 1));
                assert forall |x: El| pre.valid(x) && x != e
                    implies #[trigger] self.node_view(x) == cur.node_view(x) by {
                    assert(self.nodes@[x.spec_raw()] == cur.nodes@[x.spec_raw()]);
                }
                self.lemma_cells_wf(cur, e);
            }
            let ghost cur2 = *self;
            self.teardown_cell(v, fx);
            proof {
                assert(fx@ =~= fx0 + pre.cells(e).take(k + 1));
                assert forall |x: El| pre.valid(x)
                    implies #[trigger] self.node_view(x) == cur2.node_view(x) by {
                    assert(self.nodes@[x.spec_raw()] == cur2.nodes@[x.spec_raw()]);
                }
                Tree::lemma_monotone_trans(pre, cur, *self);
            }
            proof {
                k = k + 1;
            }
        }
        proof {
            assert(pre.cells(e).skip(k).len() == 0);
            assert(k == pre.cells(e).len());
            assert(fx@ == fx0 + pre.cells(e).take(k));
            assert(pre.cells(e).take(k) =~= pre.cells(e));
            assert(self.node_view(e).cells =~= Seq::<Effect>::empty());
        }
    }

    /// Surface edits that stay away from the live nodes' own structure
    /// (for instance edits under the body or another unwrapped element)
    /// preserve the tree invariant: every live node's surface keeps its
    /// aliveness and children, detached nodes' surfaces stay parentless,
    /// and attached nodes' surfaces keep their surface parent.
    #[verifier::rlimit(100)]
    pub(crate) proof fn lemma_offstage_surface_wf(&self, pre: Tree)
        requires
            pre.wf(),
            self.nodes == pre.nodes,
            self.anc == pre.anc,
            self.root_nodes == pre.root_nodes,
            self.body == pre.body,
            self.surface.wf(),
            pre.surface.slot_count() <= self.surface.slot_count(),
            self.surface_view().slot_view(pre.body_view()).alive,
            forall |x: El| pre.alive(x)
                ==> (#[trigger] self.surface.slot_view(pre.surface_of(x))).alive
                        == pre.surface.slot_view(pre.surface_of(x)).alive
                    && self.surface.slot_view(pre.surface_of(x)).children
                        == pre.surface.slot_view(pre.surface_of(x)).children,
            forall |x: El| pre.alive(x) && pre.is_detached(x)
                ==> (#[trigger] self.surface.slot_view(pre.surface_of(x))).parent
                    is None,
            forall |x: El| pre.alive(x) && (pre.owner_of(x) is Parent)
                ==> (#[trigger] self.surface.slot_view(pre.surface_of(x))).parent
                    == Some(pre.surface_of(pre.parent_el(x))),
        ensures
            self.wf(),
            self.node_count() == pre.node_count(),
            forall |x: El| pre.valid(x)
                ==> #[trigger] self.node_view(x) == pre.node_view(x),
            forall |x: El| pre.valid(x) ==> #[trigger] self.chain(x) == pre.chain(x),
            self.body_view() == pre.body_view(),
            self.root_view() == pre.root_view(),
    {
        assert forall |x: El| pre.valid(x)
            implies #[trigger] self.node_view(x) == pre.node_view(x)
                && self.chain(x) == pre.chain(x) by {
            assert(self.nodes@[x.spec_raw()] == pre.nodes@[x.spec_raw()]);
        }
        assert forall |x: El| #[trigger] self.alive(x) implies self.owner_ok(x) by {
            assert(pre.alive(x));
            assert(pre.owner_ok(x));
        }
        assert forall |p: El, j: int| self.alive(p) && 0 <= j < self.children(p).len()
            implies #[trigger] self.child_ok(p, j) by {
            assert(pre.alive(p));
            assert(pre.child_ok(p, j));
        }
        assert forall |p: El, j: int| self.alive(p) && 0 <= j < self.stash_of(p).len()
            implies #[trigger] self.stash_entry_ok(p, j) by {
            assert(pre.alive(p));
            assert(pre.stash_entry_ok(p, j));
        }
        assert forall |p: El, a: int, b: int|
            self.alive(p) && 0 <= a < b < self.stash_of(p).len()
            implies (#[trigger] self.stash_of(p)[a]) != (#[trigger] self.stash_of(p)[b]) by {
            assert(pre.alive(p));
            assert(pre.stash_of(p) == self.stash_of(p));
        }
        assert forall |x: El| #[trigger] self.alive(x) implies self.surface_ok(x) by {
            assert(pre.alive(x));
            assert(pre.surface_ok(x));
            assert(self.child_surfaces(x) =~= pre.child_surfaces(x)) by {
                assert forall |j: int| 0 <= j < self.children(x).len()
                    implies #[trigger] self.child_surfaces(x)[j]
                        == pre.child_surfaces(x)[j] by {
                    assert(pre.child_ok(x, j));
                }
            }
            match pre.owner_of(x) {
                Owner::Parent(p) => {
                    assert(pre.parent_el(x) == p);
                },
                _ => {},
            }
        }
        assert forall |a: El, b: El| self.alive(a) && self.alive(b) && a != b
            implies (#[trigger] self.surface_of(a)) != (#[trigger] self.surface_of(b)) by {
            assert(pre.alive(a) && pre.alive(b));
        }
        assert forall |j: int| 0 <= j < self.root_view().len()
            implies #[trigger] self.root_entry_ok(j) by {
            assert(pre.root_entry_ok(j));
        }
        assert forall |x: El| #[trigger] self.alive(x)
            implies self.surface_of(x) != self.body_view() by {
            assert(pre.alive(x));
            assert(pre.surface_of(x) != pre.body_view());
        }
    }

    /// Hand a detached node to the root anchor: it becomes the last root
    /// entry. The surface is not touched; place it separately.
    pub(crate) fn root_mark(&mut self, c: El)
        requires
            old(self).wf(),
            old(self).alive(c),
            old(self).is_detached(c),
        ensures
            final(self).wf(),
            final(self).node_count() == old(self).node_count(),
            final(self).root_view() == old(self).root_view().push(c),
            final(self).node_view(c) == (NodeView {
                owner: Owner::Root,
                ..old(self).node_view(c)
            }),
            forall |x: El| old(self).valid(x) && x != c
                ==> #[trigger] final(self).node_view(x) == old(self).node_view(x),
            forall |x: El| old(self).valid(x)
                ==> #[trigger] final(self).chain(x) == old(self).chain(x),
            final(self).surface == old(self).surface,
            final(self).body_view() == old(self).body_view(),
            final(self).root_cell_view() == old(self).root_cell_view(),
            final(self).observers_view() == old(self).observers_view(),
            final(self).listeners_view() == old(self).listeners_view(),
            final(self).tasks_view() == old(self).tasks_view(),
    {
        let ghost pre = *old(self);
        proof {
            pre.lemma_detached_unlisted(c);
            assert(pre.owner_ok(c));
        }
        self.root_nodes.push(c);
        self.nodes[c.0].owner = Owner::Root;
        proof {
            assert forall |x: El| pre.valid(x) && x != c
                implies #[trigger] self.node_view(x) == pre.node_view(x) by {
                assert(self.nodes@[x.spec_raw()] == pre.nodes@[x.spec_raw()]);
            }
            assert forall |x: El| #[trigger] self.alive(x) implies self.owner_ok(x) by {
                assert(pre.alive(x)) by {
                    if x != c {
                        assert(self.node_view(x) == pre.node_view(x));
                    }
                }
                assert(pre.owner_ok(x));
                if x == c {
                    assert(self.root_view().last() == c);
                    assert(self.root_view().contains(c));
                } else {
                    match pre.owner_of(x) {
                        Owner::Parent(o) => {
                            if o != c {
                                assert(self.node_view(o) == pre.node_view(o));
                            }
                        },
                        Owner::Stash(o) => {
                            if o != c {
                                assert(self.node_view(o) == pre.node_view(o));
                            }
                        },
                        Owner::Root => {
                            let j = choose |j: int| 0 <= j < pre.root_view().len()
                                && pre.root_view()[j] == x;
                            assert(self.root_view()[j] == x);
                            assert(self.root_view().contains(x));
                        },
                        _ => {},
                    }
                }
            }
            assert forall |p: El, j: int| self.alive(p) && 0 <= j < self.children(p).len()
                implies #[trigger] self.child_ok(p, j) by {
                assert(pre.alive(p)) by {
                    if p != c {
                        assert(self.node_view(p) == pre.node_view(p));
                    }
                }
                assert(pre.child_ok(p, j));
                let d = pre.children(p)[j];
                assert(d != c);
                assert(self.node_view(d) == pre.node_view(d));
            }
            assert forall |p: El, j: int| self.alive(p) && 0 <= j < self.stash_of(p).len()
                implies #[trigger] self.stash_entry_ok(p, j) by {
                assert(pre.alive(p)) by {
                    if p != c {
                        assert(self.node_view(p) == pre.node_view(p));
                    }
                }
                assert(pre.stash_entry_ok(p, j));
                let d = pre.stash_of(p)[j];
                assert(d != c);
                assert(self.node_view(d) == pre.node_view(d));
            }
            assert forall |p: El, a: int, b: int|
                self.alive(p) && 0 <= a < b < self.stash_of(p).len()
                implies (#[trigger] self.stash_of(p)[a])
                    != (#[trigger] self.stash_of(p)[b]) by {
                assert(pre.alive(p)) by {
                    if p != c {
                        assert(self.node_view(p) == pre.node_view(p));
                    }
                }
                assert(self.stash_of(p) == pre.stash_of(p));
            }
            assert forall |x: El| #[trigger] self.alive(x) implies self.surface_ok(x) by {
                assert(pre.alive(x)) by {
                    if x != c {
                        assert(self.node_view(x) == pre.node_view(x));
                    }
                }
                assert(pre.surface_ok(x));
                assert(self.child_surfaces(x) =~= pre.child_surfaces(x)) by {
                    assert forall |j: int| 0 <= j < self.children(x).len()
                        implies #[trigger] self.child_surfaces(x)[j]
                            == pre.child_surfaces(x)[j] by {
                        assert(pre.child_ok(x, j));
                        let d = pre.children(x)[j];
                        assert(d != c);
                        assert(self.node_view(d) == pre.node_view(d));
                    }
                }
                match pre.owner_of(x) {
                    Owner::Parent(o) => {
                        assert(x != c);
                        if o != c {
                            assert(self.node_view(o) == pre.node_view(o));
                        }
                    },
                    _ => {},
                }
            }
            assert forall |a: El, b: El| self.alive(a) && self.alive(b) && a != b
                implies (#[trigger] self.surface_of(a)) != (#[trigger] self.surface_of(b))
                by {
                assert(pre.alive(a)) by {
                    if a != c {
                        assert(self.node_view(a) == pre.node_view(a));
                    }
                }
                assert(pre.alive(b)) by {
                    if b != c {
                        assert(self.node_view(b) == pre.node_view(b));
                    }
                }
                assert(self.surface_of(a) == pre.surface_of(a));
                assert(self.surface_of(b) == pre.surface_of(b));
            }
            assert forall |j: int| 0 <= j < self.root_view().len()
                implies #[trigger] self.root_entry_ok(j) by {
                if j < pre.root_view().len() {
                    assert(pre.root_entry_ok(j));
                    let d = pre.root_view()[j];
                    assert(self.root_view()[j] == d);
                    assert(d != c);
                    assert(self.node_view(d) == pre.node_view(d));
                } else {
                    assert(self.root_view()[j] == c);
                }
            }
            assert forall |a: int, b: int| 0 <= a < b < self.root_view().len()
                implies (#[trigger] self.root_view()[a])
                    != (#[trigger] self.root_view()[b]) by {
                if b < pre.root_view().len() {
                    assert(pre.root_view()[a] != pre.root_view()[b]);
                } else {
                    assert(self.root_view()[b] == c);
                    assert(pre.root_entry_ok(a));
                    assert(pre.root_view()[a] != c);
                }
            }
            assert forall |x: El| #[trigger] self.alive(x)
                implies self.surface_of(x) != self.body_view() by {
                assert(pre.alive(x)) by {
                    if x != c {
                        assert(self.node_view(x) == pre.node_view(x));
                    }
                }
                assert(pre.surface_of(x) != pre.body_view());
                assert(self.surface_of(x) == pre.surface_of(x));
            }
        }
    }

    /// After taking the last root entry out (owner cleared, surface
    /// detached from its unwrapped holder), the invariant holds again.
    #[verifier::rlimit(100)]
    proof fn lemma_unroot_wf(&self, pre: Tree, c: El)
        requires
            pre.wf(),
            pre.root_view().len() > 0,
            c == pre.root_view().last(),
            self.node_count() == pre.node_count(),
            self.body == pre.body,
            self.root_cell == pre.root_cell,
            self.observers == pre.observers,
            self.listeners == pre.listeners,
            self.tasks == pre.tasks,
            self.root_nodes@ == pre.root_view().drop_last(),
            self.node_view(c) == (NodeView {
                owner: Owner::Detached,
                ..pre.node_view(c)
            }),
            forall |x: El| pre.valid(x) && x != c
                ==> #[trigger] self.node_view(x) == pre.node_view(x),
            forall |x: El| pre.valid(x) ==> #[trigger] self.chain(x) == pre.chain(x),
            self.surface.wf(),
            self.surface.slot_count() == pre.surface.slot_count(),
            self.surface.parent(pre.surface_of(c)) is None,
            forall |s: SurfaceId| pre.surface.valid(s)
                ==> (#[trigger] self.surface.slot_view(s)).alive
                    == pre.surface.slot_view(s).alive,
            forall |x: El| pre.alive(x)
                ==> (#[trigger] self.surface.slot_view(pre.surface_of(x))).children
                    == pre.surface.slot_view(pre.surface_of(x)).children,
            forall |x: El| pre.alive(x) && x != c
                ==> (#[trigger] self.surface.slot_view(pre.surface_of(x))).parent
                    == pre.surface.slot_view(pre.surface_of(x)).parent,
        ensures
            self.wf(),
    {
        let n = pre.root_view().len() as int;
        assert(pre.root_entry_ok(n - 1));
        assert(pre.alive(c));
        assert(pre.owner_of(c) == Owner::Root);
        assert forall |x: El| #[trigger] self.alive(x) implies self.owner_ok(x) by {
            assert(pre.alive(x)) by {
                if x != c {
                    assert(self.node_view(x) == pre.node_view(x));
                }
            }
            assert(pre.owner_ok(x));
            if x == c {
                assert(self.chain(c) == pre.chain(c));
            } else {
                match pre.owner_of(x) {
                    Owner::Parent(o) => {
                        assert(o != c || true);
                        if o != c {
                            assert(self.node_view(o) == pre.node_view(o));
                        }
                    },
                    Owner::Stash(o) => {
                        if o != c {
                            assert(self.node_view(o) == pre.node_view(o));
                        }
                    },
                    Owner::Root => {
                        let j = choose |j: int| 0 <= j < pre.root_view().len()
                            && pre.root_view()[j] == x;
                        assert(j != n - 1) by {
                            if j == n - 1 {
                                assert(pre.root_view()[j] == c);
                            }
                        }
                        assert(self.root_view()[j] == x);
                        assert(self.root_view().contains(x));
                    },
                    _ => {},
                }
            }
        }
        assert forall |p: El, j: int| self.alive(p) && 0 <= j < self.children(p).len()
            implies #[trigger] self.child_ok(p, j) by {
            assert(pre.alive(p)) by {
                if p != c {
                    assert(self.node_view(p) == pre.node_view(p));
                }
            }
            assert(self.children(p) == pre.children(p));
            assert(pre.child_ok(p, j));
            let d = pre.children(p)[j];
            assert(d != c) by {
                if d == c {
                    assert(pre.owner_of(c) is Parent);
                }
            }
            assert(self.node_view(d) == pre.node_view(d));
        }
        assert forall |p: El, j: int| self.alive(p) && 0 <= j < self.stash_of(p).len()
            implies #[trigger] self.stash_entry_ok(p, j) by {
            assert(pre.alive(p)) by {
                if p != c {
                    assert(self.node_view(p) == pre.node_view(p));
                }
            }
            assert(self.stash_of(p) == pre.stash_of(p));
            assert(pre.stash_entry_ok(p, j));
            let d = pre.stash_of(p)[j];
            assert(d != c) by {
                if d == c {
                    assert(pre.owner_of(c) is Stash);
                }
            }
            assert(self.node_view(d) == pre.node_view(d));
        }
        assert forall |p: El, a: int, b: int|
            self.alive(p) && 0 <= a < b < self.stash_of(p).len()
            implies (#[trigger] self.stash_of(p)[a]) != (#[trigger] self.stash_of(p)[b]) by {
            assert(pre.alive(p)) by {
                if p != c {
                    assert(self.node_view(p) == pre.node_view(p));
                }
            }
            assert(self.stash_of(p) == pre.stash_of(p));
        }
        assert forall |x: El| #[trigger] self.alive(x) implies self.surface_ok(x) by {
            assert(pre.alive(x)) by {
                if x != c {
                    assert(self.node_view(x) == pre.node_view(x));
                }
            }
            assert(pre.surface_ok(x));
            assert(self.surface_of(x) == pre.surface_of(x));
            assert(self.child_surfaces(x) =~= pre.child_surfaces(x)) by {
                assert forall |j: int| 0 <= j < self.children(x).len()
                    implies #[trigger] self.child_surfaces(x)[j]
                        == pre.child_surfaces(x)[j] by {
                    assert(pre.child_ok(x, j));
                    let d = pre.children(x)[j];
                    assert(d != c) by {
                        if d == c {
                            assert(pre.owner_of(c) is Parent);
                        }
                    }
                    assert(self.node_view(d) == pre.node_view(d));
                }
            }
            match pre.owner_of(x) {
                Owner::Detached => {
                    assert(x != c);
                    assert(self.surface.slot_view(pre.surface_of(x)).parent
                        == pre.surface.slot_view(pre.surface_of(x)).parent);
                },
                Owner::Parent(p) => {
                    assert(x != c);
                    assert(self.surface.slot_view(pre.surface_of(x)).parent
                        == pre.surface.slot_view(pre.surface_of(x)).parent);
                    assert(self.node_view(p).surface == pre.node_view(p).surface) by {
                        if p != c {
                            assert(self.node_view(p) == pre.node_view(p));
                        }
                    }
                },
                _ => {},
            }
        }
        assert forall |a: El, b: El| self.alive(a) && self.alive(b) && a != b
            implies (#[trigger] self.surface_of(a)) != (#[trigger] self.surface_of(b)) by {
            assert(pre.alive(a)) by {
                if a != c {
                    assert(self.node_view(a) == pre.node_view(a));
                }
            }
            assert(pre.alive(b)) by {
                if b != c {
                    assert(self.node_view(b) == pre.node_view(b));
                }
            }
            assert(self.surface_of(a) == pre.surface_of(a));
            assert(self.surface_of(b) == pre.surface_of(b));
        }
        assert forall |j: int| 0 <= j < self.root_view().len()
            implies #[trigger] self.root_entry_ok(j) by {
            assert(pre.root_entry_ok(j));
            let d = pre.root_view()[j];
            assert(self.root_view()[j] == d);
            assert(d != c) by {
                if d == c {
                    assert(pre.root_view()[j] != pre.root_view()[n - 1]);
                }
            }
            assert(self.node_view(d) == pre.node_view(d));
        }
        assert forall |a: int, b: int| 0 <= a < b < self.root_view().len()
            implies (#[trigger] self.root_view()[a]) != (#[trigger] self.root_view()[b]) by {
            assert(pre.root_view()[a] != pre.root_view()[b]);
        }
        assert(self.surface_view().alive(self.body_view())) by {
            assert(self.surface.slot_view(pre.body_view()).alive
                == pre.surface.slot_view(pre.body_view()).alive);
        }
        assert forall |x: El| #[trigger] self.alive(x)
            implies self.surface_of(x) != self.body_view() by {
            assert(pre.alive(x)) by {
                if x != c {
                    assert(self.node_view(x) == pre.node_view(x));
                }
            }
            assert(pre.surface_of(x) != pre.body_view());
            assert(self.surface_of(x) == pre.surface_of(x));
        }
    }

    /// Take the last root entry back out of the anchor, detaching its
    /// surface element from wherever it sits (necessarily an unwrapped
    /// element, such as the body).
    pub(crate) fn unroot_last(&mut self) -> (c: El)
        requires
            old(self).wf(),
            old(self).root_view().len() > 0,
        ensures
            final(self).wf(),
            c == old(self).root_view().last(),
            final(self).alive(c),
            final(self).is_detached(c),
            final(self).node_count() == old(self).node_count(),
            final(self).surface_view().slot_count() == old(self).surface_view().slot_count(),
            final(self).root_view() == old(self).root_view().drop_last(),
            final(self).node_view(c) == (NodeView {
                owner: Owner::Detached,
                ..old(self).node_view(c)
            }),
            forall |x: El| old(self).valid(x) && x != c
                ==> #[trigger] final(self).node_view(x) == old(self).node_view(x),
            forall |x: El| old(self).valid(x)
                ==> #[trigger] final(self).chain(x) == old(self).chain(x),
            forall |s: SurfaceId| old(self).surface_view().valid(s)
                ==> (#[trigger] final(self).surface_view().slot_view(s)).alive
                    == old(self).surface_view().slot_view(s).alive,
            final(self).body_view() == old(self).body_view(),
            final(self).root_cell_view() == old(self).root_cell_view(),
            final(self).observers_view() == old(self).observers_view(),
            final(self).listeners_view() == old(self).listeners_view(),
            final(self).tasks_view() == old(self).tasks_view(),
    {
        let ghost pre = *old(self);
        let n = self.root_nodes.len();
        let c = self.root_nodes.remove(n - 1);
        proof {
            assert(c == pre.root_view().last());
            assert(pre.root_entry_ok(n - 1));
            assert(pre.alive(c));
            assert(pre.owner_of(c) == Owner::Root);
            assert(self.root_nodes@ =~= pre.root_view().drop_last());
        }
        self.nodes[c.0].owner = Owner::Detached;
        let cs = self.nodes[c.0].surface;
        proof {
            assert(cs == pre.surface_of(c));
            assert(pre.surface_ok(c));
            assert(pre.surface_view().alive(cs));
        }
        match self.surface.parent_of(cs) {
            Some(q) => {
                let pos = self.surface.pos_of(cs);
                proof {
                    assert(pre.surface_view().parent(cs) == Some(q));
                    pre.surface_view().lemma_parent_link(cs, q);
                }
                let back = self.surface.remove_at(q, pos);
                proof {
                    assert(back == cs);
                }
            },
            None => {},
        }
        proof {
            assert forall |x: El| pre.valid(x) && x != c
                implies #[trigger] self.node_view(x) == pre.node_view(x) by {
                assert(self.nodes@[x.spec_raw()] == pre.nodes@[x.spec_raw()]);
            }
            assert(self.node_view(c) == (NodeView {
                owner: Owner::Detached,
                ..pre.node_view(c)
            }));
            // the surface claims, by case on whether cs had a parent
            match pre.surface_view().parent(cs) {
                Some(q) => {
                    pre.surface_view().lemma_parent_link(cs, q);
                    let posc = pre.surface_view().pos(cs);
                    let qkids = pre.surface_view().children(q);
                    assert(qkids.skip(posc)[0] == cs);
                    assert forall |s: SurfaceId| pre.surface_view().valid(s)
                        implies (#[trigger] self.surface.slot_view(s)).alive
                            == pre.surface.slot_view(s).alive
                            && self.surface.slot_view(s).children
                                == (if s == q { qkids.remove(posc) }
                                    else { pre.surface.slot_view(s).children })
                            && self.surface.slot_view(s).parent
                                == (if s == cs { Option::<SurfaceId>::None }
                                    else { pre.surface.slot_view(s).parent }) by {
                        if s == q {
                            assert(cs != q) by {
                                if cs == q {
                                    assert(pre.surface_view().children(q)[posc] == q);
                                }
                            }
                        } else if s == cs {
                        } else if qkids.skip(posc).contains(s) {
                            let k = choose |k: int|
                                0 <= k < qkids.skip(posc).len()
                                && qkids.skip(posc)[k] == s;
                            assert(qkids[posc + k] == s);
                            if k == 0 {
                                assert(s == cs);
                            } else {
                                assert(self.surface.slot_view(qkids[posc + k])
                                    == (crate::surface::SlotView {
                                        pos: posc + k - 1,
                                        ..pre.surface.slot_view(qkids[posc + k])
                                    }));
                            }
                        } else {
                            assert(self.surface.slot_view(s) == pre.surface.slot_view(s));
                        }
                    }
                    // q is unwrapped: a wrapper would own c through the
                    // mirror, but c was root-owned
                    assert forall |x: El| pre.alive(x)
                        implies (#[trigger] self.surface.slot_view(pre.surface_of(x)))
                                .children
                            == pre.surface.slot_view(pre.surface_of(x)).children by {
                        assert(pre.surface_ok(x));
                        let sx = pre.surface_of(x);
                        if sx == q {
                            assert(pre.surface_view().children(q)
                                == pre.child_surfaces(x));
                            assert(pre.child_ok(x, posc));
                            let y = pre.children(x)[posc];
                            assert(pre.child_surfaces(x)[posc] == pre.surface_of(y));
                            assert(pre.surface_of(y) == cs);
                            assert(y == c) by {
                                if y != c {
                                    assert(pre.alive(y) && pre.alive(c));
                                }
                            }
                            assert(pre.owner_of(c) == Owner::Parent(x));
                            assert(false);
                        }
                    }
                    assert forall |x: El| pre.alive(x) && x != c
                        implies (#[trigger] self.surface.slot_view(pre.surface_of(x)))
                                .parent
                            == pre.surface.slot_view(pre.surface_of(x)).parent by {
                        assert(pre.surface_ok(x));
                        assert(pre.surface_of(x) != cs) by {
                            assert(pre.alive(x) && pre.alive(c));
                        }
                    }
                },
                None => {
                    assert forall |s: SurfaceId| pre.surface_view().valid(s)
                        implies #[trigger] self.surface.slot_view(s)
                            == pre.surface.slot_view(s) by {}
                },
            }
            self.lemma_unroot_wf(pre, c);
        }
        c
    }

    /// Hand a detached node into `p`'s stash: it becomes owned by `p` as a
    /// plain resource, without appearing among the children and without
    /// touching the surface.
    #[verifier::rlimit(100)]
    pub(crate) fn stash_attach(&mut self, p: El, c: El)
        requires
            old(self).wf(),
            old(self).alive(p),
            old(self).alive(c),
            old(self).is_detached(c),
            !old(self).in_subtree(c, p),
        ensures
            final(self).wf(),
            final(self).node_count() == old(self).node_count(),
            final(self).surface == old(self).surface,
            final(self).node_view(p) == (NodeView {
                stash: old(self).stash_of(p).push(c),
                ..old(self).node_view(p)
            }),
            final(self).node_view(c) == (NodeView {
                owner: Owner::Stash(p),
                ..old(self).node_view(c)
            }),
            forall |x: El| old(self).valid(x) && x != p && x != c
                ==> #[trigger] final(self).node_view(x) == old(self).node_view(x),
            forall |x: El| old(self).valid(x)
                ==> #[trigger] final(self).chain(x)
                    == (if x == c || old(self).chain(x).contains(c.spec_raw()) {
                        old(self).chain(p).push(p.spec_raw()) + old(self).chain(x)
                    } else {
                        old(self).chain(x)
                    }),
            final(self).chain(p) == old(self).chain(p),
            final(self).body_view() == old(self).body_view(),
            final(self).root_view() == old(self).root_view(),
            final(self).root_cell_view() == old(self).root_cell_view(),
            final(self).observers_view() == old(self).observers_view(),
            final(self).listeners_view() == old(self).listeners_view(),
            final(self).tasks_view() == old(self).tasks_view(),
    {
        let ghost pre = *old(self);
        proof {
            pre.lemma_detached_unlisted(c);
            assert(pre.owner_ok(c));
            assert(pre.owner_ok(p));
            assert(p != c);
        }
        self.nodes[p.0].stash.push(c);
        self.nodes[c.0].owner = Owner::Stash(p);
        proof {
            let ghost pfx = pre.chain(p).push(p.spec_raw());
            self.anc@ = Map::new(
                |i: int| true,
                |i: int| if i == c.spec_raw() || pre.anc@[i].contains(c.spec_raw()) {
                    pfx + pre.anc@[i]
                } else {
                    pre.anc@[i]
                },
            );
            assert forall |x: El| pre.valid(x) && x != p && x != c
                implies #[trigger] self.node_view(x) == pre.node_view(x) by {
                assert(self.nodes@[x.spec_raw()] == pre.nodes@[x.spec_raw()]);
            }
            assert(self.node_view(p) == (NodeView {
                stash: pre.stash_of(p).push(c),
                ..pre.node_view(p)
            }));
            assert(self.node_view(c) == (NodeView {
                owner: Owner::Stash(p),
                ..pre.node_view(c)
            }));
            assert forall |x: El| pre.valid(x)
                implies #[trigger] self.chain(x)
                    == (if x == c || pre.chain(x).contains(c.spec_raw()) {
                        pfx + pre.chain(x)
                    } else {
                        pre.chain(x)
                    }) by {
                if x != c && x.spec_raw() == c.spec_raw() {
                    assert(x == c);
                }
            }
            assert(self.chain(p) == pre.chain(p)) by {
                assert(!(p == c || pre.chain(p).contains(c.spec_raw())));
            }
            // the invariant again
            assert forall |x: El| #[trigger] self.alive(x) implies self.owner_ok(x) by {
                assert(pre.alive(x)) by {
                    if x != p && x != c {
                        assert(self.node_view(x) == pre.node_view(x));
                    }
                }
                assert(pre.owner_ok(x));
                if x == c {
                    assert(pre.chain(c).len() == 0);
                    assert(self.chain(c) == pfx + pre.chain(c));
                    assert(self.chain(c) =~= pfx);
                    assert(self.chain(c) == self.chain(p).push(p.spec_raw()));
                    assert(self.alive(p)) by {
                        assert(self.node_view(p).alive == pre.node_view(p).alive);
                    }
                    assert(self.stash_of(p).last() == c);
                    assert(self.stash_of(p).contains(c));
                } else {
                    match pre.owner_of(x) {
                        Owner::Detached => {
                            assert(pre.chain(x).len() == 0);
                            assert(self.chain(x) == pre.chain(x));
                        },
                        Owner::Root => {
                            assert(pre.chain(x).len() == 0);
                            assert(self.chain(x) == pre.chain(x));
                            assert(self.root_view() == pre.root_view());
                        },
                        Owner::Parent(o) => {
                            assert(pre.chain(x) == pre.chain(o).push(o.spec_raw()));
                            self.lemma_attach_owner_chain(pre, p, 0, c, x, o);
                            assert(self.node_view(o).alive == pre.node_view(o).alive
                                && self.node_view(o).children
                                    == pre.node_view(o).children) by {
                                if o != p && o != c {
                                    assert(self.node_view(o) == pre.node_view(o));
                                }
                            }
                            assert(self.children(o)[self.sib_index(x)] == x) by {
                                assert(self.sib_index(x) == pre.sib_index(x)) by {
                                    if x != p {
                                        assert(self.node_view(x) == pre.node_view(x));
                                    }
                                }
                            }
                        },
                        Owner::Stash(o) => {
                            assert(pre.chain(x) == pre.chain(o).push(o.spec_raw()));
                            self.lemma_attach_owner_chain(pre, p, 0, c, x, o);
                            assert(self.node_view(o).alive == pre.node_view(o).alive) by {
                                if o != p && o != c {
                                    assert(self.node_view(o) == pre.node_view(o));
                                }
                            }
                            assert(self.stash_of(o).contains(x)) by {
                                if o == p {
                                    let j = choose |j: int|
                                        0 <= j < pre.stash_of(p).len()
                                        && pre.stash_of(p)[j] == x;
                                    assert(self.stash_of(p)[j] == x);
                                } else {
                                    assert(self.node_view(o).stash
                                        == pre.node_view(o).stash) by {
                                        if o != c {
                                            assert(self.node_view(o)
                                                == pre.node_view(o));
                                        }
                                    }
                                }
                            }
                        },
                    }
                }
            }
            assert forall |q: El, j: int| self.alive(q) && 0 <= j < self.children(q).len()
                implies #[trigger] self.child_ok(q, j) by {
                assert(pre.alive(q)) by {
                    if q != p && q != c {
                        assert(self.node_view(q) == pre.node_view(q));
                    }
                }
                assert(self.children(q) == pre.children(q)) by {
                    if q != p && q != c {
                        assert(self.node_view(q) == pre.node_view(q));
                    }
                }
                assert(pre.child_ok(q, j));
                let d = pre.children(q)[j];
                assert(d != c);
                assert(self.node_view(d).alive == pre.node_view(d).alive
                    && self.node_view(d).owner == pre.node_view(d).owner
                    && self.node_view(d).sib == pre.node_view(d).sib) by {
                    if d != p {
                        assert(self.node_view(d) == pre.node_view(d));
                    }
                }
            }
            assert forall |q: El, j: int| self.alive(q) && 0 <= j < self.stash_of(q).len()
                implies #[trigger] self.stash_entry_ok(q, j) by {
                assert(pre.alive(q)) by {
                    if q != p && q != c {
                        assert(self.node_view(q) == pre.node_view(q));
                    }
                }
                if q == p && j == pre.stash_of(p).len() {
                    assert(self.stash_of(p)[j] == c);
                    assert(self.alive(c));
                } else {
                    assert(self.stash_of(q)[j] == pre.stash_of(q)[j]) by {
                        if q != p && q != c {
                            assert(self.node_view(q) == pre.node_view(q));
                        }
                    }
                    assert(pre.stash_entry_ok(q, j));
                    let d = pre.stash_of(q)[j];
                    assert(d != c);
                    assert(self.node_view(d).alive == pre.node_view(d).alive
                        && self.node_view(d).owner == pre.node_view(d).owner) by {
                        if d != p {
                            assert(self.node_view(d) == pre.node_view(d));
                        }
                    }
                }
            }
            assert forall |q: El, a: int, b: int|
                self.alive(q) && 0 <= a < b < self.stash_of(q).len()
                implies (#[trigger] self.stash_of(q)[a])
                    != (#[trigger] self.stash_of(q)[b]) by {
                assert(pre.alive(q)) by {
                    if q != p && q != c {
                        assert(self.node_view(q) == pre.node_view(q));
                    }
                }
                if q == p {
                    if b == pre.stash_of(p).len() {
                        assert(self.stash_of(p)[b] == c);
                        assert(self.stash_of(p)[a] == pre.stash_of(p)[a]);
                        assert(pre.stash_entry_ok(p, a));
                        assert(pre.stash_of(p)[a] != c);
                    } else {
                        assert(self.stash_of(p)[a] == pre.stash_of(p)[a]);
                        assert(self.stash_of(p)[b] == pre.stash_of(p)[b]);
                    }
                } else {
                    assert(self.stash_of(q) == pre.stash_of(q)) by {
                        if q != c {
                            assert(self.node_view(q) == pre.node_view(q));
                        }
                    }
                }
            }
            assert forall |x: El| #[trigger] self.alive(x) implies self.surface_ok(x) by {
                assert(pre.alive(x)) by {
                    if x != p && x != c {
                        assert(self.node_view(x) == pre.node_view(x));
                    }
                }
                assert(pre.surface_ok(x));
                assert(self.surface_of(x) == pre.surface_of(x)) by {
                    if x != p && x != c {
                        assert(self.node_view(x) == pre.node_view(x));
                    }
                }
                assert(self.child_surfaces(x) =~= pre.child_surfaces(x)) by {
                    assert(self.children(x) == pre.children(x)) by {
                        if x != p && x != c {
                            assert(self.node_view(x) == pre.node_view(x));
                        }
                    }
                    assert forall |j: int| 0 <= j < self.children(x).len()
                        implies #[trigger] self.child_surfaces(x)[j]
                            == pre.child_surfaces(x)[j] by {
                        assert(pre.child_ok(x, j));
                        let d = pre.children(x)[j];
                        assert(d != c);
                        assert(self.node_view(d).surface == pre.node_view(d).surface) by {
                            if d != p {
                                assert(self.node_view(d) == pre.node_view(d));
                            }
                        }
                    }
                }
                match pre.owner_of(x) {
                    Owner::Detached => {
                        assert(x != c || true);
                        if x == c {
                        } else {
                            assert(self.owner_of(x) == pre.owner_of(x)) by {
                                if x != p {
                                    assert(self.node_view(x) == pre.node_view(x));
                                }
                            }
                        }
                    },
                    Owner::Parent(o) => {
                        assert(x != c);
                        assert(self.node_view(o).surface == pre.node_view(o).surface) by {
                            if o != p && o != c {
                                assert(self.node_view(o) == pre.node_view(o));
                            }
                        }
                    },
                    _ => {},
                }
            }
            assert forall |a: El, b: El| self.alive(a) && self.alive(b) && a != b
                implies (#[trigger] self.surface_of(a)) != (#[trigger] self.surface_of(b))
                by {
                assert(pre.alive(a)) by {
                    if a != p && a != c {
                        assert(self.node_view(a) == pre.node_view(a));
                    }
                }
                assert(pre.alive(b)) by {
                    if b != p && b != c {
                        assert(self.node_view(b) == pre.node_view(b));
                    }
                }
                assert(self.surface_of(a) == pre.surface_of(a)
                    && self.surface_of(b) == pre.surface_of(b)) by {
                    if a != p && a != c {
                        assert(self.node_view(a) == pre.node_view(a));
                    }
                    if b != p && b != c {
                        assert(self.node_view(b) == pre.node_view(b));
                    }
                }
            }
            assert forall |j: int| 0 <= j < self.root_view().len()
                implies #[trigger] self.root_entry_ok(j) by {
                assert(pre.root_entry_ok(j));
                let d = pre.root_view()[j];
                assert(d != c);
                assert(self.node_view(d).alive == pre.node_view(d).alive
                    && self.node_view(d).owner == pre.node_view(d).owner) by {
                    if d != p {
                        assert(self.node_view(d) == pre.node_view(d));
                    }
                }
            }
            assert forall |x: El| #[trigger] self.alive(x)
                implies self.surface_of(x) != self.body_view() by {
                assert(pre.alive(x)) by {
                    if x != p && x != c {
                        assert(self.node_view(x) == pre.node_view(x));
                    }
                }
                assert(self.surface_of(x) == pre.surface_of(x)) by {
                    if x != p && x != c {
                        assert(self.node_view(x) == pre.node_view(x));
                    }
                }
                assert(pre.surface_of(x) != pre.body_view());
            }
        }
    }

    /// Give a childless node with a detached surface element a fresh,
    /// free-standing surface element; the old element stays live but is no
    /// longer wrapped. Not for nodes attached to a parent, whose mirror
    /// fixes their element.
    #[verifier::rlimit(100)]
    pub(crate) fn reset_surface(&mut self, e: El, tag: &str) -> (s2: SurfaceId)
        requires
            old(self).wf(),
            old(self).alive(e),
            !(old(self).owner_of(e) is Parent),
            old(self).children(e).len() == 0,
            old(self).surface_view().parent(old(self).surface_of(e)) is None,
        ensures
            final(self).wf(),
            final(self).node_count() == old(self).node_count(),
            final(self).surface_view().slot_count()
                == old(self).surface_view().slot_count() + 1,
            s2.spec_raw() == old(self).surface_view().slot_count(),
            final(self).node_view(e) == (NodeView {
                surface: s2,
                ..old(self).node_view(e)
            }),
            final(self).surface_view().slot_view(s2) == (SlotView {
                alive: true,
                tag: tag@,
                text: None,
                attrs: Seq::empty(),
                classes: Seq::empty(),
                children: Seq::empty(),
                parent: None,
                pos: 0,
            }),
            forall |x: El| old(self).valid(x) && x != e
                ==> #[trigger] final(self).node_view(x) == old(self).node_view(x),
            forall |x: El| old(self).valid(x)
                ==> #[trigger] final(self).chain(x) == old(self).chain(x),
            forall |u: SurfaceId| old(self).surface_view().valid(u)
                ==> #[trigger] final(self).surface_view().slot_view(u)
                    == old(self).surface_view().slot_view(u),
            final(self).body_view() == old(self).body_view(),
            final(self).root_view() == old(self).root_view(),
            final(self).root_cell_view() == old(self).root_cell_view(),
            final(self).observers_view() == old(self).observers_view(),
            final(self).listeners_view() == old(self).listeners_view(),
            final(self).tasks_view() == old(self).tasks_view(),
    {
        let ghost pre = *old(self);
        let s2 = self.surface.create(tag);
        let ghost mid = *self;
        proof {
            assert forall |x: El| pre.alive(x)
                implies pre.surface_view().valid(#[trigger] pre.surface_of(x)) by {
                assert(pre.surface_ok(x));
            }
            assert forall |x: El| pre.alive(x)
                implies (#[trigger] mid.surface.slot_view(pre.surface_of(x))).alive
                        == pre.surface_view().slot_view(pre.surface_of(x)).alive
                    && mid.surface.slot_view(pre.surface_of(x)).children
                        == pre.surface_view().slot_view(pre.surface_of(x)).children
                    && mid.surface.slot_view(pre.surface_of(x)).parent
                        == pre.surface_view().slot_view(pre.surface_of(x)).parent by {
                assert(pre.surface_ok(x));
            }
            assert(mid.surface_view().slot_view(pre.body_view()).alive) by {
                assert(mid.surface.slot_view(pre.body_view())
                    == pre.surface_view().slot_view(pre.body_view()));
            }
            mid.lemma_offstage_surface_wf(pre);
        }
        self.nodes[e.0].surface = s2;
        proof {
            assert forall |x: El| pre.valid(x) && x != e
                implies #[trigger] self.node_view(x) == mid.node_view(x)
                    && mid.node_view(x) == pre.node_view(x) by {
                assert(self.nodes@[x.spec_raw()] == mid.nodes@[x.spec_raw()]);
                assert(mid.nodes@[x.spec_raw()] == pre.nodes@[x.spec_raw()]);
            }
            assert(self.node_view(e) == (NodeView {
                surface: s2,
                ..pre.node_view(e)
            }));
            assert forall |x: El| pre.valid(x)
                implies #[trigger] self.chain(x) == pre.chain(x) by {}
            // the invariant: e is nowhere a child, so nobody's mirror
            // mentions the old element
            assert forall |x: El| #[trigger] self.alive(x) implies self.owner_ok(x) by {
                assert(pre.alive(x)) by {
                    if x != e {
                        assert(self.node_view(x) == pre.node_view(x));
                    }
                }
                assert(pre.owner_ok(x));
                match pre.owner_of(x) {
                    Owner::Parent(o) => {
                        assert(self.node_view(o).alive == pre.node_view(o).alive
                            && self.node_view(o).children
                                == pre.node_view(o).children) by {
                            if o != e {
                                assert(self.node_view(o) == pre.node_view(o));
                            }
                        }
                    },
                    Owner::Stash(o) => {
                        assert(self.node_view(o).alive == pre.node_view(o).alive
                            && self.node_view(o).stash == pre.node_view(o).stash) by {
                            if o != e {
                                assert(self.node_view(o) == pre.node_view(o));
                            }
                        }
                    },
                    _ => {},
                }
            }
            assert forall |q: El, j: int| self.alive(q) && 0 <= j < self.children(q).len()
                implies #[trigger] self.child_ok(q, j) by {
                assert(pre.alive(q)) by {
                    if q != e {
                        assert(self.node_view(q) == pre.node_view(q));
                    }
                }
                assert(self.children(q) == pre.children(q)) by {
                    if q != e {
                        assert(self.node_view(q) == pre.node_view(q));
                    }
                }
                assert(pre.child_ok(q, j));
                let d = pre.children(q)[j];
                assert(d != e) by {
                    if d == e {
                        assert(pre.owner_of(e) is Parent);
                    }
                }
                assert(self.node_view(d) == pre.node_view(d));
            }
            assert forall |q: El, j: int| self.alive(q) && 0 <= j < self.stash_of(q).len()
                implies #[trigger] self.stash_entry_ok(q, j) by {
                assert(pre.alive(q)) by {
                    if q != e {
                        assert(self.node_view(q) == pre.node_view(q));
                    }
                }
                assert(self.stash_of(q) == pre.stash_of(q)) by {
                    if q != e {
                        assert(self.node_view(q) == pre.node_view(q));
                    }
                }
                assert(pre.stash_entry_ok(q, j));
                let d = pre.stash_of(q)[j];
                assert(self.node_view(d).alive == pre.node_view(d).alive
                    && self.node_view(d).owner == pre.node_view(d).owner) by {
                    if d != e {
                        assert(self.node_view(d) == pre.node_view(d));
                    }
                }
            }
            assert forall |q: El, a: int, b: int|
                self.alive(q) && 0 <= a < b < self.stash_of(q).len()
                implies (#[trigger] self.stash_of(q)[a])
                    != (#[trigger] self.stash_of(q)[b]) by {
                assert(pre.alive(q)) by {
                    if q != e {
                        assert(self.node_view(q) == pre.node_view(q));
                    }
                }
                assert(self.stash_of(q) == pre.stash_of(q)) by {
                    if q != e {
                        assert(self.node_view(q) == pre.node_view(q));
                    }
                }
            }
            assert forall |x: El| #[trigger] self.alive(x) implies self.surface_ok(x) by {
                assert(pre.alive(x)) by {
                    if x != e {
                        assert(self.node_view(x) == pre.node_view(x));
                    }
                }
                assert(pre.surface_ok(x));
                if x == e {
                    assert(self.surface_of(e) == s2);
                    assert(self.surface_view().alive(s2));
                    assert(self.child_surfaces(e) =~= Seq::<SurfaceId>::empty());
                    assert(self.surface_view().children(s2)
                        =~= Seq::<SurfaceId>::empty());
                    assert(self.surface_view().parent(s2) is None);
                } else {
                    assert(self.surface_of(x) == pre.surface_of(x));
                    assert(self.surface_view().slot_view(pre.surface_of(x))
                        == pre.surface_view().slot_view(pre.surface_of(x))) by {
                        assert(pre.surface_view().valid(pre.surface_of(x)));
                    }
                    assert(self.child_surfaces(x) =~= pre.child_surfaces(x)) by {
                        assert forall |j: int| 0 <= j < self.children(x).len()
                            implies #[trigger] self.child_surfaces(x)[j]
                                == pre.child_surfaces(x)[j] by {
                            assert(pre.child_ok(x, j));
                            let d = pre.children(x)[j];
                            assert(d != e) by {
                                if d == e {
                                    assert(pre.owner_of(e) is Parent);
                                }
                            }
                            assert(self.node_view(d) == pre.node_view(d));
                        }
                    }
                    match pre.owner_of(x) {
                        Owner::Parent(o) => {
                            assert(self.node_view(o).surface
                                == pre.node_view(o).surface) by {
                                if o == e {
                                    assert(pre.children(e)[pre.sib_index(x)] == x);
                                    assert(false);
                                }
                                assert(self.node_view(o) == pre.node_view(o));
                            }
                        },
                        _ => {},
                    }
                }
            }
            assert forall |a: El, b: El| self.alive(a) && self.alive(b) && a != b
                implies (#[trigger] self.surface_of(a)) != (#[trigger] self.surface_of(b))
                by {
                assert(pre.alive(a)) by {
                    if a != e {
                        assert(self.node_view(a) == pre.node_view(a));
                    }
                }
                assert(pre.alive(b)) by {
                    if b != e {
                        assert(self.node_view(b) == pre.node_view(b));
                    }
                }
                if a == e {
                    assert(self.surface_of(b) == pre.surface_of(b));
                    assert(pre.surface_view().valid(pre.surface_of(b))) by {
                        assert(pre.surface_ok(b));
                    }
                } else if b == e {
                    assert(self.surface_of(a) == pre.surface_of(a));
                    assert(pre.surface_view().valid(pre.surface_of(a))) by {
                        assert(pre.surface_ok(a));
                    }
                } else {
                    assert(self.surface_of(a) == pre.surface_of(a));
                    assert(self.surface_of(b) == pre.surface_of(b));
                }
            }
            assert forall |j: int| 0 <= j < self.root_view().len()
                implies #[trigger] self.root_entry_ok(j) by {
                assert(pre.root_entry_ok(j));
                let d = pre.root_view()[j];
                assert(self.node_view(d).alive == pre.node_view(d).alive
                    && self.node_view(d).owner == pre.node_view(d).owner) by {
                    if d != e {
                        assert(self.node_view(d) == pre.node_view(d));
                    }
                }
            }
            assert(self.surface_view().alive(self.body_view())) by {
                assert(self.surface_view().slot_view(pre.body_view())
                    == pre.surface_view().slot_view(pre.body_view()));
            }
            assert forall |x: El| #[trigger] self.alive(x)
                implies self.surface_of(x) != self.body_view() by {
                assert(pre.alive(x)) by {
                    if x != e {
                        assert(self.node_view(x) == pre.node_view(x));
                    }
                }
                if x == e {
                    assert(pre.surface_view().valid(pre.body_view()));
                } else {
                    assert(self.surface_of(x) == pre.surface_of(x));
                    assert(pre.surface_of(x) != pre.body_view());
                }
            }
        }
        s2
    }

    /// Remove the child at `at` of an unwrapped live element. The removed
    /// element must not be the surface of a detached or parent-attached
    /// node (whose invariants fix their element's parent link).
    #[verifier::rlimit(100)]
    pub(crate) fn remove_under_unwrapped(&mut self, q: SurfaceId, at: usize) -> (s: SurfaceId)
        requires
            old(self).wf(),
            old(self).surface_view().alive(q),
            old(self).unwrapped(q),
            at < old(self).surface_view().children(q).len(),
            forall |x: El| old(self).alive(x)
                && (old(self).is_detached(x) || (old(self).owner_of(x) is Parent))
                ==> #[trigger] old(self).surface_of(x)
                    != old(self).surface_view().children(q)[at as int],
        ensures
            final(self).wf(),
            s == old(self).surface_view().children(q)[at as int],
            final(self).surface_view().slot_count() == old(self).surface_view().slot_count(),
            final(self).surface_view().children(q)
                == old(self).surface_view().children(q).remove(at as int),
            final(self).surface_view().parent(s) is None,
            final(self).surface_view().slot_view(s) == (SlotView {
                parent: None,
                pos: 0,
                ..old(self).surface_view().slot_view(s)
            }),
            forall |u: SurfaceId| old(self).surface_view().valid(u) && u != q && u != s
                && !old(self).surface_view().children(q).skip(at as int).contains(u)
                ==> #[trigger] final(self).surface_view().slot_view(u)
                    == old(self).surface_view().slot_view(u),
            forall |u: SurfaceId| old(self).surface_view().valid(u)
                ==> (#[trigger] final(self).surface_view().slot_view(u)).alive
                        == old(self).surface_view().slot_view(u).alive
                    && crate::surface::content_eq(
                        final(self).surface_view().slot_view(u),
                        old(self).surface_view().slot_view(u)),
            final(self).nodes == old(self).nodes,
            final(self).node_count() == old(self).node_count(),
            forall |x: El| old(self).valid(x)
                ==> #[trigger] final(self).node_view(x) == old(self).node_view(x),
            forall |x: El| old(self).valid(x)
                ==> #[trigger] final(self).chain(x) == old(self).chain(x),
            final(self).body_view() == old(self).body_view(),
            final(self).root_view() == old(self).root_view(),
            final(self).root_cell_view() == old(self).root_cell_view(),
            final(self).observers_view() == old(self).observers_view(),
            final(self).listeners_view() == old(self).listeners_view(),
            final(self).tasks_view() == old(self).tasks_view(),
    {
        let ghost pre = *old(self);
        let s = self.surface.remove_at(q, at);
        proof {
            let ghost qkids = pre.surface_view().children(q);
            assert(s == qkids[at as int]);
            assert(qkids.skip(at as int)[0] == s);
            assert forall |x: El| pre.alive(x)
                implies (#[trigger] self.surface.slot_view(pre.surface_of(x))).children
                        == pre.surface_view().slot_view(pre.surface_of(x)).children
                    && self.surface.slot_view(pre.surface_of(x)).alive
                        == pre.surface_view().slot_view(pre.surface_of(x)).alive by {
                let sx = pre.surface_of(x);
                assert(sx != q);
                if sx == s {
                    assert(self.surface.slot_view(sx).children
                        == pre.surface_view().slot_view(sx).children);
                } else if qkids.skip(at as int).contains(sx) {
                    let z = choose |z: int| 0 <= z < qkids.skip(at as int).len()
                        && qkids.skip(at as int)[z] == sx;
                    assert(qkids[at as int + z] == sx);
                    if z > 0 {
                        assert(self.surface.slot_view(qkids[at as int + z])
                            == (SlotView {
                                pos: at as int + z - 1,
                                ..pre.surface_view().slot_view(qkids[at as int + z])
                            }));
                    }
                } else {
                    assert(self.surface.slot_view(sx)
                        == pre.surface_view().slot_view(sx));
                }
            }
            assert forall |x: El| pre.alive(x) && pre.is_detached(x)
                implies (#[trigger] self.surface.slot_view(pre.surface_of(x))).parent
                    is None by {
                let sx = pre.surface_of(x);
                assert(pre.surface_ok(x));
                assert(sx != s);
                if qkids.skip(at as int).contains(sx) {
                    let z = choose |z: int| 0 <= z < qkids.skip(at as int).len()
                        && qkids.skip(at as int)[z] == sx;
                    assert(qkids[at as int + z] == sx);
                    pre.surface_view().lemma_child_link(q, at as int + z);
                    assert(false);
                } else {
                    assert(self.surface.slot_view(sx)
                        == pre.surface_view().slot_view(sx));
                }
            }
            assert forall |x: El| pre.alive(x) && (pre.owner_of(x) is Parent)
                implies (#[trigger] self.surface.slot_view(pre.surface_of(x))).parent
                    == Some(pre.surface_of(pre.parent_el(x))) by {
                let sx = pre.surface_of(x);
                assert(pre.surface_ok(x));
                assert(pre.surface_view().parent(sx)
                    == Some(pre.surface_of(pre.parent_el(x))));
                assert(pre.surface_of(pre.parent_el(x)) != q) by {
                    assert(pre.alive(pre.parent_el(x))) by {
                        assert(pre.owner_ok(x));
                    }
                }
                assert(sx != s);
                if qkids.skip(at as int).contains(sx) {
                    let z = choose |z: int| 0 <= z < qkids.skip(at as int).len()
                        && qkids.skip(at as int)[z] == sx;
                    assert(qkids[at as int + z] == sx);
                    pre.surface_view().lemma_child_link(q, at as int + z);
                    assert(false);
                } else {
                    assert(self.surface.slot_view(sx)
                        == pre.surface_view().slot_view(sx));
                }
            }
            assert(self.surface_view().slot_view(pre.body_view()).alive) by {
                assert(self.surface.slot_view(pre.body_view()).alive
                    == pre.surface_view().slot_view(pre.body_view()).alive);
            }
            self.lemma_offstage_surface_wf(pre);
        }
        s
    }

    /// Insert a parentless element as the child at `at` of an unwrapped
    /// live element. The inserted element must not be the surface of a
    /// detached node (whose invariant fixes its element as parentless).
    #[verifier::rlimit(100)]
    pub(crate) fn insert_under_unwrapped(&mut self, q: SurfaceId, at: usize, s: SurfaceId)
        requires
            old(self).wf(),
            old(self).surface_view().alive(q),
            old(self).unwrapped(q),
            old(self).surface_view().alive(s),
            old(self).surface_view().parent(s) is None,
            s != q,
            at <= old(self).surface_view().children(q).len(),
            forall |x: El| old(self).alive(x)
                && (old(self).is_detached(x) || (old(self).owner_of(x) is Parent))
                ==> #[trigger] old(self).surface_of(x) != s,
        ensures
            final(self).wf(),
            final(self).surface_view().slot_count() == old(self).surface_view().slot_count(),
            final(self).surface_view().children(q)
                == old(self).surface_view().children(q).insert(at as int, s),
            final(self).surface_view().slot_view(s) == (SlotView {
                parent: Some(q),
                pos: at as int,
                ..old(self).surface_view().slot_view(s)
            }),
            forall |u: SurfaceId| old(self).surface_view().valid(u) && u != q && u != s
                && !old(self).surface_view().children(q).skip(at as int).contains(u)
                ==> #[trigger] final(self).surface_view().slot_view(u)
                    == old(self).surface_view().slot_view(u),
            forall |u: SurfaceId| old(self).surface_view().valid(u)
                ==> (#[trigger] final(self).surface_view().slot_view(u)).alive
                        == old(self).surface_view().slot_view(u).alive
                    && crate::surface::content_eq(
                        final(self).surface_view().slot_view(u),
                        old(self).surface_view().slot_view(u)),
            final(self).nodes == old(self).nodes,
            final(self).node_count() == old(self).node_count(),
            forall |x: El| old(self).valid(x)
                ==> #[trigger] final(self).node_view(x) == old(self).node_view(x),
            forall |x: El| old(self).valid(x)
                ==> #[trigger] final(self).chain(x) == old(self).chain(x),
            final(self).body_view() == old(self).body_view(),
            final(self).root_view() == old(self).root_view(),
            final(self).root_cell_view() == old(self).root_cell_view(),
            final(self).observers_view() == old(self).observers_view(),
            final(self).listeners_view() == old(self).listeners_view(),
            final(self).tasks_view() == old(self).tasks_view(),
    {
        let ghost pre = *old(self);
        self.surface.insert_at(q, at, s);
        proof {
            let ghost qkids = pre.surface_view().children(q);
            assert forall |x: El| pre.alive(x)
                implies (#[trigger] self.surface.slot_view(pre.surface_of(x))).children
                        == pre.surface_view().slot_view(pre.surface_of(x)).children
                    && self.surface.slot_view(pre.surface_of(x)).alive
                        == pre.surface_view().slot_view(pre.surface_of(x)).alive by {
                let sx = pre.surface_of(x);
                assert(sx != q);
                if sx == s {
                    assert(self.surface.slot_view(s) == (SlotView {
                        parent: Some(q),
                        pos: at as int,
                        ..pre.surface_view().slot_view(s)
                    }));
                } else if qkids.skip(at as int).contains(sx) {
                    let z = choose |z: int| 0 <= z < qkids.skip(at as int).len()
                        && qkids.skip(at as int)[z] == sx;
                    assert(qkids[at as int + z] == sx);
                    assert(self.surface.slot_view(qkids[at as int + z])
                        == (SlotView {
                            pos: at as int + z + 1,
                            ..pre.surface_view().slot_view(qkids[at as int + z])
                        }));
                } else {
                    assert(self.surface.slot_view(sx)
                        == pre.surface_view().slot_view(sx));
                }
            }
            assert forall |x: El| pre.alive(x) && pre.is_detached(x)
                implies (#[trigger] self.surface.slot_view(pre.surface_of(x))).parent
                    is None by {
                let sx = pre.surface_of(x);
                assert(pre.surface_ok(x));
                assert(sx != s);
                if qkids.skip(at as int).contains(sx) {
                    let z = choose |z: int| 0 <= z < qkids.skip(at as int).len()
                        && qkids.skip(at as int)[z] == sx;
                    assert(qkids[at as int + z] == sx);
                    pre.surface_view().lemma_child_link(q, at as int + z);
                    assert(false);
                } else {
                    assert(self.surface.slot_view(sx)
                        == pre.surface_view().slot_view(sx));
                }
            }
            assert forall |x: El| pre.alive(x) && (pre.owner_of(x) is Parent)
                implies (#[trigger] self.surface.slot_view(pre.surface_of(x))).parent
                    == Some(pre.surface_of(pre.parent_el(x))) by {
                let sx = pre.surface_of(x);
                assert(pre.surface_ok(x));
                assert(pre.surface_view().parent(sx)
                    == Some(pre.surface_of(pre.parent_el(x))));
                assert(pre.surface_of(pre.parent_el(x)) != q) by {
                    assert(pre.alive(pre.parent_el(x))) by {
                        assert(pre.owner_ok(x));
                    }
                }
                assert(sx != s);
                if qkids.skip(at as int).contains(sx) {
                    let z = choose |z: int| 0 <= z < qkids.skip(at as int).len()
                        && qkids.skip(at as int)[z] == sx;
                    assert(qkids[at as int + z] == sx);
                    pre.surface_view().lemma_child_link(q, at as int + z);
                    assert(false);
                } else {
                    assert(self.surface.slot_view(sx)
                        == pre.surface_view().slot_view(sx));
                }
            }
            assert(self.surface_view().slot_view(pre.body_view()).alive) by {
                assert(self.surface.slot_view(pre.body_view()).alive
                    == pre.surface_view().slot_view(pre.body_view()).alive);
            }
            self.lemma_offstage_surface_wf(pre);
        }
    }

    /// Stash each of the given nodes on `e`, in order. The nodes must be
    /// live, detached, mutually distinct and outside `e`'s subtree; `e`'s
    /// stash must be empty. Nothing else changes.
    #[verifier::rlimit(100)]
    fn stash_all(&mut self, e: El, other: &Vec<El>)
        requires
            old(self).wf(),
            old(self).alive(e),
            old(self).stash_of(e).len() == 0,
            forall |k: int| 0 <= k < other@.len() ==> old(self).alive(#[trigger] other@[k]),
            forall |k: int| 0 <= k < other@.len()
                ==> old(self).is_detached(#[trigger] other@[k]),
            forall |k: int| 0 <= k < other@.len()
                ==> !old(self).in_subtree(#[trigger] other@[k], e),
            forall |k: int, l: int| 0 <= k < l < other@.len()
                ==> #[trigger] other@[k] != #[trigger] other@[l],
        ensures
            final(self).wf(),
            final(self).node_count() == old(self).node_count(),
            final(self).surface == old(self).surface,
            final(self).node_view(e) == (NodeView {
                stash: other@,
                ..old(self).node_view(e)
            }),
            final(self).chain(e) == old(self).chain(e),
            forall |k: int| 0 <= k < other@.len()
                ==> final(self).node_view(#[trigger] other@[k]) == (NodeView {
                    owner: Owner::Stash(e),
                    ..old(self).node_view(other@[k])
                }),
            forall |x: El| old(self).valid(x) && x != e && !other@.contains(x)
                ==> #[trigger] final(self).node_view(x) == old(self).node_view(x),
            forall |i: int| #[trigger] final(self).alive_raw(i) == old(self).alive_raw(i),
            final(self).body_view() == old(self).body_view(),
            final(self).root_view() == old(self).root_view(),
            final(self).root_cell_view() == old(self).root_cell_view(),
            final(self).observers_view() == old(self).observers_view(),
            final(self).listeners_view() == old(self).listeners_view(),
            final(self).tasks_view() == old(self).tasks_view(),
    {
        let ghost pre = *old(self);
        proof {
            pre.lemma_count_bound();
            assert(other@.take(0) =~= Seq::<El>::empty());
            assert(pre.stash_of(e) =~= other@.take(0));
            assert(pre.node_view(e) == (NodeView {
                stash: other@.take(0),
                ..pre.node_view(e)
            }));
        }
        let mut k: usize = 0;
        while k < other.len()
            invariant
                pre.wf(),
                pre.alive(e),
                pre.stash_of(e).len() == 0,
                pre.node_count() <= usize::MAX,
                forall |j: int| 0 <= j < other@.len() ==> pre.alive(#[trigger] other@[j]),
                forall |j: int| 0 <= j < other@.len()
                    ==> pre.is_detached(#[trigger] other@[j]),
                forall |j: int| 0 <= j < other@.len()
                    ==> !pre.in_subtree(#[trigger] other@[j], e),
                forall |j: int, l: int| 0 <= j < l < other@.len()
                    ==> #[trigger] other@[j] != #[trigger] other@[l],
                0 <= k as int <= other@.len(),
                self.wf(),
                self.node_count() == pre.node_count(),
                self.surface == pre.surface,
                self.node_view(e) == (NodeView {
                    stash: other@.take(k as int),
                    ..pre.node_view(e)
                }),
                self.chain(e) == pre.chain(e),
                forall |j: int| 0 <= j < k as int
                    ==> self.node_view(#[trigger] other@[j]) == (NodeView {
                        owner: Owner::Stash(e),
                        ..pre.node_view(other@[j])
                    }),
                forall |j: int| k as int <= j < other@.len()
                    ==> self.node_view(#[trigger] other@[j]) == pre.node_view(other@[j]),
                forall |x: El| pre.valid(x) && x != e && !other@.contains(x)
                    ==> #[trigger] self.node_view(x) == pre.node_view(x),
                forall |i: int| #[trigger] self.alive_raw(i) == pre.alive_raw(i),
                self.body_view() == pre.body_view(),
                self.root_view() == pre.root_view(),
                self.root_cell_view() == pre.root_cell_view(),
                self.observers_view() == pre.observers_view(),
                self.listeners_view() == pre.listeners_view(),
                self.tasks_view() == pre.tasks_view(),
            decreases other@.len() - k as int,
        {
            let ghost cur = *self;
            let c = other[k];
            proof {
                assert(other@[k as int] != e) by {
                    assert(!pre.in_subtree(other@[k as int], e));
                }
                assert(self.alive(e)) by {
                    assert(self.node_view(e).alive == pre.node_view(e).alive);
                    assert(self.alive_raw(e.spec_raw()) == pre.alive_raw(e.spec_raw()));
                }
                assert(self.node_view(c) == pre.node_view(c));
                assert(self.alive(c)) by {
                    assert(self.alive_raw(c.spec_raw()) == pre.alive_raw(c.spec_raw()));
                }
                assert(self.is_detached(c));
                assert(!self.in_subtree(c, e)) by {
                    assert(self.chain(e) == pre.chain(e));
                    assert(!pre.in_subtree(c, e));
                }
            }
            self.stash_attach(e, c);
            proof {
                assert(self.node_view(e) == (NodeView {
                    stash: other@.take(k as int + 1),
                    ..pre.node_view(e)
                })) by {
                    assert(cur.stash_of(e) == other@.take(k as int));
                    assert(other@.take(k as int).push(other@[k as int])
                        =~= other@.take(k as int + 1));
                }
                assert forall |j: int| 0 <= j < k as int + 1
                    implies self.node_view(#[trigger] other@[j]) == (NodeView {
                        owner: Owner::Stash(e),
                        ..pre.node_view(other@[j])
                    }) by {
                    if j < k as int {
                        assert(other@[j] != c);
                        assert(other@[j] != e) by {
                            assert(!pre.in_subtree(other@[j], e));
                        }
                        assert(self.node_view(other@[j]) == cur.node_view(other@[j]));
                    } else {
                        assert(self.node_view(c) == (NodeView {
                            owner: Owner::Stash(e),
                            ..cur.node_view(c)
                        }));
                    }
                }
                assert forall |j: int| k as int + 1 <= j < other@.len()
                    implies self.node_view(#[trigger] other@[j])
                        == pre.node_view(other@[j]) by {
                    assert(other@[j] != c && other@[j] != e);
                }
                assert forall |x: El| pre.valid(x) && x != e && !other@.contains(x)
                    implies #[trigger] self.node_view(x) == pre.node_view(x) by {
                    assert(x != c) by {
                        if x == c {
                            assert(other@[k as int] == x);
                        }
                    }
                    assert(self.node_view(x) == cur.node_view(x));
                }
                assert forall |i: int| #[trigger] self.alive_raw(i)
                    == pre.alive_raw(i) by {
                    if 0 <= i < pre.node_count() {
                        let x = El(i as usize);
                        assert(self.node_view(x).alive == cur.node_view(x).alive) by {
                            if x == e || x == c {
                            } else {
                                assert(self.node_view(x) == cur.node_view(x));
                            }
                        }
                    }
                }
            }
            k = k + 1;
        }
        proof {
            assert(other@.take(other@.len() as int) =~= other@);
        }
    }

    /// Put the stashed replacements' surface elements in the place the
    /// node's own surface element occupies: the node's element leaves its
    /// parent and the replacements' elements take its position, in order.
    /// A node whose element has no parent keeps the surface unchanged.
    #[verifier::rlimit(100)]
    #[verifier::spinoff_prover]
    fn swap_surface_places(&mut self, e: El, other: &Vec<El>)
        requires
            old(self).wf(),
            old(self).alive(e),
            !(old(self).owner_of(e) is Parent),
            forall |k: int| 0 <= k < other@.len() ==> old(self).alive(#[trigger] other@[k]),
            forall |k: int| 0 <= k < other@.len()
                ==> old(self).owner_of(#[trigger] other@[k]) == Owner::Stash(e),
            forall |k: int| 0 <= k < other@.len() ==> #[trigger] other@[k] != e,
            forall |k: int, l: int| 0 <= k < l < other@.len()
                ==> #[trigger] other@[k] != #[trigger] other@[l],
            forall |k: int| 0 <= k < other@.len()
                ==> old(self).surface_view().parent(
                    old(self).surface_of(#[trigger] other@[k])) is None,
        ensures
            final(self).wf(),
            final(self).nodes == old(self).nodes,
            final(self).node_count() == old(self).node_count(),
            forall |x: El| old(self).valid(x)
                ==> #[trigger] final(self).node_view(x) == old(self).node_view(x),
            forall |x: El| old(self).valid(x)
                ==> #[trigger] final(self).chain(x) == old(self).chain(x),
            final(self).surface_view().slot_count() == old(self).surface_view().slot_count(),
            forall |s: SurfaceId| old(self).surface_view().valid(s)
                ==> (#[trigger] final(self).surface_view().slot_view(s)).alive
                        == old(self).surface_view().slot_view(s).alive
                    && crate::surface::content_eq(
                        final(self).surface_view().slot_view(s),
                        old(self).surface_view().slot_view(s)),
            final(self).surface_view().parent(old(self).surface_of(e)) is None,
            (match old(self).surface_view().parent(old(self).surface_of(e)) {
                Some(q) => {
                    let pos = old(self).surface_view().pos(old(self).surface_of(e));
                    &&& final(self).surface_view().alive(q)
                    &&& final(self).surface_view().children(q)
                        == old(self).surface_view().children(q).take(pos)
                            + other@.map_values(|x: El| old(self).surface_of(x))
                            + old(self).surface_view().children(q).skip(pos + 1)
                    &&& (forall |k: int| 0 <= k < other@.len()
                        ==> final(self).surface_view().parent(
                            old(self).surface_of(#[trigger] other@[k])) == Some(q))
                },
                None => final(self).surface_view() == old(self).surface_view(),
            }),
            final(self).body_view() == old(self).body_view(),
            final(self).root_view() == old(self).root_view(),
            final(self).root_cell_view() == old(self).root_cell_view(),
            final(self).observers_view() == old(self).observers_view(),
            final(self).listeners_view() == old(self).listeners_view(),
            final(self).tasks_view() == old(self).tasks_view(),
    {
        let ghost pre = *old(self);
        proof {
            pre.lemma_count_bound();
            assert(pre.surface_ok(e));
        }
        let es = self.nodes[e.0].surface;
        proof {
            assert(es == pre.surface_of(e));
            assert(pre.surface_view().alive(es));
        }
        match self.surface.parent_of(es) {
            None => {
                proof {
                    assert(pre.surface_view().parent(es) is None);
                }
            },
            Some(q) => {
                proof {
                    pre.surface_view().lemma_parent_link(es, q);
                }
                let pos = self.surface.pos_of(es);
                let ghost orig = pre.surface_view().children(q);
                proof {
                    assert(orig[pos as int] == es);
                    // no live node wraps `q`: a wrapper's mirrored child list
                    // would make `e` its owned child, against `e`'s owner
                    assert forall |x: El| pre.alive(x)
                        implies #[trigger] pre.surface_of(x) != q by {
                        if pre.surface_of(x) == q {
                            assert(pre.surface_ok(x));
                            assert(pre.surface_view().children(q)
                                == pre.child_surfaces(x));
                            let y = pre.children(x)[pos as int];
                            assert(pre.child_ok(x, pos as int));
                            assert(pre.alive(y));
                            assert(pre.surface_of(y) == es);
                            assert(y == e) by {
                                if y != e {
                                    assert(pre.surface_of(y) != pre.surface_of(e));
                                }
                            }
                            assert(pre.owner_of(e) == Owner::Parent(x));
                        }
                    }
                    assert(pre.unwrapped(q));
                    // the removed child is `e`'s element, whose wrapper is
                    // neither detached nor parent-owned
                    assert forall |x: El| pre.alive(x)
                        && (pre.is_detached(x) || (pre.owner_of(x) is Parent))
                        implies #[trigger] pre.surface_of(x) != orig[pos as int] by {
                        if pre.surface_of(x) == es {
                            assert(x == e) by {
                                if x != e {
                                    assert(pre.surface_of(x) != pre.surface_of(e));
                                }
                            }
                        }
                    }
                }
                let _ = self.remove_under_unwrapped(q, pos);
                let ghost srm = *self;
                proof {
                    assert(srm.surface_view().children(q) =~= orig.remove(pos as int));
                    assert(orig.remove(pos as int)
                        =~= orig.take(pos as int) + orig.skip(pos as int + 1));
                    // the removed element sits nowhere else in the list
                    assert forall |z: int| 0 <= z < srm.surface_view().children(q).len()
                        implies #[trigger] srm.surface_view().children(q)[z] != es by {
                        if z < pos as int {
                            if orig[z] == es {
                                pre.surface_view().lemma_child_link(q, z);
                            }
                        } else {
                            if orig[z + 1] == es {
                                pre.surface_view().lemma_child_link(q, z + 1);
                            }
                        }
                    }
                    assert(!srm.surface_view().children(q).contains(es));
                    assert forall |k: int| 0 <= k < other@.len()
                        implies #[trigger] srm.surface_view().slot_view(
                            pre.surface_of(other@[k]))
                            == pre.surface_view().slot_view(pre.surface_of(other@[k]))
                            && pre.surface_view().valid(pre.surface_of(other@[k]))
                            && pre.surface_view().alive(pre.surface_of(other@[k])) by {
                        let sk = pre.surface_of(other@[k]);
                        assert(pre.surface_ok(other@[k]));
                        assert(sk != es) by {
                            assert(pre.surface_of(other@[k]) != pre.surface_of(e));
                        }
                        assert(sk != q) by {
                            assert(pre.alive(other@[k]));
                        }
                        assert(!orig.skip(pos as int).contains(sk)) by {
                            if orig.skip(pos as int).contains(sk) {
                                let z = choose |z: int| 0 <= z < orig.skip(pos as int).len()
                                    && orig.skip(pos as int)[z] == sk;
                                assert(orig[pos as int + z] == sk);
                                pre.surface_view().lemma_child_link(q, pos as int + z);
                            }
                        }
                    }
                    assert forall |k: int, l: int| 0 <= k < l < other@.len()
                        implies pre.surface_of(#[trigger] other@[k])
                            != pre.surface_of(#[trigger] other@[l]) by {
                        assert(pre.alive(other@[k]) && pre.alive(other@[l]));
                    }
                    assert(srm.nodes == pre.nodes);
                }
                let mut k: usize = 0;
                while k < other.len()
                    invariant
                        pre.wf(),
                        srm.wf(),
                        pre.node_count() <= usize::MAX,
                        es == pre.surface_of(e),
                        pre.surface_view().valid(es),
                        srm.surface_view().valid(q),
                        srm.surface_view().alive(q),
                        (pos as int) < pre.surface_view().children(q).len(),
                        orig == pre.surface_view().children(q),
                        forall |k2: int| 0 <= k2 < other@.len()
                            ==> pre.alive(#[trigger] other@[k2]),
                        forall |k2: int| 0 <= k2 < other@.len()
                            ==> pre.owner_of(#[trigger] other@[k2]) == Owner::Stash(e),
                        forall |k2: int, l: int| 0 <= k2 < l < other@.len()
                            ==> pre.surface_of(#[trigger] other@[k2])
                                != pre.surface_of(#[trigger] other@[l]),
                        forall |k2: int| 0 <= k2 < other@.len()
                            ==> pre.surface_of(#[trigger] other@[k2]) != q
                                && pre.surface_of(other@[k2]) != es,
                        0 <= k as int <= other@.len(),
                        srm.nodes == pre.nodes,
                        srm.surface_view().children(q) == orig.remove(pos as int),
                        !srm.surface_view().children(q).contains(es),
                        srm.surface_view().valid(es),
                        forall |x: El| pre.alive(x)
                            ==> #[trigger] pre.surface_of(x) != q,
                        self.wf(),
                        self.nodes == srm.nodes,
                        self.node_count() == srm.node_count(),
                        self.surface_view().slot_count() == srm.surface_view().slot_count(),
                        self.surface_view().children(q)
                            =~= orig.take(pos as int)
                                + other@.map_values(|x: El| pre.surface_of(x))
                                    .take(k as int)
                                + orig.skip(pos as int + 1),
                        !self.surface_view().children(q).contains(es),
                        self.surface_view().slot_view(es)
                            == srm.surface_view().slot_view(es),
                        forall |x: El| srm.valid(x)
                            ==> #[trigger] self.chain(x) == srm.chain(x),
                        forall |k2: int| k as int <= k2 < other@.len()
                            ==> #[trigger] self.surface_view().slot_view(
                                pre.surface_of(other@[k2]))
                                == srm.surface_view().slot_view(
                                    pre.surface_of(other@[k2])),
                        forall |k2: int| 0 <= k2 < other@.len()
                            ==> srm.surface_view().slot_view(
                                pre.surface_of(#[trigger] other@[k2])).parent is None
                                && srm.surface_view().slot_view(
                                    pre.surface_of(other@[k2])).alive
                                && srm.surface_view().valid(pre.surface_of(other@[k2])),
                        forall |s: SurfaceId| srm.surface_view().valid(s)
                            ==> (#[trigger] self.surface_view().slot_view(s)).alive
                                    == srm.surface_view().slot_view(s).alive
                                && crate::surface::content_eq(
                                    self.surface_view().slot_view(s),
                                    srm.surface_view().slot_view(s)),
                        self.body_view() == srm.body_view(),
                        self.root_view() == srm.root_view(),
                        self.root_cell_view() == srm.root_cell_view(),
                        self.observers_view() == srm.observers_view(),
                        self.listeners_view() == srm.listeners_view(),
                        self.tasks_view() == srm.tasks_view(),
                    decreases other@.len() - k as int,
                {
                    let ghost cur = *self;
                    let ghost surfs = other@.map_values(|x: El| pre.surface_of(x));
                    let c = other[k];
                    let sk = self.nodes[c.0].surface;
                    proof {
                        assert(pre.alive(c));
                        assert(pre.valid(c));
                        assert(sk == pre.surface_of(c)) by {
                            assert(cur.node_view(c).surface
                                == srm.node_view(c).surface);
                            assert(srm.nodes == pre.nodes);
                        }
                        assert(cur.surface_view().valid(sk));
                        assert(cur.surface_view().slot_view(sk).alive);
                        assert(cur.surface_view().parent(sk) is None);
                        assert(sk != q);
                        // the holder stays unwrapped: node state is untouched
                        assert forall |x: El| cur.alive(x)
                            implies #[trigger] cur.surface_of(x) != q by {
                            assert(cur.node_view(x) == pre.node_view(x)) by {
                                assert(cur.nodes == pre.nodes);
                            }
                            assert(cur.alive_raw(x.spec_raw()) == pre.alive_raw(x.spec_raw()));
                            assert(pre.alive(x));
                            assert(pre.surface_of(x) != q);
                        }
                        assert(cur.unwrapped(q));
                        // the inserted element's wrapper is stash-owned
                        assert forall |x: El| cur.alive(x)
                            && (cur.is_detached(x) || (cur.owner_of(x) is Parent))
                            implies #[trigger] cur.surface_of(x) != sk by {
                            assert(cur.node_view(x) == pre.node_view(x)) by {
                                assert(cur.nodes == pre.nodes);
                            }
                            assert(cur.alive_raw(x.spec_raw()) == pre.alive_raw(x.spec_raw()));
                            assert(pre.alive(x));
                            if pre.surface_of(x) == sk {
                                assert(x == c) by {
                                    if x != c {
                                        assert(pre.surface_of(x) != pre.surface_of(c));
                                    }
                                }
                                assert(pre.owner_of(c) == Owner::Stash(e));
                            }
                        }
                        assert(surfs.take(k as int).len() == k as int);
                        assert(pos as int + k as int
                            <= cur.surface_view().children(q).len()) by {
                            assert(cur.surface_view().children(q).len()
                                == pos as int + k as int
                                    + orig.skip(pos as int + 1).len());
                        }
                    }
                    let cl = self.surface.child_count(q);
                    proof {
                        assert(cl as int == cur.surface_view().children(q).len());
                        assert(pos as int + k as int <= cl as int);
                    }
                    let at = pos + k;
                    self.insert_under_unwrapped(q, at, sk);
                    proof {
                        assert(self.surface_view().children(q)
                            =~= orig.take(pos as int) + surfs.take(k as int + 1)
                                + orig.skip(pos as int + 1)) by {
                            assert(cur.surface_view().children(q)
                                =~= orig.take(pos as int) + surfs.take(k as int)
                                    + orig.skip(pos as int + 1));
                            assert(surfs[k as int] == sk);
                            assert(surfs.take(k as int).push(sk)
                                =~= surfs.take(k as int + 1));
                            assert(self.surface_view().children(q)
                                == cur.surface_view().children(q)
                                    .insert(at as int, sk));
                        }
                        assert(!self.surface_view().children(q).contains(es)) by {
                            assert forall |z: int|
                                0 <= z < self.surface_view().children(q).len()
                                implies #[trigger] self.surface_view()
                                    .children(q)[z] != es by {
                                let kq = self.surface_view().children(q);
                                assert(kq =~= orig.take(pos as int)
                                    + surfs.take(k as int + 1)
                                    + orig.skip(pos as int + 1));
                                if z < pos as int {
                                    assert(kq[z] == orig.take(pos as int)[z]);
                                    assert(!srm.surface_view().children(q).contains(es));
                                    assert(srm.surface_view().children(q)[z] == kq[z]);
                                } else if z < pos as int + k as int + 1 {
                                    assert(kq[z] == surfs[z - pos as int]);
                                } else {
                                    assert(kq[z] == orig.skip(pos as int + 1)[
                                        z - (pos as int + k as int + 1)]);
                                    assert(srm.surface_view().children(q)[
                                        z - (k as int + 1) + 1 - 1]
                                        == kq[z] || true);
                                    assert(!srm.surface_view().children(q).contains(es));
                                    assert(srm.surface_view().children(q)[
                                        pos as int + (z - (pos as int + k as int + 1))]
                                        == kq[z]);
                                }
                            }
                        }
                        assert(self.surface_view().slot_view(es)
                            == srm.surface_view().slot_view(es)) by {
                            assert(es != sk);
                            assert(!cur.surface_view().children(q).skip(at as int)
                                .contains(es)) by {
                                if cur.surface_view().children(q).skip(at as int)
                                    .contains(es) {
                                    let z = choose |z: int| 0 <= z
                                        < cur.surface_view().children(q)
                                            .skip(at as int).len()
                                        && cur.surface_view().children(q)
                                            .skip(at as int)[z] == es;
                                    assert(cur.surface_view().children(q)[at as int + z]
                                        == es);
                                }
                            }
                            assert(srm.surface_view().valid(es)) by {
                                assert(pre.surface_view().valid(es));
                            }
                        }
                        assert forall |k2: int| k as int + 1 <= k2 < other@.len()
                            implies #[trigger] self.surface_view().slot_view(
                                pre.surface_of(other@[k2]))
                                == srm.surface_view().slot_view(
                                    pre.surface_of(other@[k2])) by {
                            let s2 = pre.surface_of(other@[k2]);
                            assert(s2 != sk) by {
                                assert(pre.surface_of(other@[k as int])
                                    != pre.surface_of(other@[k2]));
                            }
                            assert(s2 != q);
                            assert(!cur.surface_view().children(q).skip(at as int)
                                .contains(s2)) by {
                                if cur.surface_view().children(q).skip(at as int)
                                    .contains(s2) {
                                    let z = choose |z: int| 0 <= z
                                        < cur.surface_view().children(q)
                                            .skip(at as int).len()
                                        && cur.surface_view().children(q)
                                            .skip(at as int)[z] == s2;
                                    assert(cur.surface_view().children(q)[at as int + z]
                                        == s2);
                                    cur.surface_view().lemma_child_link(q, at as int + z);
                                    assert(cur.surface_view().parent(s2) == Some(q));
                                    assert(cur.surface_view().slot_view(s2)
                                        == srm.surface_view().slot_view(s2));
                                }
                            }
                            assert(self.surface_view().slot_view(s2)
                                == cur.surface_view().slot_view(s2));
                        }
                    }
                    k = k + 1;
                }
                proof {
                    let ghost surfs = other@.map_values(|x: El| pre.surface_of(x));
                    assert(surfs.take(other@.len() as int) =~= surfs);
                    assert(self.surface_view().children(q)
                        == orig.take(pos as int) + surfs
                            + orig.skip(pos as int + 1)) by {
                        assert(self.surface_view().children(q)
                            =~= orig.take(pos as int) + surfs.take(other@.len() as int)
                                + orig.skip(pos as int + 1));
                    }
                    assert(self.surface_view().parent(es) is None) by {
                        assert(self.surface_view().slot_view(es)
                            == srm.surface_view().slot_view(es));
                    }
                    assert(self.surface_view().alive(q)) by {
                        assert(self.surface_view().slot_view(q).alive
                            == srm.surface_view().slot_view(q).alive);
                    }
                    assert forall |k2: int| 0 <= k2 < other@.len()
                        implies self.surface_view().parent(
                            pre.surface_of(#[trigger] other@[k2])) == Some(q) by {
                        assert(self.surface_view().children(q)[pos as int + k2]
                            == pre.surface_of(other@[k2])) by {
                            assert(self.surface_view().children(q)
                                == orig.take(pos as int) + surfs
                                    + orig.skip(pos as int + 1));
                            assert(surfs[k2] == pre.surface_of(other@[k2]));
                        }
                        self.surface_view().lemma_child_link(q, pos as int + k2);
                    }
                    assert forall |x: El| pre.valid(x)
                        implies #[trigger] self.chain(x) == pre.chain(x) by {
                        assert(self.chain(x) == srm.chain(x));
                    }
                    assert forall |s: SurfaceId| pre.surface_view().valid(s)
                        implies (#[trigger] self.surface_view().slot_view(s)).alive
                                == pre.surface_view().slot_view(s).alive
                            && crate::surface::content_eq(
                                self.surface_view().slot_view(s),
                                pre.surface_view().slot_view(s)) by {
                        assert(srm.surface_view().valid(s));
                    }
                }
            },
        }
    }

    /// Subtrees of two distinct nodes with equal chains (for instance two
    /// children or stash entries of one node) never share a member:
    /// ownership is a forest.
    proof fn lemma_sub_disjoint(self, a: El, b: El)
        requires
            self.wf(),
            self.alive(a),
            self.alive(b),
            a != b,
            self.chain(a) == self.chain(b),
        ensures
            forall |i: int| !((#[trigger] self.subtree_raw(a).contains(i))
                && self.subtree_raw(b).contains(i)),
    {
        assert forall |i: int| !((#[trigger] self.subtree_raw(a).contains(i))
            && self.subtree_raw(b).contains(i)) by {
            if self.subtree_raw(a).contains(i) && self.subtree_raw(b).contains(i) {
                self.lemma_sub_disjoint_one(a, b, i);
            }
        }
    }

    proof fn lemma_sub_disjoint_one(self, a: El, b: El, i: int)
        requires
            self.wf(),
            self.alive(a),
            self.alive(b),
            a != b,
            self.chain(a) == self.chain(b),
            self.subtree_raw(a).contains(i),
            self.subtree_raw(b).contains(i),
        ensures
            a == b,
    {
        self.lemma_count_bound();
        let x = El(i as usize);
        assert(self.alive(x));
        if i == a.spec_raw() {
            if i == b.spec_raw() {
                assert(a == b);
            } else {
                assert(self.chain(a).contains(b.spec_raw()));
                self.lemma_chain_prefix(a, b.spec_raw());
                assert(self.chain(a).len() > self.chain(b).len());
            }
        } else if i == b.spec_raw() {
            assert(self.chain(b).contains(a.spec_raw()));
            self.lemma_chain_prefix(b, a.spec_raw());
            assert(self.chain(b).len() > self.chain(a).len());
        } else {
            assert(self.chain(x).contains(a.spec_raw()));
            assert(self.chain(x).contains(b.spec_raw()));
            self.lemma_chain_prefix(x, a.spec_raw());
            self.lemma_chain_prefix(x, b.spec_raw());
            let la = self.chain(a).len() as int;
            let lb = self.chain(b).len() as int;
            assert(la == lb);
            assert(self.chain(x).take(la + 1) == self.chain(a).push(a.spec_raw()));
            assert(self.chain(x).take(lb + 1) == self.chain(b).push(b.spec_raw()));
            assert(self.chain(a).push(a.spec_raw()).last() == a.spec_raw());
            assert(self.chain(b).push(b.spec_raw()).last() == b.spec_raw());
            assert(a.spec_raw() == b.spec_raw());
            assert(a == b);
        }
    }

    /// A node of `e`'s subtree other than `e` lies under one of `e`'s
    /// children or stash entries.
    proof fn lemma_subtree_split(self, e: El, x: El)
        requires
            self.wf(),
            self.alive(e),
            self.alive(x),
            self.in_subtree(e, x),
            x != e,
        ensures
            Tree::under_kids(self, e, x.spec_raw())
                || Tree::under_stash(self, e, x.spec_raw()),
        decreases self.chain(x).len(),
    {
        self.lemma_count_bound();
        assert(self.owner_ok(x));
        assert(self.chain(x).contains(e.spec_raw()));
        match self.owner_of(x) {
            Owner::Detached => {
                assert(self.chain(x).len() == 0);
                assert(!self.chain(x).contains(e.spec_raw()));
            },
            Owner::Root => {
                assert(self.chain(x).len() == 0);
                assert(!self.chain(x).contains(e.spec_raw()));
            },
            Owner::Parent(o) => {
                if o == e {
                    let l = self.sib_index(x);
                    assert(self.children(e)[l] == x);
                    assert(self.subtree_raw(self.children(e)[l]).contains(x.spec_raw()));
                    assert(Tree::under_kids_upto(self, e, self.children(e).len() as int,
                        x.spec_raw()));
                } else {
                    self.lemma_owner_into_subtree(e, x, o);
                }
            },
            Owner::Stash(o) => {
                if o == e {
                    let l = choose |l: int|
                        0 <= l < self.stash_of(e).len() && self.stash_of(e)[l] == x;
                    assert(self.subtree_raw(self.stash_of(e)[l]).contains(x.spec_raw()));
                    assert(Tree::under_stash_upto(self, e, self.stash_of(e).len() as int,
                        x.spec_raw()));
                } else {
                    self.lemma_owner_into_subtree(e, x, o);
                }
            },
        }
    }

    /// Helper for the split: if `x`'s owner `o` is a proper member of
    /// `e`'s subtree, `x` lies under the same child or stash entry as `o`.
    proof fn lemma_owner_into_subtree(self, e: El, x: El, o: El)
        requires
            self.wf(),
            self.alive(e),
            self.alive(x),
            self.alive(o),
            self.in_subtree(e, x),
            x != e,
            o != e,
            self.chain(x) == self.chain(o).push(o.spec_raw()),
        ensures
            Tree::under_kids(self, e, x.spec_raw())
                || Tree::under_stash(self, e, x.spec_raw()),
        decreases self.chain(x).len(), 0int,
    {
        self.lemma_count_bound();
        assert(self.chain(x).contains(e.spec_raw()));
        assert(self.in_subtree(e, o)) by {
            let k = choose |k: int|
                0 <= k < self.chain(x).len() && self.chain(x)[k] == e.spec_raw();
            if k == self.chain(o).len() {
                assert(self.chain(x)[k] == o.spec_raw());
                assert(o.spec_raw() == e.spec_raw());
                assert(o == e);
            }
            assert(self.chain(o)[k] == e.spec_raw());
            assert(self.chain(o).contains(e.spec_raw()));
        }
        self.lemma_subtree_split(e, o);
        if Tree::under_kids(self, e, o.spec_raw()) {
            let l = choose |l: int| 0 <= l < self.children(e).len()
                && #[trigger] self.subtree_raw(self.children(e)[l]).contains(o.spec_raw());
            let d = self.children(e)[l];
            assert(self.subtree_raw(d).contains(x.spec_raw())) by {
                if o.spec_raw() == d.spec_raw() {
                    assert(self.chain(x).contains(d.spec_raw())) by {
                        assert(self.chain(x).last() == o.spec_raw());
                    }
                } else {
                    assert(self.chain(o).contains(d.spec_raw()));
                    let k = choose |k: int| 0 <= k < self.chain(o).len()
                        && self.chain(o)[k] == d.spec_raw();
                    assert(self.chain(x)[k] == d.spec_raw());
                    assert(self.chain(x).contains(d.spec_raw()));
                }
            }
            assert(Tree::under_kids_upto(self, e, self.children(e).len() as int,
                x.spec_raw()));
        } else {
            let l = choose |l: int| 0 <= l < self.stash_of(e).len()
                && #[trigger] self.subtree_raw(self.stash_of(e)[l]).contains(o.spec_raw());
            let d = self.stash_of(e)[l];
            assert(self.subtree_raw(d).contains(x.spec_raw())) by {
                if o.spec_raw() == d.spec_raw() {
                    assert(self.chain(x).contains(d.spec_raw())) by {
                        assert(self.chain(x).last() == o.spec_raw());
                    }
                } else {
                    assert(self.chain(o).contains(d.spec_raw()));
                    let k = choose |k: int| 0 <= k < self.chain(o).len()
                        && self.chain(o)[k] == d.spec_raw();
                    assert(self.chain(x)[k] == d.spec_raw());
                    assert(self.chain(x).contains(d.spec_raw()));
                }
            }
            assert(Tree::under_stash_upto(self, e, self.stash_of(e).len() as int,
                x.spec_raw()));
        }
    }

    /// Membership in a direct child's or stash entry's subtree lifts into
    /// the owner's subtree.
    proof fn lemma_sub_lift(self, e: El, c: El, i: int)
        requires
            self.wf(),
            self.alive(e),
            self.alive(c),
            self.chain(c) == self.chain(e).push(e.spec_raw()),
            self.subtree_raw(c).contains(i),
        ensures
            self.subtree_raw(e).contains(i),
            i != e.spec_raw(),
    {
        self.lemma_count_bound();
        let x = El(i as usize);
        assert(self.alive(x));
        if i == c.spec_raw() {
            assert(self.chain(c).last() == e.spec_raw());
            assert(self.chain(c).contains(e.spec_raw()));
            assert(i != e.spec_raw()) by {
                if i == e.spec_raw() {
                    assert(x == e && x == c);
                    self.lemma_chain_no_self(e);
                }
            }
        } else {
            assert(self.chain(x).contains(c.spec_raw()));
            self.lemma_chain_prefix(x, c.spec_raw());
            assert(self.chain(x).take(self.chain(c).len() as int + 1)
                == self.chain(c).push(c.spec_raw()));
            assert(self.chain(x)[self.chain(e).len() as int] == e.spec_raw()) by {
                assert(self.chain(c).push(c.spec_raw())[self.chain(e).len() as int]
                    == e.spec_raw());
            }
            assert(self.chain(x).contains(e.spec_raw()));
            assert(i != e.spec_raw()) by {
                if i == e.spec_raw() {
                    assert(x == e);
                    self.lemma_chain_no_self(e);
                }
            }
        }
    }

    /// A freshly detached node's subtree is unchanged by the chain strip,
    /// strictly smaller than its old owner's subtree, and free of the
    /// owner.
    #[verifier::rlimit(100)]
    proof fn lemma_release_sets(pre: Tree, cur: Tree, mid: Tree, e: El, c: El)
        requires
            pre.wf(),
            pre.node_count() <= usize::MAX,
            pre.alive(e),
            pre.alive(c),
            pre.chain(c) == pre.chain(e).push(e.spec_raw()),
            cur.node_count() == pre.node_count(),
            cur.alive(c),
            cur.wf(),
            forall |x: El| pre.valid(x) && cur.alive_raw(x.spec_raw())
                ==> #[trigger] cur.chain(x) == pre.chain(x),
            forall |i: int| #[trigger] cur.alive_raw(i) ==> pre.alive_raw(i),
            forall |i: int| #[trigger] pre.subtree_raw(c).contains(i)
                ==> cur.alive_raw(i),
            mid.node_count() == cur.node_count(),
            forall |i: int| #[trigger] mid.alive_raw(i) == cur.alive_raw(i),
            forall |x: El| cur.valid(x)
                ==> #[trigger] mid.chain(x)
                    == (if x == c || cur.chain(x).contains(c.spec_raw()) {
                        cur.chain(x).skip(cur.chain(c).len() as int)
                    } else {
                        cur.chain(x)
                    }),
        ensures
            mid.subtree_raw(c) =~= pre.subtree_raw(c),
            mid.subtree_raw(c).len() < pre.subtree_raw(e).len(),
            !pre.subtree_raw(c).contains(e.spec_raw()),
    {
        pre.lemma_count_bound();
        assert(cur.subtree_raw(c) =~= pre.subtree_raw(c)) by {
            assert forall |i: int| #[trigger] cur.subtree_raw(c).contains(i)
                implies pre.subtree_raw(c).contains(i) by {
                let x = El(i as usize);
                assert(cur.alive_raw(i));
                assert(pre.alive_raw(i));
                assert(cur.chain(x) == pre.chain(x));
            }
            assert forall |i: int| #[trigger] pre.subtree_raw(c).contains(i)
                implies cur.subtree_raw(c).contains(i) by {
                let x = El(i as usize);
                assert(cur.alive_raw(i));
                assert(cur.chain(x) == pre.chain(x));
            }
        }
        Tree::lemma_strip_subtree(mid, cur, c);
        pre.lemma_child_subtree(e, c);
        assert(!pre.subtree_raw(c).contains(e.spec_raw())) by {
            if pre.subtree_raw(c).contains(e.spec_raw()) {
                assert(pre.subtree_raw(e).remove(e.spec_raw()).contains(e.spec_raw()));
            }
        }
        assert(mid.subtree_raw(c).len() == pre.subtree_raw(c).len());
    }

    /// The members of a freshly detached child's subtree kept their views
    /// (apart from the child's own owner link), and the processed prefix
    /// splits.
    #[verifier::rlimit(100)]
    proof fn lemma_release_child_members(pre: Tree, cur: Tree, mid: Tree, e: El, c: El,
        j: int)
        requires
            pre.wf(),
            pre.node_count() <= usize::MAX,
            pre.alive(e),
            0 <= j < pre.children(e).len(),
            c == pre.children(e)[j],
            cur.node_count() == pre.node_count(),
            cur.node_view(e).children == pre.children(e).skip(j),
            forall |i: int| #[trigger] cur.alive_raw(i)
                <==> (pre.alive_raw(i) && !Tree::under_kids_upto(pre, e, j, i)),
            forall |x: El| pre.valid(x) && pre.alive(x) && x != e
                && !Tree::under_kids_upto(pre, e, j, x.spec_raw())
                && !pre.children(e).skip(j).contains(x)
                ==> #[trigger] cur.node_view(x) == pre.node_view(x),
            forall |l: int| j <= l < pre.children(e).len()
                ==> cur.node_view(#[trigger] pre.children(e)[l]) == (NodeView {
                    sib: l - j,
                    ..pre.node_view(pre.children(e)[l])
                }),
            mid.node_count() == cur.node_count(),
            mid.node_view(c) == (NodeView {
                owner: Owner::Detached,
                sib: 0,
                ..cur.node_view(c)
            }),
            forall |x: El| cur.valid(x) && x != e
                && !cur.node_view(e).children.skip(0).contains(x)
                ==> #[trigger] mid.node_view(x) == cur.node_view(x),
            forall |i: int| #[trigger] mid.alive_raw(i) == cur.alive_raw(i),
            mid.subtree_raw(c) =~= pre.subtree_raw(c),
        ensures
            forall |i: int| Tree::under_kids_upto(pre, e, j + 1, i)
                <==> (Tree::under_kids_upto(pre, e, j, i)
                    || #[trigger] pre.subtree_raw(c).contains(i)),
            forall |i: int| #[trigger] pre.subtree_raw(c).contains(i)
                ==> mid.alive(El(i as usize)) && mid.in_subtree(c, El(i as usize))
                    && mid.node_view(El(i as usize)).surface
                        == pre.node_view(El(i as usize)).surface
                    && pre.alive_raw(i),
            forall |s: SurfaceId| Tree::kids_surf_upto(pre, e, j + 1, s)
                <==> (Tree::kids_surf_upto(pre, e, j, s)
                    || (exists |x: El| #[trigger] pre.alive(x)
                        && pre.subtree_raw(c).contains(x.spec_raw())
                        && pre.surface_of(x) == s)),
    {
        pre.lemma_count_bound();
        pre.lemma_kids_facts(e);
        assert(pre.child_ok(e, j));
        let kids = pre.children(e);
        assert forall |i: int| Tree::under_kids_upto(pre, e, j + 1, i)
            <==> (Tree::under_kids_upto(pre, e, j, i)
                || #[trigger] pre.subtree_raw(c).contains(i)) by {
            if Tree::under_kids_upto(pre, e, j + 1, i) {
                let l = choose |l: int| 0 <= l < j + 1
                    && #[trigger] pre.subtree_raw(kids[l]).contains(i);
                if l < j {
                    assert(Tree::under_kids_upto(pre, e, j, i));
                } else {
                    assert(pre.subtree_raw(c).contains(i));
                }
            }
            if Tree::under_kids_upto(pre, e, j, i) {
                let l = choose |l: int| 0 <= l < j
                    && #[trigger] pre.subtree_raw(kids[l]).contains(i);
                assert(Tree::under_kids_upto(pre, e, j + 1, i));
            }
            if pre.subtree_raw(c).contains(i) {
                assert(pre.subtree_raw(kids[j]).contains(i));
                assert(Tree::under_kids_upto(pre, e, j + 1, i));
            }
        }
        assert forall |i: int| #[trigger] pre.subtree_raw(c).contains(i)
            implies mid.alive(El(i as usize)) && mid.in_subtree(c, El(i as usize))
                && mid.node_view(El(i as usize)).surface
                    == pre.node_view(El(i as usize)).surface
                && pre.alive_raw(i) by {
            let x = El(i as usize);
            assert(pre.alive_raw(i));
            assert(!Tree::under_kids_upto(pre, e, j, i)) by {
                if Tree::under_kids_upto(pre, e, j, i) {
                    let l = choose |l: int| 0 <= l < j
                        && #[trigger] pre.subtree_raw(kids[l]).contains(i);
                    assert(pre.child_ok(e, l));
                    assert(pre.alive(kids[l]));
                    assert(pre.owner_ok(kids[l]));
                    assert(pre.alive(c));
                    assert(pre.owner_ok(c));
                    pre.lemma_sub_disjoint(kids[l], c);
                }
            }
            assert(cur.alive_raw(i));
            assert(mid.alive_raw(i));
            assert(mid.subtree_raw(c).contains(i));
            assert(mid.alive(x));
            assert(mid.in_subtree(c, x)) by {
                if i != c.spec_raw() {
                    assert(mid.chain(x).contains(c.spec_raw()));
                }
            }
            if i == c.spec_raw() {
                assert(x == c);
                assert(cur.node_view(c) == (NodeView {
                    sib: 0,
                    ..pre.node_view(c)
                })) by {
                    assert(cur.node_view(kids[j]) == (NodeView {
                        sib: 0,
                        ..pre.node_view(kids[j])
                    }));
                }
            } else {
                assert(x != e) by {
                    assert(pre.alive(c));
                    assert(pre.owner_ok(c));
                    pre.lemma_child_subtree(e, c);
                    if x == e {
                        assert(pre.subtree_raw(e).remove(e.spec_raw())
                            .contains(e.spec_raw()));
                    }
                }
                assert(!kids.skip(j).contains(x)) by {
                    if kids.skip(j).contains(x) {
                        let m = choose |m: int|
                            0 <= m < kids.skip(j).len() && kids.skip(j)[m] == x;
                        assert(kids[j + m] == x);
                        assert(pre.child_ok(e, j + m));
                        if j + m == j {
                            assert(x == c);
                        } else {
                            assert(pre.alive(kids[j + m]));
                            assert(pre.owner_ok(kids[j + m]));
                            assert(pre.alive(c));
                            assert(pre.owner_ok(c));
                            pre.lemma_sub_disjoint(kids[j + m], c);
                            assert(pre.subtree_raw(kids[j + m]).contains(i));
                        }
                    }
                }
                assert(cur.node_view(x) == pre.node_view(x));
                assert(!cur.node_view(e).children.skip(0).contains(x)) by {
                    if cur.node_view(e).children.skip(0).contains(x) {
                        let m = choose |m: int|
                            0 <= m < cur.node_view(e).children.skip(0).len()
                            && cur.node_view(e).children.skip(0)[m] == x;
                        assert(cur.node_view(e).children[m] == x);
                        assert(kids.skip(j)[m] == x);
                    }
                }
                assert(mid.node_view(x) == cur.node_view(x));
            }
        }
        assert forall |s: SurfaceId| Tree::kids_surf_upto(pre, e, j + 1, s)
            <==> (Tree::kids_surf_upto(pre, e, j, s)
                || (exists |x: El| #[trigger] pre.alive(x)
                    && pre.subtree_raw(c).contains(x.spec_raw())
                    && pre.surface_of(x) == s)) by {
            if Tree::kids_surf_upto(pre, e, j + 1, s) {
                let x = choose |x: El| #[trigger] pre.alive(x)
                    && Tree::under_kids_upto(pre, e, j + 1, x.spec_raw())
                    && pre.surface_of(x) == s;
                if Tree::under_kids_upto(pre, e, j, x.spec_raw()) {
                    assert(Tree::kids_surf_upto(pre, e, j, s));
                } else {
                    assert(pre.subtree_raw(c).contains(x.spec_raw()));
                }
            }
            if Tree::kids_surf_upto(pre, e, j, s) {
                let x = choose |x: El| #[trigger] pre.alive(x)
                    && Tree::under_kids_upto(pre, e, j, x.spec_raw())
                    && pre.surface_of(x) == s;
                assert(Tree::under_kids_upto(pre, e, j + 1, x.spec_raw()));
                assert(Tree::kids_surf_upto(pre, e, j + 1, s));
            }
            if exists |x: El| #[trigger] pre.alive(x)
                && pre.subtree_raw(c).contains(x.spec_raw())
                && pre.surface_of(x) == s {
                let x = choose |x: El| #[trigger] pre.alive(x)
                    && pre.subtree_raw(c).contains(x.spec_raw())
                    && pre.surface_of(x) == s;
                assert(Tree::under_kids_upto(pre, e, j + 1, x.spec_raw()));
                assert(Tree::kids_surf_upto(pre, e, j + 1, s));
            }
        }
    }

    /// The members of a freshly unstashed entry's subtree kept their
    /// views, and the processed prefix splits; the already-released part
    /// of the subtree is described by `gone`.
    #[verifier::rlimit(100)]
    proof fn lemma_release_stash_members(pre: Tree, cur: Tree, mid: Tree, e: El, c: El,
        j: int)
        requires
            pre.wf(),
            pre.node_count() <= usize::MAX,
            pre.alive(e),
            0 <= j < pre.stash_of(e).len(),
            c == pre.stash_of(e)[j],
            cur.node_count() == pre.node_count(),
            forall |i: int| #[trigger] cur.alive_raw(i)
                <==> (pre.alive_raw(i) && !Tree::under_kids(pre, e, i)
                    && !Tree::under_stash_upto(pre, e, j, i)),
            forall |x: El| pre.valid(x) && pre.alive(x) && x != e
                && !Tree::under_kids(pre, e, x.spec_raw())
                && !Tree::under_stash_upto(pre, e, j, x.spec_raw())
                && !pre.stash_of(e).skip(j).contains(x)
                ==> #[trigger] cur.node_view(x) == pre.node_view(x),
            forall |l: int| j <= l < pre.stash_of(e).len()
                ==> cur.node_view(#[trigger] pre.stash_of(e)[l])
                    == pre.node_view(pre.stash_of(e)[l]),
            mid.node_count() == cur.node_count(),
            mid.node_view(c) == (NodeView {
                owner: Owner::Detached,
                ..cur.node_view(c)
            }),
            forall |x: El| cur.valid(x) && x != e && x != c
                ==> #[trigger] mid.node_view(x) == cur.node_view(x),
            forall |i: int| #[trigger] mid.alive_raw(i) == cur.alive_raw(i),
            mid.subtree_raw(c) =~= pre.subtree_raw(c),
        ensures
            forall |i: int| Tree::under_stash_upto(pre, e, j + 1, i)
                <==> (Tree::under_stash_upto(pre, e, j, i)
                    || #[trigger] pre.subtree_raw(c).contains(i)),
            forall |i: int| #[trigger] pre.subtree_raw(c).contains(i)
                ==> mid.alive(El(i as usize)) && mid.in_subtree(c, El(i as usize))
                    && mid.node_view(El(i as usize)).surface
                        == pre.node_view(El(i as usize)).surface
                    && pre.alive_raw(i),
            forall |s: SurfaceId| Tree::stash_surf_upto(pre, e, j + 1, s)
                <==> (Tree::stash_surf_upto(pre, e, j, s)
                    || (exists |x: El| #[trigger] pre.alive(x)
                        && pre.subtree_raw(c).contains(x.spec_raw())
                        && pre.surface_of(x) == s)),
    {
        pre.lemma_count_bound();
        pre.lemma_kids_facts(e);
        assert(pre.stash_entry_ok(e, j));
        assert(pre.alive(c));
        let entries = pre.stash_of(e);
        assert forall |i: int| Tree::under_stash_upto(pre, e, j + 1, i)
            <==> (Tree::under_stash_upto(pre, e, j, i)
                || #[trigger] pre.subtree_raw(c).contains(i)) by {
            if Tree::under_stash_upto(pre, e, j + 1, i) {
                let l = choose |l: int| 0 <= l < j + 1
                    && #[trigger] pre.subtree_raw(entries[l]).contains(i);
                if l < j {
                    assert(Tree::under_stash_upto(pre, e, j, i));
                } else {
                    assert(pre.subtree_raw(c).contains(i));
                }
            }
            if Tree::under_stash_upto(pre, e, j, i) {
                let l = choose |l: int| 0 <= l < j
                    && #[trigger] pre.subtree_raw(entries[l]).contains(i);
                assert(Tree::under_stash_upto(pre, e, j + 1, i));
            }
            if pre.subtree_raw(c).contains(i) {
                assert(pre.subtree_raw(entries[j]).contains(i));
                assert(Tree::under_stash_upto(pre, e, j + 1, i));
            }
        }
        assert forall |i: int| #[trigger] pre.subtree_raw(c).contains(i)
            implies mid.alive(El(i as usize)) && mid.in_subtree(c, El(i as usize))
                && mid.node_view(El(i as usize)).surface
                    == pre.node_view(El(i as usize)).surface
                && pre.alive_raw(i) by {
            let x = El(i as usize);
            assert(pre.alive_raw(i));
            assert(!Tree::under_kids(pre, e, i)) by {
                if Tree::under_kids(pre, e, i) {
                    let l = choose |l: int| 0 <= l < pre.children(e).len()
                        && #[trigger] pre.subtree_raw(pre.children(e)[l]).contains(i);
                    assert(pre.child_ok(e, l));
                    assert(pre.alive(pre.children(e)[l]));
                    assert(pre.owner_ok(pre.children(e)[l]));
                    assert(pre.owner_ok(c));
                    assert(pre.children(e)[l] != c) by {
                        assert(pre.owner_of(pre.children(e)[l]) == Owner::Parent(e));
                        assert(pre.owner_of(c) == Owner::Stash(e));
                    }
                    pre.lemma_sub_disjoint(pre.children(e)[l], c);
                }
            }
            assert(!Tree::under_stash_upto(pre, e, j, i)) by {
                if Tree::under_stash_upto(pre, e, j, i) {
                    let l = choose |l: int| 0 <= l < j
                        && #[trigger] pre.subtree_raw(entries[l]).contains(i);
                    assert(pre.stash_entry_ok(e, l));
                    assert(pre.alive(entries[l]));
                    assert(pre.owner_ok(entries[l]));
                    assert(pre.owner_ok(c));
                    assert(entries[l] != entries[j]);
                    pre.lemma_sub_disjoint(entries[l], c);
                }
            }
            assert(cur.alive_raw(i));
            assert(mid.alive_raw(i));
            assert(mid.subtree_raw(c).contains(i));
            assert(mid.alive(x));
            assert(mid.in_subtree(c, x)) by {
                if i != c.spec_raw() {
                    assert(mid.chain(x).contains(c.spec_raw()));
                }
            }
            if i == c.spec_raw() {
                assert(x == c);
                assert(cur.node_view(c) == pre.node_view(c)) by {
                    assert(cur.node_view(entries[j]) == pre.node_view(entries[j]));
                }
            } else {
                assert(x != e) by {
                    assert(pre.owner_ok(c));
                    pre.lemma_child_subtree(e, c);
                    if x == e {
                        assert(pre.subtree_raw(e).remove(e.spec_raw())
                            .contains(e.spec_raw()));
                    }
                }
                assert(x != c);
                assert(!entries.skip(j).contains(x)) by {
                    if entries.skip(j).contains(x) {
                        let m = choose |m: int|
                            0 <= m < entries.skip(j).len() && entries.skip(j)[m] == x;
                        assert(entries[j + m] == x);
                        assert(pre.stash_entry_ok(e, j + m));
                        if j + m == j {
                            assert(x == c);
                        } else {
                            assert(pre.alive(entries[j + m]));
                            assert(pre.owner_ok(entries[j + m]));
                            assert(pre.owner_ok(c));
                            assert(entries[j + m] != c);
                            pre.lemma_sub_disjoint(entries[j + m], c);
                            assert(pre.subtree_raw(entries[j + m]).contains(i));
                        }
                    }
                }
                assert(cur.node_view(x) == pre.node_view(x));
                assert(mid.node_view(x) == cur.node_view(x));
            }
        }
        assert forall |s: SurfaceId| Tree::stash_surf_upto(pre, e, j + 1, s)
            <==> (Tree::stash_surf_upto(pre, e, j, s)
                || (exists |x: El| #[trigger] pre.alive(x)
                    && pre.subtree_raw(c).contains(x.spec_raw())
                    && pre.surface_of(x) == s)) by {
            if Tree::stash_surf_upto(pre, e, j + 1, s) {
                let x = choose |x: El| #[trigger] pre.alive(x)
                    && Tree::under_stash_upto(pre, e, j + 1, x.spec_raw())
                    && pre.surface_of(x) == s;
                if Tree::under_stash_upto(pre, e, j, x.spec_raw()) {
                    assert(Tree::stash_surf_upto(pre, e, j, s));
                } else {
                    assert(pre.subtree_raw(c).contains(x.spec_raw()));
                }
            }
            if Tree::stash_surf_upto(pre, e, j, s) {
                let x = choose |x: El| #[trigger] pre.alive(x)
                    && Tree::under_stash_upto(pre, e, j, x.spec_raw())
                    && pre.surface_of(x) == s;
                assert(Tree::under_stash_upto(pre, e, j + 1, x.spec_raw()));
                assert(Tree::stash_surf_upto(pre, e, j + 1, s));
            }
            if exists |x: El| #[trigger] pre.alive(x)
                && pre.subtree_raw(c).contains(x.spec_raw())
                && pre.surface_of(x) == s {
                let x = choose |x: El| #[trigger] pre.alive(x)
                    && pre.subtree_raw(c).contains(x.spec_raw())
                    && pre.surface_of(x) == s;
                assert(Tree::under_stash_upto(pre, e, j + 1, x.spec_raw()));
                assert(Tree::stash_surf_upto(pre, e, j + 1, s));
            }
        }
    }

    /// After releasing one child, the node bookkeeping of the removal
    /// phase holds for `j + 1`.
    #[verifier::rlimit(100)]
    proof fn lemma_release_child_views(pre: Tree, cur: Tree, mid: Tree, post: Tree,
        e: El, c: El, j: int)
        requires
            pre.wf(),
            pre.node_count() <= usize::MAX,
            pre.alive(e),
            0 <= j < pre.children(e).len(),
            c == pre.children(e)[j],
            cur.node_count() == pre.node_count(),
            cur.node_view(e) == (NodeView {
                cells: Seq::empty(),
                children: pre.children(e).skip(j),
                ..pre.node_view(e)
            }),
            cur.chain(e) == pre.chain(e),
            forall |l: int| j <= l < pre.children(e).len()
                ==> cur.node_view(#[trigger] pre.children(e)[l]) == (NodeView {
                    sib: l - j,
                    ..pre.node_view(pre.children(e)[l])
                }),
            forall |i: int| #[trigger] cur.alive_raw(i)
                <==> (pre.alive_raw(i) && !Tree::under_kids_upto(pre, e, j, i)),
            forall |x: El| pre.valid(x) && pre.alive(x) && x != e
                && !Tree::under_kids_upto(pre, e, j, x.spec_raw())
                && !pre.children(e).skip(j).contains(x)
                ==> #[trigger] cur.node_view(x) == pre.node_view(x),
            forall |x: El| pre.valid(x) && cur.alive_raw(x.spec_raw())
                ==> #[trigger] cur.chain(x) == pre.chain(x),
            // detach facts
            mid.node_count() == cur.node_count(),
            mid.node_view(e) == (NodeView {
                children: cur.node_view(e).children.remove(0),
                ..cur.node_view(e)
            }),
            mid.node_view(c) == (NodeView {
                owner: Owner::Detached,
                sib: 0,
                ..cur.node_view(c)
            }),
            forall |l: int| 0 < l < cur.node_view(e).children.len()
                ==> mid.node_view(#[trigger] cur.node_view(e).children[l]) == (NodeView {
                    sib: l - 1,
                    ..cur.node_view(cur.node_view(e).children[l])
                }),
            forall |x: El| cur.valid(x) && x != e
                && !cur.node_view(e).children.skip(0).contains(x)
                ==> #[trigger] mid.node_view(x) == cur.node_view(x),
            forall |x: El| cur.valid(x)
                ==> #[trigger] mid.chain(x)
                    == (if x == c || cur.chain(x).contains(c.spec_raw()) {
                        cur.chain(x).skip(cur.chain(c).len() as int)
                    } else {
                        cur.chain(x)
                    }),
            forall |i: int| #[trigger] mid.alive_raw(i) == cur.alive_raw(i),
            // recursion facts
            post.node_count() == mid.node_count(),
            forall |i: int| #[trigger] post.alive_raw(i)
                <==> (mid.alive_raw(i) && !mid.subtree_raw(c).contains(i)),
            forall |x: El| mid.valid(x) && mid.alive(x) && !mid.in_subtree(c, x)
                ==> #[trigger] post.node_view(x) == mid.node_view(x)
                    && post.chain(x) == mid.chain(x),
            // sets and members facts
            mid.subtree_raw(c) =~= pre.subtree_raw(c),
            !pre.subtree_raw(c).contains(e.spec_raw()),
            forall |i: int| Tree::under_kids_upto(pre, e, j + 1, i)
                <==> (Tree::under_kids_upto(pre, e, j, i)
                    || #[trigger] pre.subtree_raw(c).contains(i)),
        ensures
            post.alive(e),
            post.node_view(e) == (NodeView {
                cells: Seq::empty(),
                children: pre.children(e).skip(j + 1),
                ..pre.node_view(e)
            }),
            post.chain(e) == pre.chain(e),
            forall |l: int| j + 1 <= l < pre.children(e).len()
                ==> post.node_view(#[trigger] pre.children(e)[l]) == (NodeView {
                    sib: l - j - 1,
                    ..pre.node_view(pre.children(e)[l])
                }),
            forall |i: int| #[trigger] post.alive_raw(i)
                <==> (pre.alive_raw(i) && !Tree::under_kids_upto(pre, e, j + 1, i)),
            forall |x: El| pre.valid(x) && pre.alive(x) && x != e
                && !Tree::under_kids_upto(pre, e, j + 1, x.spec_raw())
                && !pre.children(e).skip(j + 1).contains(x)
                ==> #[trigger] post.node_view(x) == pre.node_view(x),
            forall |x: El| pre.valid(x) && post.alive_raw(x.spec_raw())
                ==> #[trigger] post.chain(x) == pre.chain(x),
    {
        pre.lemma_count_bound();
        pre.lemma_kids_facts(e);
        assert(pre.child_ok(e, j));
        assert(pre.alive(c));
        assert(pre.owner_ok(c));
        let kids = pre.children(e);
        assert(c != e);
        // e survives
        assert(!Tree::under_kids_upto(pre, e, j, e.spec_raw())
            && !Tree::under_kids_upto(pre, e, j + 1, e.spec_raw())) by {
            if Tree::under_kids_upto(pre, e, j + 1, e.spec_raw()) {
                let l = choose |l: int| 0 <= l < j + 1
                    && #[trigger] pre.subtree_raw(kids[l]).contains(e.spec_raw());
                assert(pre.child_ok(e, l));
                assert(pre.alive(kids[l]));
                assert(pre.owner_ok(kids[l]));
                pre.lemma_child_subtree(e, kids[l]);
                assert(pre.subtree_raw(e).remove(e.spec_raw()).contains(e.spec_raw()));
            }
            if Tree::under_kids_upto(pre, e, j, e.spec_raw()) {
                assert(Tree::under_kids_upto(pre, e, j + 1, e.spec_raw()));
            }
        }
        assert(cur.alive_raw(e.spec_raw()));
        assert(mid.alive_raw(e.spec_raw()));
        assert(cur.alive(e)) by {
            assert(cur.node_view(e).alive == pre.node_view(e).alive);
        }
        assert(mid.alive(e)) by {
            assert(mid.node_view(e).alive == cur.node_view(e).alive);
        }
        assert(!mid.in_subtree(c, e)) by {
            if mid.subtree_raw(c).contains(e.spec_raw()) {
                assert(pre.subtree_raw(c).contains(e.spec_raw()));
            }
            assert(mid.alive_raw(e.spec_raw()));
        }
        assert(post.node_view(e) == mid.node_view(e));
        assert(post.alive_raw(e.spec_raw()));
        assert(post.node_view(e) == (NodeView {
            cells: Seq::empty(),
            children: kids.skip(j + 1),
            ..pre.node_view(e)
        })) by {
            assert(cur.node_view(e).children.remove(0) =~= kids.skip(j + 1));
        }
        assert(post.alive(e));
        // chains of e
        assert(mid.chain(e) == cur.chain(e)) by {
            if cur.chain(e).contains(c.spec_raw()) {
                assert(pre.chain(e).contains(c.spec_raw()));
                assert(pre.alive_raw(e.spec_raw()));
                assert(pre.subtree_raw(c).contains(e.spec_raw()));
            }
            assert(e != c);
        }
        assert(post.chain(e) == mid.chain(e));
        // remaining siblings
        assert forall |l: int| j + 1 <= l < kids.len()
            implies post.node_view(#[trigger] kids[l]) == (NodeView {
                sib: l - j - 1,
                ..pre.node_view(kids[l])
            }) by {
            let d = kids[l];
            assert(pre.child_ok(e, l));
            assert(cur.node_view(d) == (NodeView { sib: l - j, ..pre.node_view(d) }));
            assert(cur.node_view(e).children[l - j] == d) by {
                assert(kids.skip(j)[l - j] == d);
            }
            assert(mid.node_view(cur.node_view(e).children[l - j]) == (NodeView {
                sib: l - j - 1,
                ..cur.node_view(cur.node_view(e).children[l - j])
            }));
            assert(!pre.subtree_raw(c).contains(d.spec_raw())) by {
                if pre.subtree_raw(c).contains(d.spec_raw()) {
                    assert(pre.alive(d));
                    assert(pre.owner_ok(d));
                    pre.lemma_sub_disjoint(c, d);
                    assert(pre.subtree_raw(d).contains(d.spec_raw()));
                }
            }
            assert(!Tree::under_kids_upto(pre, e, j, d.spec_raw())) by {
                if Tree::under_kids_upto(pre, e, j, d.spec_raw()) {
                    let m = choose |m: int| 0 <= m < j
                        && #[trigger] pre.subtree_raw(kids[m]).contains(d.spec_raw());
                    assert(pre.child_ok(e, m));
                    assert(pre.alive(kids[m]));
                    assert(pre.owner_ok(kids[m]));
                    assert(pre.alive(d));
                    assert(pre.owner_ok(d));
                    pre.lemma_sub_disjoint(kids[m], d);
                    assert(pre.subtree_raw(d).contains(d.spec_raw()));
                }
            }
            assert(cur.alive_raw(d.spec_raw()));
            assert(mid.alive_raw(d.spec_raw()));
            assert(mid.alive(d)) by {
                assert(mid.node_view(d).alive == cur.node_view(d).alive);
            }
            assert(!mid.in_subtree(c, d)) by {
                if mid.subtree_raw(c).contains(d.spec_raw()) {
                    assert(pre.subtree_raw(c).contains(d.spec_raw()));
                }
                assert(mid.alive_raw(d.spec_raw()));
            }
            assert(post.node_view(d) == mid.node_view(d));
        }
        // alive equivalence
        assert forall |i: int| #[trigger] post.alive_raw(i)
            <==> (pre.alive_raw(i) && !Tree::under_kids_upto(pre, e, j + 1, i)) by {}
        // frames
        assert forall |x: El| pre.valid(x) && pre.alive(x) && x != e
            && !Tree::under_kids_upto(pre, e, j + 1, x.spec_raw())
            && !kids.skip(j + 1).contains(x)
            implies #[trigger] post.node_view(x) == pre.node_view(x) by {
            assert(!Tree::under_kids_upto(pre, e, j, x.spec_raw()));
            assert(!pre.subtree_raw(c).contains(x.spec_raw()));
            assert(x != c) by {
                if x == c {
                    assert(pre.subtree_raw(c).contains(c.spec_raw()));
                }
            }
            assert(!kids.skip(j).contains(x)) by {
                if kids.skip(j).contains(x) {
                    let m = choose |m: int|
                        0 <= m < kids.skip(j).len() && kids.skip(j)[m] == x;
                    assert(kids[j + m] == x);
                    if m == 0 {
                        assert(x == c);
                    } else {
                        assert(kids.skip(j + 1)[m - 1] == x);
                    }
                }
            }
            assert(cur.node_view(x) == pre.node_view(x));
            assert(!cur.node_view(e).children.skip(0).contains(x)) by {
                if cur.node_view(e).children.skip(0).contains(x) {
                    let m = choose |m: int|
                        0 <= m < cur.node_view(e).children.skip(0).len()
                        && cur.node_view(e).children.skip(0)[m] == x;
                    assert(cur.node_view(e).children[m] == x);
                    assert(kids.skip(j)[m] == x);
                }
            }
            assert(mid.node_view(x) == cur.node_view(x));
            assert(cur.alive_raw(x.spec_raw()));
            assert(mid.alive_raw(x.spec_raw()));
            assert(mid.alive(x)) by {
                assert(mid.node_view(x).alive == cur.node_view(x).alive);
            }
            assert(!mid.in_subtree(c, x)) by {
                if mid.subtree_raw(c).contains(x.spec_raw()) {
                    assert(pre.subtree_raw(c).contains(x.spec_raw()));
                }
                assert(mid.alive_raw(x.spec_raw()));
            }
            assert(post.node_view(x) == mid.node_view(x));
        }
        // chains of survivors
        assert forall |x: El| pre.valid(x) && post.alive_raw(x.spec_raw())
            implies #[trigger] post.chain(x) == pre.chain(x) by {
            assert(mid.alive_raw(x.spec_raw()));
            assert(cur.alive_raw(x.spec_raw()));
            assert(cur.chain(x) == pre.chain(x));
            assert(!mid.subtree_raw(c).contains(x.spec_raw()));
            assert(!pre.subtree_raw(c).contains(x.spec_raw()));
            assert(mid.chain(x) == cur.chain(x)) by {
                if cur.chain(x).contains(c.spec_raw()) {
                    assert(pre.chain(x).contains(c.spec_raw()));
                    assert(pre.alive_raw(x.spec_raw()));
                    assert(pre.subtree_raw(c).contains(x.spec_raw()));
                }
                assert(x != c) by {
                    if x == c {
                        assert(pre.subtree_raw(c).contains(c.spec_raw())) by {
                            assert(pre.alive_raw(c.spec_raw()));
                        }
                    }
                }
            }
            assert(mid.alive(x)) by {
                let xv = El(x.spec_raw() as usize);
                assert(xv == x);
            }
            assert(!mid.in_subtree(c, x)) by {
                assert(mid.alive_raw(x.spec_raw()));
            }
            assert(post.chain(x) == mid.chain(x));
        }
    }

    /// After releasing one stash entry, the node bookkeeping of the stash
    /// phase holds for `j + 1`.
    #[verifier::rlimit(100)]
    #[verifier::spinoff_prover]
    proof fn lemma_release_stash_views(pre: Tree, cur: Tree, mid: Tree, post: Tree,
        e: El, c: El, j: int)
        requires
            pre.wf(),
            pre.node_count() <= usize::MAX,
            pre.alive(e),
            0 <= j < pre.stash_of(e).len(),
            c == pre.stash_of(e)[j],
            cur.node_count() == pre.node_count(),
            cur.node_view(e) == (NodeView {
                cells: Seq::empty(),
                children: Seq::empty(),
                stash: pre.stash_of(e).skip(j),
                ..pre.node_view(e)
            }),
            cur.chain(e) == pre.chain(e),
            forall |l: int| j <= l < pre.stash_of(e).len()
                ==> cur.node_view(#[trigger] pre.stash_of(e)[l])
                    == pre.node_view(pre.stash_of(e)[l]),
            forall |i: int| #[trigger] cur.alive_raw(i)
                <==> (pre.alive_raw(i) && !Tree::under_kids(pre, e, i)
                    && !Tree::under_stash_upto(pre, e, j, i)),
            forall |x: El| pre.valid(x) && pre.alive(x) && x != e
                && !Tree::under_kids(pre, e, x.spec_raw())
                && !Tree::under_stash_upto(pre, e, j, x.spec_raw())
                && !pre.stash_of(e).skip(j).contains(x)
                ==> #[trigger] cur.node_view(x) == pre.node_view(x),
            forall |x: El| pre.valid(x) && cur.alive_raw(x.spec_raw())
                ==> #[trigger] cur.chain(x) == pre.chain(x),
            // unstash facts
            mid.node_count() == cur.node_count(),
            mid.node_view(e) == (NodeView {
                stash: cur.node_view(e).stash.drop_first(),
                ..cur.node_view(e)
            }),
            mid.node_view(c) == (NodeView {
                owner: Owner::Detached,
                ..cur.node_view(c)
            }),
            forall |x: El| cur.valid(x) && x != e && x != c
                ==> #[trigger] mid.node_view(x) == cur.node_view(x),
            forall |x: El| cur.valid(x)
                ==> #[trigger] mid.chain(x)
                    == (if x == c || cur.chain(x).contains(c.spec_raw()) {
                        cur.chain(x).skip(cur.chain(c).len() as int)
                    } else {
                        cur.chain(x)
                    }),
            forall |i: int| #[trigger] mid.alive_raw(i) == cur.alive_raw(i),
            // recursion facts
            post.node_count() == mid.node_count(),
            forall |i: int| #[trigger] post.alive_raw(i)
                <==> (mid.alive_raw(i) && !mid.subtree_raw(c).contains(i)),
            forall |x: El| mid.valid(x) && mid.alive(x) && !mid.in_subtree(c, x)
                ==> #[trigger] post.node_view(x) == mid.node_view(x)
                    && post.chain(x) == mid.chain(x),
            // sets and members facts
            mid.subtree_raw(c) =~= pre.subtree_raw(c),
            !pre.subtree_raw(c).contains(e.spec_raw()),
            forall |i: int| Tree::under_stash_upto(pre, e, j + 1, i)
                <==> (Tree::under_stash_upto(pre, e, j, i)
                    || #[trigger] pre.subtree_raw(c).contains(i)),
        ensures
            post.alive(e),
            post.node_view(e) == (NodeView {
                cells: Seq::empty(),
                children: Seq::empty(),
                stash: pre.stash_of(e).skip(j + 1),
                ..pre.node_view(e)
            }),
            post.chain(e) == pre.chain(e),
            forall |l: int| j + 1 <= l < pre.stash_of(e).len()
                ==> post.node_view(#[trigger] pre.stash_of(e)[l])
                    == pre.node_view(pre.stash_of(e)[l]),
            forall |i: int| #[trigger] post.alive_raw(i)
                <==> (pre.alive_raw(i) && !Tree::under_kids(pre, e, i)
                    && !Tree::under_stash_upto(pre, e, j + 1, i)),
            forall |x: El| pre.valid(x) && pre.alive(x) && x != e
                && !Tree::under_kids(pre, e, x.spec_raw())
                && !Tree::under_stash_upto(pre, e, j + 1, x.spec_raw())
                && !pre.stash_of(e).skip(j + 1).contains(x)
                ==> #[trigger] post.node_view(x) == pre.node_view(x),
            forall |x: El| pre.valid(x) && post.alive_raw(x.spec_raw())
                ==> #[trigger] post.chain(x) == pre.chain(x),
    {
        pre.lemma_count_bound();
        assert(pre.stash_entry_ok(e, j));
        assert(pre.alive(c));
        assert(pre.owner_ok(c));
        let entries = pre.stash_of(e);
        assert(c != e) by {
            if c == e {
                assert(pre.chain(e) == pre.chain(e).push(e.spec_raw()));
            }
        }
        // e survives
        assert(!Tree::under_kids(pre, e, e.spec_raw())) by {
            if Tree::under_kids(pre, e, e.spec_raw()) {
                let l = choose |l: int| 0 <= l < pre.children(e).len()
                    && #[trigger] pre.subtree_raw(pre.children(e)[l])
                        .contains(e.spec_raw());
                pre.lemma_kids_facts(e);
                assert(pre.child_ok(e, l));
                assert(pre.alive(pre.children(e)[l]));
                assert(pre.owner_ok(pre.children(e)[l]));
                pre.lemma_child_subtree(e, pre.children(e)[l]);
                assert(pre.subtree_raw(e).remove(e.spec_raw()).contains(e.spec_raw()));
            }
        }
        assert(!Tree::under_stash_upto(pre, e, j + 1, e.spec_raw())) by {
            if Tree::under_stash_upto(pre, e, j + 1, e.spec_raw()) {
                let l = choose |l: int| 0 <= l < j + 1
                    && #[trigger] pre.subtree_raw(entries[l]).contains(e.spec_raw());
                assert(pre.stash_entry_ok(e, l));
                assert(pre.alive(entries[l]));
                assert(pre.owner_ok(entries[l]));
                pre.lemma_child_subtree(e, entries[l]);
                assert(pre.subtree_raw(e).remove(e.spec_raw()).contains(e.spec_raw()));
            }
        }
        assert(!Tree::under_stash_upto(pre, e, j, e.spec_raw())) by {
            if Tree::under_stash_upto(pre, e, j, e.spec_raw()) {
                assert(Tree::under_stash_upto(pre, e, j + 1, e.spec_raw()));
            }
        }
        assert(cur.alive_raw(e.spec_raw()));
        assert(mid.alive_raw(e.spec_raw()));
        assert(cur.alive(e)) by {
            assert(cur.node_view(e).alive == pre.node_view(e).alive);
        }
        assert(mid.alive(e)) by {
            assert(mid.node_view(e).alive == cur.node_view(e).alive);
        }
        assert(!mid.in_subtree(c, e)) by {
            if mid.subtree_raw(c).contains(e.spec_raw()) {
                assert(pre.subtree_raw(c).contains(e.spec_raw()));
            }
            assert(mid.alive_raw(e.spec_raw()));
        }
        assert(post.node_view(e) == mid.node_view(e));
        assert(post.alive_raw(e.spec_raw()));
        assert(post.node_view(e) == (NodeView {
            cells: Seq::empty(),
            children: Seq::empty(),
            stash: entries.skip(j + 1),
            ..pre.node_view(e)
        })) by {
            assert(cur.node_view(e).stash.drop_first() =~= entries.skip(j + 1));
        }
        assert(post.alive(e));
        assert(mid.chain(e) == cur.chain(e)) by {
            if cur.chain(e).contains(c.spec_raw()) {
                assert(pre.chain(e).contains(c.spec_raw()));
                assert(pre.alive_raw(e.spec_raw()));
                assert(pre.subtree_raw(c).contains(e.spec_raw()));
            }
            assert(e != c);
        }
        assert(post.chain(e) == mid.chain(e));
        // remaining stash entries
        assert forall |l: int| j + 1 <= l < entries.len()
            implies post.node_view(#[trigger] entries[l])
                == pre.node_view(entries[l]) by {
            let d = entries[l];
            assert(pre.stash_entry_ok(e, l));
            assert(pre.alive(d));
            assert(cur.node_view(d) == pre.node_view(d));
            assert(d != c) by {
                assert(entries[j] != entries[l]);
            }
            assert(d != e) by {
                assert(pre.owner_ok(d));
                if d == e {
                    assert(pre.chain(e) == pre.chain(e).push(e.spec_raw()));
                }
            }
            assert(mid.node_view(d) == cur.node_view(d));
            assert(!pre.subtree_raw(c).contains(d.spec_raw())) by {
                if pre.subtree_raw(c).contains(d.spec_raw()) {
                    assert(pre.owner_ok(d));
                    pre.lemma_sub_disjoint(c, d);
                    assert(pre.subtree_raw(d).contains(d.spec_raw()));
                }
            }
            assert(!Tree::under_kids(pre, e, d.spec_raw())) by {
                if Tree::under_kids(pre, e, d.spec_raw()) {
                    let m = choose |m: int| 0 <= m < pre.children(e).len()
                        && #[trigger] pre.subtree_raw(pre.children(e)[m])
                            .contains(d.spec_raw());
                    pre.lemma_kids_facts(e);
                    assert(pre.child_ok(e, m));
                    assert(pre.alive(pre.children(e)[m]));
                    assert(pre.owner_ok(pre.children(e)[m]));
                    assert(pre.owner_ok(d));
                    assert(pre.children(e)[m] != d) by {
                        assert(pre.owner_of(pre.children(e)[m]) == Owner::Parent(e));
                        assert(pre.owner_of(d) == Owner::Stash(e));
                    }
                    pre.lemma_sub_disjoint(pre.children(e)[m], d);
                    assert(pre.subtree_raw(d).contains(d.spec_raw()));
                }
            }
            assert(!Tree::under_stash_upto(pre, e, j, d.spec_raw())) by {
                if Tree::under_stash_upto(pre, e, j, d.spec_raw()) {
                    let m = choose |m: int| 0 <= m < j
                        && #[trigger] pre.subtree_raw(entries[m]).contains(d.spec_raw());
                    assert(pre.stash_entry_ok(e, m));
                    assert(pre.alive(entries[m]));
                    assert(pre.owner_ok(entries[m]));
                    assert(pre.owner_ok(d));
                    assert(entries[m] != entries[l]);
                    pre.lemma_sub_disjoint(entries[m], d);
                    assert(pre.subtree_raw(d).contains(d.spec_raw()));
                }
            }
            assert(cur.alive_raw(d.spec_raw()));
            assert(mid.alive_raw(d.spec_raw()));
            assert(mid.alive(d)) by {
                assert(mid.node_view(d).alive == cur.node_view(d).alive);
            }
            assert(!mid.in_subtree(c, d)) by {
                if mid.subtree_raw(c).contains(d.spec_raw()) {
                    assert(pre.subtree_raw(c).contains(d.spec_raw()));
                }
                assert(mid.alive_raw(d.spec_raw()));
            }
            assert(post.node_view(d) == mid.node_view(d));
        }
        // alive equivalence
        assert forall |i: int| #[trigger] post.alive_raw(i)
            <==> (pre.alive_raw(i) && !Tree::under_kids(pre, e, i)
                && !Tree::under_stash_upto(pre, e, j + 1, i)) by {}
        // frames
        assert forall |x: El| pre.valid(x) && pre.alive(x) && x != e
            && !Tree::under_kids(pre, e, x.spec_raw())
            && !Tree::under_stash_upto(pre, e, j + 1, x.spec_raw())
            && !entries.skip(j + 1).contains(x)
            implies #[trigger] post.node_view(x) == pre.node_view(x) by {
            assert(!Tree::under_stash_upto(pre, e, j, x.spec_raw()));
            assert(!pre.subtree_raw(c).contains(x.spec_raw()));
            assert(x != c) by {
                if x == c {
                    assert(pre.subtree_raw(c).contains(c.spec_raw()));
                }
            }
            assert(!entries.skip(j).contains(x)) by {
                if entries.skip(j).contains(x) {
                    let m = choose |m: int|
                        0 <= m < entries.skip(j).len() && entries.skip(j)[m] == x;
                    assert(entries[j + m] == x);
                    if m == 0 {
                        assert(x == c);
                    } else {
                        assert(entries.skip(j + 1)[m - 1] == x);
                    }
                }
            }
            assert(cur.node_view(x) == pre.node_view(x));
            assert(mid.node_view(x) == cur.node_view(x));
            assert(cur.alive_raw(x.spec_raw()));
            assert(mid.alive_raw(x.spec_raw()));
            assert(mid.alive(x)) by {
                assert(mid.node_view(x).alive == cur.node_view(x).alive);
            }
            assert(!mid.in_subtree(c, x)) by {
                if mid.subtree_raw(c).contains(x.spec_raw()) {
                    assert(pre.subtree_raw(c).contains(x.spec_raw()));
                }
                assert(mid.alive_raw(x.spec_raw()));
            }
            assert(post.node_view(x) == mid.node_view(x));
        }
        // chains of survivors
        assert forall |x: El| pre.valid(x) && post.alive_raw(x.spec_raw())
            implies #[trigger] post.chain(x) == pre.chain(x) by {
            assert(mid.alive_raw(x.spec_raw()));
            assert(cur.alive_raw(x.spec_raw()));
            assert(cur.chain(x) == pre.chain(x));
            assert(!mid.subtree_raw(c).contains(x.spec_raw()));
            assert(!pre.subtree_raw(c).contains(x.spec_raw()));
            assert(mid.chain(x) == cur.chain(x)) by {
                if cur.chain(x).contains(c.spec_raw()) {
                    assert(pre.chain(x).contains(c.spec_raw()));
                    assert(pre.alive_raw(x.spec_raw()));
                    assert(pre.subtree_raw(c).contains(x.spec_raw()));
                }
                assert(x != c) by {
                    if x == c {
                        assert(pre.subtree_raw(c).contains(c.spec_raw())) by {
                            assert(pre.alive_raw(c.spec_raw()));
                        }
                    }
                }
            }
            assert(mid.alive(x)) by {
                let xv = El(x.spec_raw() as usize);
                assert(xv == x);
            }
            assert(!mid.in_subtree(c, x)) by {
                assert(mid.alive_raw(x.spec_raw()));
            }
            assert(post.chain(x) == mid.chain(x));
        }
    }

    /// The effect record composes: one more released subtree contributes
    /// each of its surfaces exactly once, and nothing it does not hold.
    #[verifier::rlimit(100)]
    proof fn lemma_release_fx_step(pre: Tree, mid: Tree, c: El, d0: Seq<Effect>,
        dc: Seq<Effect>, done: Set<SurfaceId>)
        requires
            pre.wf(),
            pre.node_count() <= usize::MAX,
            pre.alive(c),
            mid.node_count() == pre.node_count(),
            mid.subtree_raw(c) =~= pre.subtree_raw(c),
            forall |i: int| #[trigger] pre.subtree_raw(c).contains(i)
                ==> mid.alive(El(i as usize)) && mid.in_subtree(c, El(i as usize))
                    && mid.node_view(El(i as usize)).surface
                        == pre.node_view(El(i as usize)).surface
                    && pre.alive_raw(i),
            forall |x: El| pre.alive(x) && pre.subtree_raw(c).contains(x.spec_raw())
                ==> !done.contains(#[trigger] pre.surface_of(x)),
            forall |s: SurfaceId| #[trigger] eff_count(d0, Effect::ReleaseElement(s))
                == (if done.contains(s) { 1nat } else { 0nat }),
            forall |s: SurfaceId| #[trigger] eff_count(dc, Effect::ReleaseElement(s))
                == (if mid.subtree_surf(c, s) { 1nat } else { 0nat }),
        ensures
            forall |s: SurfaceId| #[trigger] eff_count(d0 + dc, Effect::ReleaseElement(s))
                == (if done.contains(s) || (exists |x: El| #[trigger] pre.alive(x)
                        && pre.subtree_raw(c).contains(x.spec_raw())
                        && pre.surface_of(x) == s) { 1nat } else { 0nat }),
    {
        pre.lemma_count_bound();
        assert forall |s: SurfaceId| #[trigger] eff_count(d0 + dc,
            Effect::ReleaseElement(s))
            == (if done.contains(s) || (exists |x: El| #[trigger] pre.alive(x)
                    && pre.subtree_raw(c).contains(x.spec_raw())
                    && pre.surface_of(x) == s) { 1nat } else { 0nat }) by {
            lemma_eff_count_concat(d0, dc, Effect::ReleaseElement(s));
            // the fresh contribution equals the subtree-membership form
            assert(mid.subtree_surf(c, s) <==> (exists |x: El| #[trigger] pre.alive(x)
                && pre.subtree_raw(c).contains(x.spec_raw())
                && pre.surface_of(x) == s)) by {
                if mid.subtree_surf(c, s) {
                    let y = choose |y: El| #[trigger] mid.alive(y)
                        && mid.in_subtree(c, y) && mid.surface_of(y) == s;
                    assert(mid.subtree_raw(c).contains(y.spec_raw())) by {
                        assert(mid.alive_raw(y.spec_raw()));
                    }
                    assert(pre.subtree_raw(c).contains(y.spec_raw()));
                    assert(El(y.spec_raw() as usize) == y);
                    assert(pre.alive_raw(y.spec_raw()));
                    assert(pre.alive(y));
                    assert(pre.surface_of(y) == s);
                }
                if exists |x: El| #[trigger] pre.alive(x)
                    && pre.subtree_raw(c).contains(x.spec_raw())
                    && pre.surface_of(x) == s {
                    let x = choose |x: El| #[trigger] pre.alive(x)
                        && pre.subtree_raw(c).contains(x.spec_raw())
                        && pre.surface_of(x) == s;
                    assert(El(x.spec_raw() as usize) == x);
                    assert(mid.alive(x) && mid.in_subtree(c, x)
                        && mid.node_view(x).surface == pre.node_view(x).surface);
                    assert(mid.subtree_surf(c, s));
                }
            }
            if done.contains(s) && (exists |x: El| #[trigger] pre.alive(x)
                && pre.subtree_raw(c).contains(x.spec_raw())
                && pre.surface_of(x) == s) {
                let x = choose |x: El| #[trigger] pre.alive(x)
                    && pre.subtree_raw(c).contains(x.spec_raw())
                    && pre.surface_of(x) == s;
                assert(!done.contains(pre.surface_of(x)));
            }
        }
    }

    /// The surfaces already released before the child at `j` is processed
    /// are disjoint from the surfaces of that child's subtree.
    #[verifier::rlimit(100)]
    proof fn lemma_done_disjoint_child(pre: Tree, e: El, j: int)
        requires
            pre.wf(),
            pre.node_count() <= usize::MAX,
            pre.alive(e),
            0 <= j < pre.children(e).len(),
        ensures
            forall |x: El| pre.alive(x)
                && pre.subtree_raw(pre.children(e)[j]).contains(x.spec_raw())
                ==> !Tree::kids_surf_upto(pre, e, j, #[trigger] pre.surface_of(x)),
    {
        pre.lemma_kids_facts(e);
        let kids = pre.children(e);
        assert forall |x: El| pre.alive(x)
            && pre.subtree_raw(kids[j]).contains(x.spec_raw())
            implies !Tree::kids_surf_upto(pre, e, j, #[trigger] pre.surface_of(x)) by {
            if Tree::kids_surf_upto(pre, e, j, pre.surface_of(x)) {
                let y = choose |y: El| #[trigger] pre.alive(y)
                    && Tree::under_kids_upto(pre, e, j, y.spec_raw())
                    && pre.surface_of(y) == pre.surface_of(x);
                let l = choose |l: int| 0 <= l < j
                    && #[trigger] pre.subtree_raw(kids[l]).contains(y.spec_raw());
                assert(y == x) by {
                    if y != x {
                        assert(pre.surface_of(y) != pre.surface_of(x));
                    }
                }
                assert(pre.child_ok(e, l));
                assert(pre.child_ok(e, j));
                assert(pre.alive(kids[l]));
                assert(pre.owner_ok(kids[l]));
                assert(pre.alive(kids[j]));
                assert(pre.owner_ok(kids[j]));
                pre.lemma_sub_disjoint(kids[l], kids[j]);
            }
        }
    }

    /// The surfaces already released before the stash entry at `j` is
    /// processed (everything under the children, and the earlier stash
    /// entries) are disjoint from the surfaces of that entry's subtree.
    #[verifier::rlimit(100)]
    proof fn lemma_done_disjoint_stash(pre: Tree, e: El, j: int)
        requires
            pre.wf(),
            pre.node_count() <= usize::MAX,
            pre.alive(e),
            0 <= j < pre.stash_of(e).len(),
        ensures
            forall |x: El| pre.alive(x)
                && pre.subtree_raw(pre.stash_of(e)[j]).contains(x.spec_raw())
                ==> !(Tree::kids_surf(pre, e, #[trigger] pre.surface_of(x))
                    || Tree::stash_surf_upto(pre, e, j, pre.surface_of(x))),
    {
        pre.lemma_kids_facts(e);
        let entries = pre.stash_of(e);
        assert(pre.stash_entry_ok(e, j));
        assert forall |x: El| pre.alive(x)
            && pre.subtree_raw(entries[j]).contains(x.spec_raw())
            implies !(Tree::kids_surf(pre, e, #[trigger] pre.surface_of(x))
                || Tree::stash_surf_upto(pre, e, j, pre.surface_of(x))) by {
            if Tree::kids_surf(pre, e, pre.surface_of(x)) {
                let y = choose |y: El| #[trigger] pre.alive(y)
                    && Tree::under_kids_upto(pre, e, pre.children(e).len() as int,
                        y.spec_raw())
                    && pre.surface_of(y) == pre.surface_of(x);
                let l = choose |l: int| 0 <= l < pre.children(e).len()
                    && #[trigger] pre.subtree_raw(pre.children(e)[l])
                        .contains(y.spec_raw());
                assert(y == x) by {
                    if y != x {
                        assert(pre.surface_of(y) != pre.surface_of(x));
                    }
                }
                assert(pre.child_ok(e, l));
                assert(pre.alive(pre.children(e)[l]));
                assert(pre.owner_ok(pre.children(e)[l]));
                assert(pre.alive(entries[j]));
                assert(pre.owner_ok(entries[j]));
                assert(pre.children(e)[l] != entries[j]) by {
                    assert(pre.owner_of(pre.children(e)[l]) == Owner::Parent(e));
                    assert(pre.owner_of(entries[j]) == Owner::Stash(e));
                }
                pre.lemma_sub_disjoint(pre.children(e)[l], entries[j]);
            }
            if Tree::stash_surf_upto(pre, e, j, pre.surface_of(x)) {
                let y = choose |y: El| #[trigger] pre.alive(y)
                    && Tree::under_stash_upto(pre, e, j, y.spec_raw())
                    && pre.surface_of(y) == pre.surface_of(x);
                let l = choose |l: int| 0 <= l < j
                    && #[trigger] pre.subtree_raw(entries[l]).contains(y.spec_raw());
                assert(y == x) by {
                    if y != x {
                        assert(pre.surface_of(y) != pre.surface_of(x));
                    }
                }
                assert(pre.stash_entry_ok(e, l));
                assert(pre.alive(entries[l]));
                assert(pre.owner_ok(entries[l]));
                assert(pre.alive(entries[j]));
                assert(pre.owner_ok(entries[j]));
                assert(entries[l] != entries[j]);
                pre.lemma_sub_disjoint(entries[l], entries[j]);
            }
        }
    }

    /// Dead surfaces stay dead through one more released subtree, and the
    /// subtree's own surfaces die.
    #[verifier::rlimit(100)]
    proof fn lemma_release_dead_step(pre: Tree, cur: Tree, mid: Tree, post: Tree, c: El)
        requires
            pre.wf(),
            pre.node_count() <= usize::MAX,
            pre.alive(c),
            mid.node_count() == pre.node_count(),
            mid.subtree_raw(c) =~= pre.subtree_raw(c),
            forall |i: int| #[trigger] pre.subtree_raw(c).contains(i)
                ==> mid.alive(El(i as usize)) && mid.in_subtree(c, El(i as usize))
                    && mid.node_view(El(i as usize)).surface
                        == pre.node_view(El(i as usize)).surface
                    && pre.alive_raw(i),
            pre.surface_view().slot_count() == cur.surface_view().slot_count(),
            forall |s: SurfaceId| pre.surface_view().valid(s)
                ==> (#[trigger] mid.surface_view().slot_view(s)).alive
                    == cur.surface_view().slot_view(s).alive,
            forall |s: SurfaceId| mid.surface_view().valid(s)
                && (#[trigger] post.surface_view().slot_view(s)).alive
                ==> mid.surface_view().slot_view(s).alive,
            mid.surface_view().slot_count() == pre.surface_view().slot_count(),
            post.surface_view().slot_count() == mid.surface_view().slot_count(),
            forall |x: El| mid.valid(x) && mid.alive(x) && mid.in_subtree(c, x)
                ==> !post.surface_view().alive(#[trigger] mid.surface_of(x)),
        ensures
            forall |s: SurfaceId| pre.surface_view().valid(s)
                && !cur.surface_view().slot_view(s).alive
                ==> !(#[trigger] post.surface_view().slot_view(s)).alive,
            forall |x: El| pre.alive(x)
                && pre.subtree_raw(c).contains(x.spec_raw())
                ==> !post.surface_view().alive(#[trigger] pre.surface_of(x)),
            forall |s: SurfaceId| pre.surface_view().valid(s)
                && (#[trigger] post.surface_view().slot_view(s)).alive
                ==> cur.surface_view().slot_view(s).alive,
    {
        pre.lemma_count_bound();
        assert forall |x: El| pre.alive(x)
            && pre.subtree_raw(c).contains(x.spec_raw())
            implies !post.surface_view().alive(#[trigger] pre.surface_of(x)) by {
            assert(El(x.spec_raw() as usize) == x);
            assert(mid.alive(x) && mid.in_subtree(c, x)
                && mid.node_view(x).surface == pre.node_view(x).surface);
            assert(!post.surface_view().alive(mid.surface_of(x)));
        }
    }

    /// Strip a live node bare: run its resource cells' teardown, then tear
    /// down each owned child's subtree in order, then each stashed node's
    /// subtree in order. The node itself stays alive, with its owner, its
    /// chain and its surface element untouched.
    #[verifier::rlimit(100)]
    #[verifier::spinoff_prover]
    fn bare_node(&mut self, e: El, fx: &mut Vec<Effect>)
        requires
            old(self).wf(),
            old(self).alive(e),
        ensures
            final(self).wf(),
            final(self).alive(e),
            final(self).node_count() == old(self).node_count(),
            final(self).surface_view().slot_count() == old(self).surface_view().slot_count(),
            final(self).node_view(e) == (NodeView {
                cells: Seq::empty(),
                children: Seq::empty(),
                stash: Seq::empty(),
                ..old(self).node_view(e)
            }),
            final(self).chain(e) == old(self).chain(e),
            forall |i: int| #[trigger] final(self).alive_raw(i)
                <==> (old(self).alive_raw(i) && !Tree::under_kids(*old(self), e, i)
                    && !Tree::under_stash(*old(self), e, i)),
            forall |x: El| old(self).valid(x) && old(self).alive(x) && x != e
                && !Tree::under_kids(*old(self), e, x.spec_raw())
                && !Tree::under_stash(*old(self), e, x.spec_raw())
                ==> #[trigger] final(self).node_view(x) == old(self).node_view(x),
            forall |x: El| old(self).valid(x) && final(self).alive_raw(x.spec_raw())
                ==> #[trigger] final(self).chain(x) == old(self).chain(x),
            forall |x: El| old(self).valid(x) && old(self).alive(x)
                && (Tree::under_kids(*old(self), e, x.spec_raw())
                    || Tree::under_stash(*old(self), e, x.spec_raw()))
                ==> !final(self).surface_view().alive(#[trigger] old(self).surface_of(x)),
            forall |s: SurfaceId| old(self).surface_view().valid(s)
                && (#[trigger] final(self).surface_view().slot_view(s)).alive
                ==> old(self).surface_view().slot_view(s).alive,
            final(fx)@.len() >= old(fx)@.len() + old(self).cells(e).len(),
            final(fx)@.take((old(fx)@.len() + old(self).cells(e).len()) as int)
                == old(fx)@ + old(self).cells(e),
            forall |s: SurfaceId|
                #[trigger] eff_count(final(fx)@.skip(
                    (old(fx)@.len() + old(self).cells(e).len()) as int),
                    Effect::ReleaseElement(s))
                == (if Tree::kids_surf(*old(self), e, s)
                        || Tree::stash_surf_upto(*old(self), e,
                            old(self).stash_of(e).len() as int, s)
                    { 1nat } else { 0nat }),
            Tree::registry_monotone(*old(self), *final(self)),
            final(self).body_view() == old(self).body_view(),
            final(self).root_view() == old(self).root_view(),
            final(self).root_cell_view() == old(self).root_cell_view(),
        decreases old(self).subtree_raw(e).len(), 0int,
    {
        let ghost pre = *old(self);
        let ghost fx0 = fx@;
        let ghost kids = pre.children(e);
        let ghost entries = pre.stash_of(e);
        proof {
            pre.lemma_count_bound();
            pre.lemma_subtree_finite(e);
            pre.lemma_kids_facts(e);
        }

        self.release_cells(e, fx);
        let ghost fx1 = fx@;
        let ei = e.0;
        proof {
            assert(fx1 == fx0 + pre.cells(e));
            assert(kids.skip(0) =~= kids);
            assert(self.node_view(e) == (NodeView {
                cells: Seq::empty(),
                children: kids.skip(0),
                ..pre.node_view(e)
            }));
            assert forall |l: int| 0 <= l < kids.len()
                implies self.node_view(#[trigger] kids[l]) == (NodeView {
                    sib: l,
                    ..pre.node_view(kids[l])
                }) by {
                assert(pre.child_ok(e, l));
                assert(self.node_view(kids[l]) == pre.node_view(kids[l]));
            }
            assert forall |i: int| #[trigger] self.alive_raw(i)
                <==> (pre.alive_raw(i) && !Tree::under_kids_upto(pre, e, 0, i)) by {
                if 0 <= i < pre.node_count() {
                    let x = El(i as usize);
                    assert(self.node_view(x).alive == pre.node_view(x).alive) by {
                        if x != e {
                            assert(self.node_view(x) == pre.node_view(x));
                        }
                    }
                }
            }
            assert forall |x: El| pre.valid(x) && self.alive_raw(x.spec_raw())
                implies #[trigger] self.chain(x) == pre.chain(x) by {
                assert(self.anc == pre.anc);
            }
            assert(fx@.skip(fx1.len() as int) =~= Seq::<Effect>::empty());
            assert forall |s: SurfaceId|
                #[trigger] eff_count(fx@.skip(fx1.len() as int),
                    Effect::ReleaseElement(s))
                == (if Tree::kids_surf_upto(pre, e, 0, s) { 1nat } else { 0nat }) by {
                assert(eff_count(Seq::<Effect>::empty(), Effect::ReleaseElement(s)) == 0);
                if Tree::kids_surf_upto(pre, e, 0, s) {
                    let x = choose |x: El| #[trigger] pre.alive(x)
                        && Tree::under_kids_upto(pre, e, 0, x.spec_raw())
                        && pre.surface_of(x) == s;
                    let l = choose |l: int| 0 <= l < 0
                        && #[trigger] pre.subtree_raw(kids[l]).contains(x.spec_raw());
                }
            }
            assert(fx@.take(fx1.len() as int) =~= fx1);
        }
        let ghost j: int = 0;
        while self.nodes[ei].children.len() > 0
            invariant
                pre == *old(self),
                pre.wf(),
                pre.alive(e),
                pre.node_count() <= usize::MAX,
                ei == e.spec_raw(),
                kids == pre.children(e),
                entries == pre.stash_of(e),
                fx1 == fx0 + pre.cells(e),
                0 <= j <= kids.len(),
                self.wf(),
                self.alive(e),
                self.node_count() == pre.node_count(),
                self.surface_view().slot_count() == pre.surface_view().slot_count(),
                self.node_view(e) == (NodeView {
                    cells: Seq::empty(),
                    children: kids.skip(j),
                    ..pre.node_view(e)
                }),
                self.chain(e) == pre.chain(e),
                forall |l: int| j <= l < kids.len()
                    ==> self.node_view(#[trigger] kids[l]) == (NodeView {
                        sib: l - j,
                        ..pre.node_view(kids[l])
                    }),
                forall |i: int| #[trigger] self.alive_raw(i)
                    <==> (pre.alive_raw(i) && !Tree::under_kids_upto(pre, e, j, i)),
                forall |x: El| pre.valid(x) && pre.alive(x) && x != e
                    && !Tree::under_kids_upto(pre, e, j, x.spec_raw())
                    && !kids.skip(j).contains(x)
                    ==> #[trigger] self.node_view(x) == pre.node_view(x),
                forall |x: El| pre.valid(x) && self.alive_raw(x.spec_raw())
                    ==> #[trigger] self.chain(x) == pre.chain(x),
                forall |x: El| pre.valid(x) && pre.alive(x)
                    && Tree::under_kids_upto(pre, e, j, x.spec_raw())
                    ==> !self.surface_view().alive(#[trigger] pre.surface_of(x)),
                forall |s: SurfaceId| pre.surface_view().valid(s)
                    && (#[trigger] self.surface_view().slot_view(s)).alive
                    ==> pre.surface_view().slot_view(s).alive,
                fx@.len() >= fx1.len(),
                fx@.take(fx1.len() as int) == fx1,
                forall |s: SurfaceId|
                    #[trigger] eff_count(fx@.skip(fx1.len() as int),
                        Effect::ReleaseElement(s))
                    == (if Tree::kids_surf_upto(pre, e, j, s) { 1nat } else { 0nat }),
                Tree::registry_monotone(pre, *self),
                self.body_view() == pre.body_view(),
                self.root_view() == pre.root_view(),
                self.root_cell_view() == pre.root_cell_view(),
            decreases kids.len() - j,
        {
            let ghost cur = *self;
            let ghost fxc = fx@;
            proof {
                assert(j < kids.len()) by {
                    assert(kids.skip(j).len() > 0);
                }
                assert(cur.children(e)[0] == kids[j]);
                assert(pre.child_ok(e, j));
                assert(pre.alive(kids[j]));
                assert(pre.owner_ok(kids[j]));
            }
            let c = self.detach_at(e, 0);
            let ghost mid = *self;
            proof {
                assert(c == kids[j]);
                assert(cur.node_view(c) == (NodeView {
                    sib: 0,
                    ..pre.node_view(c)
                }));
                assert(mid.alive(c));
                assert(mid.is_detached(c));
                pre.lemma_count_bound();
                assert forall |i: int| #[trigger] mid.alive_raw(i) == cur.alive_raw(i) by {
                    if 0 <= i < cur.node_count() {
                        let x = El(i as usize);
                        assert(mid.node_view(x).alive == cur.node_view(x).alive) by {
                            if x == e || x == c {
                            } else if cur.children(e).skip(0).contains(x) {
                                let z = choose |z: int|
                                    0 <= z < cur.children(e).skip(0).len()
                                    && cur.children(e).skip(0)[z] == x;
                                assert(cur.children(e)[z] == x);
                                if z == 0 {
                                    assert(x == c);
                                } else {
                                    assert(mid.node_view(cur.children(e)[z])
                                        == (NodeView {
                                            sib: z - 1,
                                            ..cur.node_view(cur.children(e)[z])
                                        }));
                                }
                            } else {
                                assert(mid.node_view(x) == cur.node_view(x));
                            }
                        }
                    }
                }
                assert(cur.alive(c)) by {
                    assert(cur.alive_raw(c.spec_raw()));
                }
                assert forall |i: int| #[trigger] pre.subtree_raw(c).contains(i)
                    implies cur.alive_raw(i) by {
                    if Tree::under_kids_upto(pre, e, j, i) {
                        let l = choose |l: int| 0 <= l < j
                            && #[trigger] pre.subtree_raw(kids[l]).contains(i);
                        assert(pre.child_ok(e, l));
                        assert(pre.alive(kids[l]));
                        assert(pre.owner_ok(kids[l]));
                        pre.lemma_sub_disjoint(kids[l], c);
                    }
                }
                Tree::lemma_release_sets(pre, cur, mid, e, c);
                Tree::lemma_release_child_members(pre, cur, mid, e, c, j);
            }
            self.release_node(c, fx);
            proof {
                Tree::lemma_release_child_views(pre, cur, mid, *self, e, c, j);
                Tree::lemma_done_disjoint_child(pre, e, j);
                let ghost done = Set::new(|s: SurfaceId| Tree::kids_surf_upto(pre, e, j, s));
                let ghost d0 = fxc.skip(fx1.len() as int);
                let ghost dc = fx@.skip(fxc.len() as int);
                assert forall |s: SurfaceId|
                    #[trigger] eff_count(d0, Effect::ReleaseElement(s))
                    == (if done.contains(s) { 1nat } else { 0nat }) by {}
                Tree::lemma_release_fx_step(pre, mid, c, d0, dc, done);
                assert(fx@.skip(fx1.len() as int) =~= d0 + dc) by {
                    assert(fx@.take(fxc.len() as int) == fxc);
                }
                assert(fx@.take(fx1.len() as int) =~= fx1) by {
                    assert(fx@.take(fxc.len() as int) == fxc);
                    assert(fxc.take(fx1.len() as int) == fx1);
                }
                assert forall |s: SurfaceId|
                    #[trigger] eff_count(fx@.skip(fx1.len() as int),
                        Effect::ReleaseElement(s))
                    == (if Tree::kids_surf_upto(pre, e, j + 1, s) { 1nat } else { 0nat })
                    by {
                    assert(eff_count(d0 + dc, Effect::ReleaseElement(s))
                        == (if done.contains(s) || (exists |x: El| #[trigger] pre.alive(x)
                                && pre.subtree_raw(c).contains(x.spec_raw())
                                && pre.surface_of(x) == s) { 1nat } else { 0nat }));
                }
                Tree::lemma_release_dead_step(pre, cur, mid, *self, c);
                assert forall |x: El| pre.valid(x) && pre.alive(x)
                    && Tree::under_kids_upto(pre, e, j + 1, x.spec_raw())
                    implies !self.surface_view().alive(#[trigger] pre.surface_of(x)) by {
                    assert(pre.surface_view().valid(pre.surface_of(x))) by {
                        assert(pre.surface_ok(x));
                    }
                    if Tree::under_kids_upto(pre, e, j, x.spec_raw()) {
                        assert(!cur.surface_view().alive(pre.surface_of(x)));
                    } else {
                        assert(pre.subtree_raw(c).contains(x.spec_raw())) by {
                            assert(pre.alive_raw(x.spec_raw()));
                        }
                    }
                }
                assert forall |s: SurfaceId| pre.surface_view().valid(s)
                    && (#[trigger] self.surface_view().slot_view(s)).alive
                    implies pre.surface_view().slot_view(s).alive by {
                    assert(cur.surface_view().slot_view(s).alive);
                }
                assert(Tree::registry_monotone(cur, mid)) by {
                    assert(mid.listeners_view() == cur.listeners_view());
                    assert(mid.observers_view() == cur.observers_view());
                    assert(mid.tasks_view() == cur.tasks_view());
                }
                Tree::lemma_monotone_trans(pre, cur, mid);
                Tree::lemma_monotone_trans(pre, mid, *self);
            }
            proof {
                j = j + 1;
            }
        }
        let ghost j2: int = 0;
        proof {
            assert(kids.skip(j) =~= Seq::<El>::empty());
            assert(j == kids.len());
            assert(self.node_view(e) == (NodeView {
                cells: Seq::empty(),
                children: Seq::empty(),
                stash: entries.skip(0),
                ..pre.node_view(e)
            })) by {
                assert(kids.skip(j) =~= Seq::<El>::empty());
                assert(entries.skip(0) =~= entries);
            }
            assert forall |i: int| #[trigger] self.alive_raw(i)
                <==> (pre.alive_raw(i) && !Tree::under_kids(pre, e, i)
                    && !Tree::under_stash_upto(pre, e, 0, i)) by {
                if Tree::under_stash_upto(pre, e, 0, i) {
                    let l = choose |l: int| 0 <= l < 0
                        && #[trigger] pre.subtree_raw(entries[l]).contains(i);
                }
            }
            assert forall |l: int| 0 <= l < entries.len()
                implies self.node_view(#[trigger] entries[l])
                    == pre.node_view(entries[l]) by {
                assert(pre.stash_entry_ok(e, l));
                let d = entries[l];
                assert(pre.alive(d));
                assert(d != e) by {
                    assert(pre.owner_ok(d));
                    if d == e {
                        assert(pre.chain(e) == pre.chain(e).push(e.spec_raw()));
                    }
                }
                assert(!Tree::under_kids(pre, e, d.spec_raw())) by {
                    if Tree::under_kids(pre, e, d.spec_raw()) {
                        let m = choose |m: int| 0 <= m < kids.len()
                            && #[trigger] pre.subtree_raw(kids[m]).contains(d.spec_raw());
                        assert(pre.child_ok(e, m));
                        assert(pre.alive(kids[m]));
                        assert(pre.owner_ok(kids[m]));
                        assert(pre.owner_ok(d));
                        assert(kids[m] != d) by {
                            assert(pre.owner_of(kids[m]) == Owner::Parent(e));
                            assert(pre.owner_of(d) == Owner::Stash(e));
                        }
                        pre.lemma_sub_disjoint(kids[m], d);
                        assert(pre.subtree_raw(d).contains(d.spec_raw()));
                    }
                }
                assert(!entries.skip(0).contains(d) || true);
                assert(self.node_view(d) == pre.node_view(d)) by {
                    assert(!kids.skip(j).contains(d)) by {
                        assert(kids.skip(j).len() == 0);
                    }
                }
            }
            assert forall |x: El| pre.valid(x) && pre.alive(x) && x != e
                && !Tree::under_kids(pre, e, x.spec_raw())
                && !Tree::under_stash_upto(pre, e, 0, x.spec_raw())
                && !entries.skip(0).contains(x)
                implies #[trigger] self.node_view(x) == pre.node_view(x) by {
                assert(!kids.skip(j).contains(x)) by {
                    assert(kids.skip(j).len() == 0);
                }
            }
        }
        while self.nodes[ei].stash.len() > 0
            invariant
                pre == *old(self),
                pre.wf(),
                pre.alive(e),
                pre.node_count() <= usize::MAX,
                ei == e.spec_raw(),
                kids == pre.children(e),
                entries == pre.stash_of(e),
                fx1 == fx0 + pre.cells(e),
                0 <= j2 <= entries.len(),
                self.wf(),
                self.alive(e),
                self.node_count() == pre.node_count(),
                self.surface_view().slot_count() == pre.surface_view().slot_count(),
                self.node_view(e) == (NodeView {
                    cells: Seq::empty(),
                    children: Seq::empty(),
                    stash: entries.skip(j2),
                    ..pre.node_view(e)
                }),
                self.chain(e) == pre.chain(e),
                forall |l: int| j2 <= l < entries.len()
                    ==> self.node_view(#[trigger] entries[l])
                        == pre.node_view(entries[l]),
                forall |i: int| #[trigger] self.alive_raw(i)
                    <==> (pre.alive_raw(i) && !Tree::under_kids(pre, e, i)
                        && !Tree::under_stash_upto(pre, e, j2, i)),
                forall |x: El| pre.valid(x) && pre.alive(x) && x != e
                    && !Tree::under_kids(pre, e, x.spec_raw())
                    && !Tree::under_stash_upto(pre, e, j2, x.spec_raw())
                    && !entries.skip(j2).contains(x)
                    ==> #[trigger] self.node_view(x) == pre.node_view(x),
                forall |x: El| pre.valid(x) && self.alive_raw(x.spec_raw())
                    ==> #[trigger] self.chain(x) == pre.chain(x),
                forall |x: El| pre.valid(x) && pre.alive(x)
                    && (Tree::under_kids(pre, e, x.spec_raw())
                        || Tree::under_stash_upto(pre, e, j2, x.spec_raw()))
                    ==> !self.surface_view().alive(#[trigger] pre.surface_of(x)),
                forall |s: SurfaceId| pre.surface_view().valid(s)
                    && (#[trigger] self.surface_view().slot_view(s)).alive
                    ==> pre.surface_view().slot_view(s).alive,
                fx@.len() >= fx1.len(),
                fx@.take(fx1.len() as int) == fx1,
                forall |s: SurfaceId|
                    #[trigger] eff_count(fx@.skip(fx1.len() as int),
                        Effect::ReleaseElement(s))
                    == (if Tree::kids_surf(pre, e, s)
                            || Tree::stash_surf_upto(pre, e, j2, s) { 1nat } else { 0nat }),
                Tree::registry_monotone(pre, *self),
                self.body_view() == pre.body_view(),
                self.root_view() == pre.root_view(),
                self.root_cell_view() == pre.root_cell_view(),
            decreases entries.len() - j2,
        {
            let ghost cur = *self;
            let ghost fxc = fx@;
            proof {
                assert(j2 < entries.len()) by {
                    assert(entries.skip(j2).len() > 0);
                }
                assert(cur.stash_of(e)[0] == entries[j2]);
                assert(pre.stash_entry_ok(e, j2));
                assert(pre.alive(entries[j2]));
                assert(pre.owner_ok(entries[j2]));
            }
            let c = self.unstash_first(e);
            let ghost mid = *self;
            proof {
                assert(c == entries[j2]);
                assert(cur.node_view(c) == pre.node_view(c));
                assert(mid.alive(c));
                assert(mid.is_detached(c));
                pre.lemma_count_bound();
                assert forall |i: int| #[trigger] mid.alive_raw(i) == cur.alive_raw(i) by {
                    if 0 <= i < cur.node_count() {
                        let x = El(i as usize);
                        assert(mid.node_view(x).alive == cur.node_view(x).alive) by {
                            if x == e || x == c {
                            } else {
                                assert(mid.node_view(x) == cur.node_view(x));
                            }
                        }
                    }
                }
                assert(cur.alive(c)) by {
                    assert(cur.alive_raw(c.spec_raw()));
                }
                assert forall |i: int| #[trigger] pre.subtree_raw(c).contains(i)
                    implies cur.alive_raw(i) by {
                    if Tree::under_kids(pre, e, i) {
                        let l = choose |l: int| 0 <= l < kids.len()
                            && #[trigger] pre.subtree_raw(kids[l]).contains(i);
                        assert(pre.child_ok(e, l));
                        assert(pre.alive(kids[l]));
                        assert(pre.owner_ok(kids[l]));
                        assert(kids[l] != c) by {
                            assert(pre.owner_of(kids[l]) == Owner::Parent(e));
                            assert(pre.owner_of(c) == Owner::Stash(e));
                        }
                        pre.lemma_sub_disjoint(kids[l], c);
                    }
                    if Tree::under_stash_upto(pre, e, j2, i) {
                        let l = choose |l: int| 0 <= l < j2
                            && #[trigger] pre.subtree_raw(entries[l]).contains(i);
                        assert(pre.stash_entry_ok(e, l));
                        assert(pre.alive(entries[l]));
                        assert(pre.owner_ok(entries[l]));
                        assert(entries[l] != entries[j2]);
                        pre.lemma_sub_disjoint(entries[l], c);
                    }
                }
                Tree::lemma_release_sets(pre, cur, mid, e, c);
                Tree::lemma_release_stash_members(pre, cur, mid, e, c, j2);
            }
            self.release_node(c, fx);
            proof {
                Tree::lemma_release_stash_views(pre, cur, mid, *self, e, c, j2);
                Tree::lemma_done_disjoint_stash(pre, e, j2);
                let ghost done = Set::new(|s: SurfaceId| Tree::kids_surf(pre, e, s)
                    || Tree::stash_surf_upto(pre, e, j2, s));
                let ghost d0 = fxc.skip(fx1.len() as int);
                let ghost dc = fx@.skip(fxc.len() as int);
                assert forall |s: SurfaceId|
                    #[trigger] eff_count(d0, Effect::ReleaseElement(s))
                    == (if done.contains(s) { 1nat } else { 0nat }) by {}
                Tree::lemma_release_fx_step(pre, mid, c, d0, dc, done);
                assert(fx@.skip(fx1.len() as int) =~= d0 + dc) by {
                    assert(fx@.take(fxc.len() as int) == fxc);
                }
                assert(fx@.take(fx1.len() as int) =~= fx1) by {
                    assert(fx@.take(fxc.len() as int) == fxc);
                    assert(fxc.take(fx1.len() as int) == fx1);
                }
                assert forall |s: SurfaceId|
                    #[trigger] eff_count(fx@.skip(fx1.len() as int),
                        Effect::ReleaseElement(s))
                    == (if Tree::kids_surf(pre, e, s)
                            || Tree::stash_surf_upto(pre, e, j2 + 1, s)
                        { 1nat } else { 0nat }) by {
                    assert(eff_count(d0 + dc, Effect::ReleaseElement(s))
                        == (if done.contains(s) || (exists |x: El| #[trigger] pre.alive(x)
                                && pre.subtree_raw(c).contains(x.spec_raw())
                                && pre.surface_of(x) == s) { 1nat } else { 0nat }));
                }
                Tree::lemma_release_dead_step(pre, cur, mid, *self, c);
                assert forall |x: El| pre.valid(x) && pre.alive(x)
                    && (Tree::under_kids(pre, e, x.spec_raw())
                        || Tree::under_stash_upto(pre, e, j2 + 1, x.spec_raw()))
                    implies !self.surface_view().alive(#[trigger] pre.surface_of(x)) by {
                    assert(pre.surface_view().valid(pre.surface_of(x))) by {
                        assert(pre.surface_ok(x));
                    }
                    if Tree::under_kids(pre, e, x.spec_raw())
                        || Tree::under_stash_upto(pre, e, j2, x.spec_raw()) {
                        assert(!cur.surface_view().alive(pre.surface_of(x)));
                    } else {
                        assert(Tree::under_stash_upto(pre, e, j2 + 1, x.spec_raw()));
                        assert(pre.subtree_raw(c).contains(x.spec_raw())) by {
                            assert(pre.alive_raw(x.spec_raw()));
                        }
                    }
                }
                assert forall |s: SurfaceId| pre.surface_view().valid(s)
                    && (#[trigger] self.surface_view().slot_view(s)).alive
                    implies pre.surface_view().slot_view(s).alive by {
                    assert(cur.surface_view().slot_view(s).alive);
                }
                assert(Tree::registry_monotone(cur, mid)) by {
                    assert(mid.listeners_view() == cur.listeners_view());
                    assert(mid.observers_view() == cur.observers_view());
                    assert(mid.tasks_view() == cur.tasks_view());
                }
                Tree::lemma_monotone_trans(pre, cur, mid);
                Tree::lemma_monotone_trans(pre, mid, *self);
            }
            proof {
                j2 = j2 + 1;
            }
        }
        proof {
            assert(entries.skip(j2) =~= Seq::<El>::empty());
            assert(j2 == entries.len());
            assert(self.node_view(e) == (NodeView {
                cells: Seq::empty(),
                children: Seq::empty(),
                stash: Seq::empty(),
                ..pre.node_view(e)
            }));
            assert(fx1.len() == fx0.len() + pre.cells(e).len());
            assert(fx@.take((fx0.len() + pre.cells(e).len()) as int)
                == fx0 + pre.cells(e)) by {
                assert(fx@.take(fx1.len() as int) == fx1);
            }
            assert forall |x: El| pre.valid(x) && pre.alive(x) && x != e
                && !Tree::under_kids(pre, e, x.spec_raw())
                && !Tree::under_stash(pre, e, x.spec_raw())
                implies #[trigger] self.node_view(x) == pre.node_view(x) by {
                assert(!entries.skip(j2).contains(x)) by {
                    assert(entries.skip(j2).len() == 0);
                }
            }
        }
    }

    /// Release a whole subtree: `e`'s resource cells run their teardown in
    /// list order, then each child is detached and released recursively
    /// (front first), then each stashed node the same way, and finally the
    /// node itself and its surface element. Every node of the subtree thus
    /// contributes its cells' effects and, after everything it owned, its
    /// own surface release; the root's surface release comes last.
    #[verifier::rlimit(100)]
    fn release_node(&mut self, e: El, fx: &mut Vec<Effect>)
        requires
            old(self).wf(),
            old(self).alive(e),
            old(self).is_detached(e),
        ensures
            final(self).wf(),
            final(self).node_count() == old(self).node_count(),
            final(self).surface_view().slot_count() == old(self).surface_view().slot_count(),
            forall |i: int| #[trigger] final(self).alive_raw(i)
                <==> (old(self).alive_raw(i) && !old(self).subtree_raw(e).contains(i)),
            forall |x: El| old(self).valid(x) && old(self).alive(x)
                && !old(self).in_subtree(e, x)
                ==> #[trigger] final(self).node_view(x) == old(self).node_view(x)
                    && final(self).chain(x) == old(self).chain(x),
            forall |x: El| old(self).valid(x) && old(self).alive(x)
                && old(self).in_subtree(e, x)
                ==> !final(self).surface_view().alive(#[trigger] old(self).surface_of(x)),
            forall |s: SurfaceId| old(self).surface_view().valid(s)
                && (#[trigger] final(self).surface_view().slot_view(s)).alive
                ==> old(self).surface_view().slot_view(s).alive,
            final(fx)@.len() > old(fx)@.len(),
            final(fx)@.take(old(fx)@.len() as int) == old(fx)@,
            final(fx)@.skip(old(fx)@.len() as int).take(old(self).cells(e).len() as int)
                == old(self).cells(e),
            final(fx)@.last() == Effect::ReleaseElement(old(self).surface_of(e)),
            forall |s: SurfaceId|
                #[trigger] eff_count(final(fx)@.skip(old(fx)@.len() as int),
                    Effect::ReleaseElement(s))
                    == (if old(self).subtree_surf(e, s) { 1nat } else { 0nat }),
            Tree::registry_monotone(*old(self), *final(self)),
            final(self).body_view() == old(self).body_view(),
            final(self).root_view() == old(self).root_view(),
            final(self).root_cell_view() == old(self).root_cell_view(),
        decreases old(self).subtree_raw(e).len(), 1int,
    {
        let ghost pre = *old(self);
        let ghost fx0 = fx@;
        let ghost kids = pre.children(e);
        let ghost entries = pre.stash_of(e);
        proof {
            pre.lemma_count_bound();
            pre.lemma_subtree_finite(e);
            pre.lemma_kids_facts(e);
        }
        self.bare_node(e, fx);
        let ghost fx1 = fx0 + pre.cells(e);
        let ghost j2: int = entries.len() as int;
        let ei = e.0;
        proof {
            assert(entries.skip(j2) =~= Seq::<El>::empty());
            assert(fx1.len() == fx0.len() + pre.cells(e).len());
            assert(fx@.take(fx1.len() as int) == fx1) by {
                assert(fx@.take((fx0.len() + pre.cells(e).len()) as int)
                    == fx0 + pre.cells(e));
            }
            assert forall |s: SurfaceId|
                #[trigger] eff_count(fx@.skip(fx1.len() as int),
                    Effect::ReleaseElement(s))
                == (if Tree::kids_surf(pre, e, s)
                        || Tree::stash_surf_upto(pre, e, j2, s)
                    { 1nat } else { 0nat }) by {
                assert(fx@.skip(fx1.len() as int)
                    == fx@.skip((fx0.len() + pre.cells(e).len()) as int));
            }
            assert(self.is_detached(e)) by {
                assert(self.node_view(e).owner == pre.node_view(e).owner);
            }
        }

        let es = self.nodes[ei].surface;
        proof {
            assert(entries.skip(j2) =~= Seq::<El>::empty());
            assert(j2 == entries.len());
            assert(es == pre.surface_of(e));
            assert(self.node_view(e).children.len() == 0);
            assert(self.node_view(e).stash.len() == 0);
            assert(self.is_detached(e));
        }
        let ghost fxex = fx@;
        self.kill_node(e);
        fx.push(Effect::ReleaseElement(es));
        proof {
            let post = *self;
            // the subtree decomposes into the root, the children's subtrees
            // and the stash entries' subtrees
            assert forall |i: int| #[trigger] pre.subtree_raw(e).contains(i)
                <==> (i == e.spec_raw() || Tree::under_kids(pre, e, i)
                    || Tree::under_stash(pre, e, i)) by {
                if pre.subtree_raw(e).contains(i) && i != e.spec_raw() {
                    let x = El(i as usize);
                    assert(pre.alive(x));
                    assert(pre.in_subtree(e, x));
                    assert(x != e);
                    pre.lemma_subtree_split(e, x);
                }
                if Tree::under_kids(pre, e, i) {
                    let l = choose |l: int| 0 <= l < kids.len()
                        && #[trigger] pre.subtree_raw(kids[l]).contains(i);
                    assert(pre.child_ok(e, l));
                    assert(pre.alive(kids[l]));
                    assert(pre.owner_ok(kids[l]));
                    pre.lemma_sub_lift(e, kids[l], i);
                }
                if Tree::under_stash(pre, e, i) {
                    let l = choose |l: int| 0 <= l < entries.len()
                        && #[trigger] pre.subtree_raw(entries[l]).contains(i);
                    assert(pre.stash_entry_ok(e, l));
                    assert(pre.alive(entries[l]));
                    assert(pre.owner_ok(entries[l]));
                    pre.lemma_sub_lift(e, entries[l], i);
                }
                if i == e.spec_raw() {
                    assert(pre.alive_raw(i));
                }
            }
            // aliveness
            assert forall |i: int| #[trigger] post.alive_raw(i)
                <==> (pre.alive_raw(i) && !pre.subtree_raw(e).contains(i)) by {
                if i == e.spec_raw() {
                    assert(!post.alive_raw(i));
                }
            }
            // surviving nodes untouched
            assert forall |x: El| pre.valid(x) && pre.alive(x) && !pre.in_subtree(e, x)
                implies #[trigger] post.node_view(x) == pre.node_view(x)
                    && post.chain(x) == pre.chain(x) by {
                assert(x != e);
                assert(!Tree::under_kids(pre, e, x.spec_raw())
                    && !Tree::under_stash(pre, e, x.spec_raw())) by {
                    assert(!pre.subtree_raw(e).contains(x.spec_raw())) by {
                        assert(pre.alive_raw(x.spec_raw()));
                    }
                }
                assert(!entries.skip(j2).contains(x)) by {
                    assert(entries.skip(j2).len() == 0);
                }
                assert(post.node_view(x) == self.node_view(x));
                assert(post.alive_raw(x.spec_raw())) by {
                    assert(!pre.subtree_raw(e).contains(x.spec_raw()));
                }
                assert(post.chain(x) == pre.chain(x));
            }
            // subtree surfaces are gone
            assert(pre.surface_view().valid(pre.surface_of(e))) by {
                assert(pre.surface_ok(e));
            }
            assert forall |x: El| pre.valid(x) && pre.alive(x) && pre.in_subtree(e, x)
                implies !post.surface_view().alive(#[trigger] pre.surface_of(x)) by {
                assert(pre.subtree_raw(e).contains(x.spec_raw())) by {
                    assert(pre.alive_raw(x.spec_raw()));
                }
                assert(pre.surface_view().valid(pre.surface_of(x))) by {
                    assert(pre.surface_ok(x));
                }
                if x == e {
                } else {
                    assert(Tree::under_kids(pre, e, x.spec_raw())
                        || Tree::under_stash(pre, e, x.spec_raw()));
                    assert(pre.surface_of(x) != pre.surface_of(e)) by {
                        assert(pre.alive(x) && pre.alive(e));
                    }
                    assert(post.surface_view().slot_view(pre.surface_of(x))
                        == self.surface_view().slot_view(pre.surface_of(x)) || true);
                }
            }
            // surface aliveness is monotone
            assert forall |s: SurfaceId| pre.surface_view().valid(s)
                && (#[trigger] post.surface_view().slot_view(s)).alive
                implies pre.surface_view().slot_view(s).alive by {
                if s != pre.surface_of(e) {
                }
            }
            // the effect record
            let dall = fx@.skip(fx0.len() as int);
            let dloop = fxex.skip(fx1.len() as int);
            let dmid = fx@.skip(fx1.len() as int);
            assert(fx@ == fxex.push(Effect::ReleaseElement(pre.surface_of(e))));
            assert(fxex.take(fx1.len() as int) == fx1);
            assert(fxex =~= fx1 + dloop);
            assert(fx@ =~= fx0 + (pre.cells(e) + dloop
                + seq![Effect::ReleaseElement(pre.surface_of(e))]));
            assert(dall =~= pre.cells(e) + dloop
                + seq![Effect::ReleaseElement(pre.surface_of(e))]);
            assert(dmid =~= dloop + seq![Effect::ReleaseElement(pre.surface_of(e))]);
            assert(fx@.take(fx0.len() as int) =~= fx0);
            assert(dall.take(pre.cells(e).len() as int) =~= pre.cells(e));
            assert(dall.last() == Effect::ReleaseElement(pre.surface_of(e)));
            assert(fx@.last() == Effect::ReleaseElement(pre.surface_of(e)));
            assert forall |k: int| 0 <= k < pre.cells(e).len()
                implies !((#[trigger] pre.cells(e)[k]) is ReleaseElement) by {
                crate::own::lemma_effect_not_release(
                    pre.nodes@[e.spec_raw()].local@[k]);
                assert(pre.cells(e)[k]
                    == pre.nodes@[e.spec_raw()].local@[k].effect());
            }
            assert forall |s: SurfaceId|
                #[trigger] eff_count(dall, Effect::ReleaseElement(s))
                == (if pre.subtree_surf(e, s) { 1nat } else { 0nat }) by {
                let f = Effect::ReleaseElement(s);
                let dtail = dloop + seq![Effect::ReleaseElement(pre.surface_of(e))];
                lemma_eff_count_concat(pre.cells(e), dtail, f);
                assert(dall =~= pre.cells(e) + dtail);
                assert forall |k: int| 0 <= k < pre.cells(e).len()
                    implies (#[trigger] pre.cells(e)[k]) != f by {}
                lemma_eff_count_absent(pre.cells(e), f);
                lemma_eff_count_concat(dloop,
                    seq![Effect::ReleaseElement(pre.surface_of(e))], f);
                assert(eff_count(seq![Effect::ReleaseElement(pre.surface_of(e))], f)
                    == (if s == pre.surface_of(e) { 1nat } else { 0nat })) by {
                    assert(seq![Effect::ReleaseElement(pre.surface_of(e))].drop_last()
                        =~= Seq::<Effect>::empty());
                    assert(eff_count(Seq::<Effect>::empty(), f) == 0);
                }
                assert(eff_count(dloop, f)
                    == (if Tree::kids_surf(pre, e, s)
                            || Tree::stash_surf_upto(pre, e, j2, s)
                        { 1nat } else { 0nat }));
                // the root's surface is none of the children's or stash's
                assert(!(Tree::kids_surf(pre, e, pre.surface_of(e))
                    || Tree::stash_surf_upto(pre, e, j2, pre.surface_of(e)))) by {
                    if Tree::kids_surf(pre, e, pre.surface_of(e)) {
                        let y = choose |y: El| #[trigger] pre.alive(y)
                            && Tree::under_kids_upto(pre, e, kids.len() as int,
                                y.spec_raw())
                            && pre.surface_of(y) == pre.surface_of(e);
                        assert(y == e) by {
                            if y != e {
                                assert(pre.surface_of(y) != pre.surface_of(e));
                            }
                        }
                        assert(Tree::under_kids(pre, e, e.spec_raw()));
                        assert(pre.subtree_raw(e).contains(e.spec_raw()));
                        let l = choose |l: int| 0 <= l < kids.len()
                            && #[trigger] pre.subtree_raw(kids[l])
                                .contains(e.spec_raw());
                        assert(pre.child_ok(e, l));
                        assert(pre.alive(kids[l]));
                        assert(pre.owner_ok(kids[l]));
                        pre.lemma_child_subtree(e, kids[l]);
                        assert(pre.subtree_raw(e).remove(e.spec_raw())
                            .contains(e.spec_raw()));
                    }
                    if Tree::stash_surf_upto(pre, e, j2, pre.surface_of(e)) {
                        let y = choose |y: El| #[trigger] pre.alive(y)
                            && Tree::under_stash_upto(pre, e, j2, y.spec_raw())
                            && pre.surface_of(y) == pre.surface_of(e);
                        assert(y == e) by {
                            if y != e {
                                assert(pre.surface_of(y) != pre.surface_of(e));
                            }
                        }
                        let l = choose |l: int| 0 <= l < j2
                            && #[trigger] pre.subtree_raw(entries[l])
                                .contains(e.spec_raw());
                        assert(pre.stash_entry_ok(e, l));
                        assert(pre.alive(entries[l]));
                        assert(pre.owner_ok(entries[l]));
                        pre.lemma_child_subtree(e, entries[l]);
                        assert(pre.subtree_raw(e).remove(e.spec_raw())
                            .contains(e.spec_raw()));
                    }
                }
                // tie the pieces to the subtree-surface predicate
                assert(pre.subtree_surf(e, s)
                    <==> (s == pre.surface_of(e) || Tree::kids_surf(pre, e, s)
                        || Tree::stash_surf_upto(pre, e, j2, s))) by {
                    if pre.subtree_surf(e, s) {
                        let y = choose |y: El| #[trigger] pre.alive(y)
                            && pre.in_subtree(e, y) && pre.surface_of(y) == s;
                        if y == e {
                            assert(s == pre.surface_of(e));
                        } else {
                            pre.lemma_subtree_split(e, y);
                            if Tree::under_kids(pre, e, y.spec_raw()) {
                                assert(Tree::kids_surf(pre, e, s));
                            } else {
                                assert(Tree::stash_surf_upto(pre, e, j2, s)) by {
                                    assert(Tree::under_stash_upto(pre, e,
                                        entries.len() as int, y.spec_raw()));
                                }
                            }
                        }
                    }
                    if s == pre.surface_of(e) {
                        assert(pre.alive(e) && pre.in_subtree(e, e));
                        assert(pre.subtree_surf(e, s));
                    }
                    if Tree::kids_surf(pre, e, s) {
                        let y = choose |y: El| #[trigger] pre.alive(y)
                            && Tree::under_kids_upto(pre, e, kids.len() as int,
                                y.spec_raw())
                            && pre.surface_of(y) == s;
                        let l = choose |l: int| 0 <= l < kids.len()
                            && #[trigger] pre.subtree_raw(kids[l])
                                .contains(y.spec_raw());
                        assert(pre.child_ok(e, l));
                        assert(pre.alive(kids[l]));
                        assert(pre.owner_ok(kids[l]));
                        pre.lemma_sub_lift(e, kids[l], y.spec_raw());
                        assert(pre.in_subtree(e, y)) by {
                            assert(pre.subtree_raw(e).contains(y.spec_raw()));
                        }
                        assert(pre.subtree_surf(e, s));
                    }
                    if Tree::stash_surf_upto(pre, e, j2, s) {
                        let y = choose |y: El| #[trigger] pre.alive(y)
                            && Tree::under_stash_upto(pre, e, j2, y.spec_raw())
                            && pre.surface_of(y) == s;
                        let l = choose |l: int| 0 <= l < j2
                            && #[trigger] pre.subtree_raw(entries[l])
                                .contains(y.spec_raw());
                        assert(pre.stash_entry_ok(e, l));
                        assert(pre.alive(entries[l]));
                        assert(pre.owner_ok(entries[l]));
                        pre.lemma_sub_lift(e, entries[l], y.spec_raw());
                        assert(pre.in_subtree(e, y)) by {
                            assert(pre.subtree_raw(e).contains(y.spec_raw()));
                        }
                        assert(pre.subtree_surf(e, s));
                    }
                }
            }
            // registry facts carry across the kill
            assert(Tree::registry_monotone(*self, post)) by {
                assert(post.listeners_view() == self.listeners_view());
            }
            Tree::lemma_monotone_trans(pre, *self, post);
        }
    }

    /// Release the last owner's hold on a detached node. The whole subtree
    /// is torn down: every resource cell in it runs its teardown exactly
    /// once, each node's owned children and stashed nodes are torn down
    /// before its own surface element is released, and the root's surface
    /// release comes last. The returned list holds the external effects in
    /// the order they must be performed.
    pub fn release(&mut self, e: El) -> (fx: Vec<Effect>)
        requires
            old(self).wf(),
            old(self).alive(e),
            old(self).is_detached(e),
        ensures
            final(self).wf(),
            final(self).node_count() == old(self).node_count(),
            final(self).surface_view().slot_count() == old(self).surface_view().slot_count(),
            forall |x: El| old(self).valid(x) && old(self).alive(x)
                ==> (#[trigger] final(self).alive(x) <==> !old(self).in_subtree(e, x)),
            forall |x: El| old(self).valid(x) && !old(self).alive(x)
                ==> !(#[trigger] final(self).alive(x)),
            forall |x: El| old(self).valid(x) && old(self).alive(x)
                && !old(self).in_subtree(e, x)
                ==> #[trigger] final(self).node_view(x) == old(self).node_view(x)
                    && final(self).chain(x) == old(self).chain(x),
            forall |x: El| old(self).valid(x) && old(self).alive(x)
                && old(self).in_subtree(e, x)
                ==> !final(self).surface_view().alive(#[trigger] old(self).surface_of(x)),
            forall |s: SurfaceId| old(self).surface_view().valid(s)
                && (#[trigger] final(self).surface_view().slot_view(s)).alive
                ==> old(self).surface_view().slot_view(s).alive,
            fx@.len() >= 1,
            fx@.take(old(self).cells(e).len() as int) == old(self).cells(e),
            fx@.last() == Effect::ReleaseElement(old(self).surface_of(e)),
            forall |s: SurfaceId| #[trigger] eff_count(fx@, Effect::ReleaseElement(s))
                == (if old(self).subtree_surf(e, s) { 1nat } else { 0nat }),
            Tree::registry_monotone(*old(self), *final(self)),
            final(self).body_view() == old(self).body_view(),
            final(self).root_view() == old(self).root_view(),
            final(self).root_cell_view() == old(self).root_cell_view(),
    {
        let ghost pre = *old(self);
        let mut fx: Vec<Effect> = Vec::new();
        self.release_node(e, &mut fx);
        proof {
            pre.lemma_count_bound();
            assert(fx@.skip(0) =~= fx@);
            assert forall |x: El| pre.valid(x) && pre.alive(x)
                implies (#[trigger] final(self).alive(x) <==> !pre.in_subtree(e, x)) by {
                assert(final(self).alive_raw(x.spec_raw())
                    <==> (pre.alive_raw(x.spec_raw())
                        && !pre.subtree_raw(e).contains(x.spec_raw())));
                assert(pre.alive_raw(x.spec_raw()));
                if final(self).alive_raw(x.spec_raw()) {
                    assert(final(self).node_view(x).alive);
                }
                if final(self).alive(x) {
                    assert(final(self).alive_raw(x.spec_raw()));
                }
            }
            assert forall |x: El| pre.valid(x) && !pre.alive(x)
                implies !(#[trigger] final(self).alive(x)) by {
                assert(!pre.alive_raw(x.spec_raw()));
                if final(self).alive(x) {
                    assert(final(self).alive_raw(x.spec_raw()));
                }
            }
        }
        fx
    }

}


/// Create a new detached node with a fresh surface element of the given
/// tag.
pub fn el(t: &mut Tree, tag: &str) -> (e: El)
    requires
        old(t).wf(),
    ensures
        final(t).wf(),
        e.spec_raw() == old(t).node_count(),
        final(t).node_count() == old(t).node_count() + 1,
        final(t).alive(e),
        final(t).node_view(e) == (NodeView {
            alive: true,
            owner: Owner::Detached,
            sib: 0,
            children: Seq::empty(),
            cells: Seq::empty(),
            stash: Seq::empty(),
            surface: final(t).surface_of(e),
        }),
        final(t).chain(e).len() == 0,
        final(t).surface_of(e).spec_raw() == old(t).surface_view().slot_count(),
        final(t).surface_view().slot_count() == old(t).surface_view().slot_count() + 1,
        final(t).surface_view().slot_view(final(t).surface_of(e)) == (SlotView {
            alive: true,
            tag: tag@,
            text: None,
            attrs: Seq::empty(),
            classes: Seq::empty(),
            children: Seq::empty(),
            parent: None,
            pos: 0,
        }),
        forall |x: El| old(t).valid(x)
            ==> #[trigger] final(t).node_view(x) == old(t).node_view(x),
        forall |x: El| old(t).valid(x) ==> #[trigger] final(t).chain(x) == old(t).chain(x),
        forall |s: SurfaceId| old(t).surface_view().valid(s)
            ==> #[trigger] final(t).surface_view().slot_view(s)
                == old(t).surface_view().slot_view(s),
        forall |x: El| final(t).alive(x) && x != e
        ==> !final(t).in_subtree(e, x) && !final(t).in_subtree(x, e),
    final(t).body_view() == old(t).body_view(),
        final(t).root_view() == old(t).root_view(),
        final(t).root_cell_view() == old(t).root_cell_view(),
        final(t).observers_view() == old(t).observers_view(),
        final(t).tasks_view() == old(t).tasks_view(),
{
    let ghost pre = *old(t);
    let s = t.surface.create(tag);
    let e = El(t.nodes.len());
    t.nodes.push(NodeSlot {
        alive: true,
        owner: Owner::Detached,
        index_in_parent: 0,
        children: Vec::new(),
        local: Vec::new(),
        stash: Vec::new(),
        surface: s,
    });
    proof {
        t.anc@ = t.anc@.insert(e.spec_raw(), Seq::empty());
        assert(t.node_view(e).cells =~= Seq::<Effect>::empty());
        assert(t.node_view(e) == (NodeView {
            alive: true,
            owner: Owner::Detached,
            sib: 0,
            children: Seq::empty(),
            cells: Seq::empty(),
            stash: Seq::empty(),
            surface: s,
        }));
        assert forall |x: El| pre.valid(x)
            implies #[trigger] t.node_view(x) == pre.node_view(x) by {
            assert(t.nodes@[x.spec_raw()] == pre.nodes@[x.spec_raw()]);
        }
        assert(pre.unwrapped(s)) by {
            assert forall |x: El| #[trigger] pre.alive(x) implies pre.surface_of(x) != s by {
                assert(pre.surface_ok(x));
            }
        }
        t.lemma_grow_wf(pre, e);
        assert(t.observers_view() =~= pre.observers_view());
        assert forall |x: El| t.alive(x) && x != e
            implies !t.in_subtree(e, x) && !t.in_subtree(x, e) by {
            assert(pre.alive(x)) by {
                assert(t.node_view(x) == pre.node_view(x));
            }
            assert(t.chain(x) == pre.chain(x));
            pre.lemma_chain_elems_valid(x);
            if t.chain(x).contains(e.spec_raw()) {
                let k = choose |k: int|
                    0 <= k < pre.chain(x).len() && pre.chain(x)[k] == e.spec_raw();
            }
            assert(t.chain(e).len() == 0);
        }
    }
    e
}

/// Wrap an existing, unattached surface element in a new detached node.
pub fn el_from_raw(t: &mut Tree, s: SurfaceId) -> (e: El)
    requires
        old(t).wf(),
        old(t).surface_view().alive(s),
        old(t).surface_view().parent(s) is None,
        old(t).surface_view().children(s).len() == 0,
        old(t).unwrapped(s),
        s != old(t).body_view(),
    ensures
        final(t).wf(),
        e.spec_raw() == old(t).node_count(),
        final(t).node_count() == old(t).node_count() + 1,
        final(t).alive(e),
        final(t).node_view(e) == (NodeView {
            alive: true,
            owner: Owner::Detached,
            sib: 0,
            children: Seq::empty(),
            cells: Seq::empty(),
            stash: Seq::empty(),
            surface: s,
        }),
        final(t).chain(e).len() == 0,
        final(t).surface_view() == old(t).surface_view(),
        forall |x: El| old(t).valid(x)
            ==> #[trigger] final(t).node_view(x) == old(t).node_view(x),
        forall |x: El| old(t).valid(x) ==> #[trigger] final(t).chain(x) == old(t).chain(x),
        forall |x: El| final(t).alive(x) && x != e
        ==> !final(t).in_subtree(e, x) && !final(t).in_subtree(x, e),
    final(t).body_view() == old(t).body_view(),
        final(t).root_view() == old(t).root_view(),
        final(t).root_cell_view() == old(t).root_cell_view(),
        final(t).observers_view() == old(t).observers_view(),
        final(t).tasks_view() == old(t).tasks_view(),
{
    let ghost pre = *old(t);
    let e = El(t.nodes.len());
    t.nodes.push(NodeSlot {
        alive: true,
        owner: Owner::Detached,
        index_in_parent: 0,
        children: Vec::new(),
        local: Vec::new(),
        stash: Vec::new(),
        surface: s,
    });
    proof {
        t.anc@ = t.anc@.insert(e.spec_raw(), Seq::empty());
        assert(t.node_view(e).cells =~= Seq::<Effect>::empty());
        assert forall |x: El| pre.valid(x)
            implies #[trigger] t.node_view(x) == pre.node_view(x) by {
            assert(t.nodes@[x.spec_raw()] == pre.nodes@[x.spec_raw()]);
        }
        t.lemma_grow_wf(pre, e);
        assert(t.observers_view() =~= pre.observers_view());
        assert forall |x: El| t.alive(x) && x != e
            implies !t.in_subtree(e, x) && !t.in_subtree(x, e) by {
            assert(pre.alive(x)) by {
                assert(t.node_view(x) == pre.node_view(x));
            }
            assert(t.chain(x) == pre.chain(x));
            pre.lemma_chain_elems_valid(x);
            if t.chain(x).contains(e.spec_raw()) {
                let k = choose |k: int|
                    0 <= k < pre.chain(x).len() && pre.chain(x)[k] == e.spec_raw();
            }
            assert(t.chain(e).len() == 0);
        }
    }
    e
}

/// The root anchor replacement, where the invariant unfolds. The previous
/// entries are torn down last first; no caller-visible order was fixed for
/// this, and the effect record states each release exactly once: the previous
/// anchored nodes and cell are torn down, the body's surface children are
/// replaced by the new nodes' surfaces, and the new nodes are owned by the
/// anchor from then on. The teardown effects to perform are returned.
#[verifier::rlimit(100)]
/// One step of the root anchor's teardown: after detaching and releasing
/// the last remaining root, the nodes under any torn-down root are dead
/// with their elements released, everything clear of the remaining roots
/// is untouched, and each torn-down surface was recorded exactly once.
#[verifier::rlimit(100)]
#[verifier::spinoff_prover]
proof fn lemma_set_root_release_step(pre: Tree, cur: Tree, mid: Tree, post: Tree,
    roots0: Seq<El>, c: El, lenc: int, fxc: Seq<Effect>, subv: Seq<Effect>,
    fxall: Seq<Effect>)
    requires
        pre.wf(),
        roots0 == pre.root_view(),
        1 <= lenc <= roots0.len(),
        c == roots0[lenc - 1],
        forall |i: int| #[trigger] cur.alive_raw(i) ==> pre.alive_raw(i),
        forall |x: El| pre.valid(x) && pre.alive(x)
            && !under_roots(pre, roots0, lenc, x)
            ==> #[trigger] cur.node_view(x) == pre.node_view(x)
                && cur.chain(x) == pre.chain(x),
        forall |x: El| pre.valid(x) && pre.alive(x)
            && #[trigger] under_roots(pre, roots0, lenc, x)
            ==> !cur.alive_raw(x.spec_raw())
                && !cur.surface_view().slot_view(pre.surface_of(x)).alive,
        forall |s: SurfaceId| #[trigger] eff_count(fxc, Effect::ReleaseElement(s))
            == (if rooted_surf(pre, roots0, lenc, s) { 1nat } else { 0nat }),
        cur.node_count() == pre.node_count(),
        cur.surface_view().slot_count() == pre.surface_view().slot_count(),
        cur.alive(c),
        mid.node_count() == cur.node_count(),
        mid.alive(c),
        mid.node_view(c) == (NodeView {
            owner: Owner::Detached,
            ..cur.node_view(c)
        }),
        forall |x: El| cur.valid(x) && x != c
            ==> #[trigger] mid.node_view(x) == cur.node_view(x),
        forall |x: El| cur.valid(x)
            ==> #[trigger] mid.chain(x) == cur.chain(x),
        forall |s: SurfaceId| cur.surface_view().valid(s)
            ==> (#[trigger] mid.surface_view().slot_view(s)).alive
                == cur.surface_view().slot_view(s).alive,
        mid.surface_view().slot_count() == cur.surface_view().slot_count(),
        post.node_count() == mid.node_count(),
        post.surface_view().slot_count() == mid.surface_view().slot_count(),
        forall |x: El| mid.valid(x) && mid.alive(x)
            ==> (#[trigger] post.alive(x) <==> !mid.in_subtree(c, x)),
        forall |x: El| mid.valid(x) && !mid.alive(x)
            ==> !(#[trigger] post.alive(x)),
        forall |x: El| mid.valid(x) && mid.alive(x) && !mid.in_subtree(c, x)
            ==> #[trigger] post.node_view(x) == mid.node_view(x)
                && post.chain(x) == mid.chain(x),
        forall |x: El| mid.valid(x) && mid.alive(x) && mid.in_subtree(c, x)
            ==> !post.surface_view().alive(#[trigger] mid.surface_of(x)),
        forall |s: SurfaceId| mid.surface_view().valid(s)
            && (#[trigger] post.surface_view().slot_view(s)).alive
            ==> mid.surface_view().slot_view(s).alive,
        forall |s: SurfaceId| #[trigger] eff_count(subv, Effect::ReleaseElement(s))
            == (if mid.subtree_surf(c, s) { 1nat } else { 0nat }),
        fxall == fxc + subv,
    ensures
        forall |i: int| #[trigger] post.alive_raw(i) ==> pre.alive_raw(i),
        forall |x: El| pre.valid(x) && pre.alive(x)
            && !under_roots(pre, roots0, lenc - 1, x)
            ==> #[trigger] post.node_view(x) == pre.node_view(x)
                && post.chain(x) == pre.chain(x),
        forall |x: El| pre.valid(x) && pre.alive(x)
            && #[trigger] under_roots(pre, roots0, lenc - 1, x)
            ==> !post.alive_raw(x.spec_raw())
                && !post.surface_view().slot_view(pre.surface_of(x)).alive,
        forall |s: SurfaceId| #[trigger] eff_count(fxall, Effect::ReleaseElement(s))
            == (if rooted_surf(pre, roots0, lenc - 1, s) { 1nat } else { 0nat }),
{
            assert(c == roots0[lenc - 1]);
            assert(true);
            assert(pre.root_entry_ok(lenc - 1));
            assert(pre.alive(c));
            assert(pre.owner_of(c) == Owner::Root);
            assert(pre.owner_ok(c));
            assert(pre.chain(c).len() == 0);
            pre.lemma_count_bound();
            // subtrees of distinct roots never meet
            assert forall |k: int, i: int| lenc <= k < roots0.len()
                && #[trigger] pre.subtree_raw(roots0[k]).contains(i)
                implies !(#[trigger] pre.subtree_raw(c).contains(i)) by {
                assert(pre.root_entry_ok(k));
                assert(pre.alive(roots0[k]));
                assert(pre.owner_ok(roots0[k]));
                assert(roots0[k] != c) by {
                    assert(roots0[k] != roots0[lenc - 1]);
                }
                assert(pre.chain(roots0[k]).len() == 0);
                assert(pre.chain(roots0[k]) =~= pre.chain(c));
                pre.lemma_sub_disjoint(roots0[k], c);
            }
            // aliveness only shrinks
            assert forall |i: int| #[trigger] post.alive_raw(i)
                implies pre.alive_raw(i) by {
                if 0 <= i < pre.node_count() {
                    let x = El(i as usize);
                    assert(mid.alive_raw(i)) by {
                        if !mid.alive_raw(i) {
                            assert(!post.alive(x)) by {
                                assert(mid.valid(x) && !mid.alive(x));
                            }
                        }
                    }
                    assert(cur.alive_raw(i)) by {
                        assert(mid.node_view(x).alive == cur.node_view(x).alive) by {
                            if x != c {
                                assert(mid.node_view(x) == cur.node_view(x));
                            }
                        }
                    }
                }
            }
            // nodes clear of the remaining roots' subtrees are untouched
            assert forall |x: El| pre.valid(x) && pre.alive(x)
                && !under_roots(pre, roots0, lenc - 1, x)
                implies #[trigger] post.node_view(x) == pre.node_view(x)
                    && post.chain(x) == pre.chain(x) by {
                assert(!under_roots(pre, roots0, lenc, x)) by {
                    if under_roots(pre, roots0, lenc, x) {
                        let k = choose |k: int| lenc <= k < roots0.len()
                            && #[trigger] pre.in_subtree(roots0[k], x);
                        assert(pre.in_subtree(roots0[k], x));
                        assert(under_roots(pre, roots0, lenc - 1, x));
                    }
                }
                assert(cur.node_view(x) == pre.node_view(x)
                    && cur.chain(x) == pre.chain(x));
                assert(x != c) by {
                    if x == c {
                        assert(pre.in_subtree(roots0[lenc - 1], x));
                        assert(under_roots(pre, roots0, lenc - 1, x));
                    }
                }
                assert(mid.node_view(x) == cur.node_view(x));
                assert(mid.chain(x) == cur.chain(x));
                assert(mid.alive(x)) by {
                    assert(mid.node_view(x).alive);
                }
                assert(!mid.in_subtree(c, x)) by {
                    if mid.in_subtree(c, x) {
                        assert(x == c || mid.chain(x).contains(c.spec_raw()));
                        assert(pre.chain(x).contains(c.spec_raw()));
                        assert(pre.in_subtree(c, x));
                        assert(under_roots(pre, roots0, lenc - 1, x)) by {
                            assert(pre.in_subtree(roots0[lenc - 1], x));
                        }
                    }
                }
                assert(post.node_view(x) == mid.node_view(x)
                    && post.chain(x) == mid.chain(x));
            }
            // nodes under a torn-down root are dead, their elements released
            assert forall |x: El| pre.valid(x) && pre.alive(x)
                && #[trigger] under_roots(pre, roots0, lenc - 1, x)
                implies !post.alive_raw(x.spec_raw())
                    && !post.surface_view().slot_view(pre.surface_of(x)).alive by {
                let sx = pre.surface_of(x);
                assert(pre.surface_view().valid(sx)) by {
                    assert(pre.surface_ok(x));
                }
                if under_roots(pre, roots0, lenc, x) {
                    assert(!cur.alive_raw(x.spec_raw()));
                    assert(!cur.surface_view().slot_view(sx).alive);
                    assert(!mid.alive_raw(x.spec_raw())) by {
                        assert(mid.node_view(x).alive == cur.node_view(x).alive) by {
                            assert(x != c) by {
                                if x == c {
                                    assert(cur.alive(c));
                                }
                            }
                        }
                    }
                    assert(!post.alive_raw(x.spec_raw())) by {
                        if post.alive_raw(x.spec_raw()) {
                            assert(post.alive(x));
                            assert(mid.valid(x) && !mid.alive(x));
                        }
                    }
                    assert(!post.surface_view().slot_view(sx).alive) by {
                        assert(mid.surface_view().slot_view(sx).alive
                            == cur.surface_view().slot_view(sx).alive);
                        if post.surface_view().slot_view(sx).alive {
                            assert(mid.surface_view().slot_view(sx).alive);
                        }
                    }
                } else {
                    let k = choose |k: int| lenc - 1 <= k < roots0.len()
                        && #[trigger] pre.in_subtree(roots0[k], x);
                    assert(k == lenc - 1) by {
                        if k >= lenc {
                            assert(under_roots(pre, roots0, lenc, x));
                        }
                    }
                    assert(pre.in_subtree(c, x));
                    assert(cur.node_view(x) == pre.node_view(x)
                        && cur.chain(x) == pre.chain(x)) by {
                        assert(!under_roots(pre, roots0, lenc, x));
                    }
                    if x == c {
                        assert(mid.alive(c) && mid.in_subtree(c, c));
                        assert(mid.surface_of(c) == pre.surface_of(c));
                    } else {
                        assert(mid.node_view(x) == cur.node_view(x));
                        assert(mid.chain(x) == cur.chain(x));
                        assert(mid.alive(x)) by {
                            assert(mid.node_view(x).alive);
                        }
                        assert(mid.in_subtree(c, x)) by {
                            assert(pre.chain(x).contains(c.spec_raw()));
                        }
                    }
                    assert(mid.valid(x) && mid.alive(x) && mid.in_subtree(c, x));
                    assert(!post.alive(x));
                    assert(!post.alive_raw(x.spec_raw())) by {
                        if post.alive_raw(x.spec_raw()) {
                            assert(post.node_view(x).alive);
                        }
                    }
                    assert(!post.surface_view().alive(mid.surface_of(x)));
                    assert(mid.surface_of(x) == pre.surface_of(x));
                    assert(post.surface_view().valid(sx));
                    assert(!post.surface_view().slot_view(sx).alive);
                }
            }
            // each torn-down subtree's surfaces appear exactly once
            assert forall |s: SurfaceId|
                #[trigger] eff_count(fxall, Effect::ReleaseElement(s))
                == (if rooted_surf(pre, roots0, lenc - 1, s)
                    { 1nat } else { 0nat }) by {
                let f = Effect::ReleaseElement(s);
                assert(fxall =~= fxc + subv) by {
                    assert(fxall.skip(fxc.len() as int) =~= subv);
                    assert(fxall.take(fxc.len() as int) =~= fxc);
                }
                lemma_eff_count_concat(fxc, subv, f);
                assert(eff_count(fxc, f)
                    == (if rooted_surf(pre, roots0, lenc, s) { 1nat } else { 0nat }));
                assert(eff_count(subv, f)
                    == (if mid.subtree_surf(c, s) { 1nat } else { 0nat }));
                // the released subtree reads the same before and after
                // the unroot step
                assert(mid.subtree_surf(c, s) <==> pre.subtree_surf(c, s)) by {
                    if mid.subtree_surf(c, s) {
                        let y = choose |y: El| #[trigger] mid.alive(y)
                            && mid.in_subtree(c, y) && mid.surface_of(y) == s;
                        if y == c {
                            assert(pre.alive(c) && pre.in_subtree(c, c));
                            assert(pre.surface_of(c) == mid.surface_of(c));
                            assert(pre.subtree_surf(c, s));
                        } else {
                            assert(cur.node_view(y) == mid.node_view(y));
                            assert(cur.alive_raw(y.spec_raw())) by {
                                assert(cur.node_view(y).alive);
                            }
                            assert(pre.alive_raw(y.spec_raw()));
                            assert(pre.alive(y)) by {
                                assert(pre.valid(y));
                            }
                            assert(!under_roots(pre, roots0, lenc, y)) by {
                                if under_roots(pre, roots0, lenc, y) {
                                    assert(!cur.alive_raw(y.spec_raw()));
                                }
                            }
                            assert(cur.node_view(y) == pre.node_view(y)
                                && cur.chain(y) == pre.chain(y));
                            assert(mid.chain(y) == cur.chain(y));
                            assert(pre.in_subtree(c, y)) by {
                                assert(mid.chain(y).contains(c.spec_raw()));
                            }
                            assert(pre.surface_of(y) == s);
                            assert(pre.subtree_surf(c, s));
                        }
                    }
                    if pre.subtree_surf(c, s) {
                        let x = choose |x: El| #[trigger] pre.alive(x)
                            && pre.in_subtree(c, x) && pre.surface_of(x) == s;
                        assert(!under_roots(pre, roots0, lenc, x)) by {
                            if under_roots(pre, roots0, lenc, x) {
                                let k = choose |k: int| lenc <= k < roots0.len()
                                    && #[trigger] pre.in_subtree(roots0[k], x);
                                assert(pre.subtree_raw(roots0[k])
                                    .contains(x.spec_raw())) by {
                                    assert(pre.alive_raw(x.spec_raw()));
                                }
                                assert(pre.subtree_raw(c).contains(x.spec_raw())) by {
                                    assert(pre.alive_raw(x.spec_raw()));
                                }
                            }
                        }
                        assert(cur.node_view(x) == pre.node_view(x)
                            && cur.chain(x) == pre.chain(x));
                        if x == c {
                            assert(mid.alive(c) && mid.in_subtree(c, c));
                            assert(mid.surface_of(c) == pre.surface_of(c));
                        } else {
                            assert(mid.node_view(x) == cur.node_view(x));
                            assert(mid.alive(x)) by {
                                assert(mid.node_view(x).alive);
                            }
                            assert(mid.in_subtree(c, x)) by {
                                assert(mid.chain(x) == cur.chain(x));
                                assert(pre.chain(x).contains(c.spec_raw()));
                            }
                        }
                        assert(mid.subtree_surf(c, s));
                    }
                }
                // and no other remaining root's subtree wraps the same surface
                assert(!(rooted_surf(pre, roots0, lenc, s)
                    && pre.subtree_surf(c, s))) by {
                    if rooted_surf(pre, roots0, lenc, s) && pre.subtree_surf(c, s) {
                        let k = choose |k: int| lenc <= k < roots0.len()
                            && #[trigger] pre.subtree_surf(roots0[k], s);
                        let y = choose |y: El| #[trigger] pre.alive(y)
                            && pre.in_subtree(roots0[k], y) && pre.surface_of(y) == s;
                        let x = choose |x: El| #[trigger] pre.alive(x)
                            && pre.in_subtree(c, x) && pre.surface_of(x) == s;
                        assert(x == y) by {
                            if x != y {
                                assert(pre.surface_of(x) != pre.surface_of(y));
                            }
                        }
                        assert(pre.subtree_raw(roots0[k]).contains(x.spec_raw())) by {
                            assert(pre.alive_raw(x.spec_raw()));
                        }
                        assert(pre.subtree_raw(c).contains(x.spec_raw())) by {
                            assert(pre.alive_raw(x.spec_raw()));
                        }
                    }
                }
                assert(rooted_surf(pre, roots0, lenc - 1, s)
                    <==> (rooted_surf(pre, roots0, lenc, s)
                        || pre.subtree_surf(c, s))) by {
                    if rooted_surf(pre, roots0, lenc - 1, s) {
                        let k = choose |k: int| lenc - 1 <= k < roots0.len()
                            && #[trigger] pre.subtree_surf(roots0[k], s);
                        if k == lenc - 1 {
                            assert(pre.subtree_surf(c, s));
                        } else {
                            assert(rooted_surf(pre, roots0, lenc, s));
                        }
                    }
                    if rooted_surf(pre, roots0, lenc, s) {
                        let k = choose |k: int| lenc <= k < roots0.len()
                            && #[trigger] pre.subtree_surf(roots0[k], s);
                        assert(pre.subtree_surf(roots0[k], s));
                        assert(rooted_surf(pre, roots0, lenc - 1, s));
                    }
                    if pre.subtree_surf(c, s) {
                        assert(pre.subtree_surf(roots0[lenc - 1], s));
                        assert(rooted_surf(pre, roots0, lenc - 1, s));
                    }
                }
            }
        }

/// Whether `x` lies in the subtree of one of the roots `roots[lo..]`,
/// as recorded in `t0`.
pub(crate) open spec fn under_roots(t0: Tree, roots: Seq<El>, lo: int, x: El) -> bool {
    exists |k: int| lo <= k < roots.len() && #[trigger] t0.in_subtree(roots[k], x)
}

/// Whether `s` is wrapped by a node of one of the roots' subtrees
/// `roots[lo..]`, as recorded in `t0`.
pub(crate) open spec fn rooted_surf(t0: Tree, roots: Seq<El>, lo: int, s: SurfaceId) -> bool {
    exists |k: int| lo <= k < roots.len() && #[trigger] t0.subtree_surf(roots[k], s)
}

#[verifier::spinoff_prover]
pub(crate) fn set_root_impl(t: &mut Tree, els: Vec<El>) -> (fx: Vec<Effect>)
    requires
        old(t).wf(),
        forall |k: int| 0 <= k < els@.len() ==> old(t).alive(#[trigger] els@[k]),
        forall |k: int| 0 <= k < els@.len() ==> old(t).is_detached(#[trigger] els@[k]),
        forall |k: int, l: int| 0 <= k < l < els@.len()
            ==> #[trigger] els@[k] != #[trigger] els@[l],
    ensures
        final(t).wf(),
        final(t).root_view() == els@,
        final(t).root_cell_view() is None,
        forall |k: int| 0 <= k < els@.len()
            ==> final(t).node_view(#[trigger] els@[k]) == (NodeView {
                owner: Owner::Root,
                ..old(t).node_view(els@[k])
            }),
        final(t).surface_view().children(final(t).body_view())
            == els@.map_values(|e: El| old(t).surface_of(e)),
        forall |k: int| 0 <= k < old(t).root_view().len()
            ==> !final(t).alive(#[trigger] old(t).root_view()[k]),
        forall |k: int| 0 <= k < old(t).root_view().len()
            ==> eff_count(fx@, Effect::ReleaseElement(
                old(t).surface_of(#[trigger] old(t).root_view()[k]))) == 1,
        (match old(t).root_cell_view() {
            Some(f) => fx@.len() >= 1 && fx@.last() == f,
            None => true,
        }),
        forall |x: El| old(t).valid(x) && old(t).alive(x)
            && #[trigger] under_roots(*old(t), old(t).root_view(), 0, x)
            ==> !final(t).alive(x)
                && !final(t).surface_view().slot_view(old(t).surface_of(x)).alive,
        forall |s: SurfaceId| #[trigger] eff_count(fx@, Effect::ReleaseElement(s))
            == (if rooted_surf(*old(t), old(t).root_view(), 0, s)
                { 1nat } else { 0nat }),
        Tree::registry_monotone(*old(t), *final(t)),
        final(t).body_view() == old(t).body_view(),
{
    let ghost pre = *old(t);
    let mut fx: Vec<Effect> = Vec::new();
    let ghost roots0 = pre.root_view();
    proof {
        assert forall |k: int| 0 <= k < roots0.len()
            implies eff_count(fx@,
                Effect::ReleaseElement(pre.surface_of(#[trigger] roots0[k]))) == 0 by {
            assert(fx@ =~= Seq::<Effect>::empty());
            assert(eff_count(Seq::<Effect>::empty(),
                Effect::ReleaseElement(pre.surface_of(roots0[k]))) == 0);
        }
    }
    proof {
        assert(Tree::registry_monotone(pre, *t)) by {
            assert(t.observers_view() == pre.observers_view());
            assert(t.listeners_view() == pre.listeners_view());
            assert(t.tasks_view() == pre.tasks_view());
        }
        assert forall |s: SurfaceId|
            #[trigger] eff_count(fx@, Effect::ReleaseElement(s))
            == (if rooted_surf(pre, roots0, t.root_view().len() as int, s)
                { 1nat } else { 0nat }) by {
            assert(fx@ =~= Seq::<Effect>::empty());
            assert(eff_count(Seq::<Effect>::empty(), Effect::ReleaseElement(s)) == 0);
            assert(!rooted_surf(pre, roots0, t.root_view().len() as int, s));
        }
    }
    while t.root_nodes.len() > 0
        invariant
            Tree::registry_monotone(pre, *t),
            forall |i: int| #[trigger] t.alive_raw(i) ==> pre.alive_raw(i),
            forall |x: El| pre.valid(x) && pre.alive(x)
                && !under_roots(pre, roots0, t.root_view().len() as int, x)
                ==> #[trigger] t.node_view(x) == pre.node_view(x)
                    && t.chain(x) == pre.chain(x),
            forall |x: El| pre.valid(x) && pre.alive(x)
                && #[trigger] under_roots(pre, roots0, t.root_view().len() as int, x)
                ==> !t.alive_raw(x.spec_raw())
                    && !t.surface_view().slot_view(pre.surface_of(x)).alive,
            forall |s: SurfaceId|
                #[trigger] eff_count(fx@, Effect::ReleaseElement(s))
                == (if rooted_surf(pre, roots0, t.root_view().len() as int, s)
                    { 1nat } else { 0nat }),
            pre.wf(),
            roots0 == pre.root_view(),
            forall |k: int| 0 <= k < els@.len() ==> pre.alive(#[trigger] els@[k]),
            forall |k: int| 0 <= k < els@.len()
                ==> pre.is_detached(#[trigger] els@[k]),
            t.wf(),
            t.node_count() == pre.node_count(),
            t.surface_view().slot_count() == pre.surface_view().slot_count(),
            t.root_view() == roots0.take(t.root_view().len() as int),
            t.root_view().len() <= roots0.len(),
            forall |k: int| 0 <= k < t.root_view().len()
                ==> #[trigger] t.node_view(roots0[k]) == pre.node_view(roots0[k]),
            forall |k: int| 0 <= k < els@.len()
                ==> #[trigger] t.node_view(els@[k]) == pre.node_view(els@[k]),
            forall |k: int| 0 <= k < els@.len() ==> t.alive(#[trigger] els@[k]),
            forall |k: int| t.root_view().len() <= k < roots0.len()
                ==> !t.alive(#[trigger] roots0[k]),
            forall |k: int| t.root_view().len() <= k < roots0.len()
                ==> !t.surface_view().alive(pre.surface_of(#[trigger] roots0[k])),
            forall |k: int| t.root_view().len() <= k < roots0.len()
                ==> eff_count(fx@,
                    Effect::ReleaseElement(pre.surface_of(#[trigger] roots0[k]))) == 1,
            forall |k: int| 0 <= k < t.root_view().len()
                ==> eff_count(fx@,
                    Effect::ReleaseElement(pre.surface_of(#[trigger] roots0[k]))) == 0,
            forall |s: SurfaceId| pre.surface_view().valid(s)
                && (#[trigger] t.surface_view().slot_view(s)).alive
                ==> pre.surface_view().slot_view(s).alive,
            t.body_view() == pre.body_view(),
            t.root_cell_view() == pre.root_cell_view(),
        decreases t.root_view().len(),
    {
        let ghost cur = *t;
        let ghost fxc = fx@;
        let c = t.unroot_last();
        let ghost mid = *t;
        proof {
            assert(c == cur.root_view().last());
            assert(roots0[cur.root_view().len() as int - 1] == c);
            assert(t.root_view() =~= roots0.take(cur.root_view().len() as int - 1));
            assert forall |k: int| 0 <= k < els@.len()
                implies mid.alive(#[trigger] els@[k])
                    && !mid.in_subtree(c, els@[k])
                    && mid.node_view(els@[k]) == pre.node_view(els@[k]) by {
                let a = els@[k];
                assert(a != c) by {
                    if a == c {
                        assert(cur.node_view(a) == pre.node_view(a));
                        assert(cur.root_entry_ok(cur.root_view().len() as int - 1));
                        assert(cur.owner_of(c) == Owner::Root);
                        assert(pre.is_detached(a));
                    }
                }
                assert(mid.node_view(a) == cur.node_view(a));
                assert(mid.alive(a));
                assert(mid.chain(a) == pre.chain(a));
                assert(mid.chain(a).len() == 0) by {
                    assert(mid.alive(a));
                    assert(mid.owner_ok(a));
                    assert(mid.is_detached(a));
                }
                assert(!mid.in_subtree(c, a));
            }
        }
        let mut sub = t.release(c);
        let ghost subv = sub@;
        fx.append(&mut sub);
        proof {
            assert(fx@.skip(fxc.len() as int) =~= subv);
            assert forall |k: int| 0 <= k < els@.len()
                implies #[trigger] t.node_view(els@[k]) == pre.node_view(els@[k])
                    && t.alive(els@[k]) by {
                let a = els@[k];
                assert(mid.alive(a) && !mid.in_subtree(c, a));
                assert(t.node_view(a) == mid.node_view(a));
            }
            assert forall |k: int| 0 <= k < cur.root_view().len() - 1
                implies #[trigger] t.node_view(roots0[k]) == pre.node_view(roots0[k]) by {
                let d = roots0[k];
                assert(pre.root_entry_ok(k));
                assert(cur.node_view(d) == pre.node_view(d));
                assert(d != c) by {
                    assert(roots0[k] != roots0[cur.root_view().len() - 1]);
                }
                assert(mid.node_view(d) == cur.node_view(d));
                assert(mid.alive(d)) by {
                    assert(cur.root_entry_ok(k));
                    assert(cur.alive(d));
                }
                assert(!mid.in_subtree(c, d)) by {
                    if mid.subtree_raw(c).contains(d.spec_raw()) {
                        assert(mid.alive_raw(d.spec_raw()));
                        assert(mid.chain(d).len() == 0) by {
                            assert(mid.owner_ok(d)) by {
                                assert(mid.alive(d));
                            }
                            assert(mid.owner_of(d) == Owner::Root);
                            assert(mid.root_view().contains(d)) by {
                                assert(mid.root_view()[k] == d);
                            }
                        }
                        assert(d == c || mid.chain(d).contains(c.spec_raw()));
                    }
                    assert(mid.alive_raw(d.spec_raw()));
                }
                assert(t.node_view(d) == mid.node_view(d));
            }
            assert(t.root_view() =~= roots0.take(t.root_view().len() as int));
            assert forall |k: int| t.root_view().len() <= k < roots0.len()
                implies !t.alive(#[trigger] roots0[k]) by {
                let d = roots0[k];
                assert(pre.root_entry_ok(k));
                assert(pre.valid(d));
                if k == cur.root_view().len() - 1 {
                    assert(d == c);
                    assert(mid.alive(c) && mid.in_subtree(c, c));
                    assert(!t.alive(c));
                } else {
                    assert(!cur.alive(d));
                    assert(!mid.alive(d)) by {
                        if d != c {
                            assert(mid.node_view(d) == cur.node_view(d));
                        }
                    }
                    assert(!t.alive(d)) by {
                        assert(mid.valid(d) && !mid.alive(d));
                    }
                }
            }
            // the effect record gains exactly the released entry's
            // subtree surfaces
            let ghost fxn = fx@;
            let ghost dc = fxn.skip(fxc.len() as int);
            assert(fxn =~= fxc + dc) by {
                assert(fxn.take(fxc.len() as int) == fxc);
            }
            assert(mid.surface_of(c) == pre.surface_of(c)) by {
                assert(pre.root_entry_ok(cur.root_view().len() as int - 1));
                assert(cur.node_view(c) == pre.node_view(c));
                assert(mid.node_view(c) == (NodeView {
                    owner: Owner::Detached,
                    ..cur.node_view(c)
                }));
            }
            assert forall |k: int| t.root_view().len() <= k < roots0.len()
                implies eff_count(fxn,
                    Effect::ReleaseElement(pre.surface_of(#[trigger] roots0[k]))) == 1
                by {
                let d = roots0[k];
                assert(pre.root_entry_ok(k));
                let f = Effect::ReleaseElement(pre.surface_of(d));
                lemma_eff_count_concat(fxc, dc, f);
                if k == cur.root_view().len() - 1 {
                    assert(d == c);
                    assert(pre.alive(d));
                    assert(eff_count(fxc, f) == 0);
                    assert(mid.alive(c) && mid.in_subtree(c, c));
                    assert(eff_count(dc, f) == 1);
                } else {
                    assert(eff_count(fxc, f) == 1);
                    assert(eff_count(dc, f) == 0) by {
                        if mid.subtree_surf(c, pre.surface_of(d)) {
                            let y = choose |y: El| #[trigger] mid.alive(y)
                                && mid.in_subtree(c, y)
                                && mid.surface_of(y) == pre.surface_of(d);
                            assert(mid.surface_view().alive(mid.surface_of(y))) by {
                                assert(mid.surface_ok(y));
                            }
                            assert(!cur.surface_view().alive(pre.surface_of(d)));
                            assert(pre.surface_view().valid(pre.surface_of(d))) by {
                                assert(pre.alive(d));
                                assert(pre.surface_ok(d));
                            }
                            assert(cur.surface_view().valid(pre.surface_of(d)));
                            assert(mid.surface_view().slot_view(pre.surface_of(d)).alive
                                == cur.surface_view().slot_view(
                                    pre.surface_of(d)).alive);
                            assert(false);
                        }
                    }
                }
            }
            assert forall |k: int| 0 <= k < t.root_view().len()
                implies eff_count(fxn,
                    Effect::ReleaseElement(pre.surface_of(#[trigger] roots0[k]))) == 0
                by {
                let d = roots0[k];
                assert(pre.root_entry_ok(k));
                let f = Effect::ReleaseElement(pre.surface_of(d));
                lemma_eff_count_concat(fxc, dc, f);
                assert(eff_count(fxc, f) == 0);
                assert(eff_count(dc, f) == 0) by {
                    if mid.subtree_surf(c, pre.surface_of(d)) {
                        let y = choose |y: El| #[trigger] mid.alive(y)
                            && mid.in_subtree(c, y)
                            && mid.surface_of(y) == pre.surface_of(d);
                        assert(mid.subtree_raw(c).contains(y.spec_raw())) by {
                            assert(mid.alive_raw(y.spec_raw()));
                        }
                        assert(y == c || mid.chain(y).contains(c.spec_raw()));
                        // d survives this release, and y does not, yet
                        // their surfaces coincide
                        assert(d != c) by {
                            assert(roots0[k] != roots0[cur.root_view().len() - 1]);
                        }
                        assert(mid.alive(d)) by {
                            assert(cur.alive(d)) by {
                                assert(cur.root_entry_ok(k));
                            }
                            assert(mid.node_view(d) == cur.node_view(d));
                        }
                        assert(mid.surface_of(d) == pre.surface_of(d)) by {
                            assert(cur.node_view(d) == pre.node_view(d));
                            assert(mid.node_view(d) == cur.node_view(d));
                        }
                        assert(y == d) by {
                            if y != d {
                                assert(mid.alive(y) && mid.alive(d));
                            }
                        }
                        assert(!t.alive(d)) by {
                            assert(mid.alive(d) && mid.in_subtree(c, d));
                        }
                        assert(t.alive(d)) by {
                            assert(cur.root_entry_ok(k));
                            assert(t.root_view()[k] == d);
                            assert(t.root_entry_ok(k));
                        }
                    }
                }
            }
            // dead surfaces stay dead, and aliveness is monotone
            assert forall |k: int| t.root_view().len() <= k < roots0.len()
                implies !t.surface_view().alive(
                    pre.surface_of(#[trigger] roots0[k])) by {
                let d = roots0[k];
                assert(pre.root_entry_ok(k));
                assert(pre.surface_view().valid(pre.surface_of(d))) by {
                    assert(pre.alive(d));
                    assert(pre.surface_ok(d));
                }
                if k == cur.root_view().len() - 1 {
                    assert(d == c);
                    assert(mid.alive(c) && mid.in_subtree(c, c));
                    assert(mid.surface_of(c) == pre.surface_of(c));
                    assert(!t.surface_view().alive(mid.surface_of(c)));
                } else {
                    assert(!cur.surface_view().alive(pre.surface_of(d)));
                    assert(cur.surface_view().valid(pre.surface_of(d)));
                    assert(mid.surface_view().slot_view(pre.surface_of(d)).alive
                        == cur.surface_view().slot_view(pre.surface_of(d)).alive);
                    assert(mid.surface_view().valid(pre.surface_of(d)));
                    assert(t.surface_view().slot_view(pre.surface_of(d)).alive
                        ==> mid.surface_view().slot_view(pre.surface_of(d)).alive);
                }
            }
            assert forall |s: SurfaceId| pre.surface_view().valid(s)
                && (#[trigger] t.surface_view().slot_view(s)).alive
                implies pre.surface_view().slot_view(s).alive by {
                assert(cur.surface_view().valid(s));
                assert(mid.surface_view().valid(s));
                assert(t.surface_view().slot_view(s).alive
                    ==> mid.surface_view().slot_view(s).alive);
                assert(mid.surface_view().slot_view(s).alive
                    == cur.surface_view().slot_view(s).alive);
                assert(cur.surface_view().slot_view(s).alive);
            }
        }
            proof {
            let lenc = cur.root_view().len() as int;
            assert(t.root_view().len() as int == lenc - 1);
            assert(cur.alive(c)) by {
                assert(cur.root_entry_ok(lenc - 1));
            }
            assert(fx@ =~= fxc + subv) by {
                assert(fx@.skip(fxc.len() as int) =~= subv);
                assert(fx@.take(fxc.len() as int) =~= fxc);
            }
            lemma_set_root_release_step(pre, cur, mid, *t, roots0, c, lenc,
                fxc, subv, fx@);
        }
        proof {
            assert(Tree::registry_monotone(pre, *t)) by {
                assert(Tree::registry_monotone(cur, mid)) by {
                    assert(mid.observers_view() == cur.observers_view());
                    assert(mid.listeners_view() == cur.listeners_view());
                    assert(mid.tasks_view() == cur.tasks_view());
                }
                Tree::lemma_monotone_trans(pre, cur, mid);
                Tree::lemma_monotone_trans(pre, mid, *t);
            }
        }
    }
    let ghost ta = *t;
    let ghost fxr = fx@;
    let mut slot: Option<ScopeValue> = None;
    core::mem::swap(&mut t.root_cell, &mut slot);
    proof {
        t.lemma_registry_frames(ta);
        t.lemma_root_cell_repr();
    }
    let ghost tb = *t;
    match slot {
        Some(cell) => {
            proof {
                crate::own::lemma_effect_not_release(cell);
            }
            t.teardown_cell(cell, &mut fx);
            proof {
                assert(fx@.drop_last() =~= fxr);
            }
        },
        None => {},
    }
    let ghost tc = *t;
    proof {
        assert(Tree::registry_monotone(pre, *t)) by {
            assert(Tree::registry_monotone(pre, tb)) by {
                assert(tb.observers_view() == ta.observers_view());
                assert(tb.listeners_view() == ta.listeners_view());
                assert(tb.tasks_view() == ta.tasks_view());
                assert(Tree::registry_monotone(ta, tb));
                Tree::lemma_monotone_trans(pre, ta, tb);
            }
            Tree::lemma_monotone_trans(pre, tb, *t);
        }
        tc.lemma_field_views(tb);
        tc.lemma_root_cell_repr();
        tb.lemma_root_cell_repr();
        assert(tc.root_cell_view() is None);
        assert(tc.wf());
        assert(tc.root_view().len() == 0);
        assert forall |k: int| 0 <= k < roots0.len()
            implies eff_count(fx@, Effect::ReleaseElement(
                pre.surface_of(#[trigger] roots0[k]))) == 1 by {
            let f = Effect::ReleaseElement(pre.surface_of(roots0[k]));
            assert(eff_count(fxr, f) == 1);
            match pre.root_cell_view() {
                Some(cf) => {
                    assert(fx@.drop_last() =~= fxr);
                    assert(eff_count(fx@, f) == eff_count(fx@.drop_last(), f)
                        + (if fx@.last() == f { 1nat } else { 0nat }));
                    assert(!(fx@.last() is ReleaseElement)) by {
                        pre.lemma_root_cell_repr();
                    }
                },
                None => {
                    assert(fx@ == fxr);
                },
            }
        }
        assert(match pre.root_cell_view() {
            Some(f) => fx@.len() >= 1 && fx@.last() == f,
            None => true,
        }) by {
            pre.lemma_root_cell_repr();
            ta.lemma_root_cell_repr();
        }
        assert forall |s: SurfaceId|
            #[trigger] eff_count(fx@, Effect::ReleaseElement(s))
            == (if rooted_surf(pre, roots0, 0, s) { 1nat } else { 0nat }) by {
            let f = Effect::ReleaseElement(s);
            assert(eff_count(fxr, f)
                == (if rooted_surf(pre, roots0, 0, s) { 1nat } else { 0nat }));
            match pre.root_cell_view() {
                Some(cf) => {
                    assert(fx@.drop_last() =~= fxr);
                    assert(eff_count(fx@, f) == eff_count(fx@.drop_last(), f)
                        + (if fx@.last() == f { 1nat } else { 0nat }));
                    assert(!(fx@.last() is ReleaseElement)) by {
                        pre.lemma_root_cell_repr();
                    }
                },
                None => {
                    assert(fx@ == fxr);
                },
            }
        }
        assert forall |x: El| pre.valid(x) && pre.alive(x)
            && #[trigger] under_roots(pre, roots0, 0, x)
            implies !tc.alive_raw(x.spec_raw())
                && !tc.surface_view().slot_view(pre.surface_of(x)).alive by {
            assert(!ta.alive_raw(x.spec_raw())
                && !ta.surface_view().slot_view(pre.surface_of(x)).alive);
            assert(tb.nodes == ta.nodes && tb.surface == ta.surface);
            assert(tc.nodes == tb.nodes && tc.surface == tb.surface);
        }
        assert forall |k: int| 0 <= k < els@.len()
            implies #[trigger] tc.node_view(els@[k]) == pre.node_view(els@[k])
                && tc.alive(els@[k]) by {
            let a = els@[k];
            assert(tb.node_view(a) == ta.node_view(a));
            assert(tc.node_view(a) == tb.node_view(a));
            assert(ta.node_view(a) == pre.node_view(a));
        }
    }
    proof {
        assert forall |k: int| 0 <= k < roots0.len()
            implies pre.valid(#[trigger] roots0[k]) by {
            assert(pre.root_entry_ok(k));
        }
    }
    // the body's remaining surface children leave
    let b = t.body;
    while t.surface.child_count(b) > 0
        invariant
            Tree::registry_monotone(pre, *t),
            t.surface_view().slot_count() == pre.surface_view().slot_count(),
            forall |x: El| pre.valid(x) && pre.alive(x)
                && #[trigger] under_roots(pre, roots0, 0, x)
                ==> !t.alive_raw(x.spec_raw())
                    && !t.surface_view().slot_view(pre.surface_of(x)).alive,
            pre.wf(),
            forall |k: int| 0 <= k < els@.len() ==> pre.alive(#[trigger] els@[k]),
            forall |k: int| 0 <= k < els@.len()
                ==> pre.is_detached(#[trigger] els@[k]),
            t.wf(),
            b == t.body_view(),
            t.body_view() == pre.body_view(),
            t.node_count() == pre.node_count(),
            t.root_view().len() == 0,
            t.root_cell_view() is None,
            forall |k: int| 0 <= k < els@.len()
                ==> #[trigger] t.node_view(els@[k]) == pre.node_view(els@[k]),
            forall |k: int| 0 <= k < els@.len() ==> t.alive(#[trigger] els@[k]),
            forall |k: int| 0 <= k < roots0.len()
                ==> !t.alive(#[trigger] roots0[k]),
            forall |k: int| 0 <= k < roots0.len() ==> pre.valid(#[trigger] roots0[k]),
        decreases t.surface_view().children(b).len(),
    {
        let ghost cur = *t;
        proof {
            assert(cur.surface_view().alive(b));
        }
        let gone = t.surface.remove_at(b, 0);
        proof {
            let ghost qkids = cur.surface_view().children(b);
            assert(gone == qkids[0]);
            // the removed slot and the moved siblings keep what the
            // invariant needs
            assert forall |x: El| cur.alive(x)
                implies (#[trigger] t.surface.slot_view(cur.surface_of(x))).children
                        == cur.surface_view().slot_view(cur.surface_of(x)).children
                    && t.surface.slot_view(cur.surface_of(x)).alive
                        == cur.surface_view().slot_view(cur.surface_of(x)).alive by {
                let sx = cur.surface_of(x);
                assert(sx != b) by {
                    assert(cur.alive(x));
                }
                if sx == gone {
                    assert(t.surface.slot_view(sx).children
                        == cur.surface_view().slot_view(sx).children);
                } else if qkids.skip(0).contains(sx) {
                    let z = choose |z: int| 0 <= z < qkids.skip(0).len()
                        && qkids.skip(0)[z] == sx;
                    assert(qkids[z] == sx);
                    if z > 0 {
                        assert(t.surface.slot_view(qkids[z])
                            == (crate::surface::SlotView {
                                pos: z - 1,
                                ..cur.surface_view().slot_view(qkids[z])
                            }));
                    }
                } else {
                    assert(t.surface.slot_view(sx)
                        == cur.surface_view().slot_view(sx));
                }
            }
            assert forall |x: El| cur.alive(x) && cur.is_detached(x)
                implies (#[trigger] t.surface.slot_view(cur.surface_of(x))).parent
                    is None by {
                let sx = cur.surface_of(x);
                assert(cur.surface_ok(x));
                assert(sx != gone) by {
                    if sx == gone {
                        assert(cur.surface_view().parent(sx) is None);
                        cur.surface_view().lemma_child_link(b, 0);
                    }
                }
                if qkids.skip(0).contains(sx) {
                    let z = choose |z: int| 0 <= z < qkids.skip(0).len()
                        && qkids.skip(0)[z] == sx;
                    assert(qkids[z] == sx);
                    cur.surface_view().lemma_child_link(b, z);
                    assert(false);
                } else {
                    assert(t.surface.slot_view(sx)
                        == cur.surface_view().slot_view(sx));
                }
            }
            assert forall |x: El| cur.alive(x) && (cur.owner_of(x) is Parent)
                implies (#[trigger] t.surface.slot_view(cur.surface_of(x))).parent
                    == Some(cur.surface_of(cur.parent_el(x))) by {
                let sx = cur.surface_of(x);
                assert(cur.surface_ok(x));
                assert(cur.surface_view().parent(sx)
                    == Some(cur.surface_of(cur.parent_el(x))));
                assert(cur.surface_of(cur.parent_el(x)) != b) by {
                    assert(cur.alive(cur.parent_el(x))) by {
                        assert(cur.owner_ok(x));
                    }
                }
                assert(sx != gone) by {
                    if sx == gone {
                        cur.surface_view().lemma_child_link(b, 0);
                        assert(cur.surface_view().parent(gone) == Some(b));
                    }
                }
                if qkids.skip(0).contains(sx) {
                    let z = choose |z: int| 0 <= z < qkids.skip(0).len()
                        && qkids.skip(0)[z] == sx;
                    assert(qkids[z] == sx);
                    cur.surface_view().lemma_child_link(b, z);
                    assert(cur.surface_view().parent(sx) == Some(b));
                    assert(false);
                } else {
                    assert(t.surface.slot_view(sx)
                        == cur.surface_view().slot_view(sx));
                }
            }
            assert(t.surface_view().slot_view(cur.body_view()).alive);
            t.lemma_offstage_surface_wf(cur);
            t.lemma_root_cell_repr();
            cur.lemma_root_cell_repr();
            assert forall |k: int| 0 <= k < els@.len()
                implies #[trigger] t.node_view(els@[k]) == pre.node_view(els@[k])
                    && t.alive(els@[k]) by {
                assert(t.node_view(els@[k]) == cur.node_view(els@[k]));
            }
            assert forall |k: int| 0 <= k < roots0.len()
                implies !t.alive(#[trigger] roots0[k]) by {
                assert(t.node_view(roots0[k]) == cur.node_view(roots0[k]));
            }
        }
            proof {
            let ghost qk = cur.surface_view().children(b);
            assert forall |x: El| pre.valid(x) && pre.alive(x)
                && #[trigger] under_roots(pre, roots0, 0, x)
                implies !t.alive_raw(x.spec_raw())
                    && !t.surface_view().slot_view(pre.surface_of(x)).alive by {
                assert(!cur.alive_raw(x.spec_raw()));
                assert(t.nodes == cur.nodes);
                let sx = pre.surface_of(x);
                assert(pre.surface_view().valid(sx)) by {
                    assert(pre.surface_ok(x));
                }
                assert(cur.surface_view().valid(sx));
                assert(!cur.surface_view().slot_view(sx).alive);
                assert(sx != b) by {
                    if sx == b {
                        assert(cur.surface_view().slot_view(b).alive);
                    }
                }
                if sx == gone {
                    assert(t.surface.slot_view(gone) == (SlotView {
                        parent: None,
                        pos: 0,
                        ..cur.surface_view().slot_view(gone)
                    }));
                } else if qk.skip(0).contains(sx) {
                    let z = choose |z: int| 0 <= z < qk.skip(0).len()
                        && qk.skip(0)[z] == sx;
                    assert(qk[z] == sx);
                    if z > 0 {
                        assert(t.surface.slot_view(qk[z]) == (SlotView {
                            pos: z - 1,
                            ..cur.surface_view().slot_view(qk[z])
                        }));
                    } else {
                        assert(sx == gone);
                    }
                } else {
                    assert(t.surface.slot_view(sx)
                        == cur.surface_view().slot_view(sx));
                }
            }
        }
            proof {
            assert(Tree::registry_monotone(pre, *t)) by {
                assert(Tree::registry_monotone(cur, *t)) by {
                    assert(t.observers_view() == cur.observers_view());
                    assert(t.listeners_view() == cur.listeners_view());
                    assert(t.tasks_view() == cur.tasks_view());
                }
                Tree::lemma_monotone_trans(pre, cur, *t);
            }
        }
    }
    // place the new nodes
    let ghost tm = *t;
    let mut k: usize = 0;
    while k < els.len()
        invariant
            Tree::registry_monotone(pre, *t),
            t.surface_view().slot_count() == pre.surface_view().slot_count(),
            forall |x: El| pre.valid(x) && pre.alive(x)
                && #[trigger] under_roots(pre, roots0, 0, x)
                ==> !t.alive_raw(x.spec_raw())
                    && !t.surface_view().slot_view(pre.surface_of(x)).alive,
            pre.wf(),
            tm.wf(),
            forall |kk: int| 0 <= kk < els@.len() ==> pre.alive(#[trigger] els@[kk]),
            forall |kk: int| 0 <= kk < els@.len()
                ==> pre.is_detached(#[trigger] els@[kk]),
            forall |kk: int, l: int| 0 <= kk < l < els@.len()
                ==> #[trigger] els@[kk] != #[trigger] els@[l],
            k <= els@.len(),
            t.wf(),
            t.body_view() == pre.body_view(),
            t.node_count() == pre.node_count(),
            t.root_view() == els@.take(k as int),
            t.root_cell_view() is None,
            t.surface_view().children(t.body_view())
                =~= els@.take(k as int).map_values(|e: El| pre.surface_of(e)),
            forall |kk: int| 0 <= kk < k
                ==> #[trigger] t.node_view(els@[kk]) == (NodeView {
                    owner: Owner::Root,
                    ..pre.node_view(els@[kk])
                }),
            forall |kk: int| k <= kk < els@.len()
                ==> #[trigger] t.node_view(els@[kk]) == pre.node_view(els@[kk]),
            forall |kk: int| k <= kk < els@.len() ==> t.alive(#[trigger] els@[kk]),
            forall |kk: int| k <= kk < els@.len()
                ==> t.is_detached(#[trigger] els@[kk]),
            forall |kk: int| 0 <= kk < roots0.len()
                ==> !t.alive(#[trigger] roots0[kk]),
            forall |kk: int| 0 <= kk < roots0.len() ==> pre.valid(#[trigger] roots0[kk]),
        decreases els@.len() - k,
    {
        let ghost cur = *t;
        let c = els[k];
        let s = c.raw(t);
        proof {
            assert(cur.alive(c));
            assert(cur.is_detached(c));
            assert(s == pre.surface_of(c)) by {
                assert(cur.node_view(c) == pre.node_view(c));
            }
            assert(cur.surface_view().parent(s) is None) by {
                assert(cur.surface_ok(c));
            }
            assert(cur.surface_view().alive(s)) by {
                assert(cur.surface_ok(c));
            }
        }
        t.root_mark(c);
        let ghost mid = *t;
        let b2 = t.body;
        let at = t.surface.child_count(b2);
        proof {
            assert(b2 == cur.body_view());
            assert(mid.surface == cur.surface);
            assert(mid.surface_view().alive(b2));
            assert(s != b2) by {
                assert(cur.surface_of(c) != cur.body_view()) by {
                    assert(cur.alive(c));
                }
            }
            assert(at as int == mid.surface_view().children(b2).len());
        }
        t.surface.insert_at(b2, at, s);
        proof {
            // an insert at the end moves no sibling
            let ghost bkids = mid.surface_view().children(b2);
            assert(bkids.skip(at as int).len() == 0);
            assert forall |x: El| mid.alive(x)
                implies (#[trigger] t.surface.slot_view(mid.surface_of(x))).children
                        == mid.surface_view().slot_view(mid.surface_of(x)).children
                    && t.surface.slot_view(mid.surface_of(x)).alive
                        == mid.surface_view().slot_view(mid.surface_of(x)).alive by {
                let sx = mid.surface_of(x);
                assert(sx != b2) by {
                    assert(mid.alive(x));
                }
                if sx == s {
                    assert(t.surface.slot_view(s)
                        == (crate::surface::SlotView {
                            parent: Some(b2),
                            pos: at as int,
                            ..mid.surface_view().slot_view(s)
                        }));
                } else {
                    assert(!bkids.skip(at as int).contains(sx));
                    assert(t.surface.slot_view(sx)
                        == mid.surface_view().slot_view(sx));
                }
            }
            assert forall |x: El| mid.alive(x) && mid.is_detached(x)
                implies (#[trigger] t.surface.slot_view(mid.surface_of(x))).parent
                    is None by {
                let sx = mid.surface_of(x);
                assert(mid.surface_ok(x));
                assert(sx != s) by {
                    if sx == s {
                        assert(x == c) by {
                            if x != c {
                                assert(mid.alive(x) && mid.alive(c));
                            }
                        }
                        assert(mid.owner_of(c) == Owner::Root);
                    }
                }
                assert(!bkids.skip(at as int).contains(sx));
                assert(t.surface.slot_view(sx) == mid.surface_view().slot_view(sx));
            }
            assert forall |x: El| mid.alive(x) && (mid.owner_of(x) is Parent)
                implies (#[trigger] t.surface.slot_view(mid.surface_of(x))).parent
                    == Some(mid.surface_of(mid.parent_el(x))) by {
                let sx = mid.surface_of(x);
                assert(mid.surface_ok(x));
                assert(sx != s) by {
                    if sx == s {
                        assert(x == c) by {
                            if x != c {
                                assert(mid.alive(x) && mid.alive(c));
                            }
                        }
                        assert(mid.owner_of(c) == Owner::Root);
                    }
                }
                assert(!bkids.skip(at as int).contains(sx));
                assert(t.surface.slot_view(sx) == mid.surface_view().slot_view(sx));
            }
            assert(t.surface_view().slot_view(mid.body_view()).alive);
            t.lemma_offstage_surface_wf(mid);
            t.lemma_root_cell_repr();
            mid.lemma_root_cell_repr();
            assert(t.root_view() =~= els@.take(k as int + 1));
            assert(t.surface_view().children(t.body_view())
                =~= els@.take(k as int + 1).map_values(|e: El| pre.surface_of(e))) by {
                assert(t.surface_view().children(b2)
                    == bkids.insert(at as int, s));
            }
            assert forall |kk: int| 0 <= kk < k + 1
                implies #[trigger] t.node_view(els@[kk]) == (NodeView {
                    owner: Owner::Root,
                    ..pre.node_view(els@[kk])
                }) by {
                if kk < k {
                    assert(mid.node_view(els@[kk]) == cur.node_view(els@[kk])) by {
                        assert(els@[kk] != c);
                    }
                    assert(t.node_view(els@[kk]) == mid.node_view(els@[kk]));
                } else {
                    assert(t.node_view(c) == mid.node_view(c));
                }
            }
            assert forall |kk: int| k + 1 <= kk < els@.len()
                implies #[trigger] t.node_view(els@[kk]) == pre.node_view(els@[kk])
                    && t.alive(els@[kk]) && t.is_detached(els@[kk]) by {
                assert(els@[kk] != c);
                assert(mid.node_view(els@[kk]) == cur.node_view(els@[kk]));
                assert(t.node_view(els@[kk]) == mid.node_view(els@[kk]));
            }
            assert forall |kk: int| 0 <= kk < roots0.len()
                implies !t.alive(#[trigger] roots0[kk]) by {
                let d = roots0[kk];
                assert(!cur.alive(d));
                assert(mid.node_view(d) == cur.node_view(d) || d == c);
                assert(t.node_view(d) == mid.node_view(d));
                if t.alive(d) {
                    assert(cur.valid(d));
                    assert(d != c) by {
                        if d == c {
                            assert(cur.alive(c));
                        }
                    }
                }
            }
        }
        k = k + 1;
            proof {
            let ghost bk2 = mid.surface_view().children(b2);
            assert forall |x: El| pre.valid(x) && pre.alive(x)
                && #[trigger] under_roots(pre, roots0, 0, x)
                implies !t.alive_raw(x.spec_raw())
                    && !t.surface_view().slot_view(pre.surface_of(x)).alive by {
                assert(!cur.alive_raw(x.spec_raw()));
                assert(x != c) by {
                    if x == c {
                        assert(cur.alive(c));
                    }
                }
                assert(mid.node_view(x) == cur.node_view(x));
                assert(!mid.alive_raw(x.spec_raw()));
                assert(t.nodes == mid.nodes);
                let sx = pre.surface_of(x);
                assert(pre.surface_view().valid(sx)) by {
                    assert(pre.surface_ok(x));
                }
                assert(mid.surface_view().valid(sx)) by {
                    assert(cur.surface_view().valid(sx));
                }
                assert(!mid.surface_view().slot_view(sx).alive) by {
                    assert(mid.surface == cur.surface);
                }
                assert(sx != b2) by {
                    if sx == b2 {
                        assert(mid.surface_view().slot_view(b2).alive);
                    }
                }
                assert(sx != s) by {
                    if sx == s {
                        assert(mid.surface_view().slot_view(s).alive);
                    }
                }
                if bk2.skip(at as int).contains(sx) {
                    let z = choose |z: int| 0 <= z < bk2.skip(at as int).len()
                        && bk2.skip(at as int)[z] == sx;
                    assert(bk2[at as int + z] == sx);
                    assert(t.surface.slot_view(bk2[at as int + z]) == (SlotView {
                        pos: at as int + z + 1,
                        ..mid.surface_view().slot_view(bk2[at as int + z])
                    }));
                } else {
                    assert(t.surface.slot_view(sx)
                        == mid.surface_view().slot_view(sx));
                }
            }
        }
            proof {
            assert(Tree::registry_monotone(pre, *t)) by {
                assert(Tree::registry_monotone(cur, *t)) by {
                    assert(t.observers_view() == cur.observers_view());
                    assert(t.listeners_view() == cur.listeners_view());
                    assert(t.tasks_view() == cur.tasks_view());
                }
                Tree::lemma_monotone_trans(pre, cur, *t);
            }
        }
    }
    proof {
        assert(els@.take(els@.len() as int) =~= els@);
        assert(final(t).root_view() =~= els@);
        assert(final(t).surface_view().children(final(t).body_view())
            =~= els@.map_values(|e: El| pre.surface_of(e)));
    }
    fx
}


/// The in-place root replacement, where the invariant unfolds. The anchor
/// must be empty: replacing a populated anchor is `set_root`'s job. A
/// missing id carrier is a usage error and is excluded up front, matching
/// the loud failure of the operation.
#[verifier::rlimit(100)]
pub(crate) fn set_root_replace_impl(t: &mut Tree, id: &str, el2: El)
    requires
        old(t).wf(),
        old(t).root_view().len() == 0,
        old(t).root_cell_view() is None,
        old(t).alive(el2),
        old(t).is_detached(el2),
        exists |s: SurfaceId| old(t).surface_view().alive(s)
            && #[trigger] old(t).surface_view().attr(s, "id"@) == Some(id@),
        forall |s: SurfaceId| old(t).surface_view().alive(s)
            && old(t).surface_view().attr(s, "id"@) == Some(id@)
            ==> old(t).unwrapped(s) && old(t).surface_view().parent(s) is Some,
    ensures
        final(t).wf(),
        final(t).root_view() == seq![el2],
        final(t).node_view(el2) == (NodeView {
            owner: Owner::Root,
            ..old(t).node_view(el2)
        }),
        exists |s: SurfaceId| old(t).surface_view().alive(s)
            && #[trigger] old(t).surface_view().attr(s, "id"@) == Some(id@)
            && final(t).surface_view().parent(s) is None
            && (exists |q: SurfaceId|
                old(t).surface_view().parent(s) == Some(q)
                && #[trigger] final(t).surface_view().children(q)
                    == old(t).surface_view().children(q)
                        .update(old(t).surface_view().pos(s),
                            old(t).surface_of(el2))),
        forall |x: El| old(t).valid(x) && x != el2
            ==> #[trigger] final(t).node_view(x) == old(t).node_view(x),
{
    let ghost pre = *old(t);
    let found = t.surface.get_element_by_id(id);
    match found {
        Some(t0) => {
            proof {
                assert(pre.surface_view().alive(t0));
                assert(pre.unwrapped(t0));
                assert(pre.surface_view().parent(t0) is Some);
            }
            let q = match t.surface.parent_of(t0) {
                Some(q) => q,
                None => vstd::pervasive::unreached(),
            };
            let pos = t.surface.pos_of(t0);
            proof {
                pre.surface_view().lemma_parent_link(t0, q);
            }
            t.root_mark(el2);
            let ghost t1 = *t;
            proof {
                assert(t1.surface == pre.surface);
                // q is unwrapped: a wrapper would make t0 a child-element
                // surface, but t0 is unwrapped
                assert forall |x: El| #[trigger] t1.alive(x)
                    implies t1.surface_of(x) != q by {
                    assert(pre.alive(x) || x == el2) by {
                        if x != el2 {
                            assert(t1.node_view(x) == pre.node_view(x));
                        }
                    }
                    if t1.surface_of(x) == q {
                        assert(pre.alive(x)) by {
                            if x == el2 {
                            } else {
                                assert(t1.node_view(x) == pre.node_view(x));
                            }
                        }
                        assert(pre.surface_of(x) == q) by {
                            if x == el2 {
                                assert(t1.node_view(el2) == (NodeView {
                                    owner: Owner::Root,
                                    ..pre.node_view(el2)
                                }));
                            } else {
                                assert(t1.node_view(x) == pre.node_view(x));
                            }
                        }
                        assert(pre.surface_ok(x));
                        assert(pre.surface_view().children(q)
                            == pre.child_surfaces(x));
                        assert(pre.child_ok(x, pre.surface_view().pos(t0)));
                        let y = pre.children(x)[pre.surface_view().pos(t0)];
                        assert(pre.surface_of(y) == t0);
                        assert(pre.alive(y));
                        assert(false);
                    }
                }
            }
            let back = t.surface.remove_at(q, pos);
            let ghost t2 = *t;
            proof {
                assert(back == t0);
                let qkids = t1.surface_view().children(q);
                assert(qkids.skip(pos as int)[0] == t0);
                assert forall |x: El| t1.alive(x)
                    implies (#[trigger] t2.surface.slot_view(t1.surface_of(x))).children
                            == t1.surface_view().slot_view(t1.surface_of(x)).children
                        && t2.surface.slot_view(t1.surface_of(x)).alive
                            == t1.surface_view().slot_view(t1.surface_of(x)).alive
                        && t2.surface.slot_view(t1.surface_of(x)).parent
                            == t1.surface_view().slot_view(t1.surface_of(x)).parent by {
                    let sx = t1.surface_of(x);
                    assert(sx != q);
                    assert(sx != t0) by {
                        assert(pre.alive(x) || x == el2);
                        assert(pre.unwrapped(t0));
                        if x == el2 {
                            assert(t1.surface_of(el2) == pre.surface_of(el2));
                        } else {
                            assert(t1.node_view(x) == pre.node_view(x));
                            assert(pre.alive(x));
                        }
                    }
                    if qkids.skip(pos as int).contains(sx) {
                        let z = choose |z: int| 0 <= z < qkids.skip(pos as int).len()
                            && qkids.skip(pos as int)[z] == sx;
                        assert(qkids[pos as int + z] == sx);
                        if z > 0 {
                            assert(t2.surface.slot_view(qkids[pos as int + z])
                                == (crate::surface::SlotView {
                                    pos: pos as int + z - 1,
                                    ..t1.surface_view().slot_view(
                                        qkids[pos as int + z])
                                }));
                        }
                    } else {
                        assert(t2.surface.slot_view(sx)
                            == t1.surface_view().slot_view(sx));
                    }
                }
                assert forall |x: El| t1.alive(x) && t1.is_detached(x)
                    implies (#[trigger] t2.surface.slot_view(t1.surface_of(x))).parent
                        is None by {
                    assert(t1.surface_ok(x));
                }
                assert forall |x: El| t1.alive(x) && (t1.owner_of(x) is Parent)
                    implies (#[trigger] t2.surface.slot_view(t1.surface_of(x))).parent
                        == Some(t1.surface_of(t1.parent_el(x))) by {
                    assert(t1.surface_ok(x));
                }
                assert(t2.surface_view().slot_view(t1.body_view()).alive) by {
                    assert(t1.body_view() != q || true);
                    if t1.body_view() == q {
                        assert(t2.surface.slot_view(q).alive
                            == t1.surface_view().slot_view(q).alive);
                    } else if t1.body_view() == t0 {
                        assert(t2.surface.slot_view(t0).alive
                            == t1.surface_view().slot_view(t0).alive);
                    } else if qkids.skip(pos as int).contains(t1.body_view()) {
                        let z = choose |z: int| 0 <= z < qkids.skip(pos as int).len()
                            && qkids.skip(pos as int)[z] == t1.body_view();
                        assert(qkids[pos as int + z] == t1.body_view());
                        if z > 0 {
                            assert(t2.surface.slot_view(qkids[pos as int + z])
                                == (crate::surface::SlotView {
                                    pos: pos as int + z - 1,
                                    ..t1.surface_view().slot_view(
                                        qkids[pos as int + z])
                                }));
                        }
                    } else {
                        assert(t2.surface.slot_view(t1.body_view())
                            == t1.surface_view().slot_view(t1.body_view()));
                    }
                }
                t2.lemma_offstage_surface_wf(t1);
            }
            let s2 = el2.raw(t);
            proof {
                assert(s2 == pre.surface_of(el2)) by {
                    assert(t2.node_view(el2) == t1.node_view(el2));
                }
                assert(t2.surface_view().parent(s2) is None) by {
                    assert(t1.alive(el2));
                    assert(t1.surface_ok(el2));
                    assert(t1.surface_view().parent(s2) is None);
                    assert(s2 != t0) by {
                        assert(pre.unwrapped(t0));
                        assert(pre.alive(el2));
                    }
                    assert(s2 != q);
                    if t1.surface_view().children(q).skip(pos as int).contains(s2) {
                        let z = choose |z: int|
                            0 <= z < t1.surface_view().children(q)
                                .skip(pos as int).len()
                            && t1.surface_view().children(q).skip(pos as int)[z] == s2;
                        assert(t1.surface_view().children(q)[pos as int + z] == s2);
                        t1.surface_view().lemma_child_link(q, pos as int + z);
                        assert(false);
                    }
                    assert(t2.surface.slot_view(s2) == t1.surface_view().slot_view(s2));
                }
                assert(t2.surface_view().alive(s2)) by {
                    assert(t2.alive(el2)) by {
                        assert(t2.node_view(el2) == t1.node_view(el2));
                        assert(t1.alive(el2));
                    }
                    assert(t2.surface_ok(el2));
                }
                assert(t2.surface_view().alive(q)) by {
                    assert(t1.surface_view().alive(q));
                    assert(t2.surface.slot_view(q).alive
                        == t1.surface_view().slot_view(q).alive);
                }
                assert(s2 != q) by {
                    assert(t1.alive(el2));
                    assert(t1.surface_of(el2) == s2);
                }
                assert(pos as int <= t2.surface_view().children(q).len()) by {
                    assert(t2.surface_view().children(q)
                        == t1.surface_view().children(q).remove(pos as int));
                }
            }
            t.surface.insert_at(q, pos, s2);
            proof {
                let t3 = *t;
                let q2kids = t2.surface_view().children(q);
                assert forall |x: El| t2.alive(x)
                    implies (#[trigger] t3.surface.slot_view(t2.surface_of(x))).children
                            == t2.surface_view().slot_view(t2.surface_of(x)).children
                        && t3.surface.slot_view(t2.surface_of(x)).alive
                            == t2.surface_view().slot_view(t2.surface_of(x)).alive by {
                    let sx = t2.surface_of(x);
                    assert(sx != q) by {
                        assert(t1.alive(x));
                        assert(t2.surface_of(x) == t1.surface_of(x));
                    }
                    if sx == s2 {
                        assert(t3.surface.slot_view(s2)
                            == (crate::surface::SlotView {
                                parent: Some(q),
                                pos: pos as int,
                                ..t2.surface_view().slot_view(s2)
                            }));
                    } else if q2kids.skip(pos as int).contains(sx) {
                        let z = choose |z: int| 0 <= z < q2kids.skip(pos as int).len()
                            && q2kids.skip(pos as int)[z] == sx;
                        assert(q2kids[pos as int + z] == sx);
                        assert(t3.surface.slot_view(q2kids[pos as int + z])
                            == (crate::surface::SlotView {
                                pos: pos as int + z + 1,
                                ..t2.surface_view().slot_view(q2kids[pos as int + z])
                            }));
                    } else {
                        assert(t3.surface.slot_view(sx)
                            == t2.surface_view().slot_view(sx));
                    }
                }
                assert forall |x: El| t2.alive(x) && t2.is_detached(x)
                    implies (#[trigger] t3.surface.slot_view(t2.surface_of(x))).parent
                        is None by {
                    let sx = t2.surface_of(x);
                    assert(t2.surface_ok(x));
                    assert(sx != s2) by {
                        if sx == s2 {
                            assert(x == el2) by {
                                if x != el2 {
                                    assert(t2.alive(x) && t2.alive(el2));
                                }
                            }
                            assert(t2.owner_of(el2) == Owner::Root);
                        }
                    }
                    assert(sx != q);
                    if q2kids.skip(pos as int).contains(sx) {
                        let z = choose |z: int| 0 <= z < q2kids.skip(pos as int).len()
                            && q2kids.skip(pos as int)[z] == sx;
                        assert(q2kids[pos as int + z] == sx);
                        t2.surface_view().lemma_child_link(q, pos as int + z);
                        assert(false);
                    }
                    assert(t3.surface.slot_view(sx) == t2.surface_view().slot_view(sx));
                }
                assert forall |x: El| t2.alive(x) && (t2.owner_of(x) is Parent)
                    implies (#[trigger] t3.surface.slot_view(t2.surface_of(x))).parent
                        == Some(t2.surface_of(t2.parent_el(x))) by {
                    let sx = t2.surface_of(x);
                    assert(t2.surface_ok(x));
                    assert(sx != s2) by {
                        if sx == s2 {
                            assert(x == el2) by {
                                if x != el2 {
                                    assert(t2.alive(x) && t2.alive(el2));
                                }
                            }
                            assert(t2.owner_of(el2) == Owner::Root);
                        }
                    }
                    assert(sx != q);
                    if q2kids.skip(pos as int).contains(sx) {
                        let z = choose |z: int| 0 <= z < q2kids.skip(pos as int).len()
                            && q2kids.skip(pos as int)[z] == sx;
                        assert(q2kids[pos as int + z] == sx);
                        t2.surface_view().lemma_child_link(q, pos as int + z);
                        assert(t2.surface_view().parent(sx) == Some(q));
                        assert(t2.surface_of(t2.parent_el(x)) != q) by {
                            assert(t2.alive(t2.parent_el(x))) by {
                                assert(t2.owner_ok(x));
                            }
                        }
                        assert(false);
                    }
                    assert(t3.surface.slot_view(sx) == t2.surface_view().slot_view(sx));
                }
                assert(t3.surface_view().slot_view(t2.body_view()).alive) by {
                    if t2.body_view() == s2 {
                        assert(t2.surface_view().slot_view(s2).alive);
                        assert(t3.surface.slot_view(s2).alive
                            == t2.surface_view().slot_view(s2).alive);
                    } else if q2kids.skip(pos as int).contains(t2.body_view()) {
                        let z = choose |z: int| 0 <= z < q2kids.skip(pos as int).len()
                            && q2kids.skip(pos as int)[z] == t2.body_view();
                        assert(q2kids[pos as int + z] == t2.body_view());
                        assert(t3.surface.slot_view(q2kids[pos as int + z]).alive
                            == t2.surface_view().slot_view(
                                q2kids[pos as int + z]).alive);
                    } else if t2.body_view() == q {
                        assert(t3.surface.slot_view(q).alive
                            == t2.surface_view().slot_view(q).alive);
                    } else {
                        assert(t3.surface.slot_view(t2.body_view())
                            == t2.surface_view().slot_view(t2.body_view()));
                    }
                }
                t3.lemma_offstage_surface_wf(t2);
                // assemble the ensures
                assert(t3.root_view() =~= seq![el2]) by {
                    assert(t1.root_view() == pre.root_view().push(el2));
                    assert(pre.root_view().len() == 0);
                }
                assert(t3.surface_view().children(q)
                    =~= t1.surface_view().children(q).update(pos as int, s2)) by {
                    assert(t3.surface_view().children(q)
                        == q2kids.insert(pos as int, s2));
                    assert(q2kids == t1.surface_view().children(q).remove(pos as int));
                }
                assert(t3.surface_view().parent(t0) is None) by {
                    assert(t0 != s2);
                    assert(t0 != q);
                    assert(!q2kids.skip(pos as int).contains(t0)) by {
                        if q2kids.skip(pos as int).contains(t0) {
                            let z = choose |z: int|
                                0 <= z < q2kids.skip(pos as int).len()
                                && q2kids.skip(pos as int)[z] == t0;
                            assert(q2kids[pos as int + z] == t0);
                            t2.surface_view().lemma_child_link(q, pos as int + z);
                            assert(t2.surface_view().parent(t0) is None);
                        }
                    }
                    assert(t3.surface.slot_view(t0) == t2.surface_view().slot_view(t0));
                }
                assert forall |x: El| pre.valid(x) && x != el2
                    implies #[trigger] t3.node_view(x) == pre.node_view(x) by {
                    assert(t1.node_view(x) == pre.node_view(x));
                    assert(t2.node_view(x) == t1.node_view(x));
                    assert(t3.node_view(x) == t2.node_view(x));
                }
                assert(t3.node_view(el2) == (NodeView {
                    owner: Owner::Root,
                    ..pre.node_view(el2)
                }));
            }
        },
        None => {
            proof {
                assert forall |s: SurfaceId|
                    !(old(t).surface_view().alive(s)
                        && #[trigger] old(t).surface_view().attr(s, "id"@)
                            == Some(id@)) by {}
            }
            vstd::pervasive::unreached()
        },
    }
}

} // verus!