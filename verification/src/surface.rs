//! Model of the external rendering surface.
//!
//! The surface holds elements with a tag, text, attributes, classes and an
//! ordered child list. Structural operations keep parent links and recorded
//! child positions consistent; the tree mutations in `el` drive this model in
//! the same step as every logical edit, which is what keeps the two in sync.

use vstd::prelude::*;

verus! {

/// Handle to one element of the rendering-surface model.
#[derive(Clone, Copy, PartialEq, Eq, Structural, Debug)]
pub struct SurfaceId(pub(crate) usize);

impl SurfaceId {
    /// The raw slot number, for an embedder that mirrors the model onto a
    /// real surface.
    pub fn raw_index(&self) -> (r: usize)
        ensures
            r as int == self.spec_raw(),
    {
        self.0
    }

    /// The slot number as it appears in specifications.
    pub closed spec fn spec_raw(self) -> int {
        self.0 as int
    }
}

struct SurfaceSlot {
    alive: bool,
    tag: String,
    text: Option<String>,
    attrs: Vec<(String, String)>,
    classes: Vec<String>,
    children: Vec<SurfaceId>,
    parent: Option<SurfaceId>,
    index_in_parent: usize,
}

/// The whole state of one element of the surface, as specifications see it.
pub struct SlotView {
    pub alive: bool,
    pub tag: Seq<char>,
    pub text: Option<Seq<char>>,
    pub attrs: Seq<(Seq<char>, Seq<char>)>,
    pub classes: Seq<Seq<char>>,
    pub children: Seq<SurfaceId>,
    pub parent: Option<SurfaceId>,
    pub pos: int,
}

/// Whether two slot states agree on everything except tree structure
/// (children, parent, position).
pub open spec fn content_eq(a: SlotView, b: SlotView) -> bool {
    &&& a.alive == b.alive
    &&& a.tag == b.tag
    &&& a.text == b.text
    &&& a.attrs == b.attrs
    &&& a.classes == b.classes
}

/// First-match lookup in an attribute list.
pub open spec fn attr_find(l: Seq<(Seq<char>, Seq<char>)>, k: Seq<char>) -> Option<Seq<char>>
    decreases l.len(),
{
    if l.len() == 0 {
        None
    } else if l.first().0 == k {
        Some(l.first().1)
    } else {
        attr_find(l.drop_first(), k)
    }
}

/// A key that appears nowhere in the list is not found.
proof fn lemma_attr_find_absent(l: Seq<(Seq<char>, Seq<char>)>, k: Seq<char>)
    requires
        forall |j: int| 0 <= j < l.len() ==> (#[trigger] l[j]).0 != k,
    ensures
        attr_find(l, k) is None,
    decreases l.len(),
{
    if l.len() > 0 {
        assert(l[0].0 != k);
        assert forall |j: int| 0 <= j < l.drop_first().len()
            implies (#[trigger] l.drop_first()[j]).0 != k by {
            assert(l.drop_first()[j] == l[j + 1]);
        }
        lemma_attr_find_absent(l.drop_first(), k);
    }
}

/// The first occurrence of a key determines the lookup.
proof fn lemma_attr_find_at(l: Seq<(Seq<char>, Seq<char>)>, i: int)
    requires
        0 <= i < l.len(),
        forall |j: int| 0 <= j < i ==> (#[trigger] l[j]).0 != l[i].0,
    ensures
        attr_find(l, l[i].0) == Some(l[i].1),
    decreases i,
{
    if i > 0 {
        assert(l[0].0 != l[i].0);
        assert forall |j: int| 0 <= j < i - 1
            implies (#[trigger] l.drop_first()[j]).0 != l.drop_first()[i - 1].0 by {
            assert(l.drop_first()[j] == l[j + 1]);
            assert(l.drop_first()[i - 1] == l[i]);
        }
        lemma_attr_find_at(l.drop_first(), i - 1);
        assert(l.drop_first()[i - 1] == l[i]);
    }
}

/// Replacing the value at the first occurrence of a key changes that key's
/// lookup and nothing else.
proof fn lemma_attr_find_update(l: Seq<(Seq<char>, Seq<char>)>, i: int, v: Seq<char>)
    requires
        0 <= i < l.len(),
        forall |j: int| 0 <= j < i ==> (#[trigger] l[j]).0 != l[i].0,
    ensures
        attr_find(l.update(i, (l[i].0, v)), l[i].0) == Some(v),
        forall |q: Seq<char>| q != l[i].0
            ==> #[trigger] attr_find(l.update(i, (l[i].0, v)), q) == attr_find(l, q),
    decreases i,
{
    let l2 = l.update(i, (l[i].0, v));
    if i == 0 {
        assert(l2[0] == (l[0].0, v));
        assert forall |q: Seq<char>| q != l[0].0
            implies #[trigger] attr_find(l2, q) == attr_find(l, q) by {
            assert(l2.drop_first() =~= l.drop_first());
            assert(l2.first().0 == l[0].0);
            assert(attr_find(l2, q) == attr_find(l2.drop_first(), q));
            assert(attr_find(l, q) == attr_find(l.drop_first(), q));
        }
    } else {
        assert(l2[0] == l[0]);
        assert(l2.drop_first() =~= l.drop_first().update(i - 1, (l.drop_first()[i - 1].0, v)));
        assert forall |j: int| 0 <= j < i - 1
            implies (#[trigger] l.drop_first()[j]).0 != l.drop_first()[i - 1].0 by {
            assert(l.drop_first()[j] == l[j + 1]);
            assert(l.drop_first()[i - 1] == l[i]);
        }
        lemma_attr_find_update(l.drop_first(), i - 1, v);
        assert(l.drop_first()[i - 1] == l[i]);
        assert(l[0].0 != l[i].0);
        assert(attr_find(l2, l[i].0) == attr_find(l2.drop_first(), l[i].0));
        assert forall |q: Seq<char>| q != l[i].0
            implies #[trigger] attr_find(l2, q) == attr_find(l, q) by {
            if q != l[0].0 {
                assert(attr_find(l2, q) == attr_find(l2.drop_first(), q));
                assert(attr_find(l, q) == attr_find(l.drop_first(), q));
            }
        }
    }
}

/// Appending a fresh key makes it found and leaves other keys alone.
proof fn lemma_attr_find_push(l: Seq<(Seq<char>, Seq<char>)>, k: Seq<char>, v: Seq<char>)
    requires
        forall |j: int| 0 <= j < l.len() ==> (#[trigger] l[j]).0 != k,
    ensures
        attr_find(l.push((k, v)), k) == Some(v),
        forall |q: Seq<char>| q != k
            ==> #[trigger] attr_find(l.push((k, v)), q) == attr_find(l, q),
    decreases l.len(),
{
    let l2 = l.push((k, v));
    if l.len() == 0 {
        assert(l2[0] == (k, v));
        assert(l2.len() == 1);
        assert forall |q: Seq<char>| q != k
            implies #[trigger] attr_find(l2, q) == attr_find(l, q) by {
            assert(l2.drop_first() =~= Seq::<(Seq<char>, Seq<char>)>::empty());
            assert(attr_find(l2.drop_first(), q) is None);
            assert(attr_find(l2, q) == attr_find(l2.drop_first(), q));
            assert(attr_find(l, q) is None);
        }
    } else {
        assert(l2[0] == l[0]);
        assert(l2.drop_first() =~= l.drop_first().push((k, v)));
        assert forall |j: int| 0 <= j < l.drop_first().len()
            implies (#[trigger] l.drop_first()[j]).0 != k by {
            assert(l.drop_first()[j] == l[j + 1]);
        }
        lemma_attr_find_push(l.drop_first(), k, v);
        assert(l[0].0 != k);
        assert forall |q: Seq<char>| q != k
            implies #[trigger] attr_find(l2, q) == attr_find(l, q) by {
            if q != l[0].0 {
                assert(attr_find(l2, q) == attr_find(l2.drop_first(), q));
            }
        }
    }
}

/// Removing the only occurrence of a key loses it and leaves other keys
/// alone; requires all keys distinct.
proof fn lemma_attr_find_remove(l: Seq<(Seq<char>, Seq<char>)>, i: int)
    requires
        0 <= i < l.len(),
        forall |a: int, b: int| 0 <= a < b < l.len()
            ==> (#[trigger] l[a]).0 != (#[trigger] l[b]).0,
    ensures
        attr_find(l.remove(i), l[i].0) is None,
        forall |q: Seq<char>| q != l[i].0
            ==> #[trigger] attr_find(l.remove(i), q) == attr_find(l, q),
    decreases i,
{
    let l2 = l.remove(i);
    if i == 0 {
        assert(l2 =~= l.drop_first());
        assert forall |j: int| 0 <= j < l2.len() implies (#[trigger] l2[j]).0 != l[0].0 by {
            assert(l2[j] == l[j + 1]);
        }
        lemma_attr_find_absent(l2, l[0].0);
    } else {
        assert(l2[0] == l[0]);
        assert(l2.drop_first() =~= l.drop_first().remove(i - 1));
        assert forall |a: int, b: int| 0 <= a < b < l.drop_first().len()
            implies (#[trigger] l.drop_first()[a]).0 != (#[trigger] l.drop_first()[b]).0 by {
            assert(l.drop_first()[a] == l[a + 1]);
            assert(l.drop_first()[b] == l[b + 1]);
        }
        lemma_attr_find_remove(l.drop_first(), i - 1);
        assert(l.drop_first()[i - 1] == l[i]);
        assert(l[0].0 != l[i].0);
        assert(attr_find(l2, l[i].0) == attr_find(l2.drop_first(), l[i].0));
        assert forall |q: Seq<char>| q != l[i].0
            implies #[trigger] attr_find(l2, q) == attr_find(l, q) by {
            if q != l[0].0 {
                assert(attr_find(l2, q) == attr_find(l2.drop_first(), q));
                assert(attr_find(l, q) == attr_find(l.drop_first(), q));
            }
        }
    }
}

/// The rendering-surface model: an arena of element slots.
pub struct Surface {
    slots: Vec<SurfaceSlot>,
}

impl Surface {
    /// How many slots have ever been created (live or released).
    pub closed spec fn slot_count(self) -> int {
        self.slots@.len() as int
    }

    /// Whether the handle points at a slot that has been created.
    pub open spec fn valid(self, s: SurfaceId) -> bool {
        0 <= s.spec_raw() < self.slot_count()
    }

    pub closed spec fn slot_view(self, s: SurfaceId) -> SlotView {
        let sl = self.slots@[s.spec_raw()];
        SlotView {
            alive: sl.alive,
            tag: sl.tag@,
            text: match sl.text {
                Some(t) => Some(t@),
                None => None,
            },
            attrs: sl.attrs@.map_values(|p: (String, String)| (p.0@, p.1@)),
            classes: sl.classes@.map_values(|c: String| c@),
            children: sl.children@,
            parent: sl.parent,
            pos: sl.index_in_parent as int,
        }
    }

    pub open spec fn alive(self, s: SurfaceId) -> bool {
        self.valid(s) && self.slot_view(s).alive
    }

    pub open spec fn children(self, s: SurfaceId) -> Seq<SurfaceId> {
        self.slot_view(s).children
    }

    pub open spec fn parent(self, s: SurfaceId) -> Option<SurfaceId> {
        self.slot_view(s).parent
    }

    pub open spec fn pos(self, s: SurfaceId) -> int {
        self.slot_view(s).pos
    }

    pub open spec fn tag(self, s: SurfaceId) -> Seq<char> {
        self.slot_view(s).tag
    }

    pub open spec fn text(self, s: SurfaceId) -> Option<Seq<char>> {
        self.slot_view(s).text
    }

    pub open spec fn attr(self, s: SurfaceId, k: Seq<char>) -> Option<Seq<char>> {
        attr_find(self.slot_view(s).attrs, k)
    }

    pub open spec fn has_class(self, s: SurfaceId, k: Seq<char>) -> bool {
        self.slot_view(s).classes.contains(k)
    }

    /// The child at position `j` of `s` is live and records `s` as its
    /// parent and `j` as its own position.
    spec fn child_ok(self, s: SurfaceId, j: int) -> bool {
        let c = self.slot_view(s).children[j];
        &&& self.valid(c)
        &&& self.slot_view(c).alive
        &&& self.slot_view(c).parent == Some(s)
        &&& self.slot_view(c).pos == j
    }

    /// The recorded parent of `s`, if any, is live and lists `s` at the
    /// recorded position.
    spec fn parent_ok(self, s: SurfaceId) -> bool {
        match self.slot_view(s).parent {
            Some(p) => {
                &&& self.valid(p)
                &&& self.slot_view(p).alive
                &&& 0 <= self.slot_view(s).pos < self.slot_view(p).children.len()
                &&& self.slot_view(p).children[self.slot_view(s).pos] == s
            },
            None => true,
        }
    }

    /// Consistency of one live slot; attribute keys and class names are
    /// distinct.
    spec fn slot_wf(self, s: SurfaceId) -> bool {
        &&& (forall |j: int| 0 <= j < self.slot_view(s).children.len()
                ==> #[trigger] self.child_ok(s, j))
        &&& self.parent_ok(s)
        &&& self.slot_view(s).parent != Some(s)
        &&& (forall |a: int, b: int| 0 <= a < b < self.slot_view(s).attrs.len()
                ==> (#[trigger] self.slot_view(s).attrs[a]).0
                    != (#[trigger] self.slot_view(s).attrs[b]).0)
        &&& (forall |a: int, b: int| 0 <= a < b < self.slot_view(s).classes.len()
                ==> (#[trigger] self.slot_view(s).classes[a])
                    != (#[trigger] self.slot_view(s).classes[b]))
    }

    /// The surface invariant: every live slot is consistent.
    pub closed spec fn wf(self) -> bool {
        forall |s: SurfaceId| #[trigger] self.alive(s) ==> self.slot_wf(s)
    }

    /// An empty surface.
    pub fn new() -> (r: Surface)
        ensures
            r.wf(),
            r.slot_count() == 0,
    {
        Surface { slots: Vec::new() }
    }

    /// Create a fresh element: live, detached, childless, with the given tag.
    pub fn create(&mut self, tag: &str) -> (s: SurfaceId)
        requires
            old(self).wf(),
        ensures
            final(self).wf(),
            s.spec_raw() == old(self).slot_count(),
            final(self).slot_count() == old(self).slot_count() + 1,
            final(self).alive(s),
            final(self).slot_view(s) == (SlotView {
                alive: true,
                tag: tag@,
                text: None,
                attrs: Seq::empty(),
                classes: Seq::empty(),
                children: Seq::empty(),
                parent: None,
                pos: 0,
            }),
            forall |t: SurfaceId| old(self).valid(t)
                ==> #[trigger] final(self).slot_view(t) == old(self).slot_view(t),
    {
        let s = SurfaceId(self.slots.len());
        self.slots.push(SurfaceSlot {
            alive: true,
            tag: tag.to_owned(),
            text: None,
            attrs: Vec::new(),
            classes: Vec::new(),
            children: Vec::new(),
            parent: None,
            index_in_parent: 0,
        });
        proof {
            assert(self.slot_view(s).attrs =~= Seq::<(Seq<char>, Seq<char>)>::empty());
            assert(self.slot_view(s).classes =~= Seq::<Seq<char>>::empty());
            assert forall |t: SurfaceId| old(self).valid(t)
                implies #[trigger] self.slot_view(t) == old(self).slot_view(t) by {
                assert(self.slots@[t.spec_raw()] == old(self).slots@[t.spec_raw()]);
            }
            assert forall |t: SurfaceId| #[trigger] self.alive(t)
                implies self.slot_wf(t) by {
                if t.spec_raw() < old(self).slot_count() {
                    assert(old(self).alive(t));
                    assert(old(self).slot_wf(t));
                    assert forall |j: int| 0 <= j < self.slot_view(t).children.len()
                        implies self.child_ok(t, j) by {
                        assert(old(self).child_ok(t, j));
                    }
                    assert(self.parent_ok(t));
                } else {
                    assert(self.slot_view(t).children.len() == 0);
                }
            }
        }
        s
    }

    /// Facts that follow from the invariant and are used by the structural
    /// operations: no live slot lists `c` while `c` has no parent, the
    /// children of one slot are distinct, and a slot never lists itself.
    proof fn lemma_orphan_unlisted(&self, c: SurfaceId)
        requires
            self.wf(),
            self.alive(c),
            self.parent(c) is None,
        ensures
            forall |t: SurfaceId, j: int|
                self.alive(t) && 0 <= j < self.children(t).len()
                    ==> #[trigger] self.children(t)[j] != c,
    {
        assert forall |t: SurfaceId, j: int|
            self.alive(t) && 0 <= j < self.children(t).len()
            implies #[trigger] self.children(t)[j] != c by {
            assert(self.slot_wf(t));
            assert(self.child_ok(t, j));
        }
    }

    proof fn lemma_children_distinct(&self, p: SurfaceId)
        requires
            self.wf(),
            self.alive(p),
        ensures
            forall |a: int, b: int|
                0 <= a < b < self.children(p).len()
                    ==> #[trigger] self.children(p)[a] != #[trigger] self.children(p)[b],
            forall |a: int| 0 <= a < self.children(p).len()
                ==> #[trigger] self.children(p)[a] != p,
    {
        assert(self.slot_wf(p));
        assert forall |a: int, b: int| 0 <= a < b < self.children(p).len()
            implies #[trigger] self.children(p)[a] != #[trigger] self.children(p)[b] by {
            assert(self.child_ok(p, a));
            assert(self.child_ok(p, b));
        }
        assert forall |a: int| 0 <= a < self.children(p).len()
            implies #[trigger] self.children(p)[a] != p by {
            assert(self.child_ok(p, a));
            if self.children(p)[a] == p {
                assert(self.slot_view(p).parent == Some(p));
            }
        }
    }

    /// Public face of the parent link: a live element with a recorded
    /// parent sits in that parent's child list at its recorded position.
    pub proof fn lemma_parent_link(&self, s: SurfaceId, q: SurfaceId)
        requires
            self.wf(),
            self.alive(s),
            self.parent(s) == Some(q),
        ensures
            self.alive(q),
            0 <= self.pos(s) < self.children(q).len(),
            self.children(q)[self.pos(s)] == s,
    {
        assert(self.slot_wf(s));
        assert(self.parent_ok(s));
    }

    /// Public face of the child link: the child at position `j` of a live
    /// element is live and records that element and position.
    pub proof fn lemma_child_link(&self, p: SurfaceId, j: int)
        requires
            self.wf(),
            self.alive(p),
            0 <= j < self.children(p).len(),
        ensures
            self.alive(self.children(p)[j]),
            self.parent(self.children(p)[j]) == Some(p),
            self.pos(self.children(p)[j]) == j,
    {
        assert(self.slot_wf(p));
        assert(self.child_ok(p, j));
    }

    /// Insert a detached element as a child of `p` at position `at`;
    /// later siblings move one place to the right.
    pub fn insert_at(&mut self, p: SurfaceId, at: usize, c: SurfaceId)
        requires
            old(self).wf(),
            old(self).alive(p),
            old(self).alive(c),
            old(self).parent(c) is None,
            c != p,
            at <= old(self).children(p).len(),
        ensures
            final(self).wf(),
            final(self).slot_count() == old(self).slot_count(),
            final(self).children(p) == old(self).children(p).insert(at as int, c),
            final(self).slot_view(c) == (SlotView {
                parent: Some(p),
                pos: at as int,
                ..old(self).slot_view(c)
            }),
            final(self).slot_view(p) == (SlotView {
                children: old(self).children(p).insert(at as int, c),
                ..old(self).slot_view(p)
            }),
            forall |j: int| at <= j < old(self).children(p).len()
                ==> final(self).slot_view(#[trigger] old(self).children(p)[j])
                    == (SlotView {
                        pos: j + 1,
                        ..old(self).slot_view(old(self).children(p)[j])
                    }),
            forall |t: SurfaceId| old(self).valid(t) && t != p && t != c
                && !old(self).children(p).skip(at as int).contains(t)
                ==> #[trigger] final(self).slot_view(t) == old(self).slot_view(t),
    {
        let ghost pre = *old(self);
        let ghost kids = pre.children(p);
        let ghost newkids = kids.insert(at as int, c);
        proof {
            assert(pre.slot_wf(p));
            assert(pre.slot_wf(c));
            pre.lemma_orphan_unlisted(c);
            pre.lemma_children_distinct(p);
            assert forall |j: int| 0 <= j < kids.len()
                implies pre.child_ok(p, j) by {}
        }
        let pi = p.0;
        let ci = c.0;
        self.slots[pi].children.insert(at, c);
        self.slots[ci].parent = Some(p);
        self.slots[ci].index_in_parent = at;
        proof {
            assert(self.slot_view(p) == (SlotView { children: newkids, ..pre.slot_view(p) }));
            assert(self.slot_view(c)
                == (SlotView { parent: Some(p), pos: at as int, ..pre.slot_view(c) }));
            assert forall |t: SurfaceId| pre.valid(t) && t != p && t != c
                implies #[trigger] self.slot_view(t) == pre.slot_view(t) by {
                assert(self.slots@[t.spec_raw()] == pre.slots@[t.spec_raw()]);
            }
            assert forall |k: int| at + 1 <= k < newkids.len()
                implies self.slot_view(#[trigger] newkids[k]) == pre.slot_view(newkids[k]) by {
                assert(pre.child_ok(p, k - 1));
                assert(newkids[k] == kids[k - 1]);
            }
        }
        let n = self.slots[pi].children.len();
        let mut j: usize = at + 1;
        while j < n
            invariant
                pre.wf(),
                pre.alive(p),
                pre.alive(c),
                pre.parent(c) is None,
                c != p,
                at <= kids.len(),
                kids == pre.children(p),
                newkids == kids.insert(at as int, c),
                pi == p.spec_raw(),
                ci == c.spec_raw(),
                n == kids.len() + 1,
                at + 1 <= j <= n,
                self.slot_count() == pre.slot_count(),
                self.slots@.len() == pre.slots@.len(),
                self.slot_view(p) == (SlotView { children: newkids, ..pre.slot_view(p) }),
                self.slot_view(c)
                    == (SlotView { parent: Some(p), pos: at as int, ..pre.slot_view(c) }),
                forall |k: int| at < k < j
                    ==> self.slot_view(#[trigger] newkids[k])
                        == (SlotView { pos: k, ..pre.slot_view(newkids[k]) }),
                forall |k: int| j <= k < n
                    ==> self.slot_view(#[trigger] newkids[k]) == pre.slot_view(newkids[k]),
                forall |t: SurfaceId| pre.valid(t) && t != p && t != c
                    && !kids.skip(at as int).contains(t)
                    ==> #[trigger] self.slot_view(t) == pre.slot_view(t),
            decreases n - j,
        {
            proof {
                pre.lemma_children_distinct(p);
                pre.lemma_orphan_unlisted(c);
                assert(pre.child_ok(p, j - 1));
                assert(newkids[j as int] == kids[j - 1]);
            }
            let ghost it0 = *self;
            let ch = self.slots[pi].children[j];
            proof {
                assert(ch == kids[j - 1]);
                assert(ch != c);
                assert(ch != p);
                assert(pre.valid(ch));
            }
            self.slots[ch.0].index_in_parent = j;
            proof {
                assert forall |t: SurfaceId| pre.valid(t) && t != ch
                    implies #[trigger] self.slot_view(t) == it0.slot_view(t) by {
                    assert(self.slots@[t.spec_raw()] == it0.slots@[t.spec_raw()]);
                }
                assert(it0.slot_view(ch) == pre.slot_view(ch));
                assert(self.slot_view(ch)
                    == (SlotView { pos: j as int, ..pre.slot_view(ch) }));
                assert(self.slot_view(p) == it0.slot_view(p));
                assert(self.slot_view(c) == it0.slot_view(c));
                assert forall |k: int| at < k < j + 1
                    implies self.slot_view(#[trigger] newkids[k])
                        == (SlotView { pos: k, ..pre.slot_view(newkids[k]) }) by {
                    if k < j {
                        assert(newkids[k] == kids[k - 1]);
                        assert(newkids[k] != ch);
                        assert(pre.child_ok(p, k - 1));
                        assert(self.slot_view(newkids[k]) == it0.slot_view(newkids[k]));
                    }
                }
                assert forall |k: int| j + 1 <= k < n
                    implies self.slot_view(#[trigger] newkids[k]) == pre.slot_view(newkids[k])
                    by {
                    assert(newkids[k] == kids[k - 1]);
                    assert(newkids[k] != ch);
                    assert(pre.child_ok(p, k - 1));
                    assert(self.slot_view(newkids[k]) == it0.slot_view(newkids[k]));
                }
                assert forall |t: SurfaceId| pre.valid(t) && t != p && t != c
                    && !kids.skip(at as int).contains(t)
                    implies #[trigger] self.slot_view(t) == pre.slot_view(t) by {
                    assert(kids.skip(at as int)[j - 1 - (at as int)] == ch);
                    assert(t != ch);
                    assert(self.slot_view(t) == it0.slot_view(t));
                }
            }
            j = j + 1;
        }
        proof {
            assert(self.children(p) =~= newkids);
            assert forall |jj: int| at <= jj < kids.len()
                implies self.slot_view(#[trigger] kids[jj])
                    == (SlotView { pos: jj + 1, ..pre.slot_view(kids[jj]) }) by {
                assert(newkids[jj + 1] == kids[jj]);
            }
            self.lemma_insert_wf(pre, p, at as int, c);
        }
    }

    /// A change that touches only the contents (tag, text, attributes,
    /// classes) of slot `s` preserves the invariant, provided the new
    /// attribute keys and class names are still distinct.
    proof fn lemma_content_wf(&self, pre: Surface, s: SurfaceId)
        requires
            pre.wf(),
            self.slot_count() == pre.slot_count(),
            forall |t: SurfaceId| pre.valid(t) && t != s
                ==> #[trigger] self.slot_view(t) == pre.slot_view(t),
            self.slot_view(s).alive == pre.slot_view(s).alive,
            self.slot_view(s).children == pre.slot_view(s).children,
            self.slot_view(s).parent == pre.slot_view(s).parent,
            self.slot_view(s).pos == pre.slot_view(s).pos,
            forall |a: int, b: int| 0 <= a < b < self.slot_view(s).attrs.len()
                ==> (#[trigger] self.slot_view(s).attrs[a]).0
                    != (#[trigger] self.slot_view(s).attrs[b]).0,
            forall |a: int, b: int| 0 <= a < b < self.slot_view(s).classes.len()
                ==> (#[trigger] self.slot_view(s).classes[a])
                    != (#[trigger] self.slot_view(s).classes[b]),
        ensures
            self.wf(),
    {
        assert forall |t: SurfaceId| #[trigger] self.alive(t) implies self.slot_wf(t) by {
            assert(pre.alive(t)) by {
                if t != s {
                    assert(self.slot_view(t) == pre.slot_view(t));
                }
            }
            assert(pre.slot_wf(t));
            assert forall |j: int| 0 <= j < self.slot_view(t).children.len()
                implies self.child_ok(t, j) by {
                assert(pre.child_ok(t, j));
                let d = pre.slot_view(t).children[j];
                if d != s {
                    assert(self.slot_view(d) == pre.slot_view(d));
                }
            }
            assert(self.parent_ok(t)) by {
                assert(pre.parent_ok(t));
                match pre.slot_view(t).parent {
                    Some(q) => {
                        if q != s {
                            assert(self.slot_view(q) == pre.slot_view(q));
                        }
                    },
                    None => {},
                }
            }
        }
    }

    /// Set or clear the text content of a childless element.
    pub fn set_text(&mut self, s: SurfaceId, t: Option<&str>)
        requires
            old(self).wf(),
            old(self).alive(s),
            old(self).children(s).len() == 0,
        ensures
            final(self).wf(),
            final(self).slot_count() == old(self).slot_count(),
            final(self).slot_view(s) == (SlotView {
                text: match t {
                    Some(x) => Some(x@),
                    None => None,
                },
                ..old(self).slot_view(s)
            }),
            forall |u: SurfaceId| old(self).valid(u) && u != s
                ==> #[trigger] final(self).slot_view(u) == old(self).slot_view(u),
    {
        let ghost pre = *old(self);
        proof {
            assert(pre.slot_wf(s));
        }
        self.slots[s.0].text = match t {
            Some(x) => Some(x.to_owned()),
            None => None,
        };
        proof {
            assert forall |u: SurfaceId| pre.valid(u) && u != s
                implies #[trigger] self.slot_view(u) == pre.slot_view(u) by {
                assert(self.slots@[u.spec_raw()] == pre.slots@[u.spec_raw()]);
            }
            self.lemma_content_wf(pre, s);
        }
    }

    /// Release a detached, childless element's slot.
    pub fn release(&mut self, s: SurfaceId)
        requires
            old(self).wf(),
            old(self).alive(s),
            old(self).parent(s) is None,
            old(self).children(s).len() == 0,
        ensures
            final(self).wf(),
            final(self).slot_count() == old(self).slot_count(),
            final(self).slot_view(s) == (SlotView {
                alive: false,
                ..old(self).slot_view(s)
            }),
            forall |u: SurfaceId| old(self).valid(u) && u != s
                ==> #[trigger] final(self).slot_view(u) == old(self).slot_view(u),
    {
        let ghost pre = *old(self);
        proof {
            pre.lemma_orphan_unlisted(s);
        }
        self.slots[s.0].alive = false;
        proof {
            assert forall |u: SurfaceId| pre.valid(u) && u != s
                implies #[trigger] self.slot_view(u) == pre.slot_view(u) by {
                assert(self.slots@[u.spec_raw()] == pre.slots@[u.spec_raw()]);
            }
            assert forall |t: SurfaceId| #[trigger] self.alive(t) implies self.slot_wf(t) by {
                assert(t != s);
                assert(self.slot_view(t) == pre.slot_view(t));
                assert(pre.alive(t));
                assert(pre.slot_wf(t));
                assert forall |j: int| 0 <= j < self.slot_view(t).children.len()
                    implies self.child_ok(t, j) by {
                    assert(pre.child_ok(t, j));
                    let d = pre.slot_view(t).children[j];
                    assert(d != s);
                    assert(self.slot_view(d) == pre.slot_view(d));
                }
                assert(self.parent_ok(t)) by {
                    assert(pre.parent_ok(t));
                    match pre.slot_view(t).parent {
                        Some(q) => {
                            if q == s {
                                assert(pre.slot_view(s).children[pre.slot_view(t).pos]
                                    == t);
                                assert(false);
                            }
                            assert(self.slot_view(q) == pre.slot_view(q));
                        },
                        None => {},
                    }
                }
            }
        }
    }

    /// Set an attribute: replace the value of an existing key, or append a
    /// new pair.
    pub fn set_attr(&mut self, s: SurfaceId, key: &str, value: &str)
        requires
            old(self).wf(),
            old(self).alive(s),
        ensures
            final(self).wf(),
            final(self).slot_count() == old(self).slot_count(),
            final(self).attr(s, key@) == Some(value@),
            forall |q: Seq<char>| q != key@
                ==> #[trigger] final(self).attr(s, q) == old(self).attr(s, q),
            final(self).slot_view(s) == (SlotView {
                attrs: final(self).slot_view(s).attrs,
                ..old(self).slot_view(s)
            }),
            forall |u: SurfaceId| old(self).valid(u) && u != s
                ==> #[trigger] final(self).slot_view(u) == old(self).slot_view(u),
    {
        let ghost pre = *old(self);
        let ghost av = pre.slot_view(s).attrs;
        proof {
            assert(pre.slot_wf(s));
        }
        let key_s = key.to_owned();
        let si = s.0;
        let n = self.slots[si].attrs.len();
        let mut i: usize = 0;
        let mut found: bool = false;
        while i < n && !found
            invariant
                pre.wf(),
                pre.alive(s),
                si == s.spec_raw(),
                av == pre.slot_view(s).attrs,
                pre == *old(self),
                key_s@ == key@,
                n == av.len(),
                i <= n,
                *self == pre,
                !found ==> forall |j: int| 0 <= j < i ==> (#[trigger] av[j]).0 != key@,
                found ==> i < n && av[i as int].0 == key@,
            decreases n - i + (if found { 0int } else { 1int }),
        {
            if self.slots[si].attrs[i].0 == key_s {
                found = true;
            } else {
                i = i + 1;
            }
        }
        if found {
            self.slots[si].attrs[i].1 = value.to_owned();
            proof {
                assert forall |u: SurfaceId| pre.valid(u) && u != s
                    implies #[trigger] self.slot_view(u) == pre.slot_view(u) by {
                    assert(self.slots@[u.spec_raw()] == pre.slots@[u.spec_raw()]);
                }
                let nv = self.slot_view(s).attrs;
                assert(nv =~= av.update(i as int, (key@, value@)));
                lemma_attr_find_update(av, i as int, value@);
                assert forall |a: int, b: int| 0 <= a < b < nv.len()
                    implies (#[trigger] nv[a]).0 != (#[trigger] nv[b]).0 by {
                    assert(av[a].0 == nv[a].0 && av[b].0 == nv[b].0);
                }
                self.lemma_content_wf(pre, s);
            }
        } else {
            self.slots[si].attrs.push((key_s, value.to_owned()));
            proof {
                assert forall |u: SurfaceId| pre.valid(u) && u != s
                    implies #[trigger] self.slot_view(u) == pre.slot_view(u) by {
                    assert(self.slots@[u.spec_raw()] == pre.slots@[u.spec_raw()]);
                }
                let nv = self.slot_view(s).attrs;
                assert(nv =~= av.push((key@, value@)));
                lemma_attr_find_push(av, key@, value@);
                assert forall |a: int, b: int| 0 <= a < b < nv.len()
                    implies (#[trigger] nv[a]).0 != (#[trigger] nv[b]).0 by {
                    if b < av.len() {
                        assert(av[a].0 == nv[a].0 && av[b].0 == nv[b].0);
                    } else {
                        assert(nv[b].0 == key@);
                        assert(av[a].0 == nv[a].0);
                    }
                }
                self.lemma_content_wf(pre, s);
            }
        }
    }

    /// Remove an attribute if present.
    pub fn remove_attr(&mut self, s: SurfaceId, key: &str)
        requires
            old(self).wf(),
            old(self).alive(s),
        ensures
            final(self).wf(),
            final(self).slot_count() == old(self).slot_count(),
            final(self).attr(s, key@) is None,
            forall |q: Seq<char>| q != key@
                ==> #[trigger] final(self).attr(s, q) == old(self).attr(s, q),
            final(self).slot_view(s) == (SlotView {
                attrs: final(self).slot_view(s).attrs,
                ..old(self).slot_view(s)
            }),
            forall |u: SurfaceId| old(self).valid(u) && u != s
                ==> #[trigger] final(self).slot_view(u) == old(self).slot_view(u),
    {
        let ghost pre = *old(self);
        let ghost av = pre.slot_view(s).attrs;
        proof {
            assert(pre.slot_wf(s));
        }
        let key_s = key.to_owned();
        let si = s.0;
        let n = self.slots[si].attrs.len();
        let mut i: usize = 0;
        let mut found: bool = false;
        while i < n && !found
            invariant
                pre.wf(),
                pre.alive(s),
                si == s.spec_raw(),
                av == pre.slot_view(s).attrs,
                pre == *old(self),
                key_s@ == key@,
                n == av.len(),
                i <= n,
                *self == pre,
                !found ==> forall |j: int| 0 <= j < i ==> (#[trigger] av[j]).0 != key@,
                found ==> i < n && av[i as int].0 == key@,
            decreases n - i + (if found { 0int } else { 1int }),
        {
            if self.slots[si].attrs[i].0 == key_s {
                found = true;
            } else {
                i = i + 1;
            }
        }
        if found {
            self.slots[si].attrs.remove(i);
            proof {
                assert forall |u: SurfaceId| pre.valid(u) && u != s
                    implies #[trigger] self.slot_view(u) == pre.slot_view(u) by {
                    assert(self.slots@[u.spec_raw()] == pre.slots@[u.spec_raw()]);
                }
                let nv = self.slot_view(s).attrs;
                assert(nv =~= av.remove(i as int));
                assert forall |a: int, b: int| 0 <= a < b < av.len()
                    implies (#[trigger] av[a]).0 != (#[trigger] av[b]).0 by {
                    assert(pre.slot_wf(s));
                }
                lemma_attr_find_remove(av, i as int);
                assert forall |a: int, b: int| 0 <= a < b < nv.len()
                    implies (#[trigger] nv[a]).0 != (#[trigger] nv[b]).0 by {
                    let a0 = if a < i { a } else { a + 1 };
                    let b0 = if b < i { b } else { b + 1 };
                    assert(av[a0].0 == nv[a].0 && av[b0].0 == nv[b].0);
                }
                self.lemma_content_wf(pre, s);
            }
        } else {
            proof {
                lemma_attr_find_absent(av, key@);
            }
        }
    }

    /// Look an attribute up.
    pub fn get_attr(&self, s: SurfaceId, key: &str) -> (r: Option<String>)
        requires
            self.valid(s),
        ensures
            match r {
                Some(v) => self.attr(s, key@) == Some(v@),
                None => self.attr(s, key@) is None,
            },
    {
        let ghost av = self.slot_view(s).attrs;
        let key_s = key.to_owned();
        let si = s.0;
        let n = self.slots[si].attrs.len();
        let mut i: usize = 0;
        while i < n
            invariant
                self.valid(s),
                si == s.spec_raw(),
                av == self.slot_view(s).attrs,
                key_s@ == key@,
                n == av.len(),
                i <= n,
                forall |j: int| 0 <= j < i ==> (#[trigger] av[j]).0 != key@,
            decreases n - i,
        {
            if self.slots[si].attrs[i].0 == key_s {
                let v = self.slots[si].attrs[i].1.clone();
                proof {
                    lemma_attr_find_at(av, i as int);
                }
                return Some(v);
            }
            i = i + 1;
        }
        proof {
            lemma_attr_find_absent(av, key@);
        }
        None
    }

    /// Add a class name if it is not present yet.
    pub fn add_class(&mut self, s: SurfaceId, key: &str)
        requires
            old(self).wf(),
            old(self).alive(s),
        ensures
            final(self).wf(),
            final(self).slot_count() == old(self).slot_count(),
            final(self).slot_view(s) == (SlotView {
                classes: if old(self).has_class(s, key@) {
                    old(self).slot_view(s).classes
                } else {
                    old(self).slot_view(s).classes.push(key@)
                },
                ..old(self).slot_view(s)
            }),
            final(self).has_class(s, key@),
            forall |q: Seq<char>| q != key@
                ==> #[trigger] final(self).has_class(s, q) == old(self).has_class(s, q),
            forall |u: SurfaceId| old(self).valid(u) && u != s
                ==> #[trigger] final(self).slot_view(u) == old(self).slot_view(u),
    {
        let ghost pre = *old(self);
        let ghost cv = pre.slot_view(s).classes;
        proof {
            assert(pre.slot_wf(s));
        }
        let key_s = key.to_owned();
        let si = s.0;
        let n = self.slots[si].classes.len();
        let mut i: usize = 0;
        while i < n
            invariant
                pre.wf(),
                pre.alive(s),
                si == s.spec_raw(),
                cv == pre.slot_view(s).classes,
                pre == *old(self),
                key_s@ == key@,
                n == cv.len(),
                i <= n,
                *self == pre,
                forall |j: int| 0 <= j < i ==> #[trigger] cv[j] != key@,
            decreases n - i,
        {
            if self.slots[si].classes[i] == key_s {
                proof {
                    assert(cv[i as int] == key@);
                    assert(pre.has_class(s, key@));
                }
                return;
            }
            i = i + 1;
        }
        proof {
            assert(!pre.has_class(s, key@)) by {
                if cv.contains(key@) {
                    let j = choose |j: int| 0 <= j < cv.len() && cv[j] == key@;
                }
            }
        }
        self.slots[si].classes.push(key_s);
        proof {
            assert forall |u: SurfaceId| pre.valid(u) && u != s
                implies #[trigger] self.slot_view(u) == pre.slot_view(u) by {
                assert(self.slots@[u.spec_raw()] == pre.slots@[u.spec_raw()]);
            }
            let nv = self.slot_view(s).classes;
            assert(nv =~= cv.push(key@));
            assert(nv[nv.len() - 1] == key@);
            assert(self.has_class(s, key@));
            assert forall |q: Seq<char>| q != key@
                implies #[trigger] self.has_class(s, q) == pre.has_class(s, q) by {
                if nv.contains(q) {
                    let j = choose |j: int| 0 <= j < nv.len() && nv[j] == q;
                    assert(j < cv.len() && cv[j] == q);
                }
                if cv.contains(q) {
                    let j = choose |j: int| 0 <= j < cv.len() && cv[j] == q;
                    assert(nv[j] == q);
                }
            }
            assert forall |a: int, b: int| 0 <= a < b < nv.len()
                implies (#[trigger] nv[a]) != (#[trigger] nv[b]) by {
                if b < cv.len() {
                    assert(cv[a] == nv[a] && cv[b] == nv[b]);
                } else {
                    assert(nv[b] == key@);
                    assert(cv[a] == nv[a]);
                }
            }
            self.lemma_content_wf(pre, s);
        }
    }

    /// Remove a class name if present.
    pub fn remove_class(&mut self, s: SurfaceId, key: &str)
        requires
            old(self).wf(),
            old(self).alive(s),
        ensures
            final(self).wf(),
            final(self).slot_count() == old(self).slot_count(),
            final(self).slot_view(s) == (SlotView {
                classes: final(self).slot_view(s).classes,
                ..old(self).slot_view(s)
            }),
            !final(self).has_class(s, key@),
            forall |q: Seq<char>| q != key@
                ==> #[trigger] final(self).has_class(s, q) == old(self).has_class(s, q),
            forall |u: SurfaceId| old(self).valid(u) && u != s
                ==> #[trigger] final(self).slot_view(u) == old(self).slot_view(u),
    {
        let ghost pre = *old(self);
        let ghost cv = pre.slot_view(s).classes;
        proof {
            assert(pre.slot_wf(s));
        }
        let key_s = key.to_owned();
        let si = s.0;
        let n = self.slots[si].classes.len();
        let mut i: usize = 0;
        while i < n
            invariant
                pre.wf(),
                pre.alive(s),
                si == s.spec_raw(),
                cv == pre.slot_view(s).classes,
                pre == *old(self),
                key_s@ == key@,
                n == cv.len(),
                i <= n,
                *self == pre,
                forall |j: int| 0 <= j < i ==> #[trigger] cv[j] != key@,
            decreases n - i,
        {
            if self.slots[si].classes[i] == key_s {
                proof {
                    assert(cv[i as int] == key@);
                    assert(pre.slot_wf(s));
                }
                self.slots[si].classes.remove(i);
                proof {
                    assert(pre.slot_wf(s));
                    assert(self.slot_count() == pre.slot_count());
                    assert(self.slot_view(s).attrs == pre.slot_view(s).attrs);
                    assert forall |u: SurfaceId| pre.valid(u) && u != s
                        implies #[trigger] self.slot_view(u) == pre.slot_view(u) by {
                        assert(self.slots@[u.spec_raw()] == pre.slots@[u.spec_raw()]);
                    }
                    let nv = self.slot_view(s).classes;
                    assert(nv =~= cv.remove(i as int));
                    assert forall |a: int, b: int| 0 <= a < b < cv.len()
                        implies (#[trigger] cv[a]) != (#[trigger] cv[b]) by {
                        assert(pre.slot_wf(s));
                    }
                    assert forall |a: int, b: int| 0 <= a < b < nv.len()
                        implies (#[trigger] nv[a]) != (#[trigger] nv[b]) by {
                        let a0 = if a < i { a } else { a + 1 };
                        let b0 = if b < i { b } else { b + 1 };
                        assert(cv[a0] == nv[a] && cv[b0] == nv[b]);
                    }
                    assert(!self.has_class(s, key@)) by {
                        if nv.contains(key@) {
                            let j = choose |j: int| 0 <= j < nv.len() && nv[j] == key@;
                            let j0 = if j < i { j } else { j + 1 };
                            assert(cv[j0] == key@);
                            assert(cv[i as int] == key@);
                        }
                    }
                    assert forall |q: Seq<char>| q != key@
                        implies #[trigger] self.has_class(s, q) == pre.has_class(s, q) by {
                        if nv.contains(q) {
                            let j = choose |j: int| 0 <= j < nv.len() && nv[j] == q;
                            let j0 = if j < i { j } else { j + 1 };
                            assert(cv[j0] == q);
                        }
                        if cv.contains(q) {
                            let j = choose |j: int| 0 <= j < cv.len() && cv[j] == q;
                            assert(j != i);
                            let j1 = if j < i { j } else { j - 1 };
                            assert(nv[j1] == q);
                        }
                    }
                    self.lemma_content_wf(pre, s);
                }
                return;
            }
            i = i + 1;
        }
        proof {
            assert(!pre.has_class(s, key@)) by {
                if cv.contains(key@) {
                    let j = choose |j: int| 0 <= j < cv.len() && cv[j] == key@;
                }
            }
        }
    }

    /// Remove the child of `p` at position `at`, leaving it detached;
    /// later siblings move one place to the left.
    pub fn remove_at(&mut self, p: SurfaceId, at: usize) -> (c: SurfaceId)
        requires
            old(self).wf(),
            old(self).alive(p),
            at < old(self).children(p).len(),
        ensures
            final(self).wf(),
            final(self).slot_count() == old(self).slot_count(),
            c == old(self).children(p)[at as int],
            final(self).children(p) == old(self).children(p).remove(at as int),
            final(self).alive(c),
            final(self).slot_view(c) == (SlotView {
                parent: None,
                pos: 0,
                ..old(self).slot_view(c)
            }),
            final(self).slot_view(p) == (SlotView {
                children: old(self).children(p).remove(at as int),
                ..old(self).slot_view(p)
            }),
            forall |j: int| at < j < old(self).children(p).len()
                ==> final(self).slot_view(#[trigger] old(self).children(p)[j])
                    == (SlotView {
                        pos: j - 1,
                        ..old(self).slot_view(old(self).children(p)[j])
                    }),
            forall |t: SurfaceId| old(self).valid(t) && t != p
                && !old(self).children(p).skip(at as int).contains(t)
                ==> #[trigger] final(self).slot_view(t) == old(self).slot_view(t),
    {
        let ghost pre = *old(self);
        let ghost kids = pre.children(p);
        let ghost newkids = kids.remove(at as int);
        proof {
            assert(pre.slot_wf(p));
            pre.lemma_children_distinct(p);
            assert forall |j: int| 0 <= j < kids.len()
                implies pre.child_ok(p, j) by {}
            assert(kids.skip(at as int)[0] == kids[at as int]);
        }
        let pi = p.0;
        let c = self.slots[pi].children.remove(at);
        proof {
            assert(pre.child_ok(p, at as int));
            assert(c == kids[at as int]);
            assert(pre.valid(c));
            assert(c != p);
        }
        let ci = c.0;
        self.slots[ci].parent = None;
        self.slots[ci].index_in_parent = 0;
        proof {
            assert(self.slot_view(p) == (SlotView { children: newkids, ..pre.slot_view(p) }));
            assert(self.slot_view(c)
                == (SlotView { parent: None, pos: 0, ..pre.slot_view(c) }));
            assert forall |t: SurfaceId| pre.valid(t) && t != p && t != c
                implies #[trigger] self.slot_view(t) == pre.slot_view(t) by {
                assert(self.slots@[t.spec_raw()] == pre.slots@[t.spec_raw()]);
            }
            assert forall |k: int| at <= k < newkids.len()
                implies self.slot_view(#[trigger] newkids[k]) == pre.slot_view(newkids[k]) by {
                assert(pre.child_ok(p, k + 1));
                assert(newkids[k] == kids[k + 1]);
            }
        }
        let mut j: usize = at;
        let m = self.slots[pi].children.len();
        while j < m
            invariant
                pre.wf(),
                pre.alive(p),
                at < kids.len(),
                kids == pre.children(p),
                newkids == kids.remove(at as int),
                pi == p.spec_raw(),
                ci == c.spec_raw(),
                c == kids[at as int],
                pre.valid(c),
                c != p,
                m == newkids.len(),
                at <= j <= m,
                self.slot_count() == pre.slot_count(),
                self.slot_view(p) == (SlotView { children: newkids, ..pre.slot_view(p) }),
                self.slot_view(c)
                    == (SlotView { parent: None, pos: 0, ..pre.slot_view(c) }),
                forall |k: int| at <= k < j
                    ==> self.slot_view(#[trigger] newkids[k])
                        == (SlotView { pos: k, ..pre.slot_view(newkids[k]) }),
                forall |k: int| j <= k < m
                    ==> self.slot_view(#[trigger] newkids[k]) == pre.slot_view(newkids[k]),
                forall |t: SurfaceId| pre.valid(t) && t != p
                    && !kids.skip(at as int).contains(t)
                    ==> #[trigger] self.slot_view(t) == pre.slot_view(t),
            decreases m - j,
        {
            proof {
                pre.lemma_children_distinct(p);
                assert(pre.child_ok(p, j + 1));
                assert(newkids[j as int] == kids[j + 1]);
            }
            let ghost it0 = *self;
            let ch = self.slots[pi].children[j];
            proof {
                assert(ch == kids[j + 1]);
                assert(ch != c);
                assert(ch != p);
                assert(pre.valid(ch));
            }
            self.slots[ch.0].index_in_parent = j;
            proof {
                assert forall |t: SurfaceId| pre.valid(t) && t != ch
                    implies #[trigger] self.slot_view(t) == it0.slot_view(t) by {
                    assert(self.slots@[t.spec_raw()] == it0.slots@[t.spec_raw()]);
                }
                assert(it0.slot_view(ch) == pre.slot_view(ch));
                assert(self.slot_view(ch)
                    == (SlotView { pos: j as int, ..pre.slot_view(ch) }));
                assert(self.slot_view(p) == it0.slot_view(p));
                assert(self.slot_view(c) == it0.slot_view(c));
                assert forall |k: int| at <= k < j + 1
                    implies self.slot_view(#[trigger] newkids[k])
                        == (SlotView { pos: k, ..pre.slot_view(newkids[k]) }) by {
                    if k < j {
                        assert(newkids[k] == kids[k + 1]);
                        assert(newkids[k] != ch);
                        assert(pre.child_ok(p, k + 1));
                        assert(self.slot_view(newkids[k]) == it0.slot_view(newkids[k]));
                    }
                }
                assert forall |k: int| j + 1 <= k < m
                    implies self.slot_view(#[trigger] newkids[k]) == pre.slot_view(newkids[k])
                    by {
                    assert(newkids[k] == kids[k + 1]);
                    assert(newkids[k] != ch);
                    assert(pre.child_ok(p, k + 1));
                    assert(self.slot_view(newkids[k]) == it0.slot_view(newkids[k]));
                }
                assert forall |t: SurfaceId| pre.valid(t) && t != p
                    && !kids.skip(at as int).contains(t)
                    implies #[trigger] self.slot_view(t) == pre.slot_view(t) by {
                    assert(kids.skip(at as int)[j + 1 - (at as int)] == ch);
                    assert(t != ch);
                    assert(self.slot_view(t) == it0.slot_view(t));
                }
            }
            j = j + 1;
        }
        proof {
            assert forall |jj: int| at < jj < kids.len()
                implies self.slot_view(#[trigger] kids[jj])
                    == (SlotView { pos: jj - 1, ..pre.slot_view(kids[jj]) }) by {
                assert(newkids[jj - 1] == kids[jj]);
            }
            self.lemma_remove_wf(pre, p, at as int, c);
        }
        c
    }

    /// After `remove_at`'s state change, the invariant holds again.
    proof fn lemma_remove_wf(&self, pre: Surface, p: SurfaceId, at: int, c: SurfaceId)
        requires
            pre.wf(),
            pre.alive(p),
            0 <= at < pre.children(p).len(),
            c == pre.children(p)[at],
            self.slot_count() == pre.slot_count(),
            self.slot_view(c) == (SlotView { parent: None, pos: 0, ..pre.slot_view(c) }),
            self.slot_view(p) == (SlotView {
                children: pre.children(p).remove(at),
                ..pre.slot_view(p)
            }),
            forall |j: int| at < j < pre.children(p).len()
                ==> self.slot_view(#[trigger] pre.children(p)[j])
                    == (SlotView { pos: j - 1, ..pre.slot_view(pre.children(p)[j]) }),
            forall |t: SurfaceId| pre.valid(t) && t != p
                && !pre.children(p).skip(at).contains(t)
                ==> #[trigger] self.slot_view(t) == pre.slot_view(t),
        ensures
            self.wf(),
    {
        let kids = pre.children(p);
        let newkids = kids.remove(at);
        pre.lemma_children_distinct(p);
        assert(pre.slot_wf(p));
        assert forall |j: int| 0 <= j < kids.len() implies pre.child_ok(p, j) by {}
        assert(pre.child_ok(p, at));
        assert(pre.alive(c));
        assert(c != p);
        // a slot in the moved range is either `c` or a later sibling
        assert forall |t: SurfaceId| #[trigger] kids.skip(at).contains(t)
            implies t == c || (exists |k: int| at < k < kids.len() && #[trigger] kids[k] == t)
            by {
            let k = choose |k: int| 0 <= k < kids.skip(at).len() && kids.skip(at)[k] == t;
            assert(kids[at + k] == t);
            if at + k != at {
                assert(kids[at + k] == t && at < at + k < kids.len());
            }
        }
        assert forall |t: SurfaceId| #[trigger] self.alive(t) implies pre.alive(t) by {
            if t == c || t == p {
            } else if kids.skip(at).contains(t) {
                let k = choose |k: int| at < k < kids.len() && #[trigger] kids[k] == t;
                assert(pre.child_ok(p, k));
            } else {
                assert(self.slot_view(t) == pre.slot_view(t));
            }
        }
        assert forall |t: SurfaceId| #[trigger] self.alive(t) implies self.slot_wf(t) by {
            assert(pre.alive(t));
            assert(pre.slot_wf(t));
            assert forall |j: int| 0 <= j < self.slot_view(t).children.len()
                implies self.child_ok(t, j) by {
                if t == p {
                    if j < at {
                        let d = kids[j];
                        assert(pre.child_ok(p, j));
                        assert(self.slot_view(t).children[j] == d);
                        assert(d != p && d != c);
                        assert(!kids.skip(at).contains(d)) by {
                            if kids.skip(at).contains(d) {
                                let k = choose |k: int|
                                    at < k < kids.len() && #[trigger] kids[k] == d;
                                assert(pre.child_ok(p, k));
                            }
                        }
                        assert(self.slot_view(d) == pre.slot_view(d));
                    } else {
                        let d = kids[j + 1];
                        assert(pre.child_ok(p, j + 1));
                        assert(self.slot_view(t).children[j] == d);
                        assert(self.slot_view(d)
                            == (SlotView { pos: j, ..pre.slot_view(d) }));
                    }
                } else {
                    assert(self.slot_view(t).children == pre.slot_view(t).children);
                    let d = pre.slot_view(t).children[j];
                    assert(pre.child_ok(t, j));
                    if d == p {
                        assert(self.slot_view(d).alive == pre.slot_view(d).alive);
                        assert(self.slot_view(d).parent == pre.slot_view(d).parent);
                        assert(self.slot_view(d).pos == pre.slot_view(d).pos);
                    } else if kids.skip(at).contains(d) {
                        if d == c {
                            assert(pre.slot_view(c).parent == Some(p));
                            assert(pre.slot_view(d).parent == Some(t));
                            assert(t == p);
                            assert(false);
                        } else {
                            let k = choose |k: int|
                                at < k < kids.len() && #[trigger] kids[k] == d;
                            assert(pre.child_ok(p, k));
                            assert(pre.slot_view(d).parent == Some(p));
                            assert(pre.slot_view(d).parent == Some(t));
                            assert(false);
                        }
                    } else {
                        assert(self.slot_view(d) == pre.slot_view(d));
                    }
                }
            }
            assert(self.parent_ok(t)) by {
                if t == c {
                    assert(self.slot_view(t).parent is None);
                } else {
                    assert(self.slot_view(t).parent == pre.slot_view(t).parent);
                    assert(pre.parent_ok(t));
                    match pre.slot_view(t).parent {
                        Some(q) => {
                            let oldpos = pre.slot_view(t).pos;
                            if q == p {
                                assert(kids[oldpos] == t);
                                assert(oldpos != at);
                                if oldpos < at {
                                    assert(!kids.skip(at).contains(t)) by {
                                        if kids.skip(at).contains(t) {
                                            let k = choose |k: int|
                                                at < k < kids.len()
                                                && #[trigger] kids[k] == t;
                                        }
                                    }
                                    assert(t != p);
                                    assert(self.slot_view(t) == pre.slot_view(t));
                                    assert(newkids[oldpos] == t);
                                } else {
                                    assert(self.slot_view(t)
                                        == (SlotView {
                                            pos: oldpos - 1,
                                            ..pre.slot_view(t)
                                        }));
                                    assert(newkids[oldpos - 1] == t);
                                }
                            } else {
                                assert(self.slot_view(q).children
                                    == pre.slot_view(q).children
                                    && self.slot_view(q).alive
                                        == pre.slot_view(q).alive) by {
                                    if q == c {
                                    } else if kids.skip(at).contains(q) {
                                        let k = choose |k: int|
                                            at < k < kids.len() && #[trigger] kids[k] == q;
                                        assert(pre.child_ok(p, k));
                                        assert(self.slot_view(q)
                                            == (SlotView {
                                                pos: k - 1,
                                                ..pre.slot_view(q)
                                            }));
                                    } else {
                                        assert(self.slot_view(q) == pre.slot_view(q));
                                    }
                                }
                                assert(self.slot_view(t).pos == pre.slot_view(t).pos) by {
                                    if kids.skip(at).contains(t) {
                                        if t == c {
                                            assert(pre.slot_view(c).parent == Some(p));
                                            assert(false);
                                        } else {
                                            let k = choose |k: int|
                                                at < k < kids.len()
                                                && #[trigger] kids[k] == t;
                                            assert(pre.child_ok(p, k));
                                            assert(pre.slot_view(t).parent == Some(p));
                                            assert(false);
                                        }
                                    } else if t == p {
                                        assert(self.slot_view(p).pos
                                            == pre.slot_view(p).pos);
                                    } else {
                                        assert(self.slot_view(t) == pre.slot_view(t));
                                    }
                                }
                            }
                        },
                        None => {},
                    }
                }
            }
            assert(self.slot_view(t).parent != Some(t)) by {
                if t == c {
                } else {
                    assert(self.slot_view(t).parent == pre.slot_view(t).parent);
                }
            }
            assert(self.slot_view(t).attrs == pre.slot_view(t).attrs
                && self.slot_view(t).classes == pre.slot_view(t).classes) by {
                if t == p || t == c {
                } else if kids.skip(at).contains(t) {
                    let k = choose |k: int| at < k < kids.len() && #[trigger] kids[k] == t;
                    assert(self.slot_view(t)
                        == (SlotView { pos: k - 1, ..pre.slot_view(t) }));
                } else {
                    assert(self.slot_view(t) == pre.slot_view(t));
                }
            }
        }
    }

    /// After `insert_at`'s state change, the invariant holds again.
    proof fn lemma_insert_wf(&self, pre: Surface, p: SurfaceId, at: int, c: SurfaceId)
        requires
            pre.wf(),
            pre.alive(p),
            pre.alive(c),
            pre.parent(c) is None,
            c != p,
            0 <= at <= pre.children(p).len(),
            self.slot_count() == pre.slot_count(),
            self.slot_view(c) == (SlotView {
                parent: Some(p),
                pos: at,
                ..pre.slot_view(c)
            }),
            self.slot_view(p) == (SlotView {
                children: pre.children(p).insert(at, c),
                ..pre.slot_view(p)
            }),
            forall |j: int| at <= j < pre.children(p).len()
                ==> self.slot_view(#[trigger] pre.children(p)[j])
                    == (SlotView { pos: j + 1, ..pre.slot_view(pre.children(p)[j]) }),
            forall |t: SurfaceId| pre.valid(t) && t != p && t != c
                && !pre.children(p).skip(at).contains(t)
                ==> #[trigger] self.slot_view(t) == pre.slot_view(t),
        ensures
            self.wf(),
    {
        let kids = pre.children(p);
        let newkids = kids.insert(at, c);
        pre.lemma_orphan_unlisted(c);
        pre.lemma_children_distinct(p);
        assert(pre.slot_wf(p));
        assert(pre.slot_wf(c));
        assert forall |j: int| 0 <= j < kids.len() implies pre.child_ok(p, j) by {}
        // classify how each slot's view changed
        assert forall |t: SurfaceId| pre.valid(t) && t != p && t != c
            && !kids.skip(at).contains(t)
            implies #[trigger] self.slot_view(t) == pre.slot_view(t) by {}
        assert forall |t: SurfaceId| #[trigger] self.alive(t) implies pre.alive(t) by {
            if t != p && t != c && !kids.skip(at).contains(t) {
                assert(self.slot_view(t) == pre.slot_view(t));
            } else if kids.skip(at).contains(t) {
                let j = choose |j: int| 0 <= j < kids.skip(at).len() && kids.skip(at)[j] == t;
                assert(kids[at + j] == t);
                assert(pre.child_ok(p, at + j));
            }
        }
        assert forall |t: SurfaceId| #[trigger] self.alive(t) implies self.slot_wf(t) by {
            assert(pre.alive(t));
            assert(pre.slot_wf(t));
            // every child entry of t still satisfies child_ok
            assert forall |j: int| 0 <= j < self.slot_view(t).children.len()
                implies self.child_ok(t, j) by {
                if t == p {
                    if j == at {
                        assert(self.slot_view(t).children[j] == c);
                    } else if j < at {
                        let d = kids[j];
                        assert(pre.child_ok(p, j));
                        assert(self.slot_view(t).children[j] == d);
                        assert(d != c && d != p);
                        assert(!kids.skip(at).contains(d)) by {
                            if kids.skip(at).contains(d) {
                                let k = choose |k: int|
                                    0 <= k < kids.skip(at).len() && kids.skip(at)[k] == d;
                                assert(kids[at + k] == d);
                                assert(pre.child_ok(p, at + k));
                            }
                        }
                        assert(self.slot_view(d) == pre.slot_view(d));
                    } else {
                        let d = kids[j - 1];
                        assert(pre.child_ok(p, j - 1));
                        assert(self.slot_view(t).children[j] == d);
                        assert(self.slot_view(d)
                            == (SlotView { pos: j, ..pre.slot_view(d) }));
                    }
                } else {
                    assert(self.slot_view(t).children == pre.slot_view(t).children);
                    let d = pre.slot_view(t).children[j];
                    assert(pre.child_ok(t, j));
                    assert(d != c);
                    if d == p {
                        assert(self.slot_view(d).alive == pre.slot_view(d).alive);
                        assert(self.slot_view(d).parent == pre.slot_view(d).parent);
                        assert(self.slot_view(d).pos == pre.slot_view(d).pos);
                    } else if kids.skip(at).contains(d) {
                        let k = choose |k: int|
                            0 <= k < kids.skip(at).len() && kids.skip(at)[k] == d;
                        assert(kids[at + k] == d);
                        assert(pre.child_ok(p, at + k));
                        assert(pre.slot_view(d).parent == Some(p));
                        assert(pre.slot_view(d).parent == Some(t));
                        assert(false);
                    } else {
                        assert(self.slot_view(d) == pre.slot_view(d));
                    }
                }
            }
            // the parent link of t still matches
            assert(self.parent_ok(t)) by {
                if t == c {
                    assert(self.slot_view(t).parent == Some(p));
                    assert(self.slot_view(p).children[at] == c);
                } else {
                    assert(self.slot_view(t).parent == pre.slot_view(t).parent);
                    assert(pre.parent_ok(t));
                    match pre.slot_view(t).parent {
                        Some(q) => {
                            let oldpos = pre.slot_view(t).pos;
                            if q == p {
                                assert(kids[oldpos] == t);
                                if oldpos < at {
                                    assert(!kids.skip(at).contains(t)) by {
                                        if kids.skip(at).contains(t) {
                                            let k = choose |k: int|
                                                0 <= k < kids.skip(at).len()
                                                && kids.skip(at)[k] == t;
                                            assert(kids[at + k] == t);
                                        }
                                    }
                                    assert(t != p && t != c);
                                    assert(self.slot_view(t) == pre.slot_view(t));
                                    assert(newkids[oldpos] == t);
                                } else {
                                    assert(self.slot_view(t)
                                        == (SlotView {
                                            pos: oldpos + 1,
                                            ..pre.slot_view(t)
                                        }));
                                    assert(newkids[oldpos + 1] == t);
                                }
                            } else {
                                assert(self.slot_view(q).children
                                    == pre.slot_view(q).children) by {
                                    if q == c {
                                    } else if kids.skip(at).contains(q) {
                                        let k = choose |k: int|
                                            0 <= k < kids.skip(at).len()
                                            && kids.skip(at)[k] == q;
                                        assert(kids[at + k] == q);
                                        assert(pre.child_ok(p, at + k));
                                        assert(self.slot_view(q)
                                            == (SlotView {
                                                pos: at + k + 1,
                                                ..pre.slot_view(q)
                                            }));
                                    } else {
                                        assert(self.slot_view(q) == pre.slot_view(q));
                                    }
                                }
                                assert(self.slot_view(t).pos == pre.slot_view(t).pos) by {
                                    if kids.skip(at).contains(t) {
                                        let k = choose |k: int|
                                            0 <= k < kids.skip(at).len()
                                            && kids.skip(at)[k] == t;
                                        assert(kids[at + k] == t);
                                        assert(pre.child_ok(p, at + k));
                                        assert(pre.slot_view(t).parent == Some(p));
                                        assert(false);
                                    } else if t == p {
                                        assert(self.slot_view(p).pos == pre.slot_view(p).pos);
                                    } else {
                                        assert(self.slot_view(t) == pre.slot_view(t));
                                    }
                                }
                                assert(self.slot_view(q).alive == pre.slot_view(q).alive)
                                    by {
                                    if q == c {
                                    } else if kids.skip(at).contains(q) {
                                        let k = choose |k: int|
                                            0 <= k < kids.skip(at).len()
                                            && kids.skip(at)[k] == q;
                                        assert(kids[at + k] == q);
                                        assert(pre.child_ok(p, at + k));
                                        assert(self.slot_view(q)
                                            == (SlotView {
                                                pos: at + k + 1,
                                                ..pre.slot_view(q)
                                            }));
                                    } else {
                                        assert(self.slot_view(q) == pre.slot_view(q));
                                    }
                                }
                            }
                        },
                        None => {},
                    }
                }
            }
            // no slot became its own parent
            assert(self.slot_view(t).parent != Some(t)) by {
                if t == c {
                } else {
                    assert(self.slot_view(t).parent == pre.slot_view(t).parent);
                }
            }
            // attributes and classes are untouched everywhere
            assert(self.slot_view(t).attrs == pre.slot_view(t).attrs
                && self.slot_view(t).classes == pre.slot_view(t).classes) by {
                if t == p || t == c {
                } else if kids.skip(at).contains(t) {
                    let k = choose |k: int|
                        0 <= k < kids.skip(at).len() && kids.skip(at)[k] == t;
                    assert(kids[at + k] == t);
                    assert(self.slot_view(t)
                        == (SlotView { pos: at + k + 1, ..pre.slot_view(t) }));
                } else {
                    assert(self.slot_view(t) == pre.slot_view(t));
                }
            }
        }
    }

    /// Whether the element's slot is still live.
    pub fn is_alive(&self, s: SurfaceId) -> (r: bool)
        requires
            self.valid(s),
        ensures
            r == self.alive(s),
    {
        self.slots[s.0].alive
    }

    /// The ordered child list, as reported by the surface.
    pub fn get_children(&self, s: SurfaceId) -> (r: Vec<SurfaceId>)
        requires
            self.valid(s),
        ensures
            r@ == self.children(s),
    {
        let mut r: Vec<SurfaceId> = Vec::new();
        let n = self.slots[s.0].children.len();
        let mut i: usize = 0;
        while i < n
            invariant
                self.valid(s),
                n == self.children(s).len(),
                i <= n,
                r@ == self.children(s).take(i as int),
            decreases n - i,
        {
            r.push(self.slots[s.0].children[i]);
            proof {
                assert(r@ =~= self.children(s).take(i + 1));
            }
            i = i + 1;
        }
        proof {
            assert(r@ =~= self.children(s));
        }
        r
    }

    pub fn child_count(&self, s: SurfaceId) -> (r: usize)
        requires
            self.valid(s),
        ensures
            r as int == self.children(s).len(),
    {
        self.slots[s.0].children.len()
    }

    pub fn child_at(&self, s: SurfaceId, i: usize) -> (r: SurfaceId)
        requires
            self.valid(s),
            i < self.children(s).len(),
        ensures
            r == self.children(s)[i as int],
    {
        self.slots[s.0].children[i]
    }

    pub fn parent_of(&self, s: SurfaceId) -> (r: Option<SurfaceId>)
        requires
            self.valid(s),
        ensures
            r == self.parent(s),
    {
        self.slots[s.0].parent
    }

    pub fn pos_of(&self, s: SurfaceId) -> (r: usize)
        requires
            self.valid(s),
        ensures
            r as int == self.pos(s),
    {
        self.slots[s.0].index_in_parent
    }

    /// The element's text content, if any was set.
    pub fn get_text(&self, s: SurfaceId) -> (r: Option<String>)
        requires
            self.valid(s),
        ensures
            match r {
                Some(t) => self.text(s) == Some(t@),
                None => self.text(s) is None,
            },
    {
        match &self.slots[s.0].text {
            Some(t) => Some(t.clone()),
            None => None,
        }
    }

    /// Whether a class name is present.
    pub fn check_class(&self, s: SurfaceId, key: &str) -> (r: bool)
        requires
            self.valid(s),
        ensures
            r == self.has_class(s, key@),
    {
        let ghost cv = self.slot_view(s).classes;
        let key_s = key.to_owned();
        let n = self.slots[s.0].classes.len();
        let mut i: usize = 0;
        while i < n
            invariant
                self.valid(s),
                cv == self.slot_view(s).classes,
                key_s@ == key@,
                n == cv.len(),
                i <= n,
                forall |j: int| 0 <= j < i ==> #[trigger] cv[j] != key@,
            decreases n - i,
        {
            if self.slots[s.0].classes[i] == key_s {
                proof {
                    assert(cv[i as int] == key@);
                }
                return true;
            }
            i = i + 1;
        }
        proof {
            if cv.contains(key@) {
                let j = choose |j: int| 0 <= j < cv.len() && cv[j] == key@;
            }
        }
        false
    }

    /// Find a live element whose `id` attribute has the given value.
    pub fn get_element_by_id(&self, id: &str) -> (r: Option<SurfaceId>)
        ensures
            match r {
                Some(s) => self.alive(s) && self.attr(s, "id"@) == Some(id@),
                None => forall |t: SurfaceId| #[trigger] self.alive(t)
                    ==> self.attr(t, "id"@) != Some(id@),
            },
    {
        let n = self.slots.len();
        let mut i: usize = 0;
        while i < n
            invariant
                n == self.slot_count(),
                i <= n,
                forall |t: SurfaceId| 0 <= t.spec_raw() < i && #[trigger] self.alive(t)
                    ==> self.attr(t, "id"@) != Some(id@),
            decreases n - i,
        {
            let s = SurfaceId(i);
            if self.slots[i].alive {
                let id_s = id.to_owned();
                match self.get_attr(s, "id") {
                    Some(v) => {
                        if v == id_s {
                            return Some(s);
                        }
                    },
                    None => {},
                }
            }
            proof {
                assert forall |t: SurfaceId| 0 <= t.spec_raw() < i + 1
                    && #[trigger] self.alive(t)
                    implies self.attr(t, "id"@) != Some(id@) by {
                    if t.spec_raw() == i {
                        assert(t == s);
                    }
                }
            }
            i = i + 1;
        }
        None
    }
}

} // verus!
