//! The mathematical model of a tree: a sequence of node records, and what it
//! means for such a sequence to be a well-formed arena.

use vstd::prelude::*;

verus! {

/// Text as the contracts see it.
pub type Text = Seq<char>;

/// What a node is to the contracts.
pub ghost struct NodeView {
    /// The text of the node's payload.
    pub content: Seq<char>,
    /// The depth of the node; the root has depth 1.
    pub level: usize,
    /// The position of the parent; `None` for the root.
    pub parent: Option<usize>,
    /// Where the node stands among its parent's children; `None` for the root.
    pub slot: Option<usize>,
    /// The positions of the children, from left to right.
    pub children: Seq<usize>,
}

/// The `k`-th child of node `i` lies after `i` in the arena and records `i`
/// as its parent and `k` as its place.
pub open spec fn child_ok(t: Seq<NodeView>, i: int, k: int) -> bool {
    let c = t[i].children[k];
    &&& i < c < t.len()
    &&& t[c as int].parent == Some(i as usize)
    &&& t[c as int].slot == Some(k as usize)
}

/// Node `i` is consistent with the rest of the arena.
pub open spec fn node_ok(t: Seq<NodeView>, i: int) -> bool {
    let n = t[i];
    &&& 1 <= n.level <= i + 1
    &&& n.children.len() <= t.len()
    &&& i == 0 ==> n.parent is None && n.slot is None
    &&& i > 0 ==> n.slot is Some && n.parent is Some && n.parent->0 < i && n.level
        == t[n.parent->0 as int].level + 1
    &&& forall|k: int| 0 <= k < n.children.len() ==> #[trigger] child_ok(t, i, k)
    &&& forall|j: int, k: int|
        0 <= j < k < n.children.len() ==> #[trigger] n.children[j] < #[trigger] n.children[k]
}

/// The arena invariant. Position 0 is the root, of depth 1; every other node
/// has a parent before it and lies one level below it; every child that a
/// node lists points back at it, with its place; children are listed by
/// rising position, which is the order in which they were added.
pub open spec fn wf(t: Seq<NodeView>) -> bool {
    &&& t.len() <= usize::MAX
    &&& forall|i: int| 0 <= i < t.len() ==> #[trigger] node_ok(t, i)
}

/// Whether node `x` still stands in its parent's list of children.
pub open spec fn is_linked(t: Seq<NodeView>, x: int) -> bool {
    &&& 0 < x < t.len()
    &&& t[x].parent is Some
    &&& t[x].slot is Some
    &&& t[x].parent->0 < t.len()
    &&& t[x].slot->0 < t[t[x].parent->0 as int].children.len()
    &&& t[t[x].parent->0 as int].children[t[x].slot->0 as int] == x
}

/// The record of a fresh node.
pub open spec fn leaf(content: Seq<char>, level: usize, parent: Option<usize>, slot: Option<usize>)
    -> NodeView {
    NodeView { content, level, parent, slot, children: Seq::empty() }
}

/// A tree of one node.
pub open spec fn rooted(content: Seq<char>) -> Seq<NodeView> {
    seq![leaf(content, 1, None, None)]
}

/// Whether a node can be linked under `parent`.
pub open spec fn can_link(t: Seq<NodeView>, parent: int) -> bool {
    0 <= parent < t.len() < usize::MAX
}

/// The tree with one more node, the last child of `parent`.
pub open spec fn linked(t: Seq<NodeView>, content: Seq<char>, parent: int) -> Seq<NodeView> {
    let p = t[parent];
    let c = leaf(
        content,
        (p.level + 1) as usize,
        Some(parent as usize),
        Some(p.children.len() as usize),
    );
    t.update(parent, NodeView { children: p.children.push(t.len() as usize), ..p }).push(c)
}

/// The tree with node `x` taken out of its parent's list of children. The
/// node keeps its position in the arena; the siblings after it move one
/// place to the left.
pub open spec fn unlinked(t: Seq<NodeView>, x: int) -> Seq<NodeView> {
    let p = t[x].parent->0 as int;
    let s = t[x].slot->0 as int;
    Seq::new(
        t.len(),
        |i: int|
            if i == p {
                NodeView { children: t[p].children.remove(s), ..t[p] }
            } else if i != x && t[i].parent == Some(p as usize) && t[i].slot is Some && t[i].slot->0
                > s && is_linked(t, i) {
                NodeView { slot: Some((t[i].slot->0 - 1) as usize), ..t[i] }
            } else {
                t[i]
            },
    )
}

/// The texts of a list of strings.
pub open spec fn texts(v: Seq<String>) -> Seq<Seq<char>> {
    Seq::new(v.len(), |i: int| v[i]@)
}

/// The first child of `parent`, from place `k` on, whose text is `name`.
pub open spec fn find_child_from(t: Seq<NodeView>, parent: int, name: Seq<char>, k: int) -> Option<
    usize,
>
    decreases t[parent].children.len() - k,
{
    let cs = t[parent].children;
    if k < 0 || k >= cs.len() {
        None
    } else if cs[k] < t.len() && t[cs[k] as int].content == name {
        Some(cs[k])
    } else {
        find_child_from(t, parent, name, k + 1)
    }
}

/// The first child of `parent` whose text is `name`.
pub open spec fn find_child(t: Seq<NodeView>, parent: int, name: Seq<char>) -> Option<usize> {
    if 0 <= parent < t.len() {
        find_child_from(t, parent, name, 0)
    } else {
        None
    }
}

/// Where the rest of a path, from its `i`-th name on, leads from node `cur`.
pub open spec fn find_from(t: Seq<NodeView>, cur: usize, path: Seq<Seq<char>>, i: int) -> Option<
    usize,
>
    decreases path.len() - i,
{
    if i < 0 || i >= path.len() {
        Some(cur)
    } else {
        match find_child(t, cur as int, path[i]) {
            Some(c) => find_from(t, c, path, i + 1),
            None => None,
        }
    }
}

/// The node that a path of texts names: the first is the root's, each
/// further one that of a child of the node before. Among children of one
/// text the first counts.
pub open spec fn find(t: Seq<NodeView>, path: Seq<Seq<char>>) -> Option<usize> {
    if path.len() == 0 || t.len() == 0 || t[0].content != path[0] {
        None
    } else {
        find_from(t, 0, path, 1)
    }
}

/// Linking keeps the arena invariant.
pub proof fn lemma_linked_wf(t: Seq<NodeView>, content: Seq<char>, parent: int)
    requires
        wf(t),
        can_link(t, parent),
    ensures
        wf(linked(t, content, parent)),
{
    let u = linked(t, content, parent);
    let n = t.len() as int;
    let slot = t[parent].children.len() as int;
    assert(node_ok(t, parent));
    assert forall|i: int| 0 <= i < u.len() implies #[trigger] node_ok(u, i) by {
        if i < n {
            assert(node_ok(t, i));
            assert forall|k: int| 0 <= k < u[i].children.len() implies #[trigger] child_ok(
                u,
                i,
                k,
            ) by {
                if i == parent && k == slot {
                } else {
                    assert(child_ok(t, i, k));
                }
            }
            assert forall|j: int, k: int| 0 <= j < k < u[i].children.len() implies
                #[trigger] u[i].children[j] < #[trigger] u[i].children[k] by {
                if i == parent && k == slot {
                    assert(child_ok(t, i, j));
                }
            }
        }
    }
}

/// Unlinking keeps the arena invariant.
pub proof fn lemma_unlinked_wf(t: Seq<NodeView>, x: int)
    requires
        wf(t),
        is_linked(t, x),
    ensures
        wf(unlinked(t, x)),
{
    let u = unlinked(t, x);
    let p = t[x].parent->0 as int;
    let s = t[x].slot->0 as int;
    assert(node_ok(t, p));
    assert forall|i: int| 0 <= i < u.len() implies #[trigger] node_ok(u, i) by {
        assert(node_ok(t, i));
        if i > 0 {
            assert(node_ok(t, t[i].parent->0 as int));
        }
        assert forall|k: int| 0 <= k < u[i].children.len() implies #[trigger] child_ok(u, i, k) by {
            if i == p {
                let k0 = if k < s { k } else { k + 1 };
                assert(u[p].children == t[p].children.remove(s));
                assert(child_ok(t, p, k0));
                assert(child_ok(t, p, s));
                let c = t[p].children[k0];
                assert(u[p].children[k] == c);
                assert(c != x) by {
                    if k0 < s {
                        assert(t[p].children[k0] < t[p].children[s]);
                    } else {
                        assert(t[p].children[s] < t[p].children[k0]);
                    }
                }
                assert(is_linked(t, c as int));
            } else {
                assert(child_ok(t, i, k));
                let c = t[i].children[k] as int;
                assert(t[c].parent == Some(i as usize));
            }
        }
        assert forall|j: int, k: int| 0 <= j < k < u[i].children.len() implies
            #[trigger] u[i].children[j] < #[trigger] u[i].children[k] by {
            if i == p {
                let j0 = if j < s { j } else { j + 1 };
                let k0 = if k < s { k } else { k + 1 };
                assert(t[p].children[j0] < t[p].children[k0]);
            }
        }
    }
}

} // verus!
