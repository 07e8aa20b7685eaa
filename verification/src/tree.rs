//! The node arena: a tree is one growing array of nodes that name their
//! relatives by position.

use crate::forest::{Forest, index_of, lemma_index_of};
use crate::iter::level_iters::InvLevBfsIter;
use crate::iter::{
    BfsIterSwitch, InvBfsIterSwitch, InvPostDfsIter, InvPreDfsIter, InvTreeIter, PostDfsIter,
    PreDfsIter, TreeIter,
};
use crate::order::{
    bfs_order, index_ok, index_order, index_order_up, inv_sequential, post_order, pre_order,
    sequential,
};
use crate::shape::{
    can_link, child_ok, find, find_child, find_child_from, find_from, is_linked, leaf,
    lemma_linked_wf, lemma_unlinked_wf, linked, node_ok, NodeView, rooted, Text, texts, unlinked,
    wf,
};
use vstd::prelude::*;

verus! {

/// What a node carries: a payload made from the raw text of a node line,
/// which hands a text back when the tree is written or searched.
///
/// The three spec functions say what an implementation does, and the
/// contracts of the whole library are stated over them. They are never run:
/// an implementation written in plain Rust gives them any body.
pub trait NodeContent: Sized {
    /// Whether `new` takes this raw text.
    spec fn accepts(content: Text) -> bool;

    /// The text that the payload made from this raw text hands back.
    spec fn reads(content: Text) -> Text;

    /// The text that this payload hands back.
    spec fn raw(&self) -> Text;

    /// Makes a payload from the raw text of a node, or declines it.
    fn new(content: &str) -> (r: Option<Self>)
        ensures
            r.is_some() == Self::accepts(content@),
            r matches Some(p) ==> p.raw() == Self::reads(content@),
    ;

    /// The text of the payload.
    fn get_content(&self) -> (r: &String)
        ensures
            r@ == self.raw(),
    ;
}

/// The plain payload: it keeps the raw text as it is.
#[derive(Debug)]
pub struct SimpleNode {
    content: String,
}

impl NodeContent for SimpleNode {
    open spec fn accepts(content: Text) -> bool {
        true
    }

    open spec fn reads(content: Text) -> Text {
        content
    }

    closed spec fn raw(&self) -> Text {
        self.content@
    }

    fn new(content: &str) -> (r: Option<Self>) {
        Some(SimpleNode { content: String::from_str(content) })
    }

    fn get_content(&self) -> (r: &String) {
        &self.content
    }
}

/// One entry of a tree's arena.
#[derive(Debug)]
pub struct TreeNode<T: NodeContent> {
    content: T,
    level: usize,
    parent_position: Option<usize>,
    parent_children_pos: Option<usize>,
    children: Vec<usize>,
}

impl<T: NodeContent> View for TreeNode<T> {
    type V = NodeView;

    closed spec fn view(&self) -> NodeView {
        NodeView {
            content: self.content.raw(),
            level: self.level,
            parent: self.parent_position,
            slot: self.parent_children_pos,
            children: self.children@,
        }
    }
}

impl<T: NodeContent> TreeNode<T> {
    /// A node without children around the payload made from `content`;
    /// `None` where the payload type declines the text.
    pub fn new(
        content: &str,
        level: usize,
        parent_position: Option<usize>,
        parent_children_pos: Option<usize>,
    ) -> (r: Option<Self>)
        ensures
            r.is_some() == T::accepts(content@),
            r matches Some(n) ==> n@ == leaf(
                T::reads(content@),
                level,
                parent_position,
                parent_children_pos,
            ),
    {
        match T::new(content) {
            Some(c) => Some(Self::with_payload(c, level, parent_position, parent_children_pos)),
            None => None,
        }
    }

    /// A root node around the payload made from `content`.
    pub fn new_root(content: &str) -> (r: Option<Self>)
        ensures
            r.is_some() == T::accepts(content@),
            r matches Some(n) ==> n@ == leaf(T::reads(content@), 1, None, None),
    {
        Self::new(content, 1, None, None)
    }

    /// A node without children around a payload.
    pub fn with_payload(
        content: T,
        level: usize,
        parent_position: Option<usize>,
        parent_children_pos: Option<usize>,
    ) -> (r: Self)
        ensures
            r@ == leaf(content.raw(), level, parent_position, parent_children_pos),
            r.payload() == content,
    {
        TreeNode { content, level, parent_position, parent_children_pos, children: Vec::new() }
    }

    /// The payload of the node.
    pub closed spec fn payload(&self) -> T {
        self.content
    }

    /// The payload of the node.
    pub fn get_content_ref(&self) -> (r: &T)
        ensures
            *r == self.payload(),
            r.raw() == self@.content,
    {
        &self.content
    }

    /// The depth of the node.
    pub fn get_level(&self) -> (r: usize)
        ensures
            r == self@.level,
    {
        self.level
    }

    /// The position of the parent.
    pub fn get_parent_position(&self) -> (r: Option<usize>)
        ensures
            r == self@.parent,
    {
        self.parent_position
    }

    /// The place among the parent's children.
    pub fn get_parent_children_pos(&self) -> (r: Option<usize>)
        ensures
            r == self@.slot,
    {
        self.parent_children_pos
    }

    /// The positions of the children, from left to right.
    pub fn get_children_ref(&self) -> (r: &Vec<usize>)
        ensures
            r@ == self@.children,
    {
        &self.children
    }

    /// The number of children.
    pub fn get_num_children(&self) -> (r: usize)
        ensures
            r == self@.children.len(),
    {
        self.children.len()
    }
}

/// A tree: the arena of its nodes.
#[derive(Debug)]
pub struct Tree<T: NodeContent> {
    nodes: Vec<TreeNode<T>>,
}

impl<T: NodeContent> View for Tree<T> {
    type V = Seq<NodeView>;

    closed spec fn view(&self) -> Seq<NodeView> {
        Seq::new(self.nodes@.len(), |i: int| self.nodes@[i]@)
    }
}

impl<T: NodeContent> Tree<T> {
    /// The arena invariant holds of this tree.
    pub open spec fn wf(&self) -> bool {
        wf(self@)
    }

    /// The payload at a position.
    pub closed spec fn payload(&self, i: int) -> T {
        self.nodes@[i].payload()
    }

    /// An empty tree.
    pub fn new() -> (r: Self)
        ensures
            r.wf(),
            r@ == Seq::<NodeView>::empty(),
    {
        let r = Tree { nodes: Vec::new() };
        assert(r@ =~= Seq::<NodeView>::empty());
        r
    }

    /// The number of nodes in the arena, unlinked ones included.
    pub fn get_nodes_len(&self) -> (r: usize)
        ensures
            r == self@.len(),
    {
        self.nodes.len()
    }

    /// The node at a position.
    pub fn get_node(&self, position: usize) -> (r: Option<&TreeNode<T>>)
        ensures
            r.is_some() == (position < self@.len()),
            r matches Some(n) ==> n@ == self@[position as int] && n.payload() == self.payload(
                position as int,
            ),
    {
        if position < self.nodes.len() {
            Some(&self.nodes[position])
        } else {
            None
        }
    }

    /// The position of the node added last.
    pub fn last_pos(&self) -> (r: usize)
        requires
            self@.len() > 0,
        ensures
            r == self@.len() - 1,
    {
        self.nodes.len() - 1
    }

    /// Makes the payload made from `content` the root. Works on an empty
    /// tree, with a text that the payload type takes.
    pub fn set_root(&mut self, content: &str) -> (r: Option<usize>)
        requires
            old(self).wf(),
        ensures
            final(self).wf(),
            r == (if old(self)@.len() == 0 && T::accepts(content@) {
                Some(0usize)
            } else {
                None
            }),
            final(self)@ == (if r is Some {
                rooted(T::reads(content@))
            } else {
                old(self)@
            }),
            forall|i: int|
                0 <= i < old(self)@.len() ==> final(self).payload(i) == old(self).payload(i),
    {
        match T::new(content) {
            Some(payload) => self.set_root_payload(payload),
            None => None,
        }
    }

    /// As `set_root`, telling only whether the root was set.
    pub fn add_root_node(&mut self, content: &str) -> (r: bool)
        requires
            old(self).wf(),
        ensures
            final(self).wf(),
            r == (old(self)@.len() == 0 && T::accepts(content@)),
            final(self)@ == (if r {
                rooted(T::reads(content@))
            } else {
                old(self)@
            }),
            forall|i: int|
                0 <= i < old(self)@.len() ==> final(self).payload(i) == old(self).payload(i),
    {
        self.set_root(content).is_some()
    }

    /// Makes `payload` the root. Works on an empty tree only.
    pub fn set_root_payload(&mut self, payload: T) -> (r: Option<usize>)
        requires
            old(self).wf(),
        ensures
            final(self).wf(),
            r == (if old(self)@.len() == 0 {
                Some(0usize)
            } else {
                None
            }),
            final(self)@ == (if old(self)@.len() == 0 {
                rooted(payload.raw())
            } else {
                old(self)@
            }),
            r is Some ==> final(self).payload(0) == payload,
            forall|i: int|
                0 <= i < old(self)@.len() ==> final(self).payload(i) == old(self).payload(i),
    {
        if self.nodes.len() == 0 {
            self.nodes.push(TreeNode::with_payload(payload, 1, None, None));
            assert(self@ =~= rooted(payload.raw()));
            assert(node_ok(self@, 0));
            Some(0)
        } else {
            None
        }
    }

    /// Adds a node around the payload made from `content` as the last child
    /// of `parent`, and returns its position.
    pub fn link_node(&mut self, content: &str, parent: usize) -> (r: Option<usize>)
        requires
            old(self).wf(),
        ensures
            final(self).wf(),
            r == (if can_link(old(self)@, parent as int) && T::accepts(content@) {
                Some(old(self)@.len() as usize)
            } else {
                None
            }),
            final(self)@ == (if r is Some {
                linked(old(self)@, T::reads(content@), parent as int)
            } else {
                old(self)@
            }),
            forall|i: int|
                0 <= i < old(self)@.len() ==> final(self).payload(i) == old(self).payload(i),
    {
        if parent < self.nodes.len() {
            match T::new(content) {
                Some(payload) => self.link_payload(payload, parent),
                None => None,
            }
        } else {
            None
        }
    }

    /// Adds a node around `payload` as the last child of `parent`, and
    /// returns its position.
    pub fn link_payload(&mut self, payload: T, parent: usize) -> (r: Option<usize>)
        requires
            old(self).wf(),
        ensures
            final(self).wf(),
            r == (if can_link(old(self)@, parent as int) {
                Some(old(self)@.len() as usize)
            } else {
                None
            }),
            final(self)@ == (if r is Some {
                linked(old(self)@, payload.raw(), parent as int)
            } else {
                old(self)@
            }),
            r is Some ==> final(self).payload(old(self)@.len() as int) == payload,
            forall|i: int|
                0 <= i < old(self)@.len() ==> final(self).payload(i) == old(self).payload(i),
    {
        let n = self.nodes.len();
        if parent >= n || n == usize::MAX {
            return None;
        }
        assert(node_ok(self@, parent as int));
        let level = self.nodes[parent].level + 1;
        let slot = self.nodes[parent].children.len();
        let node = TreeNode::with_payload(payload, level, Some(parent), Some(slot));
        self.nodes.push(node);
        self.nodes[parent].children.push(n);
        proof {
            assert(self@ =~= linked(old(self)@, payload.raw(), parent as int));
            lemma_linked_wf(old(self)@, payload.raw(), parent as int);
        }
        Some(n)
    }

    /// Takes node `position` out of its parent's list of children. The node
    /// and what hangs below it stay in the arena, out of reach from the root.
    /// The root cannot be unlinked, nor a node that is unlinked already.
    pub fn unlink_node(&mut self, position: usize) -> (r: Option<usize>)
        requires
            old(self).wf(),
        ensures
            final(self).wf(),
            r == (if is_linked(old(self)@, position as int) {
                Some(position)
            } else {
                None
            }),
            final(self)@ == (if r is Some {
                unlinked(old(self)@, position as int)
            } else {
                old(self)@
            }),
            forall|i: int|
                0 <= i < old(self)@.len() ==> final(self).payload(i) == old(self).payload(i),
    {
        let n = self.nodes.len();
        if position >= n {
            return None;
        }
        let parent = match self.nodes[position].parent_position {
            Some(p) => p,
            None => { return None; },
        };
        let slot = match self.nodes[position].parent_children_pos {
            Some(s) => s,
            None => { return None; },
        };
        assert(node_ok(self@, position as int));
        if position == 0 || parent >= n || slot >= self.nodes[parent].children.len()
            || self.nodes[parent].children[slot] != position {
            return None;
        }
        let ghost t0 = self@;
        assert(node_ok(t0, parent as int));
        self.nodes[parent].children.remove(slot);
        let m = self.nodes[parent].children.len();
        let mut k = slot;
        while k < m
            invariant
                slot <= k <= m,
                n == self.nodes@.len(),
                n == t0.len(),
                parent < n,
                position < n,
                wf(t0),
                is_linked(t0, position as int),
                t0[position as int].parent == Some(parent),
                t0[position as int].slot == Some(slot),
                m == t0[parent as int].children.len() - 1,
                self@[parent as int] == (NodeView {
                    children: t0[parent as int].children.remove(slot as int),
                    ..t0[parent as int]
                }),
                forall|i: int|
                    0 <= i < n && i != parent ==> #[trigger] self@[i] == (if t0[i].parent == Some(
                        parent,
                    ) && t0[i].slot is Some && slot < t0[i].slot->0 <= k && is_linked(t0, i) {
                        NodeView { slot: Some((t0[i].slot->0 - 1) as usize), ..t0[i] }
                    } else {
                        t0[i]
                    }),
                forall|i: int| 0 <= i < n ==> self.payload(i) == old(self).payload(i),
            decreases m - k,
        {
            assert(node_ok(t0, parent as int));
            let c = self.nodes[parent].children[k];
            assert(c == t0[parent as int].children[k + 1]);
            assert(child_ok(t0, parent as int, k + 1));
            let ghost before = self@;
            assert(before[c as int] == t0[c as int]);
            self.nodes[c].parent_children_pos = Some(k);
            assert(self@[c as int] == NodeView { slot: Some(k), ..t0[c as int] });
            assert forall|i: int| 0 <= i < n && i != parent implies #[trigger] self@[i] == (if
                t0[i].parent == Some(parent) && t0[i].slot is Some && slot < t0[i].slot->0 <= k + 1
                && is_linked(t0, i) {
                NodeView { slot: Some((t0[i].slot->0 - 1) as usize), ..t0[i] }
            } else {
                t0[i]
            }) by {
                if i != c {
                    assert(self@[i] == before[i]);
                    if t0[i].parent == Some(parent) && t0[i].slot == Some((k + 1) as usize)
                        && is_linked(t0, i) {
                        assert(false);
                    }
                }
            }
            k = k + 1;
        }
        proof {
            let t1 = self@;
            let u = unlinked(t0, position as int);
            assert forall|i: int| 0 <= i < n implies t1[i] == u[i] by {
                if i != parent {
                    if t0[i].parent == Some(parent) && t0[i].slot is Some && t0[i].slot->0 > slot
                        && is_linked(t0, i) {
                        assert(t0[i].slot->0 <= m);
                    }
                }
            }
            assert(t1 =~= u);
            lemma_unlinked_wf(t0, position as int);
        }
        Some(position)
    }

    /// The first child of `parent` whose text is `name`.
    pub fn find_child(&self, parent: usize, name: &String) -> (r: Option<usize>)
        requires
            self.wf(),
        ensures
            r == find_child(self@, parent as int, name@),
    {
        if parent >= self.nodes.len() {
            return None;
        }
        assert(node_ok(self@, parent as int));
        let children = &self.nodes[parent].children;
        let mut k: usize = 0;
        while k < children.len()
            invariant
                self.wf(),
                parent < self@.len(),
                children@ == self@[parent as int].children,
                k <= children@.len(),
                find_child(self@, parent as int, name@) == find_child_from(
                    self@,
                    parent as int,
                    name@,
                    k as int,
                ),
            decreases children@.len() - k,
        {
            let c = children[k];
            assert(node_ok(self@, parent as int));
            assert(child_ok(self@, parent as int, k as int));
            if *self.nodes[c].content.get_content() == *name {
                return Some(c);
            }
            k = k + 1;
        }
        None
    }

    /// The node that a path of texts names, from the root's text on.
    pub fn find_node(&self, path: &Vec<String>) -> (r: Option<usize>)
        requires
            self.wf(),
        ensures
            r == find(self@, texts(path@)),
    {
        if path.len() == 0 || self.nodes.len() == 0 {
            return None;
        }
        if *self.nodes[0].content.get_content() != path[0] {
            return None;
        }
        let mut current: usize = 0;
        let mut i: usize = 1;
        while i < path.len()
            invariant
                self.wf(),
                1 <= i <= path@.len(),
                find(self@, texts(path@)) == find_from(self@, current, texts(path@), i as int),
            decreases path@.len() - i,
        {
            match self.find_child(current, &path[i]) {
                Some(c) => {
                    current = c;
                },
                None => {
                    return None;
                },
            }
            i = i + 1;
        }
        Some(current)
    }
}

/// One row of a level index: the positions of the nodes of one depth, in the
/// order in which they were read.
#[derive(Debug)]
pub struct TreeLevel {
    /// The depth.
    pub level: usize,
    /// The positions of the nodes of that depth.
    pub node_positions: Vec<usize>,
}

/// Each row of a level index names its depth: row `d`, counted from 0, is
/// the row of depth `d + 1`.
pub open spec fn numbered(lv: Seq<TreeLevel>) -> bool {
    forall|d: int| 0 <= d < lv.len() ==> (#[trigger] lv[d]).level == d + 1
}

/// The rows of a level index.
pub open spec fn level_rows(lv: Seq<TreeLevel>) -> Seq<Seq<usize>> {
    Seq::new(lv.len(), |d: int| lv[d].node_positions@)
}

/// The rows of a level index, if there is one.
pub open spec fn opt_rows(lv: Option<&Vec<TreeLevel>>) -> Option<Seq<Seq<usize>>> {
    match lv {
        Some(v) => Some(level_rows(v@)),
        None => None,
    }
}

/// A tree to walk: the tree, and its level index where the forest has one.
#[derive(Debug)]
pub struct TreeModel<'a, T: NodeContent> {
    tree_ref: &'a Tree<T>,
    level_ref: Option<&'a Vec<TreeLevel>>,
}

impl<'a, T: NodeContent> TreeModel<'a, T> {
    /// The tree.
    pub closed spec fn tree(&self) -> &'a Tree<T> {
        self.tree_ref
    }

    /// The nodes of the tree.
    pub open spec fn nodes(&self) -> Seq<NodeView> {
        self.tree()@
    }

    /// The rows of the level index, if there is one.
    pub closed spec fn rows(&self) -> Option<Seq<Seq<usize>>> {
        opt_rows(self.level_ref)
    }

    /// The rows of the level index name their depths.
    pub closed spec fn rows_numbered(&self) -> bool {
        self.level_ref matches Some(v) ==> numbered(v@)
    }

    /// The tree is well formed, and the level index lists positions of its
    /// arena only, in rows that name their depths.
    pub open spec fn wf(&self) -> bool {
        &&& wf(self.nodes())
        &&& self.rows() matches Some(lv) ==> index_ok(self.nodes(), lv)
        &&& self.rows_numbered()
    }

    /// The tree called `tree_id` of a forest, with its level index where the
    /// forest keeps one.
    pub fn new(forest: &'a Forest<T>, tree_id: &str) -> (r: Option<Self>)
        requires
            forest.wf(),
        ensures
            r.is_some() == (index_of(forest@.names, tree_id@) >= 0),
            r matches Some(m) ==> {
                let i = index_of(forest@.names, tree_id@);
                &&& m.wf()
                &&& m.nodes() == forest@.trees[i]
                &&& m.rows() == match forest@.levels {
                    Some(lv) => Some(lv[i]),
                    None => None,
                }
                &&& forall|b: int| #[trigger] m.tree().payload(b) == forest.payload(i, b)
            },
    {
        proof {
            lemma_index_of(forest@.names, tree_id@);
        }
        match forest.position(tree_id) {
            Some(i) => Some(forest.model_at(i)),
            None => None,
        }
    }

    /// A walker in arena order, first position to last.
    pub fn iter<'b>(&'b self) -> (r: TreeIter<'a, 'b, T>)
        requires
            self.wf(),
        ensures
            r.wf(),
            r.model() == self,
            r.remaining() == sequential(self.nodes()),
    {
        TreeIter::new(self)
    }

    /// A walker in arena order, last position to first.
    pub fn inv_iter<'b>(&'b self) -> (r: InvTreeIter<'a, 'b, T>)
        requires
            self.wf(),
        ensures
            r.wf(),
            r.model() == self,
            r.remaining() == inv_sequential(self.nodes()),
    {
        InvTreeIter::new(self)
    }

    /// A walker level by level, each level from left to right: along the
    /// level index where there is one, else by the children of each node.
    pub fn bfs_iter<'b>(&'b self) -> (r: BfsIterSwitch<'a, 'b, T>)
        requires
            self.wf(),
        ensures
            r.wf(),
            r.model() == self,
            r.by_index() == self.rows().is_some(),
            r.remaining() == (if self.rows() is Some {
                index_order(self.rows(), false)
            } else {
                bfs_order(self.nodes(), false)
            }),
    {
        BfsIterSwitch::new(self)
    }

    /// A walker level by level, each level from right to left: along the
    /// level index where there is one, else by the children of each node.
    pub fn inv_bfs_iter<'b>(&'b self) -> (r: InvBfsIterSwitch<'a, 'b, T>)
        requires
            self.wf(),
        ensures
            r.wf(),
            r.model() == self,
            r.by_index() == self.rows().is_some(),
            r.remaining() == (if self.rows() is Some {
                index_order(self.rows(), true)
            } else {
                bfs_order(self.nodes(), true)
            }),
    {
        InvBfsIterSwitch::new(self)
    }

    /// A walker along the level index, from the deepest level up, each level
    /// from left to right. Without a level index it gives nothing.
    pub fn inv_lev_bfs_iter<'b>(&'b self) -> (r: InvLevBfsIter<'a, 'b, T>)
        requires
            self.wf(),
        ensures
            r.wf(),
            r.model() == self,
            r.remaining() == index_order_up(self.rows()),
    {
        InvLevBfsIter::new(self)
    }

    /// A walker depth first, parents before children, children from left to
    /// right.
    pub fn pre_dfs_iter<'b>(&'b self) -> (r: PreDfsIter<'a, 'b, T>)
        requires
            self.wf(),
        ensures
            r.wf(),
            r.model() == self,
            r.remaining() == pre_order(self.nodes(), false),
    {
        PreDfsIter::new(self)
    }

    /// A walker depth first, parents before children, children from right to
    /// left.
    pub fn inv_pre_dfs_iter<'b>(&'b self) -> (r: InvPreDfsIter<'a, 'b, T>)
        requires
            self.wf(),
        ensures
            r.wf(),
            r.model() == self,
            r.remaining() == pre_order(self.nodes(), true),
    {
        InvPreDfsIter::new(self)
    }

    /// A walker depth first, children before parents, children from left to
    /// right.
    pub fn post_dfs_iter<'b>(&'b self) -> (r: PostDfsIter<'a, 'b, T>)
        requires
            self.wf(),
        ensures
            r.wf(),
            r.model() == self,
            r.remaining() == post_order(self.nodes(), false),
    {
        PostDfsIter::new(self)
    }

    /// A walker depth first, children before parents, children from right to
    /// left.
    pub fn inv_post_dfs_iter<'b>(&'b self) -> (r: InvPostDfsIter<'a, 'b, T>)
        requires
            self.wf(),
        ensures
            r.wf(),
            r.model() == self,
            r.remaining() == post_order(self.nodes(), true),
    {
        InvPostDfsIter::new(self)
    }

    /// A tree to walk, made of its parts.
    pub fn of(tree: &'a Tree<T>, levels: Option<&'a Vec<TreeLevel>>) -> (r: Self)
        requires
            tree.wf(),
            opt_rows(levels) matches Some(lv) ==> index_ok(tree@, lv),
            levels matches Some(v) ==> numbered(v@),
        ensures
            r.wf(),
            r.tree() == tree,
            r.rows() == opt_rows(levels),
    {
        TreeModel { tree_ref: tree, level_ref: levels }
    }

    /// The tree.
    pub fn get_tree(&self) -> (r: &'a Tree<T>)
        ensures
            r == self.tree(),
    {
        self.tree_ref
    }

    /// The level index, if there is one.
    pub fn get_levels(&self) -> (r: Option<&'a Vec<TreeLevel>>)
        ensures
            opt_rows(r) == self.rows(),
            self.wf() ==> (r matches Some(v) ==> numbered(v@)),
    {
        self.level_ref
    }
}

} // verus!
