//! Walking a tree: one-shot producers of nodes with their positions.
//!
//! Every walker states, as `remaining`, the positions that it has yet to
//! give, in order. `next` gives the first of them and leaves the rest.

use crate::order::{
    bfs_order, index_order, inv_sequential, kid, kids, kids_all, post, post_kids, post_order, pre,
    pre_kids, pre_order, rows_from, sequential,
};
use crate::shape::{child_ok, node_ok, NodeView, wf};
use crate::tree::{NodeContent, Tree, TreeModel, TreeNode};
use vstd::prelude::*;

pub mod level_iters;

verus! {

/// What one call of `next` does to a walker of a tree: with nothing left it
/// gives nothing; else it gives the first position left, with the node
/// there, and that position is left no more.
pub open spec fn yields<T: NodeContent>(
    tree: &Tree<T>,
    before: Seq<usize>,
    after: Seq<usize>,
    r: Option<(&TreeNode<T>, usize)>,
) -> bool {
    match r {
        None => before.len() == 0 && after == before,
        Some((node, position)) => {
            &&& before.len() > 0
            &&& position == before[0]
            &&& position < tree@.len()
            &&& node@ == tree@[position as int]
            &&& node.payload() == tree.payload(position as int)
            &&& after == before.drop_first()
        },
    }
}

/// Hands out the node at a position that a walker has reached.
pub(crate) fn node_at<'a, T: NodeContent>(tree: &'a Tree<T>, position: usize) -> (r: Option<
    (&'a TreeNode<T>, usize),
>)
    requires
        position < tree@.len(),
    ensures
        r matches Some((node, at)) && at == position && node@ == tree@[position as int]
            && node.payload() == tree.payload(position as int),
{
    match tree.get_node(position) {
        Some(node) => Some((node, position)),
        None => None,
    }
}

// Arena order

/// Walks the arena from the first position to the last, whatever the shape
/// of the tree.
pub struct TreeIter<'a, 'b, T: NodeContent> {
    tree: &'b TreeModel<'a, T>,
    position: usize,
}

impl<'a, 'b, T: NodeContent> TreeIter<'a, 'b, T> {
    /// The tree that is walked.
    pub closed spec fn model(&self) -> &'b TreeModel<'a, T> {
        self.tree
    }

    /// The walker is in order.
    pub closed spec fn wf(&self) -> bool {
        self.tree.wf()
    }

    /// The positions yet to come.
    pub closed spec fn remaining(&self) -> Seq<usize> {
        if self.position <= self.tree.nodes().len() {
            sequential(self.tree.nodes()).skip(self.position as int)
        } else {
            Seq::empty()
        }
    }

    /// A walker at its start.
    pub fn new(tree: &'b TreeModel<'a, T>) -> (r: Self)
        requires
            tree.wf(),
        ensures
            r.wf(),
            r.model() == tree,
            r.remaining() == sequential(tree.nodes()),
    {
        Self { tree, position: 0 }
    }

    /// The next node and its position.
    pub fn next(&mut self) -> (r: Option<(&'a TreeNode<T>, usize)>)
        requires
            old(self).wf(),
        ensures
            final(self).wf(),
            final(self).model() == old(self).model(),
            yields(old(self).model().tree(), old(self).remaining(), final(self).remaining(), r),
    {
        let tree = self.tree.get_tree();
        let position = self.position;
        if position < tree.get_nodes_len() {
            self.position = position + 1;
            assert(self.remaining() =~= old(self).remaining().drop_first());
            node_at(tree, position)
        } else {
            None
        }
    }
}

/// Walks the arena from the last position to the first.
pub struct InvTreeIter<'a, 'b, T: NodeContent> {
    tree: &'b TreeModel<'a, T>,
    position: usize,
    finished: bool,
}

impl<'a, 'b, T: NodeContent> InvTreeIter<'a, 'b, T> {
    /// The tree that is walked.
    pub closed spec fn model(&self) -> &'b TreeModel<'a, T> {
        self.tree
    }

    /// The walker is in order.
    pub closed spec fn wf(&self) -> bool {
        &&& self.tree.wf()
        &&& !self.finished ==> self.position < self.tree.nodes().len()
    }

    /// The positions yet to come.
    pub closed spec fn remaining(&self) -> Seq<usize> {
        if self.finished {
            Seq::empty()
        } else {
            inv_sequential(self.tree.nodes()).skip(self.tree.nodes().len() - 1 - self.position)
        }
    }

    /// A walker at its start.
    pub fn new(tree: &'b TreeModel<'a, T>) -> (r: Self)
        requires
            tree.wf(),
        ensures
            r.wf(),
            r.model() == tree,
            r.remaining() == inv_sequential(tree.nodes()),
    {
        let n = tree.get_tree().get_nodes_len();
        if n > 0 {
            Self { tree, position: n - 1, finished: false }
        } else {
            let r = Self { tree, position: 0, finished: true };
            assert(r.remaining() =~= inv_sequential(tree.nodes()));
            r
        }
    }

    /// The next node and its position.
    pub fn next(&mut self) -> (r: Option<(&'a TreeNode<T>, usize)>)
        requires
            old(self).wf(),
        ensures
            final(self).wf(),
            final(self).model() == old(self).model(),
            yields(old(self).model().tree(), old(self).remaining(), final(self).remaining(), r),
    {
        if self.finished {
            return None;
        }
        let tree = self.tree.get_tree();
        let position = self.position;
        if position > 0 {
            self.position = position - 1;
        } else {
            self.finished = true;
        }
        assert(self.remaining() =~= old(self).remaining().drop_first());
        node_at(tree, position)
    }
}

// Shared steps

/// Puts the children of `x` behind what `onto` holds, in walking direction.
pub(crate) fn push_kids<T: NodeContent>(
    tree: &Tree<T>,
    x: usize,
    onto: &mut Vec<usize>,
    mirror: bool,
)
    requires
        x < tree@.len(),
    ensures
        final(onto)@ == old(onto)@ + kids(tree@, x as int, mirror),
{
    let children = match tree.get_node(x) {
        Some(node) => node.get_children_ref(),
        None => { return ; },
    };
    let c = children.len();
    let mut i: usize = 0;
    while i < c
        invariant
            i <= c,
            c == children@.len(),
            children@ == tree@[x as int].children,
            onto@ == old(onto)@ + kids(tree@, x as int, mirror).take(i as int),
        decreases c - i,
    {
        let k = if mirror {
            children[c - 1 - i]
        } else {
            children[i]
        };
        onto.push(k);
        assert(kids(tree@, x as int, mirror).take(i + 1) =~= kids(tree@, x as int, mirror).take(
            i as int,
        ).push(k));
        i = i + 1;
    }
    assert(kids(tree@, x as int, mirror).take(c as int) =~= kids(tree@, x as int, mirror));
}

/// The children that node `x` lists are nodes of the arena, one level down.
proof fn lemma_kids(t: Seq<NodeView>, x: int, mirror: bool)
    requires
        wf(t),
        0 <= x < t.len(),
    ensures
        kids(t, x, mirror).len() == t[x].children.len(),
        forall|i: int|
            0 <= i < t[x].children.len() ==> {
                let c = #[trigger] kids(t, x, mirror)[i];
                &&& c == kid(t, x, i, mirror)
                &&& x < c < t.len()
                &&& t[c as int].level == t[x].level + 1
            },
{
    assert(node_ok(t, x));
    assert forall|i: int| 0 <= i < t[x].children.len() implies {
        let c = #[trigger] kids(t, x, mirror)[i];
        &&& c == kid(t, x, i, mirror)
        &&& x < c < t.len()
        &&& t[c as int].level == t[x].level + 1
    } by {
        let k = if mirror {
            t[x].children.len() - 1 - i
        } else {
            i
        };
        assert(child_ok(t, x, k));
        assert(node_ok(t, t[x].children[k] as int));
    }
}

// Depth first, parents before children

/// The state of a pre-order walk: the node to give next, and the nodes whose
/// subtrees wait, the nearest on top.
struct PreWalk {
    next: usize,
    stack: Vec<usize>,
    finished: bool,
}

/// Pre-order of the subtrees that wait on a stack, the top one first.
spec fn pre_waiting(t: Seq<NodeView>, s: Seq<usize>, mirror: bool) -> Seq<usize>
    decreases s.len(),
{
    if s.len() == 0 {
        Seq::empty()
    } else {
        pre(t, s.last() as int, mirror) + pre_waiting(t, s.drop_last(), mirror)
    }
}

/// With the children of `x` on the stack, against walking direction, the
/// subtrees of the children come first, in walking direction.
proof fn lemma_pre_waiting(t: Seq<NodeView>, s: Seq<usize>, x: int, mirror: bool, j: int)
    requires
        wf(t),
        0 <= x < t.len(),
        0 <= j <= t[x].children.len(),
    ensures
        pre_waiting(t, s + kids(t, x, !mirror).take(j), mirror) == pre_kids(
            t,
            x,
            t[x].children.len() - j,
            mirror,
        ) + pre_waiting(t, s, mirror),
    decreases j,
{
    let c = t[x].children.len() as int;
    let r = kids(t, x, !mirror);
    lemma_kids(t, x, !mirror);
    lemma_kids(t, x, mirror);
    if j == 0 {
        assert(s + r.take(0) =~= s);
    } else {
        lemma_pre_waiting(t, s, x, mirror, j - 1);
        let s1 = s + r.take(j - 1);
        assert(s + r.take(j) =~= s1.push(r[j - 1]));
        assert(s1.push(r[j - 1]).drop_last() =~= s1);
        assert(r[j - 1] == kid(t, x, c - j, mirror));
        assert(r[j - 1] == kids(t, x, mirror)[c - j]);
    }
}

impl PreWalk {
    spec fn ok(&self, t: Seq<NodeView>) -> bool {
        !self.finished && t.len() > 0 ==> self.next < t.len() && forall|k: int|
            0 <= k < self.stack@.len() ==> #[trigger] self.stack@[k] < t.len()
    }

    spec fn rem(&self, t: Seq<NodeView>, mirror: bool) -> Seq<usize> {
        if self.finished || t.len() == 0 {
            Seq::empty()
        } else {
            pre(t, self.next as int, mirror) + pre_waiting(t, self.stack@, mirror)
        }
    }

    fn start(Ghost(t): Ghost<Seq<NodeView>>, Ghost(mirror): Ghost<bool>) -> (r: Self)
        ensures
            r.ok(t),
            r.rem(t, mirror) == pre_order(t, mirror),
    {
        let r = PreWalk { next: 0, stack: Vec::new(), finished: false };
        assert(r.rem(t, mirror) =~= pre_order(t, mirror));
        r
    }

    fn step<T: NodeContent>(&mut self, tree: &Tree<T>, mirror: bool) -> (r: Option<usize>)
        requires
            tree.wf(),
            old(self).ok(tree@),
        ensures
            final(self).ok(tree@),
            r is None ==> old(self).rem(tree@, mirror).len() == 0 && final(self).rem(tree@, mirror)
                == old(self).rem(tree@, mirror),
            r matches Some(x) ==> x < tree@.len() && old(self).rem(tree@, mirror).len() > 0 && x
                == old(self).rem(tree@, mirror)[0] && final(self).rem(tree@, mirror) == old(
                self,
            ).rem(tree@, mirror).drop_first(),
    {
        if self.finished || tree.get_nodes_len() == 0 {
            return None;
        }
        let ghost t = tree@;
        let x = self.next;
        let ghost waiting = self.stack@;
        push_kids(tree, x, &mut self.stack, !mirror);
        proof {
            lemma_kids(t, x as int, !mirror);
            lemma_pre_waiting(t, waiting, x as int, mirror, t[x as int].children.len() as int);
            assert(kids(t, x as int, !mirror).take(t[x as int].children.len() as int) =~= kids(
                t,
                x as int,
                !mirror,
            ));
        }
        match self.stack.pop() {
            Some(top) => {
                self.next = top;
            },
            None => {
                self.finished = true;
            },
        }
        assert(self.rem(t, mirror) =~= old(self).rem(t, mirror).drop_first());
        Some(x)
    }
}

/// Walks the tree depth first, each node before its children, the children
/// from left to right.
pub struct PreDfsIter<'a, 'b, T: NodeContent> {
    tree: &'b TreeModel<'a, T>,
    walk: PreWalk,
}

impl<'a, 'b, T: NodeContent> PreDfsIter<'a, 'b, T> {
    /// The tree that is walked.
    pub closed spec fn model(&self) -> &'b TreeModel<'a, T> {
        self.tree
    }

    /// The walker is in order.
    pub closed spec fn wf(&self) -> bool {
        self.tree.wf() && self.walk.ok(self.tree.nodes())
    }

    /// The positions yet to come.
    pub closed spec fn remaining(&self) -> Seq<usize> {
        self.walk.rem(self.tree.nodes(), false)
    }

    /// A walker at its start.
    pub fn new(tree: &'b TreeModel<'a, T>) -> (r: Self)
        requires
            tree.wf(),
        ensures
            r.wf(),
            r.model() == tree,
            r.remaining() == pre_order(tree.nodes(), false),
    {
        Self { tree, walk: PreWalk::start(Ghost(tree.nodes()), Ghost(false)) }
    }

    /// The next node and its position.
    pub fn next(&mut self) -> (r: Option<(&'a TreeNode<T>, usize)>)
        requires
            old(self).wf(),
        ensures
            final(self).wf(),
            final(self).model() == old(self).model(),
            yields(old(self).model().tree(), old(self).remaining(), final(self).remaining(), r),
    {
        let tree = self.tree.get_tree();
        match self.walk.step(tree, false) {
            Some(position) => node_at(tree, position),
            None => None,
        }
    }
}

/// Walks the tree depth first, each node before its children, the children
/// from right to left.
pub struct InvPreDfsIter<'a, 'b, T: NodeContent> {
    tree: &'b TreeModel<'a, T>,
    walk: PreWalk,
}

impl<'a, 'b, T: NodeContent> InvPreDfsIter<'a, 'b, T> {
    /// The tree that is walked.
    pub closed spec fn model(&self) -> &'b TreeModel<'a, T> {
        self.tree
    }

    /// The walker is in order.
    pub closed spec fn wf(&self) -> bool {
        self.tree.wf() && self.walk.ok(self.tree.nodes())
    }

    /// The positions yet to come.
    pub closed spec fn remaining(&self) -> Seq<usize> {
        self.walk.rem(self.tree.nodes(), true)
    }

    /// A walker at its start.
    pub fn new(tree: &'b TreeModel<'a, T>) -> (r: Self)
        requires
            tree.wf(),
        ensures
            r.wf(),
            r.model() == tree,
            r.remaining() == pre_order(tree.nodes(), true),
    {
        Self { tree, walk: PreWalk::start(Ghost(tree.nodes()), Ghost(true)) }
    }

    /// The next node and its position.
    pub fn next(&mut self) -> (r: Option<(&'a TreeNode<T>, usize)>)
        requires
            old(self).wf(),
        ensures
            final(self).wf(),
            final(self).model() == old(self).model(),
            yields(old(self).model().tree(), old(self).remaining(), final(self).remaining(), r),
    {
        let tree = self.tree.get_tree();
        match self.walk.step(tree, true) {
            Some(position) => node_at(tree, position),
            None => None,
        }
    }
}

// Depth first, children before parents

/// The state of a post-order walk: the nodes that wait, the nearest on top,
/// each with a mark that says whether its children are still to be put on
/// the stack.
struct PostWalk {
    stack: Vec<(usize, bool)>,
}

/// What one waiting entry stands for: the post-order of the node's subtree
/// while its children are to come, the node alone once they are on the stack.
spec fn post_entry(t: Seq<NodeView>, e: (usize, bool), mirror: bool) -> Seq<usize> {
    if e.1 {
        post(t, e.0 as int, mirror)
    } else {
        seq![e.0]
    }
}

/// What the entries of a stack stand for, the top one first.
spec fn post_waiting(t: Seq<NodeView>, s: Seq<(usize, bool)>, mirror: bool) -> Seq<usize>
    decreases s.len(),
{
    if s.len() == 0 {
        Seq::empty()
    } else {
        post_entry(t, s.last(), mirror) + post_waiting(t, s.drop_last(), mirror)
    }
}

/// Positions as entries whose children are to come.
spec fn marked(ks: Seq<usize>) -> Seq<(usize, bool)> {
    Seq::new(ks.len(), |i: int| (ks[i], true))
}

/// With the children of `x` on the stack, against walking direction, the
/// subtrees of the children come first, in walking direction.
proof fn lemma_post_waiting(t: Seq<NodeView>, s: Seq<(usize, bool)>, x: int, mirror: bool, j: int)
    requires
        wf(t),
        0 <= x < t.len(),
        0 <= j <= t[x].children.len(),
    ensures
        post_waiting(t, s + marked(kids(t, x, !mirror)).take(j), mirror) == post_kids(
            t,
            x,
            t[x].children.len() - j,
            mirror,
        ) + post_waiting(t, s, mirror),
    decreases j,
{
    let c = t[x].children.len() as int;
    let r = marked(kids(t, x, !mirror));
    lemma_kids(t, x, !mirror);
    lemma_kids(t, x, mirror);
    if j == 0 {
        assert(s + r.take(0) =~= s);
    } else {
        lemma_post_waiting(t, s, x, mirror, j - 1);
        let s1 = s + r.take(j - 1);
        assert(s + r.take(j) =~= s1.push(r[j - 1]));
        assert(s1.push(r[j - 1]).drop_last() =~= s1);
        assert(r[j - 1].0 == kid(t, x, c - j, mirror));
        assert(r[j - 1].0 == kids(t, x, mirror)[c - j]);
    }
}

/// Puts the children of `x` on the stack, in walking direction, each marked
/// as one whose children are to come.
fn push_marked_kids<T: NodeContent>(
    tree: &Tree<T>,
    x: usize,
    onto: &mut Vec<(usize, bool)>,
    mirror: bool,
)
    requires
        x < tree@.len(),
    ensures
        final(onto)@ == old(onto)@ + marked(kids(tree@, x as int, mirror)),
{
    let children = match tree.get_node(x) {
        Some(node) => node.get_children_ref(),
        None => { return ; },
    };
    let c = children.len();
    let mut i: usize = 0;
    while i < c
        invariant
            i <= c,
            c == children@.len(),
            children@ == tree@[x as int].children,
            onto@ == old(onto)@ + marked(kids(tree@, x as int, mirror)).take(i as int),
        decreases c - i,
    {
        let k = if mirror {
            children[c - 1 - i]
        } else {
            children[i]
        };
        onto.push((k, true));
        assert(marked(kids(tree@, x as int, mirror)).take(i + 1) =~= marked(
            kids(tree@, x as int, mirror),
        ).take(i as int).push((k, true)));
        i = i + 1;
    }
    assert(marked(kids(tree@, x as int, mirror)).take(c as int) =~= marked(
        kids(tree@, x as int, mirror),
    ));
}

impl PostWalk {
    spec fn ok(&self, t: Seq<NodeView>) -> bool {
        forall|k: int| 0 <= k < self.stack@.len() ==> (#[trigger] self.stack@[k]).0 < t.len()
    }

    spec fn rem(&self, t: Seq<NodeView>, mirror: bool) -> Seq<usize> {
        post_waiting(t, self.stack@, mirror)
    }

    fn start<T: NodeContent>(tree: &Tree<T>, Ghost(mirror): Ghost<bool>) -> (r: Self)
        ensures
            r.ok(tree@),
            r.rem(tree@, mirror) == post_order(tree@, mirror),
    {
        let mut stack: Vec<(usize, bool)> = Vec::new();
        if tree.get_nodes_len() > 0 {
            stack.push((0, true));
            assert(stack@.drop_last() =~= Seq::empty());
            assert(stack@.last() == (0usize, true));
            assert(post_waiting(tree@, stack@.drop_last(), mirror) =~= Seq::empty());
            assert(post_waiting(tree@, stack@, mirror) =~= post(tree@, 0, mirror));
        }
        let r = PostWalk { stack };
        assert(r.rem(tree@, mirror) =~= post_order(tree@, mirror));
        r
    }

    fn step<T: NodeContent>(&mut self, tree: &Tree<T>, mirror: bool) -> (r: Option<usize>)
        requires
            tree.wf(),
            old(self).ok(tree@),
        ensures
            final(self).ok(tree@),
            r is None ==> old(self).rem(tree@, mirror).len() == 0 && final(self).rem(tree@, mirror)
                == old(self).rem(tree@, mirror),
            r matches Some(x) ==> x < tree@.len() && old(self).rem(tree@, mirror).len() > 0 && x
                == old(self).rem(tree@, mirror)[0] && final(self).rem(tree@, mirror) == old(
                self,
            ).rem(tree@, mirror).drop_first(),
    {
        let ghost t = tree@;
        let ghost before = self.rem(t, mirror);
        let ghost mut reached: int = -1;
        loop
            invariant
                tree.wf(),
                t == tree@,
                self.ok(t),
                self.rem(t, mirror) == before,
                before == old(self).rem(t, mirror),
                -1 <= reached < t.len() || self.stack@.len() == 0,
                self.stack@.len() > 0 && reached >= 0 ==> self.stack@.last().0 > reached,
            decreases t.len() - reached,
        {
            let ghost whole = self.stack@;
            let (x, unfold) = match self.stack.pop() {
                Some(entry) => entry,
                None => {
                    return None;
                },
            };
            let ghost rest = self.stack@;
            assert(rest == whole.drop_last());
            assert(whole.last() == (x, unfold));
            let node = match tree.get_node(x) {
                Some(node) => node,
                None => {
                    return None;
                },
            };
            if !unfold || node.get_num_children() == 0 {
                proof {
                    if unfold {
                        assert(post_kids(t, x as int, 0, mirror) =~= Seq::empty());
                    }
                    assert(post_entry(t, (x, unfold), mirror) =~= seq![x]);
                    assert(self.rem(t, mirror) =~= before.drop_first());
                }
                return Some(x);
            }
            self.stack.push((x, false));
            let ghost base = self.stack@;
            push_marked_kids(tree, x, &mut self.stack, !mirror);
            proof {
                let c = t[x as int].children.len() as int;
                lemma_kids(t, x as int, !mirror);
                lemma_post_waiting(t, base, x as int, mirror, c);
                assert(marked(kids(t, x as int, !mirror)).take(c) =~= marked(
                    kids(t, x as int, !mirror),
                ));
                assert(base.drop_last() =~= rest);
                assert(post_waiting(t, base, mirror) =~= seq![x] + post_waiting(t, rest, mirror));
                assert(self.rem(t, mirror) =~= before);
                assert(self.stack@.last() == marked(kids(t, x as int, !mirror)).last());
                reached = x as int;
            }
        }
    }
}

/// Walks the tree depth first, each node after its children, the children
/// from left to right.
pub struct PostDfsIter<'a, 'b, T: NodeContent> {
    tree: &'b TreeModel<'a, T>,
    walk: PostWalk,
}

impl<'a, 'b, T: NodeContent> PostDfsIter<'a, 'b, T> {
    /// The tree that is walked.
    pub closed spec fn model(&self) -> &'b TreeModel<'a, T> {
        self.tree
    }

    /// The walker is in order.
    pub closed spec fn wf(&self) -> bool {
        self.tree.wf() && self.walk.ok(self.tree.nodes())
    }

    /// The positions yet to come.
    pub closed spec fn remaining(&self) -> Seq<usize> {
        self.walk.rem(self.tree.nodes(), false)
    }

    /// A walker at its start.
    pub fn new(tree: &'b TreeModel<'a, T>) -> (r: Self)
        requires
            tree.wf(),
        ensures
            r.wf(),
            r.model() == tree,
            r.remaining() == post_order(tree.nodes(), false),
    {
        Self { tree, walk: PostWalk::start(tree.get_tree(), Ghost(false)) }
    }

    /// The next node and its position.
    pub fn next(&mut self) -> (r: Option<(&'a TreeNode<T>, usize)>)
        requires
            old(self).wf(),
        ensures
            final(self).wf(),
            final(self).model() == old(self).model(),
            yields(old(self).model().tree(), old(self).remaining(), final(self).remaining(), r),
    {
        let tree = self.tree.get_tree();
        match self.walk.step(tree, false) {
            Some(position) => node_at(tree, position),
            None => None,
        }
    }
}

/// Walks the tree depth first, each node after its children, the children
/// from right to left.
pub struct InvPostDfsIter<'a, 'b, T: NodeContent> {
    tree: &'b TreeModel<'a, T>,
    walk: PostWalk,
}

impl<'a, 'b, T: NodeContent> InvPostDfsIter<'a, 'b, T> {
    /// The tree that is walked.
    pub closed spec fn model(&self) -> &'b TreeModel<'a, T> {
        self.tree
    }

    /// The walker is in order.
    pub closed spec fn wf(&self) -> bool {
        self.tree.wf() && self.walk.ok(self.tree.nodes())
    }

    /// The positions yet to come.
    pub closed spec fn remaining(&self) -> Seq<usize> {
        self.walk.rem(self.tree.nodes(), true)
    }

    /// A walker at its start.
    pub fn new(tree: &'b TreeModel<'a, T>) -> (r: Self)
        requires
            tree.wf(),
        ensures
            r.wf(),
            r.model() == tree,
            r.remaining() == post_order(tree.nodes(), true),
    {
        Self { tree, walk: PostWalk::start(tree.get_tree(), Ghost(true)) }
    }

    /// The next node and its position.
    pub fn next(&mut self) -> (r: Option<(&'a TreeNode<T>, usize)>)
        requires
            old(self).wf(),
        ensures
            final(self).wf(),
            final(self).model() == old(self).model(),
            yields(old(self).model().tree(), old(self).remaining(), final(self).remaining(), r),
    {
        let tree = self.tree.get_tree();
        match self.walk.step(tree, true) {
            Some(position) => node_at(tree, position),
            None => None,
        }
    }
}

// Breadth first, with a queue

/// The state of a level-order walk: the node to give next, and the queue
/// behind it. The queue holds the rest of the row of `next`, then the part
/// of the row below that is known so far; `split` is where the one ends and
/// the other begins.
struct QueueWalk {
    queue: Vec<usize>,
    next: usize,
    finished: bool,
    split: Ghost<int>,
}

/// What a level-order walk has yet to give: the node `next`, the rest of
/// its row, and the rows below, of which the queue holds the part behind
/// `split`.
spec fn queue_rem(
    t: Seq<NodeView>,
    mirror: bool,
    next: usize,
    queue: Seq<usize>,
    split: int,
) -> Seq<usize> {
    let row = queue.take(split);
    let below = queue.skip(split);
    seq![next] + row + rows_from(
        t,
        below + kids(t, next as int, mirror) + kids_all(t, row, mirror),
        t[next as int].level + 1,
        mirror,
    )
}

/// A step within a row.
proof fn lemma_queue_same_row(
    t: Seq<NodeView>,
    mirror: bool,
    x: usize,
    queue: Seq<usize>,
    split: int,
)
    requires
        0 < split <= queue.len(),
        t[queue[0] as int].level == t[x as int].level,
    ensures
        queue_rem(
            t,
            mirror,
            queue[0],
            (queue + kids(t, x as int, mirror)).drop_first(),
            split - 1,
        ) == queue_rem(t, mirror, x, queue, split).drop_first(),
{
    let ks = kids(t, x as int, mirror);
    let row = queue.take(split);
    let below = queue.skip(split);
    let first = queue[0];
    let q1 = (queue + ks).drop_first();
    assert(q1.take(split - 1) =~= row.drop_first());
    assert(q1.skip(split - 1) =~= below + ks);
    assert(first == row[0]);
    assert(kids_all(t, row, mirror) =~= kids(t, first as int, mirror) + kids_all(
        t,
        row.drop_first(),
        mirror,
    ));
    assert(below + ks + kids_all(t, row, mirror) =~= (below + ks) + kids(t, first as int, mirror)
        + kids_all(t, row.drop_first(), mirror));
    assert(seq![first] + row.drop_first() =~= row);
    assert(queue_rem(t, mirror, x, queue, split).drop_first() =~= row + rows_from(
        t,
        below + ks + kids_all(t, row, mirror),
        t[x as int].level + 1,
        mirror,
    ));
}

/// A step from the end of a row to the start of the row below.
proof fn lemma_queue_next_row(t: Seq<NodeView>, mirror: bool, x: usize, queue: Seq<usize>)
    requires
        (queue + kids(t, x as int, mirror)).len() > 0,
        t[(queue + kids(t, x as int, mirror))[0] as int].level == t[x as int].level + 1,
        t[x as int].level + 1 <= t.len(),
    ensures
        queue_rem(
            t,
            mirror,
            (queue + kids(t, x as int, mirror))[0],
            (queue + kids(t, x as int, mirror)).drop_first(),
            (queue + kids(t, x as int, mirror)).len() - 1,
        ) == queue_rem(t, mirror, x, queue, 0).drop_first(),
{
    let ks = kids(t, x as int, mirror);
    let next_row = queue + ks;
    let first = next_row[0];
    let rest = next_row.drop_first();
    let d = t[x as int].level as int;
    assert(queue.take(0) =~= Seq::empty());
    assert(queue.skip(0) =~= queue);
    assert(kids_all(t, queue.take(0), mirror) =~= Seq::empty());
    assert(queue + ks + kids_all(t, queue.take(0), mirror) =~= next_row);
    assert(queue_rem(t, mirror, x, queue, 0).drop_first() =~= rows_from(
        t,
        next_row,
        d + 1,
        mirror,
    ));
    assert(rest.take(next_row.len() - 1) =~= rest);
    assert(rest.skip(next_row.len() - 1) =~= Seq::empty());
    assert(kids_all(t, next_row, mirror) =~= kids(t, first as int, mirror) + kids_all(
        t,
        rest,
        mirror,
    ));
    assert(Seq::<usize>::empty() + kids(t, first as int, mirror) + kids_all(t, rest, mirror)
        =~= kids_all(t, next_row, mirror));
    assert(seq![first] + rest =~= next_row);
    assert(rows_from(t, next_row, d + 1, mirror) =~= next_row + rows_from(
        t,
        kids_all(t, next_row, mirror),
        d + 2,
        mirror,
    ));
}

/// The last step.
proof fn lemma_queue_end(t: Seq<NodeView>, mirror: bool, x: usize, queue: Seq<usize>)
    requires
        (queue + kids(t, x as int, mirror)).len() == 0,
    ensures
        queue_rem(t, mirror, x, queue, 0).drop_first() == Seq::<usize>::empty(),
{
    let ks = kids(t, x as int, mirror);
    assert(queue =~= Seq::empty());
    assert(ks =~= Seq::empty());
    assert(queue.take(0) =~= Seq::empty());
    assert(kids_all(t, queue.take(0), mirror) =~= Seq::empty());
    assert(queue.skip(0) + ks + kids_all(t, queue.take(0), mirror) =~= Seq::empty());
    assert(queue_rem(t, mirror, x, queue, 0).drop_first() =~= Seq::<usize>::empty());
}

impl QueueWalk {
    spec fn ok(&self, t: Seq<NodeView>) -> bool {
        !self.finished && t.len() > 0 ==> {
            &&& self.next < t.len()
            &&& 0 <= self.split@ <= self.queue@.len()
            &&& forall|k: int|
                0 <= k < self.queue@.len() ==> {
                    &&& #[trigger] self.queue@[k] < t.len()
                    &&& k < self.split@ ==> t[self.queue@[k] as int].level
                        == t[self.next as int].level
                    &&& k >= self.split@ ==> t[self.queue@[k] as int].level
                        == t[self.next as int].level + 1
                }
        }
    }

    spec fn rem(&self, t: Seq<NodeView>, mirror: bool) -> Seq<usize> {
        if self.finished || t.len() == 0 {
            Seq::empty()
        } else {
            queue_rem(t, mirror, self.next, self.queue@, self.split@)
        }
    }

    fn start(Ghost(t): Ghost<Seq<NodeView>>, Ghost(mirror): Ghost<bool>) -> (r: Self)
        requires
            wf(t),
        ensures
            r.ok(t),
            r.rem(t, mirror) == bfs_order(t, mirror),
    {
        let r = QueueWalk { queue: Vec::new(), next: 0, finished: false, split: Ghost(0) };
        proof {
            if t.len() > 0 {
                assert(node_ok(t, 0));
                let first = seq![0usize];
                assert(first.drop_first() =~= Seq::empty());
                assert(kids_all(t, first.drop_first(), mirror) =~= Seq::empty());
                assert(kids_all(t, first, mirror) =~= kids(t, 0, mirror));
                assert(r.queue@.take(0) =~= Seq::empty());
                assert(kids_all(t, r.queue@.take(0), mirror) =~= Seq::empty());
                assert(r.queue@.skip(0) + kids(t, 0, mirror) + kids_all(t, r.queue@.take(0), mirror)
                    =~= kids(t, 0, mirror));
                assert(r.rem(t, mirror) =~= bfs_order(t, mirror));
            }
        }
        r
    }

    fn step<T: NodeContent>(&mut self, tree: &Tree<T>, mirror: bool) -> (r: Option<usize>)
        requires
            tree.wf(),
            old(self).ok(tree@),
        ensures
            final(self).ok(tree@),
            r is None ==> old(self).rem(tree@, mirror).len() == 0 && final(self).rem(tree@, mirror)
                == old(self).rem(tree@, mirror),
            r matches Some(x) ==> x < tree@.len() && old(self).rem(tree@, mirror).len() > 0 && x
                == old(self).rem(tree@, mirror)[0] && final(self).rem(tree@, mirror) == old(
                self,
            ).rem(tree@, mirror).drop_first(),
    {
        if self.finished || tree.get_nodes_len() == 0 {
            return None;
        }
        let ghost t = tree@;
        let x = self.next;
        let ghost held = self.queue@;
        let ghost split = self.split@;
        push_kids(tree, x, &mut self.queue, mirror);
        proof {
            lemma_kids(t, x as int, mirror);
        }
        if self.queue.len() > 0 {
            let first = self.queue.remove(0);
            self.next = first;
            proof {
                assert(self.queue@ =~= (held + kids(t, x as int, mirror)).drop_first());
                assert(first == (held + kids(t, x as int, mirror))[0]);
                if split > 0 {
                    self.split@ = split - 1;
                    lemma_queue_same_row(t, mirror, x, held, split);
                } else {
                    self.split@ = self.queue@.len() as int;
                    assert(node_ok(t, first as int));
                    lemma_queue_next_row(t, mirror, x, held);
                }
            }
        } else {
            self.finished = true;
            proof {
                lemma_queue_end(t, mirror, x, held);
            }
        }
        Some(x)
    }
}

/// Walks the tree level by level, each level from left to right, finding
/// the children as it goes. It needs no level index.
pub struct BfsIter<'a, 'b, T: NodeContent> {
    tree: &'b TreeModel<'a, T>,
    walk: QueueWalk,
}

impl<'a, 'b, T: NodeContent> BfsIter<'a, 'b, T> {
    /// The tree that is walked.
    pub closed spec fn model(&self) -> &'b TreeModel<'a, T> {
        self.tree
    }

    /// The walker is in order.
    pub closed spec fn wf(&self) -> bool {
        self.tree.wf() && self.walk.ok(self.tree.nodes())
    }

    /// The positions yet to come.
    pub closed spec fn remaining(&self) -> Seq<usize> {
        self.walk.rem(self.tree.nodes(), false)
    }

    /// A walker at its start.
    pub fn new(tree: &'b TreeModel<'a, T>) -> (r: Self)
        requires
            tree.wf(),
        ensures
            r.wf(),
            r.model() == tree,
            r.remaining() == bfs_order(tree.nodes(), false),
    {
        Self { tree, walk: QueueWalk::start(Ghost(tree.nodes()), Ghost(false)) }
    }

    /// The next node and its position.
    pub fn next(&mut self) -> (r: Option<(&'a TreeNode<T>, usize)>)
        requires
            old(self).wf(),
        ensures
            final(self).wf(),
            final(self).model() == old(self).model(),
            yields(old(self).model().tree(), old(self).remaining(), final(self).remaining(), r),
    {
        let tree = self.tree.get_tree();
        match self.walk.step(tree, false) {
            Some(position) => node_at(tree, position),
            None => None,
        }
    }
}

/// Walks the tree level by level, each level from right to left, finding
/// the children as it goes. It needs no level index.
pub struct InvBfsIter<'a, 'b, T: NodeContent> {
    tree: &'b TreeModel<'a, T>,
    walk: QueueWalk,
}

impl<'a, 'b, T: NodeContent> InvBfsIter<'a, 'b, T> {
    /// The tree that is walked.
    pub closed spec fn model(&self) -> &'b TreeModel<'a, T> {
        self.tree
    }

    /// The walker is in order.
    pub closed spec fn wf(&self) -> bool {
        self.tree.wf() && self.walk.ok(self.tree.nodes())
    }

    /// The positions yet to come.
    pub closed spec fn remaining(&self) -> Seq<usize> {
        self.walk.rem(self.tree.nodes(), true)
    }

    /// A walker at its start.
    pub fn new(tree: &'b TreeModel<'a, T>) -> (r: Self)
        requires
            tree.wf(),
        ensures
            r.wf(),
            r.model() == tree,
            r.remaining() == bfs_order(tree.nodes(), true),
    {
        Self { tree, walk: QueueWalk::start(Ghost(tree.nodes()), Ghost(true)) }
    }

    /// The next node and its position.
    pub fn next(&mut self) -> (r: Option<(&'a TreeNode<T>, usize)>)
        requires
            old(self).wf(),
        ensures
            final(self).wf(),
            final(self).model() == old(self).model(),
            yields(old(self).model().tree(), old(self).remaining(), final(self).remaining(), r),
    {
        let tree = self.tree.get_tree();
        match self.walk.step(tree, true) {
            Some(position) => node_at(tree, position),
            None => None,
        }
    }
}

// Breadth first, by whichever way the tree offers

/// Walks the tree level by level, each level from left to right: along the
/// level index where the tree has one, with a queue where it has none.
pub struct BfsIterSwitch<'a, 'b, T: NodeContent> {
    iter: Option<BfsIter<'a, 'b, T>>,
    level_iter: Option<level_iters::BfsIter<'a, 'b, T>>,
    levels: bool,
}

impl<'a, 'b, T: NodeContent> BfsIterSwitch<'a, 'b, T> {
    /// The tree that is walked.
    pub closed spec fn model(&self) -> &'b TreeModel<'a, T> {
        if self.levels {
            self.level_iter->0.model()
        } else {
            self.iter->0.model()
        }
    }

    /// The walker is in order.
    pub closed spec fn wf(&self) -> bool {
        if self.levels {
            self.level_iter is Some && self.level_iter->0.wf()
        } else {
            self.iter is Some && self.iter->0.wf()
        }
    }

    /// Whether the walk goes along the level index.
    pub closed spec fn by_index(&self) -> bool {
        self.levels
    }

    /// The positions yet to come.
    pub closed spec fn remaining(&self) -> Seq<usize> {
        if self.levels {
            self.level_iter->0.remaining()
        } else {
            self.iter->0.remaining()
        }
    }

    /// A walker at its start.
    pub fn new(tree: &'b TreeModel<'a, T>) -> (r: Self)
        requires
            tree.wf(),
        ensures
            r.wf(),
            r.model() == tree,
            r.by_index() == tree.rows().is_some(),
            r.remaining() == (if tree.rows() is Some {
                index_order(tree.rows(), false)
            } else {
                bfs_order(tree.nodes(), false)
            }),
    {
        let levels = tree.get_levels().is_some();
        if levels {
            Self { levels, iter: None, level_iter: Some(level_iters::BfsIter::new(tree)) }
        } else {
            Self { levels, iter: Some(BfsIter::new(tree)), level_iter: None }
        }
    }

    /// The next node and its position.
    pub fn next(&mut self) -> (r: Option<(&'a TreeNode<T>, usize)>)
        requires
            old(self).wf(),
        ensures
            final(self).wf(),
            final(self).model() == old(self).model(),
            final(self).by_index() == old(self).by_index(),
            yields(old(self).model().tree(), old(self).remaining(), final(self).remaining(), r),
    {
        if self.levels {
            match &mut self.level_iter {
                Some(walker) => walker.next(),
                None => None,
            }
        } else {
            match &mut self.iter {
                Some(walker) => walker.next(),
                None => None,
            }
        }
    }
}

/// Walks the tree level by level, each level from right to left: along the
/// level index where the tree has one, with a queue where it has none.
pub struct InvBfsIterSwitch<'a, 'b, T: NodeContent> {
    iter: Option<InvBfsIter<'a, 'b, T>>,
    level_iter: Option<level_iters::InvBfsIter<'a, 'b, T>>,
    levels: bool,
}

impl<'a, 'b, T: NodeContent> InvBfsIterSwitch<'a, 'b, T> {
    /// The tree that is walked.
    pub closed spec fn model(&self) -> &'b TreeModel<'a, T> {
        if self.levels {
            self.level_iter->0.model()
        } else {
            self.iter->0.model()
        }
    }

    /// The walker is in order.
    pub closed spec fn wf(&self) -> bool {
        if self.levels {
            self.level_iter is Some && self.level_iter->0.wf()
        } else {
            self.iter is Some && self.iter->0.wf()
        }
    }

    /// Whether the walk goes along the level index.
    pub closed spec fn by_index(&self) -> bool {
        self.levels
    }

    /// The positions yet to come.
    pub closed spec fn remaining(&self) -> Seq<usize> {
        if self.levels {
            self.level_iter->0.remaining()
        } else {
            self.iter->0.remaining()
        }
    }

    /// A walker at its start.
    pub fn new(tree: &'b TreeModel<'a, T>) -> (r: Self)
        requires
            tree.wf(),
        ensures
            r.wf(),
            r.model() == tree,
            r.by_index() == tree.rows().is_some(),
            r.remaining() == (if tree.rows() is Some {
                index_order(tree.rows(), true)
            } else {
                bfs_order(tree.nodes(), true)
            }),
    {
        let levels = tree.get_levels().is_some();
        if levels {
            Self { levels, iter: None, level_iter: Some(level_iters::InvBfsIter::new(tree)) }
        } else {
            Self { levels, iter: Some(InvBfsIter::new(tree)), level_iter: None }
        }
    }

    /// The next node and its position.
    pub fn next(&mut self) -> (r: Option<(&'a TreeNode<T>, usize)>)
        requires
            old(self).wf(),
        ensures
            final(self).wf(),
            final(self).model() == old(self).model(),
            final(self).by_index() == old(self).by_index(),
            yields(old(self).model().tree(), old(self).remaining(), final(self).remaining(), r),
    {
        if self.levels {
            match &mut self.level_iter {
                Some(walker) => walker.next(),
                None => None,
            }
        } else {
            match &mut self.iter {
                Some(walker) => walker.next(),
                None => None,
            }
        }
    }
}

} // verus!
