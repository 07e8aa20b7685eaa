//! The stack that resolves parents while a document is read: the path from
//! the root to the node read last, as pairs of depth and position.

use vstd::prelude::*;

verus! {

/// One entry of the stack: a node's depth and its position in the arena.
#[derive(Debug)]
pub struct NodeStackContent {
    pub level: usize,
    pub tree_position: usize,
}

impl NodeStackContent {
    /// An entry.
    pub fn new(level: usize, tree_position: usize) -> (r: Self)
        ensures
            r.level == level,
            r.tree_position == tree_position,
    {
        Self { level, tree_position }
    }
}

/// The index of the topmost entry of `s` whose depth is below `level`; -1
/// where there is none.
pub open spec fn parent_index(s: Seq<NodeStackContent>, level: usize) -> int
    decreases s.len(),
{
    if s.len() == 0 {
        -1
    } else if s.last().level < level {
        s.len() - 1
    } else {
        parent_index(s.drop_last(), level)
    }
}

/// The stack of pending ancestors.
#[derive(Debug)]
pub struct NodeStack {
    buffer: Vec<NodeStackContent>,
}

impl View for NodeStack {
    type V = Seq<NodeStackContent>;

    closed spec fn view(&self) -> Seq<NodeStackContent> {
        self.buffer@
    }
}

impl NodeStack {
    /// An empty stack.
    pub fn new() -> (r: Self)
        ensures
            r@.len() == 0,
    {
        Self { buffer: Vec::new() }
    }

    /// Puts an entry on top.
    pub fn push(&mut self, obj: NodeStackContent)
        ensures
            final(self)@ == old(self)@.push(obj),
    {
        self.buffer.push(obj);
    }

    /// Puts a new entry on top.
    pub fn push_new(&mut self, level: usize, tree_position: usize)
        ensures
            final(self)@ == old(self)@.push(NodeStackContent { level, tree_position }),
    {
        self.buffer.push(NodeStackContent::new(level, tree_position));
    }

    /// Takes the top entry off.
    pub fn pop(&mut self) -> (r: Option<NodeStackContent>)
        ensures
            old(self)@.len() == 0 ==> r is None && final(self)@ == old(self)@,
            old(self)@.len() > 0 ==> r == Some(old(self)@.last()) && final(self)@ == old(
                self,
            )@.drop_last(),
    {
        self.buffer.pop()
    }

    /// Takes entries off until one of a depth below `level` comes, and
    /// returns that one: the parent of a node of depth `level`. Where no
    /// entry lies below `level`, the stack ends up empty.
    pub fn pop_parent(&mut self, level: usize) -> (r: Option<NodeStackContent>)
        ensures
            parent_index(old(self)@, level) < 0 ==> r is None && final(self)@.len() == 0,
            parent_index(old(self)@, level) >= 0 ==> r == Some(
                old(self)@[parent_index(old(self)@, level)],
            ) && final(self)@ == old(self)@.take(parent_index(old(self)@, level)),
    {
        loop
            invariant
                parent_index(self@, level) == parent_index(old(self)@, level),
                self@.len() <= old(self)@.len(),
                self@ == old(self)@.take(self@.len() as int),
            decreases self@.len(),
        {
            match self.pop() {
                Some(n_node) => {
                    if n_node.level < level {
                        return Some(n_node);
                    }
                },
                None => {
                    return None;
                },
            }
        }
    }

    /// Empties the stack.
    pub fn flush(&mut self)
        ensures
            final(self)@.len() == 0,
    {
        self.buffer.truncate(0);
    }

    /// The top entry.
    pub fn top(&self) -> (r: Option<&NodeStackContent>)
        ensures
            self@.len() == 0 ==> r is None,
            self@.len() > 0 ==> r == Some(&self@.last()),
    {
        let n = self.buffer.len();
        if n > 0 {
            Some(&self.buffer[n - 1])
        } else {
            None
        }
    }
}

} // verus!
