//! Walking a tree level by level along its level index.
//!
//! A level index is made while a document is read and is not kept up when
//! the tree is changed afterwards: these walkers give what the index lists.

use crate::iter::{node_at, yields};
use crate::order::{index_order, index_order_up, index_rows, index_rows_up};
use crate::tree::{level_rows, NodeContent, opt_rows, TreeLevel, TreeModel, TreeNode};
use vstd::prelude::*;

verus! {

/// One row in walking direction.
spec fn row_of(row: Seq<usize>, mirror: bool) -> Seq<usize> {
    if mirror {
        row.reverse()
    } else {
        row
    }
}

/// The level index lists the position.
spec fn listed(lv: Seq<Seq<usize>>, x: usize) -> bool {
    exists|d: int, k: int| 0 <= d < lv.len() && 0 <= k < lv[d].len() && #[trigger] lv[d][k] == x
}

/// The state of a walk down the rows: the row, and how many of its
/// positions were given.
struct RowWalk {
    position: usize,
    sub_position: usize,
}

impl RowWalk {
    spec fn ok(&self, lv: Seq<Seq<usize>>) -> bool {
        self.position < lv.len() ==> self.sub_position <= lv[self.position as int].len()
    }

    spec fn rem(&self, lv: Seq<Seq<usize>>, mirror: bool) -> Seq<usize> {
        if self.position < lv.len() {
            row_of(lv[self.position as int], mirror).skip(self.sub_position as int) + index_rows(
                lv,
                self.position + 1,
                mirror,
            )
        } else {
            Seq::empty()
        }
    }

    fn start(Ghost(lv): Ghost<Seq<Seq<usize>>>, Ghost(mirror): Ghost<bool>) -> (r: Self)
        ensures
            r.ok(lv),
            r.rem(lv, mirror) == index_rows(lv, 0, mirror),
    {
        let r = RowWalk { position: 0, sub_position: 0 };
        proof {
            if lv.len() > 0 {
                assert(row_of(lv[0], mirror).skip(0) =~= row_of(lv[0], mirror));
            }
        }
        r
    }

    fn step(&mut self, levels: &Vec<TreeLevel>, mirror: bool) -> (r: Option<usize>)
        requires
            old(self).ok(level_rows(levels@)),
        ensures
            final(self).ok(level_rows(levels@)),
            r is None ==> old(self).rem(level_rows(levels@), mirror).len() == 0 && final(self).rem(
                level_rows(levels@),
                mirror,
            ) == old(self).rem(level_rows(levels@), mirror),
            r matches Some(x) ==> old(self).rem(level_rows(levels@), mirror).len() > 0 && x == old(
                self,
            ).rem(level_rows(levels@), mirror)[0] && final(self).rem(level_rows(levels@), mirror)
                == old(self).rem(level_rows(levels@), mirror).drop_first() && listed(
                level_rows(levels@),
                x,
            ),
    {
        let ghost lv = level_rows(levels@);
        while self.position < levels.len()
            invariant
                lv == level_rows(levels@),
                self.ok(lv),
                self.rem(lv, mirror) == old(self).rem(lv, mirror),
            decreases levels@.len() - self.position,
        {
            let row = &levels[self.position].node_positions;
            assert(row@ == lv[self.position as int]);
            let m = row.len();
            if self.sub_position < m {
                let x = if mirror {
                    row[m - 1 - self.sub_position]
                } else {
                    row[self.sub_position]
                };
                let ghost before = self.rem(lv, mirror);
                assert(lv[self.position as int][if mirror {
                    m - 1 - self.sub_position
                } else {
                    self.sub_position as int
                }] == x);
                self.sub_position = self.sub_position + 1;
                assert(self.rem(lv, mirror) =~= before.drop_first());
                return Some(x);
            }
            proof {
                assert(row_of(row@, mirror).skip(m as int) =~= Seq::empty());
                if self.position + 1 < lv.len() {
                    assert(row_of(lv[self.position + 1], mirror).skip(0) =~= row_of(
                        lv[self.position + 1],
                        mirror,
                    ));
                }
            }
            self.position = self.position + 1;
            self.sub_position = 0;
        }
        None
    }
}

/// Walks the tree level by level from the top, each level from left to
/// right, along the level index.
pub struct BfsIter<'a, 'b, T: NodeContent> {
    tree: &'b TreeModel<'a, T>,
    walk: RowWalk,
}

impl<'a, 'b, T: NodeContent> BfsIter<'a, 'b, T> {
    /// The tree that is walked.
    pub closed spec fn model(&self) -> &'b TreeModel<'a, T> {
        self.tree
    }

    /// The walker is in order.
    pub closed spec fn wf(&self) -> bool {
        &&& self.tree.wf()
        &&& self.tree.rows() matches Some(lv) ==> self.walk.ok(lv)
    }

    /// The positions yet to come.
    pub closed spec fn remaining(&self) -> Seq<usize> {
        match self.tree.rows() {
            Some(lv) => self.walk.rem(lv, false),
            None => Seq::empty(),
        }
    }

    /// A walker at its start.
    pub fn new(tree: &'b TreeModel<'a, T>) -> (r: Self)
        requires
            tree.wf(),
        ensures
            r.wf(),
            r.model() == tree,
            r.remaining() == index_order(tree.rows(), false),
    {
        let ghost lv = match tree.rows() {
            Some(lv) => lv,
            None => Seq::empty(),
        };
        Self { tree, walk: RowWalk::start(Ghost(lv), Ghost(false)) }
    }

    /// The next node and its position.
    pub fn next(&mut self) -> (r: Option<(&'a TreeNode<T>, usize)>)
        requires
            old(self).wf(),
        ensures
            final(self).wf(),
            final(self).model() == old(self).model(),
            yields(old(self).model().tree(), old(self).remaining(), final(self).remaining(), r),
    {
        let levels = match self.tree.get_levels() {
            Some(levels) => levels,
            None => { return None; },
        };
        let ghost before = self.remaining();
        match self.walk.step(levels, false) {
            Some(position) => {
                node_at(self.tree.get_tree(), position)
            },
            None => None,
        }
    }
}

/// Walks the tree level by level from the top, each level from right to
/// left, along the level index.
pub struct InvBfsIter<'a, 'b, T: NodeContent> {
    tree: &'b TreeModel<'a, T>,
    walk: RowWalk,
}

impl<'a, 'b, T: NodeContent> InvBfsIter<'a, 'b, T> {
    /// The tree that is walked.
    pub closed spec fn model(&self) -> &'b TreeModel<'a, T> {
        self.tree
    }

    /// The walker is in order.
    pub closed spec fn wf(&self) -> bool {
        &&& self.tree.wf()
        &&& self.tree.rows() matches Some(lv) ==> self.walk.ok(lv)
    }

    /// The positions yet to come.
    pub closed spec fn remaining(&self) -> Seq<usize> {
        match self.tree.rows() {
            Some(lv) => self.walk.rem(lv, true),
            None => Seq::empty(),
        }
    }

    /// A walker at its start.
    pub fn new(tree: &'b TreeModel<'a, T>) -> (r: Self)
        requires
            tree.wf(),
        ensures
            r.wf(),
            r.model() == tree,
            r.remaining() == index_order(tree.rows(), true),
    {
        let ghost lv = match tree.rows() {
            Some(lv) => lv,
            None => Seq::empty(),
        };
        Self { tree, walk: RowWalk::start(Ghost(lv), Ghost(true)) }
    }

    /// The next node and its position.
    pub fn next(&mut self) -> (r: Option<(&'a TreeNode<T>, usize)>)
        requires
            old(self).wf(),
        ensures
            final(self).wf(),
            final(self).model() == old(self).model(),
            yields(old(self).model().tree(), old(self).remaining(), final(self).remaining(), r),
    {
        let levels = match self.tree.get_levels() {
            Some(levels) => levels,
            None => { return None; },
        };
        let ghost before = self.remaining();
        match self.walk.step(levels, true) {
            Some(position) => {
                node_at(self.tree.get_tree(), position)
            },
            None => None,
        }
    }
}

/// The state of a walk up the rows: how many rows are left, the one walked
/// included, and how many of its positions were given.
struct RowWalkUp {
    left: usize,
    sub_position: usize,
}

impl RowWalkUp {
    spec fn ok(&self, lv: Seq<Seq<usize>>) -> bool {
        &&& self.left <= lv.len()
        &&& self.left > 0 ==> self.sub_position <= lv[self.left - 1].len()
    }

    spec fn rem(&self, lv: Seq<Seq<usize>>) -> Seq<usize> {
        if 0 < self.left <= lv.len() {
            lv[self.left - 1].skip(self.sub_position as int) + index_rows_up(lv, self.left - 1)
        } else {
            Seq::empty()
        }
    }

    fn start(levels: Option<&Vec<TreeLevel>>) -> (r: Self)
        ensures
            opt_rows(levels) matches Some(lv) ==> r.ok(lv) && r.rem(lv) == index_rows_up(
                lv,
                lv.len() as int,
            ),
    {
        let left = match levels {
            Some(v) => v.len(),
            None => 0,
        };
        let r = RowWalkUp { left, sub_position: 0 };
        proof {
            if let Some(lv) = opt_rows(levels) {
                if lv.len() > 0 {
                    assert(lv[lv.len() - 1].skip(0) =~= lv[lv.len() - 1]);
                }
            }
        }
        r
    }

    fn step(&mut self, levels: &Vec<TreeLevel>) -> (r: Option<usize>)
        requires
            old(self).ok(level_rows(levels@)),
        ensures
            final(self).ok(level_rows(levels@)),
            r is None ==> old(self).rem(level_rows(levels@)).len() == 0 && final(self).rem(
                level_rows(levels@),
            ) == old(self).rem(level_rows(levels@)),
            r matches Some(x) ==> old(self).rem(level_rows(levels@)).len() > 0 && x == old(
                self,
            ).rem(level_rows(levels@))[0] && final(self).rem(level_rows(levels@)) == old(self).rem(
                level_rows(levels@),
            ).drop_first() && listed(level_rows(levels@), x),
    {
        let ghost lv = level_rows(levels@);
        while self.left > 0
            invariant
                lv == level_rows(levels@),
                self.ok(lv),
                self.rem(lv) == old(self).rem(lv),
            decreases self.left,
        {
            let row = &levels[self.left - 1].node_positions;
            assert(row@ == lv[self.left - 1]);
            let m = row.len();
            if self.sub_position < m {
                let x = row[self.sub_position];
                let ghost before = self.rem(lv);
                assert(lv[self.left - 1][self.sub_position as int] == x);
                self.sub_position = self.sub_position + 1;
                assert(self.rem(lv) =~= before.drop_first());
                return Some(x);
            }
            proof {
                assert(row@.skip(m as int) =~= Seq::empty());
                if self.left > 1 {
                    assert(lv[self.left - 2].skip(0) =~= lv[self.left - 2]);
                }
            }
            self.left = self.left - 1;
            self.sub_position = 0;
        }
        None
    }
}

/// Walks the tree level by level from the bottom, each level from left to
/// right, along the level index.
pub struct InvLevBfsIter<'a, 'b, T: NodeContent> {
    tree: &'b TreeModel<'a, T>,
    walk: RowWalkUp,
}

impl<'a, 'b, T: NodeContent> InvLevBfsIter<'a, 'b, T> {
    /// The tree that is walked.
    pub closed spec fn model(&self) -> &'b TreeModel<'a, T> {
        self.tree
    }

    /// The walker is in order.
    pub closed spec fn wf(&self) -> bool {
        &&& self.tree.wf()
        &&& self.tree.rows() matches Some(lv) ==> self.walk.ok(lv)
    }

    /// The positions yet to come.
    pub closed spec fn remaining(&self) -> Seq<usize> {
        match self.tree.rows() {
            Some(lv) => self.walk.rem(lv),
            None => Seq::empty(),
        }
    }

    /// A walker at its start.
    pub fn new(tree: &'b TreeModel<'a, T>) -> (r: Self)
        requires
            tree.wf(),
        ensures
            r.wf(),
            r.model() == tree,
            r.remaining() == index_order_up(tree.rows()),
    {
        Self { tree, walk: RowWalkUp::start(tree.get_levels()) }
    }

    /// The next node and its position.
    pub fn next(&mut self) -> (r: Option<(&'a TreeNode<T>, usize)>)
        requires
            old(self).wf(),
        ensures
            final(self).wf(),
            final(self).model() == old(self).model(),
            yields(old(self).model().tree(), old(self).remaining(), final(self).remaining(), r),
    {
        let levels = match self.tree.get_levels() {
            Some(levels) => levels,
            None => { return None; },
        };
        match self.walk.step(levels) {
            Some(position) => node_at(self.tree.get_tree(), position),
            None => None,
        }
    }
}

} // verus!
