//! The orders in which a tree is walked, as sequences of positions.
//!
//! Each order exists twice: as written, children from left to right, and
//! mirrored, children from right to left.

use crate::shape::NodeView;
use vstd::prelude::*;

verus! {

/// The `i`-th child of node `x` in walking direction.
pub open spec fn kid(t: Seq<NodeView>, x: int, i: int, mirror: bool) -> usize {
    let cs = t[x].children;
    if mirror {
        cs[cs.len() - 1 - i]
    } else {
        cs[i]
    }
}

/// The children of node `x` in walking direction.
pub open spec fn kids(t: Seq<NodeView>, x: int, mirror: bool) -> Seq<usize> {
    if mirror {
        t[x].children.reverse()
    } else {
        t[x].children
    }
}

/// Arena order: every position, first to last.
pub open spec fn sequential(t: Seq<NodeView>) -> Seq<usize> {
    Seq::new(t.len(), |i: int| i as usize)
}

/// Arena order backwards: every position, last to first.
pub open spec fn inv_sequential(t: Seq<NodeView>) -> Seq<usize> {
    Seq::new(t.len(), |i: int| (t.len() - 1 - i) as usize)
}

/// Pre-order from node `x`: the node, then each child's subtree.
pub open spec fn pre(t: Seq<NodeView>, x: int, mirror: bool) -> Seq<usize>
    decreases t.len() - x, t[x].children.len() + 1,
{
    if 0 <= x < t.len() {
        seq![x as usize] + pre_kids(t, x, 0, mirror)
    } else {
        Seq::empty()
    }
}

/// Pre-order of the subtrees of the children of `x`, from the `i`-th on.
pub open spec fn pre_kids(t: Seq<NodeView>, x: int, i: int, mirror: bool) -> Seq<usize>
    decreases t.len() - x, t[x].children.len() - i,
{
    if 0 <= x < t.len() && 0 <= i < t[x].children.len() {
        let c = kid(t, x, i, mirror);
        (if x < c < t.len() {
            pre(t, c as int, mirror)
        } else {
            Seq::empty()
        }) + pre_kids(t, x, i + 1, mirror)
    } else {
        Seq::empty()
    }
}

/// Post-order from node `x`: each child's subtree, then the node.
pub open spec fn post(t: Seq<NodeView>, x: int, mirror: bool) -> Seq<usize>
    decreases t.len() - x, t[x].children.len() + 1,
{
    if 0 <= x < t.len() {
        post_kids(t, x, 0, mirror).push(x as usize)
    } else {
        Seq::empty()
    }
}

/// Post-order of the subtrees of the children of `x`, from the `i`-th on.
pub open spec fn post_kids(t: Seq<NodeView>, x: int, i: int, mirror: bool) -> Seq<usize>
    decreases t.len() - x, t[x].children.len() - i,
{
    if 0 <= x < t.len() && 0 <= i < t[x].children.len() {
        let c = kid(t, x, i, mirror);
        (if x < c < t.len() {
            post(t, c as int, mirror)
        } else {
            Seq::empty()
        }) + post_kids(t, x, i + 1, mirror)
    } else {
        Seq::empty()
    }
}

/// The children of the nodes of `row`, in walking direction: the next row.
pub open spec fn kids_all(t: Seq<NodeView>, row: Seq<usize>, mirror: bool) -> Seq<usize>
    decreases row.len(),
{
    if row.len() == 0 {
        Seq::empty()
    } else {
        kids(t, row[0] as int, mirror) + kids_all(t, row.drop_first(), mirror)
    }
}

/// Level order from a row of depth `d` on: the row, then the rows below.
pub open spec fn rows_from(t: Seq<NodeView>, row: Seq<usize>, d: int, mirror: bool) -> Seq<usize>
    decreases t.len() + 1 - d,
{
    if row.len() == 0 || d > t.len() {
        Seq::empty()
    } else {
        row + rows_from(t, kids_all(t, row, mirror), d + 1, mirror)
    }
}

/// Pre-order of the tree.
pub open spec fn pre_order(t: Seq<NodeView>, mirror: bool) -> Seq<usize> {
    pre(t, 0, mirror)
}

/// Post-order of the tree.
pub open spec fn post_order(t: Seq<NodeView>, mirror: bool) -> Seq<usize> {
    post(t, 0, mirror)
}

/// Level order of the tree.
pub open spec fn bfs_order(t: Seq<NodeView>, mirror: bool) -> Seq<usize> {
    if t.len() == 0 {
        Seq::empty()
    } else {
        rows_from(t, seq![0usize], 1, mirror)
    }
}

/// A level index lists positions of the arena only.
pub open spec fn index_ok(t: Seq<NodeView>, lv: Seq<Seq<usize>>) -> bool {
    forall|d: int, k: int|
        0 <= d < lv.len() && 0 <= k < lv[d].len() ==> #[trigger] lv[d][k] < t.len()
}

/// The rows of a level index from row `d` on, one after the other; each
/// row backwards where `mirror` is set.
pub open spec fn index_rows(lv: Seq<Seq<usize>>, d: int, mirror: bool) -> Seq<usize>
    decreases lv.len() - d,
{
    if 0 <= d < lv.len() {
        (if mirror {
            lv[d].reverse()
        } else {
            lv[d]
        }) + index_rows(lv, d + 1, mirror)
    } else {
        Seq::empty()
    }
}

/// The first `d` rows of a level index, the deepest first.
pub open spec fn index_rows_up(lv: Seq<Seq<usize>>, d: int) -> Seq<usize>
    decreases d,
{
    if 0 < d <= lv.len() {
        lv[d - 1] + index_rows_up(lv, d - 1)
    } else {
        Seq::empty()
    }
}

/// The order that a level index gives, row by row from the top; nothing
/// where there is no index.
pub open spec fn index_order(rows: Option<Seq<Seq<usize>>>, mirror: bool) -> Seq<usize> {
    match rows {
        Some(lv) => index_rows(lv, 0, mirror),
        None => Seq::empty(),
    }
}

/// The order that a level index gives, row by row from the bottom; nothing
/// where there is no index.
pub open spec fn index_order_up(rows: Option<Seq<Seq<usize>>>) -> Seq<usize> {
    match rows {
        Some(lv) => index_rows_up(lv, lv.len() as int),
        None => Seq::empty(),
    }
}

} // verus!
