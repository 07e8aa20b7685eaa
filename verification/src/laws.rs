//! What holds of the library as a whole, proved from the contracts of its
//! parts.

use crate::forest::lemma_stays_failed;
use crate::fresh::lemma_read_inv;
use crate::order::{
    bfs_order, index_order, kids, kids_all, post, post_kids, post_order, pre, pre_kids, pre_order,
    rows_from, sequential,
};
use crate::parser::{classify, StatementView};
use crate::reading::{depth_before, lemma_failure_line, read, read_prefix, ReadError};
use crate::roundtrip::{
    lemma_count_of_read, lemma_read_reads_back, lemma_reads_back, plain, steady, writable,
};
use crate::rows::{index_current, lemma_index_is_level_order};
use crate::shape::{
    child_ok, find, find_child, find_child_from, find_from, is_linked, lemma_unlinked_wf, node_ok,
    NodeView, unlinked, wf,
};
use crate::tree::{NodeContent, SimpleNode};
use crate::writing::document;
use vstd::prelude::*;

verus! {

/// A document in which a node lies two or more levels below the node
/// before it is rejected: reading stops at the line of that node, with the
/// error that the depth is invalid and the number of that line, counted from
/// 1, unless it has stopped at a line before.
pub proof fn law_depth_jump_is_rejected<T: NodeContent>(
    lines: Seq<Seq<char>>,
    k: int,
    with_levels: bool,
)
    requires
        0 <= k < lines.len() <= usize::MAX,
        classify(lines[k]) matches StatementView::Node(_, level) && level >= depth_before(lines, k)
            + 2,
    ensures
        read::<T>(lines, with_levels) is Err,
        1 <= read::<T>(lines, with_levels)->Err_0.line <= k + 1,
        read_prefix::<T>(lines, k, with_levels) is Ok ==> read::<T>(lines, with_levels)->Err_0
            == (ReadError { message: "Invalid node level"@, line: (k + 1) as usize }),
{
    if read_prefix::<T>(lines, k, with_levels) is Ok {
        lemma_read_inv::<T>(lines, k, with_levels);
        assert(read_prefix::<T>(lines, k + 1, with_levels) is Err);
        lemma_stays_failed::<T>(lines, k + 1, lines.len() as int, with_levels);
    } else {
        lemma_failure_line::<T>(lines, k, with_levels);
        lemma_stays_failed::<T>(lines, k, lines.len() as int, with_levels);
    }
}

/// A tree that was read from a document and not changed since is walked in
/// pre-order exactly as its nodes lie in the arena.
pub proof fn law_read_tree_is_in_pre_order<T: NodeContent>(
    lines: Seq<Seq<char>>,
    with_levels: bool,
    i: int,
)
    requires
        lines.len() <= usize::MAX,
        read::<T>(lines, with_levels) is Ok,
        0 <= i < read::<T>(lines, with_levels)->Ok_0.trees.len(),
    ensures
        pre_order(read::<T>(lines, with_levels)->Ok_0.trees[i], false) == sequential(
            read::<T>(lines, with_levels)->Ok_0.trees[i],
        ),
{
    lemma_read_inv::<T>(lines, lines.len() as int, with_levels);
}

/// A level index that is that of the tree as it is gives, row by row, what
/// a walk level by level gives that finds the children as it goes: from left
/// to right, and from right to left.
pub proof fn law_current_index_is_level_order(t: Seq<NodeView>, lv: Seq<Seq<usize>>, mirror: bool)
    requires
        wf(t),
        index_current(t, lv),
    ensures
        index_order(Some(lv), mirror) == bfs_order(t, mirror),
{
    lemma_index_is_level_order(t, lv, mirror);
}

/// In a forest that was read with level indexes and not changed since, the
/// level index of a tree gives what a walk level by level gives that finds
/// the children as it goes: from left to right, and from right to left.
///
/// Once a node was linked or unlinked this no longer holds: the level index
/// stays as it was read.
pub proof fn law_level_index_is_level_order<T: NodeContent>(
    lines: Seq<Seq<char>>,
    i: int,
    mirror: bool,
)
    requires
        lines.len() <= usize::MAX,
        read::<T>(lines, true) is Ok,
        0 <= i < read::<T>(lines, true)->Ok_0.trees.len(),
    ensures
        read::<T>(lines, true)->Ok_0.levels is Some,
        index_order(Some(read::<T>(lines, true)->Ok_0.levels->0[i]), mirror) == bfs_order(
            read::<T>(lines, true)->Ok_0.trees[i],
            mirror,
        ),
{
    lemma_read_inv::<T>(lines, lines.len() as int, true);
    let f = read::<T>(lines, true)->Ok_0;
    lemma_index_is_level_order(f.trees[i], f.levels->0[i], mirror);
}

/// What was read from a document, written and read again is what was read
/// at first: the same trees under the same names, node for node, with the
/// same level indexes.
///
/// This asks of the payload type that it takes the text of every node that
/// was read and hands it back unchanged, and of those texts that they can
/// be written: that every line reads back as what it was written for.
pub proof fn law_round_trip<T: NodeContent>(lines: Seq<Seq<char>>, with_levels: bool)
    requires
        lines.len() <= usize::MAX,
        read::<T>(lines, with_levels) is Ok,
        writable(read::<T>(lines, with_levels)->Ok_0),
        steady::<T>(read::<T>(lines, with_levels)->Ok_0),
    ensures
        read::<T>(document(read::<T>(lines, with_levels)->Ok_0), with_levels) == read::<T>(
            lines,
            with_levels,
        ),
{
    let f = read::<T>(lines, with_levels)->Ok_0;
    lemma_read_inv::<T>(lines, lines.len() as int, with_levels);
    lemma_count_of_read(f, lines.len() as int);
    lemma_reads_back::<T>(f);
}

/// With a payload type that takes every text and hands it back unchanged,
/// as `SimpleNode` does, whatever was read from a document can be written,
/// and what was written reads as what was read at first.
pub proof fn law_round_trip_of_plain_text<T: NodeContent>(lines: Seq<Seq<char>>, with_levels: bool)
    requires
        plain::<T>(),
        lines.len() <= usize::MAX,
        read::<T>(lines, with_levels) is Ok,
    ensures
        writable(read::<T>(lines, with_levels)->Ok_0),
        read::<T>(document(read::<T>(lines, with_levels)->Ok_0), with_levels) == read::<T>(
            lines,
            with_levels,
        ),
{
    let f = read::<T>(lines, with_levels)->Ok_0;
    lemma_read_inv::<T>(lines, lines.len() as int, with_levels);
    lemma_read_reads_back::<T>(lines, with_levels);
    lemma_reads_back::<T>(f);
}

/// `SimpleNode` takes every text and hands it back unchanged.
pub proof fn law_simple_node_is_plain()
    ensures
        plain::<SimpleNode>(),
{
}

/// Node `y` is node `x` or lies below it: the parents of `y`, followed
/// upwards, lead to `x`.
pub open spec fn under(t: Seq<NodeView>, y: int, x: int) -> bool
    decreases y,
{
    if y == x {
        true
    } else if 0 < y < t.len() && t[y].parent is Some && t[y].parent->0 < y {
        under(t, t[y].parent->0 as int, x)
    } else {
        false
    }
}

/// No node lists `x` as its child.
pub open spec fn unlisted(t: Seq<NodeView>, x: int) -> bool {
    forall|i: int, k: int|
        0 <= i < t.len() && 0 <= k < t[i].children.len() ==> #[trigger] t[i].children[k] != x
}

/// Unlinking changes no parent.
proof fn lemma_under_unlinked(t: Seq<NodeView>, x: int, y: int, z: int)
    requires
        wf(t),
        is_linked(t, x),
    ensures
        under(unlinked(t, x), y, z) == under(t, y, z),
    decreases y,
{
    let u = unlinked(t, x);
    if y != z && 0 < y < t.len() {
        assert(u[y].parent == t[y].parent);
        if t[y].parent is Some && t[y].parent->0 < y {
            lemma_under_unlinked(t, x, t[y].parent->0 as int, z);
        }
    }
}

/// After unlinking, no node lists the unlinked node.
proof fn lemma_unlinked_unlisted(t: Seq<NodeView>, x: int)
    requires
        wf(t),
        is_linked(t, x),
    ensures
        unlisted(unlinked(t, x), x),
{
    let u = unlinked(t, x);
    let p = t[x].parent->0 as int;
    let s = t[x].slot->0 as int;
    assert forall|i: int, k: int| 0 <= i < u.len() && 0 <= k < u[i].children.len() implies
        #[trigger] u[i].children[k] != x by {
        assert(node_ok(t, i));
        if i == p {
            let k0 = if k < s { k } else { k + 1 };
            assert(u[p].children[k] == t[p].children[k0]);
            if k0 < s {
                assert(t[p].children[k0] < t[p].children[s]);
            } else {
                assert(t[p].children[s] < t[p].children[k0]);
            }
        } else {
            assert(child_ok(t, i, k));
        }
    }
}

/// In a tree in which no node lists `x`, a walk in pre-order from a node
/// that does not lie under `x` meets no node under `x`.
proof fn lemma_pre_avoids(t: Seq<NodeView>, r: int, mirror: bool, x: int, y: usize)
    requires
        wf(t),
        unlisted(t, x),
        0 <= r < t.len(),
        !under(t, r, x),
        pre(t, r, mirror).contains(y),
    ensures
        !under(t, y as int, x),
    decreases t.len() - r, t[r].children.len() + 1,
{
    let rest = pre_kids(t, r, 0, mirror);
    let i = choose|i: int| 0 <= i < pre(t, r, mirror).len() && pre(t, r, mirror)[i] == y;
    if i > 0 {
        assert(rest[i - 1] == y);
        lemma_pre_kids_avoid(t, r, 0, mirror, x, y);
    }
}

/// As `lemma_pre_avoids`, for the subtrees of the children of `r` from the
/// `i`-th on.
proof fn lemma_pre_kids_avoid(t: Seq<NodeView>, r: int, i: int, mirror: bool, x: int, y: usize)
    requires
        wf(t),
        unlisted(t, x),
        0 <= r < t.len(),
        0 <= i,
        !under(t, r, x),
        pre_kids(t, r, i, mirror).contains(y),
    ensures
        !under(t, y as int, x),
    decreases t.len() - r, t[r].children.len() - i,
{
    if i < t[r].children.len() {
        let c = crate::order::kid(t, r, i, mirror);
        let k = if mirror { t[r].children.len() - 1 - i } else { i };
        assert(node_ok(t, r));
        assert(child_ok(t, r, k));
        assert(c == t[r].children[k]);
        let first = pre(t, c as int, mirror);
        let rest = pre_kids(t, r, i + 1, mirror);
        let j = choose|j: int| 0 <= j < (first + rest).len() && (first + rest)[j] == y;
        if j < first.len() {
            assert(first[j] == y);
            assert(!under(t, c as int, x));
            lemma_pre_avoids(t, c as int, mirror, x, y);
        } else {
            assert(rest[j - first.len()] == y);
            lemma_pre_kids_avoid(t, r, i + 1, mirror, x, y);
        }
    }
}

/// In a tree in which no node lists `x`, a walk in post-order from a node
/// that does not lie under `x` meets no node under `x`.
proof fn lemma_post_avoids(t: Seq<NodeView>, r: int, mirror: bool, x: int, y: usize)
    requires
        wf(t),
        unlisted(t, x),
        0 <= r < t.len(),
        !under(t, r, x),
        post(t, r, mirror).contains(y),
    ensures
        !under(t, y as int, x),
    decreases t.len() - r, t[r].children.len() + 1,
{
    let rest = post_kids(t, r, 0, mirror);
    let i = choose|i: int| 0 <= i < post(t, r, mirror).len() && post(t, r, mirror)[i] == y;
    if i < rest.len() {
        assert(rest[i] == y);
        lemma_post_kids_avoid(t, r, 0, mirror, x, y);
    }
}

/// As `lemma_post_avoids`, for the subtrees of the children of `r` from the
/// `i`-th on.
proof fn lemma_post_kids_avoid(t: Seq<NodeView>, r: int, i: int, mirror: bool, x: int, y: usize)
    requires
        wf(t),
        unlisted(t, x),
        0 <= r < t.len(),
        0 <= i,
        !under(t, r, x),
        post_kids(t, r, i, mirror).contains(y),
    ensures
        !under(t, y as int, x),
    decreases t.len() - r, t[r].children.len() - i,
{
    if i < t[r].children.len() {
        let c = crate::order::kid(t, r, i, mirror);
        let k = if mirror { t[r].children.len() - 1 - i } else { i };
        assert(node_ok(t, r));
        assert(child_ok(t, r, k));
        assert(c == t[r].children[k]);
        let first = post(t, c as int, mirror);
        let rest = post_kids(t, r, i + 1, mirror);
        let j = choose|j: int| 0 <= j < (first + rest).len() && (first + rest)[j] == y;
        if j < first.len() {
            assert(first[j] == y);
            assert(!under(t, c as int, x));
            lemma_post_avoids(t, c as int, mirror, x, y);
        } else {
            assert(rest[j - first.len()] == y);
            lemma_post_kids_avoid(t, r, i + 1, mirror, x, y);
        }
    }
}

/// The nodes of a row are nodes of the arena, none of them under `x`.
spec fn row_avoids(t: Seq<NodeView>, row: Seq<usize>, x: int) -> bool {
    forall|j: int|
        0 <= j < row.len() ==> (#[trigger] row[j]) < t.len() && !under(t, row[j] as int, x)
}

/// The children of a row that avoids `x` avoid `x`, where no node lists `x`.
proof fn lemma_kids_all_avoid(t: Seq<NodeView>, row: Seq<usize>, mirror: bool, x: int)
    requires
        wf(t),
        unlisted(t, x),
        row_avoids(t, row, x),
    ensures
        row_avoids(t, kids_all(t, row, mirror), x),
    decreases row.len(),
{
    if row.len() > 0 {
        let r = row[0] as int;
        let first = kids(t, r, mirror);
        let rest = kids_all(t, row.drop_first(), mirror);
        assert forall|j: int| 0 <= j < row.drop_first().len() implies (
        #[trigger] row.drop_first()[j]) < t.len() && !under(t, row.drop_first()[j] as int, x) by {
            assert(row.drop_first()[j] == row[j + 1]);
        }
        lemma_kids_all_avoid(t, row.drop_first(), mirror, x);
        assert(node_ok(t, r));
        assert forall|j: int| 0 <= j < (first + rest).len() implies (#[trigger] (first + rest)[j])
            < t.len() && !under(t, (first + rest)[j] as int, x) by {
            if j < first.len() {
                let k = if mirror { t[r].children.len() - 1 - j } else { j };
                assert(child_ok(t, r, k));
                assert(first[j] == t[r].children[k]);
            } else {
                assert(rest[j - first.len()] == (first + rest)[j]);
            }
        }
    }
}

/// A walk level by level from a row that avoids `x` meets no node under
/// `x`, where no node lists `x`.
proof fn lemma_rows_avoid(t: Seq<NodeView>, row: Seq<usize>, d: int, mirror: bool, x: int, y: usize)
    requires
        wf(t),
        unlisted(t, x),
        row_avoids(t, row, x),
        rows_from(t, row, d, mirror).contains(y),
    ensures
        !under(t, y as int, x),
    decreases t.len() + 1 - d,
{
    if row.len() > 0 && d <= t.len() {
        let rest = rows_from(t, kids_all(t, row, mirror), d + 1, mirror);
        let j = choose|j: int| 0 <= j < (row + rest).len() && (row + rest)[j] == y;
        if j < row.len() {
            assert(row[j] == y);
        } else {
            assert(rest[j - row.len()] == y);
            lemma_kids_all_avoid(t, row, mirror, x);
            lemma_rows_avoid(t, kids_all(t, row, mirror), d + 1, mirror, x, y);
        }
    }
}

/// The child that `find_child_from` finds is a child that `parent` lists.
proof fn lemma_found_child(t: Seq<NodeView>, parent: int, name: Seq<char>, k: int)
    requires
        0 <= parent < t.len(),
        0 <= k,
        find_child_from(t, parent, name, k) is Some,
    ensures
        exists|j: int|
            0 <= j < t[parent].children.len() && #[trigger] t[parent].children[j]
                == find_child_from(t, parent, name, k)->0,
    decreases t[parent].children.len() - k,
{
    let cs = t[parent].children;
    if k < cs.len() {
        if cs[k] < t.len() && t[cs[k] as int].content == name {
            assert(cs[k] == find_child_from(t, parent, name, k)->0);
        } else {
            lemma_found_child(t, parent, name, k + 1);
        }
    }
}

/// A path followed from a node that does not lie under `x` ends at a node
/// that does not lie under `x`, where no node lists `x`.
proof fn lemma_find_avoids(t: Seq<NodeView>, cur: usize, path: Seq<Seq<char>>, i: int, x: int)
    requires
        wf(t),
        unlisted(t, x),
        cur < t.len(),
        !under(t, cur as int, x),
        0 <= i,
        find_from(t, cur, path, i) is Some,
    ensures
        !under(t, find_from(t, cur, path, i)->0 as int, x),
    decreases path.len() - i,
{
    if i < path.len() {
        let c = find_child(t, cur as int, path[i])->0;
        lemma_found_child(t, cur as int, path[i], 0);
        let j = choose|j: int|
            0 <= j < t[cur as int].children.len() && #[trigger] t[cur as int].children[j] == c;
        assert(node_ok(t, cur as int));
        assert(child_ok(t, cur as int, j));
        lemma_find_avoids(t, c, path, i + 1, x);
    }
}

/// Once a node is unlinked, no walk that follows the shape of the tree
/// gives it or a node below it: not in pre-order, not in post-order, not
/// level by level, forwards or mirrored. Nor does a path lead to such a node.
///
/// The walks in arena order give every node of the arena, and the walks
/// along a level index give what the index lists: they are not meant here.
pub proof fn law_unlinked_is_out_of_reach(
    t: Seq<NodeView>,
    x: int,
    y: usize,
    mirror: bool,
    path: Seq<Seq<char>>,
)
    requires
        wf(t),
        is_linked(t, x),
        under(t, y as int, x),
    ensures
        wf(unlinked(t, x)),
        !pre_order(unlinked(t, x), mirror).contains(y),
        !post_order(unlinked(t, x), mirror).contains(y),
        !bfs_order(unlinked(t, x), mirror).contains(y),
        find(unlinked(t, x), path) != Some(y),
{
    let u = unlinked(t, x);
    lemma_unlinked_wf(t, x);
    lemma_unlinked_unlisted(t, x);
    lemma_under_unlinked(t, x, y as int, x);
    assert(!under(u, 0, x));
    if pre_order(u, mirror).contains(y) {
        lemma_pre_avoids(u, 0, mirror, x, y);
    }
    if post_order(u, mirror).contains(y) {
        lemma_post_avoids(u, 0, mirror, x, y);
    }
    if bfs_order(u, mirror).contains(y) {
        let first = seq![0usize];
        assert(row_avoids(u, first, x));
        lemma_rows_avoid(u, first, 1, mirror, x, y);
    }
    if find(u, path) == Some(y) {
        lemma_find_avoids(u, 0, path, 1, x);
    }
}

} // verus!
