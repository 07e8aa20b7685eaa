//! The rows of a tree, level by level, and the level index that reading
//! keeps of them.

use crate::order::{bfs_order, index_rows, kids, kids_all, rows_from};
use crate::reading::{add_to_rows, last_at, lemma_last_at, lemma_last_at_linked};
use crate::shape::{can_link, child_ok, linked, node_ok, NodeView, rooted, wf};
use vstd::prelude::*;

verus! {

/// The nodes of depth `d`, in walking direction.
pub open spec fn row(t: Seq<NodeView>, d: int, mirror: bool) -> Seq<usize>
    decreases d,
{
    if d <= 1 {
        if t.len() > 0 && d == 1 {
            seq![0usize]
        } else {
            Seq::empty()
        }
    } else {
        kids_all(t, row(t, d - 1, mirror), mirror)
    }
}

/// The positions of a row grow from left to right.
pub open spec fn ascending(r: Seq<usize>) -> bool {
    forall|a: int, b: int| 0 <= a < b < r.len() ==> #[trigger] r[a] < #[trigger] r[b]
}

/// The level index is that of the tree as it is: row for row it lists the
/// nodes of one depth that are in reach from the root, from left to right,
/// down to the deepest.
pub open spec fn index_current(t: Seq<NodeView>, lv: Seq<Seq<usize>>) -> bool {
    &&& forall|d: int|
        0 <= d < lv.len() ==> #[trigger] lv[d] == row(t, d + 1, false) && lv[d].len() > 0
    &&& row(t, lv.len() as int + 1, false) == Seq::<usize>::empty()
}

/// The level index is that of a tree as reading leaves it: it is that of
/// the tree as it is, each row grows from left to right and ends with the
/// last node of its depth, and no node lies deeper than the last row.
pub open spec fn index_fresh(t: Seq<NodeView>, lv: Seq<Seq<usize>>) -> bool {
    &&& index_current(t, lv)
    &&& forall|d: int|
        0 <= d < lv.len() ==> (#[trigger] lv[d]).len() > 0 && lv[d].last() == last_at(t, d + 1)
            && ascending(lv[d])
    &&& forall|j: int| 0 <= j < t.len() ==> (#[trigger] t[j]).level <= lv.len()
}

/// The children of two rows, one behind the other.
pub proof fn lemma_kids_all_add(t: Seq<NodeView>, a: Seq<usize>, b: Seq<usize>, mirror: bool)
    ensures
        kids_all(t, a + b, mirror) == kids_all(t, a, mirror) + kids_all(t, b, mirror),
    decreases a.len(),
{
    if a.len() == 0 {
        assert(a + b =~= b);
        assert(kids_all(t, a, mirror) + kids_all(t, b, mirror) =~= kids_all(t, b, mirror));
    } else {
        assert((a + b).drop_first() =~= a.drop_first() + b);
        lemma_kids_all_add(t, a.drop_first(), b, mirror);
        assert(kids_all(t, a + b, mirror) =~= kids_all(t, a, mirror) + kids_all(t, b, mirror));
    }
}

/// The children of a row of one node.
pub proof fn lemma_kids_all_one(t: Seq<NodeView>, x: usize, mirror: bool)
    ensures
        kids_all(t, seq![x], mirror) == kids(t, x as int, mirror),
{
    let one = seq![x];
    assert(one.drop_first() =~= Seq::empty());
    assert(kids_all(t, one.drop_first(), mirror) =~= Seq::empty());
    assert(kids_all(t, one, mirror) =~= kids(t, x as int, mirror));
}

/// The nodes of the row of depth `d` are nodes of depth `d`.
pub proof fn lemma_row_levels(t: Seq<NodeView>, d: int, mirror: bool)
    requires
        wf(t),
    ensures
        forall|j: int|
            0 <= j < row(t, d, mirror).len() ==> (#[trigger] row(t, d, mirror)[j]) < t.len()
                && t[row(t, d, mirror)[j] as int].level == d,
    decreases d,
{
    if d <= 1 {
        if t.len() > 0 {
            assert(node_ok(t, 0));
        }
    } else {
        lemma_row_levels(t, d - 1, mirror);
        lemma_kids_all_levels(t, row(t, d - 1, mirror), d - 1, mirror);
    }
}

/// The children of nodes of depth `d` are nodes of depth `d + 1`.
pub proof fn lemma_kids_all_levels(t: Seq<NodeView>, r: Seq<usize>, d: int, mirror: bool)
    requires
        wf(t),
        forall|j: int|
            0 <= j < r.len() ==> (#[trigger] r[j]) < t.len() && t[r[j] as int].level == d,
    ensures
        forall|j: int|
            0 <= j < kids_all(t, r, mirror).len() ==> (#[trigger] kids_all(t, r, mirror)[j])
                < t.len() && t[kids_all(t, r, mirror)[j] as int].level == d + 1,
    decreases r.len(),
{
    if r.len() > 0 {
        let x = r[0] as int;
        let first = kids(t, x, mirror);
        let rest = kids_all(t, r.drop_first(), mirror);
        assert forall|j: int| 0 <= j < r.drop_first().len() implies (#[trigger] r.drop_first()[j])
            < t.len() && t[r.drop_first()[j] as int].level == d by {
            assert(r.drop_first()[j] == r[j + 1]);
        }
        lemma_kids_all_levels(t, r.drop_first(), d, mirror);
        assert(node_ok(t, x));
        assert forall|j: int| 0 <= j < (first + rest).len() implies (#[trigger] (first + rest)[j])
            < t.len() && t[(first + rest)[j] as int].level == d + 1 by {
            if j < first.len() {
                let k = if mirror { t[x].children.len() - 1 - j } else { j };
                assert(child_ok(t, x, k));
                assert(first[j] == t[x].children[k]);
                assert(node_ok(t, first[j] as int));
            } else {
                assert(rest[j - first.len()] == (first + rest)[j]);
            }
        }
    }
}

/// Linking a node under `p` leaves the children of a row as they were,
/// where `p` is not in the row.
proof fn lemma_kids_all_same(t: Seq<NodeView>, content: Seq<char>, p: int, r: Seq<usize>)
    requires
        0 <= p < t.len(),
        forall|j: int| 0 <= j < r.len() ==> (#[trigger] r[j]) < t.len() && r[j] != p,
    ensures
        kids_all(linked(t, content, p), r, false) == kids_all(t, r, false),
    decreases r.len(),
{
    if r.len() > 0 {
        assert forall|j: int| 0 <= j < r.drop_first().len() implies (#[trigger] r.drop_first()[j])
            < t.len() && r.drop_first()[j] != p by {
            assert(r.drop_first()[j] == r[j + 1]);
        }
        lemma_kids_all_same(t, content, p, r.drop_first());
        assert(linked(t, content, p)[r[0] as int] == t[r[0] as int]);
    }
}

/// A node linked under the last node of depth `level - 1` comes last in the
/// row of depth `level`; the other rows stay as they were.
proof fn lemma_row_linked(
    t: Seq<NodeView>,
    content: Seq<char>,
    lv: Seq<Seq<usize>>,
    level: int,
    d: int,
)
    requires
        wf(t),
        index_fresh(t, lv),
        2 <= level <= lv.len() + 1,
        can_link(t, last_at(t, level - 1)),
    ensures
        row(linked(t, content, last_at(t, level - 1)), d, false) == (if d == level {
            row(t, d, false).push(t.len() as usize)
        } else {
            row(t, d, false)
        }),
    decreases d,
{
    let p = last_at(t, level - 1);
    let u = linked(t, content, p);
    let n = t.len() as usize;
    if d > 1 {
        lemma_row_linked(t, content, lv, level, d - 1);
        lemma_row_levels(t, d - 1, false);
        let above = row(t, d - 1, false);
        if d == level {
            assert(above == lv[level - 2]);
            let others = above.drop_last();
            assert(above =~= others + seq![p as usize]);
            assert forall|j: int| 0 <= j < others.len() implies (#[trigger] others[j]) < t.len()
                && others[j] != p by {
                assert(others[j] == above[j]);
                assert(above[j] < above[above.len() - 1]);
            }
            lemma_kids_all_same(t, content, p, others);
            lemma_kids_all_add(t, others, seq![p as usize], false);
            lemma_kids_all_add(u, others, seq![p as usize], false);
            lemma_kids_all_one(t, p as usize, false);
            lemma_kids_all_one(u, p as usize, false);
            assert(kids(u, p, false) =~= kids(t, p, false).push(n));
            assert(row(u, d, false) =~= row(t, d, false).push(n));
        } else if d == level + 1 {
            let same = row(t, level, false);
            lemma_row_levels(t, level, false);
            assert forall|j: int| 0 <= j < same.len() implies (#[trigger] same[j]) < t.len()
                && same[j] != p by {
                lemma_last_at(t, level - 1);
            }
            lemma_kids_all_same(t, content, p, same);
            assert(same.push(n) =~= same + seq![n]);
            lemma_kids_all_add(u, same, seq![n], false);
            lemma_kids_all_one(u, n, false);
            assert(kids(u, n as int, false) =~= Seq::empty());
            assert(row(u, d, false) =~= row(t, d, false));
        } else {
            assert forall|j: int| 0 <= j < above.len() implies (#[trigger] above[j]) < t.len()
                && above[j] != p by {
                lemma_last_at(t, level - 1);
            }
            lemma_kids_all_same(t, content, p, above);
        }
    } else if d == 1 {
    }
}

/// The level index of an empty tree is empty.
pub proof fn lemma_index_of_empty(lv: Seq<Seq<usize>>)
    requires
        index_current(Seq::<NodeView>::empty(), lv),
    ensures
        lv =~= Seq::<Seq<usize>>::empty(),
{
    if lv.len() > 0 {
        assert(lv[0] == row(Seq::<NodeView>::empty(), 1, false));
    }
}

/// An empty level index is that of the empty tree.
pub proof fn lemma_empty_index_fresh()
    ensures
        index_fresh(Seq::<NodeView>::empty(), Seq::<Seq<usize>>::empty()),
{
}

/// The level index of a tree of one node.
pub proof fn lemma_rooted_index(content: Seq<char>)
    ensures
        index_fresh(rooted(content), add_to_rows(Seq::<Seq<usize>>::empty(), 1, 0)),
{
    let t = rooted(content);
    let lv = add_to_rows(Seq::<Seq<usize>>::empty(), 1, 0);
    assert(t.drop_last() =~= Seq::empty());
    lemma_kids_all_one(t, 0, false);
    assert(row(t, 1, false) =~= seq![0usize]);
    assert(kids(t, 0, false) =~= Seq::empty());
    assert(row(t, 2, false) =~= Seq::empty());
    assert(lv[0] =~= row(t, 1, false));
}

/// A level index that is kept while a node is linked on the pending path
/// stays that of the tree.
pub proof fn lemma_linked_index(
    t: Seq<NodeView>,
    content: Seq<char>,
    lv: Seq<Seq<usize>>,
    level: int,
)
    requires
        wf(t),
        index_fresh(t, lv),
        0 < t.len() < usize::MAX,
        2 <= level <= t.last().level + 1,
        0 <= last_at(t, level - 1),
    ensures
        index_fresh(
            linked(t, content, last_at(t, level - 1)),
            add_to_rows(lv, level, t.len() as usize),
        ),
{
    let p = last_at(t, level - 1);
    let u = linked(t, content, p);
    let n = t.len() as usize;
    let added = add_to_rows(lv, level, n);
    lemma_last_at(t, level - 1);
    assert(node_ok(t, p));
    assert(t[t.len() - 1].level <= lv.len());
    assert forall|d: int| 0 <= d < added.len() implies {
        &&& #[trigger] added[d] == row(u, d + 1, false)
        &&& added[d].len() > 0
        &&& added[d].last() == last_at(u, d + 1)
        &&& ascending(added[d])
    } by {
        lemma_row_linked(t, content, lv, level, d + 1);
        lemma_last_at_linked(t, content, p, d + 1);
        if d + 1 == level {
            if level <= lv.len() {
                let old_row = lv[d];
                lemma_row_levels(t, level, false);
                assert forall|a: int, b: int| 0 <= a < b < added[d].len() implies
                    #[trigger] added[d][a] < #[trigger] added[d][b] by {
                    if b < old_row.len() {
                        assert(old_row[a] < old_row[b]);
                    } else {
                        assert(old_row[a] == row(t, level, false)[a]);
                    }
                }
            } else {
                assert(added[d] =~= seq![n]);
                assert(row(t, level, false) =~= Seq::empty());
                assert(row(u, level, false) =~= seq![n]);
            }
        } else {
            assert(added[d] == lv[d]);
        }
    }
    lemma_row_linked(t, content, lv, level, added.len() as int + 1);
    if level > lv.len() {
        assert(row(t, level, false) =~= Seq::empty());
        assert(row(t, level + 1, false) =~= Seq::empty());
    }
    assert forall|j: int| 0 <= j < u.len() implies (#[trigger] u[j]).level <= added.len() by {
        if j < t.len() {
            assert(t[j].level <= lv.len());
        }
    }
}

/// The children of a row walked backwards, each node's children backwards,
/// are the children of the row, backwards.
pub proof fn lemma_kids_all_reverse(t: Seq<NodeView>, r: Seq<usize>)
    ensures
        kids_all(t, r.reverse(), true) == kids_all(t, r, false).reverse(),
    decreases r.len(),
{
    if r.len() == 0 {
        assert(r.reverse() =~= Seq::empty());
        assert(kids_all(t, r, false).reverse() =~= Seq::empty());
    } else {
        let x = r[0];
        let rest = r.drop_first();
        lemma_kids_all_reverse(t, rest);
        assert(r.reverse() =~= rest.reverse() + seq![x]);
        lemma_kids_all_add(t, rest.reverse(), seq![x], true);
        lemma_kids_all_one(t, x, true);
        let a = kids(t, x as int, false);
        let b = kids_all(t, rest, false);
        assert((a + b).reverse() =~= b.reverse() + a.reverse());
    }
}

/// The row of a depth walked from right to left is that row, backwards.
pub proof fn lemma_row_mirrored(t: Seq<NodeView>, d: int)
    ensures
        row(t, d, true) == row(t, d, false).reverse(),
    decreases d,
{
    if d <= 1 {
        assert(row(t, d, true) =~= row(t, d, false).reverse());
    } else {
        lemma_row_mirrored(t, d - 1);
        lemma_kids_all_reverse(t, row(t, d - 1, false));
    }
}

/// From any depth on, a level index that is that of the tree gives what a
/// walk level by level gives.
proof fn lemma_index_rows_are_rows(t: Seq<NodeView>, lv: Seq<Seq<usize>>, d: int, mirror: bool)
    requires
        wf(t),
        index_current(t, lv),
        1 <= d <= lv.len() + 1,
    ensures
        rows_from(t, row(t, d, mirror), d, mirror) == index_rows(lv, d - 1, mirror),
    decreases lv.len() + 1 - d,
{
    lemma_row_mirrored(t, d);
    lemma_row_mirrored(t, d + 1);
    if d <= lv.len() {
        lemma_index_rows_are_rows(t, lv, d + 1, mirror);
        lemma_row_levels(t, d, false);
        let r = row(t, d, false);
        assert(r == lv[d - 1]);
        assert(r[0] < t.len() && t[r[0] as int].level == d);
        assert(node_ok(t, r[0] as int));
        assert(d <= t.len());
        assert(row(t, d, mirror).len() == r.len());
    } else {
        assert(row(t, d, false) =~= Seq::empty());
        assert(row(t, d, mirror) =~= Seq::empty());
    }
}

/// A level index that is that of the tree gives, row by row, what a walk
/// level by level gives, from left to right and from right to left.
pub proof fn lemma_index_is_level_order(t: Seq<NodeView>, lv: Seq<Seq<usize>>, mirror: bool)
    requires
        wf(t),
        index_current(t, lv),
    ensures
        index_rows(lv, 0, mirror) == bfs_order(t, mirror),
{
    if t.len() == 0 {
        assert(t =~= Seq::<NodeView>::empty());
        lemma_index_of_empty(lv);
    } else {
        lemma_index_rows_are_rows(t, lv, 1, mirror);
        lemma_row_mirrored(t, 1);
        assert(row(t, 1, mirror) =~= seq![0usize]);
    }
}

} // verus!
