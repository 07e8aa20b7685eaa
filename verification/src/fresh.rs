//! Trees as reading leaves them: what is known of a tree that was read from
//! a document and not changed since.

use crate::forest::{forest_wf, ForestView, index_of, lemma_index_of, with_tree};
use crate::order::{index_ok, kid, pre, pre_kids, pre_order, sequential};
use crate::parser::{classify, is_node, StatementView};
use crate::reading::{
    add_to_rows, depth_before, last_at, lemma_last_at, lemma_last_at_levels, lemma_last_at_linked,
    read_prefix, start, step, with_node, ReadState,
};
use crate::rows::{
    index_fresh, lemma_empty_index_fresh, lemma_index_of_empty, lemma_linked_index,
    lemma_rooted_index,
};
use crate::shape::{
    can_link, child_ok, is_linked, lemma_linked_wf, linked, node_ok, NodeView, rooted, wf,
};
use crate::tree::NodeContent;
use crate::writing::{lemma_line_count_push, lemma_line_count_update, line_count};
use vstd::prelude::*;

verus! {

/// The positions from `a` up to `b`, `b` left out.
pub open spec fn span(a: int, b: int) -> Seq<usize> {
    Seq::new((b - a) as nat, |i: int| (a + i) as usize)
}

/// Behind the last node of each depth, up to the depth of the node added
/// last, lie deeper nodes only: these last nodes are the path from the root
/// to the node added last.
pub open spec fn path_closed(t: Seq<NodeView>) -> bool {
    t.len() > 0 ==> forall|l: int|
        1 <= l <= t.last().level ==> 0 <= #[trigger] last_at(t, l) && forall|j: int|
            last_at(t, l) < j < t.len() ==> t[j].level > l
}

/// Node `j` stands where reading puts it: linked, at most one level below
/// the node before it, under the last node before it of one depth less.
pub open spec fn placed(t: Seq<NodeView>, j: int) -> bool {
    &&& is_linked(t, j)
    &&& t[j].level <= t[j - 1].level + 1
    &&& t[j].parent->0 == last_at(t.take(j), t[j].level - 1)
}

/// The tree is as reading leaves it: well formed, every node but the root
/// where reading puts it, the pending path closed, and the nodes in
/// pre-order in the arena.
pub open spec fn as_read(t: Seq<NodeView>) -> bool {
    &&& wf(t)
    &&& forall|j: int| 0 < j < t.len() ==> #[trigger] placed(t, j)
    &&& path_closed(t)
    &&& pre_order(t, false) == sequential(t)
}

/// A tree of one node is as reading leaves it.
pub proof fn lemma_rooted_as_read(content: Seq<char>)
    ensures
        as_read(rooted(content)),
{
    let t = rooted(content);
    assert(node_ok(t, 0));
    assert(pre_kids(t, 0, 0, false) =~= Seq::empty());
    assert(pre_order(t, false) =~= sequential(t));
    assert(t.drop_last() =~= Seq::empty());
    assert forall|l: int| 1 <= l <= t.last().level implies 0 <= #[trigger] last_at(t, l)
        && forall|j: int| last_at(t, l) < j < t.len() ==> t[j].level > l by {}
}

/// A walk in pre-order from `x` gives `x` first, then nodes behind `x`, none
/// of them less deep than `x`.
pub proof fn lemma_pre_within(t: Seq<NodeView>, x: int, mirror: bool)
    requires
        wf(t),
        0 <= x < t.len(),
    ensures
        pre(t, x, mirror).len() > 0,
        pre(t, x, mirror)[0] == x,
        forall|j: int|
            0 <= j < pre(t, x, mirror).len() ==> x <= (#[trigger] pre(t, x, mirror)[j]) < t.len()
                && t[pre(t, x, mirror)[j] as int].level >= t[x].level,
    decreases t.len() - x, t[x].children.len() + 1,
{
    lemma_pre_kids_within(t, x, 0, mirror);
}

/// As `lemma_pre_within`, for the subtrees of the children of `x` from the
/// `i`-th on.
pub proof fn lemma_pre_kids_within(t: Seq<NodeView>, x: int, i: int, mirror: bool)
    requires
        wf(t),
        0 <= x < t.len(),
        0 <= i,
    ensures
        forall|j: int|
            0 <= j < pre_kids(t, x, i, mirror).len() ==> x < (#[trigger] pre_kids(
                t,
                x,
                i,
                mirror,
            )[j]) < t.len() && t[pre_kids(t, x, i, mirror)[j] as int].level > t[x].level,
    decreases t.len() - x, t[x].children.len() - i,
{
    if i < t[x].children.len() {
        let c = kid(t, x, i, mirror);
        let k = if mirror { t[x].children.len() - 1 - i } else { i };
        assert(node_ok(t, x));
        assert(child_ok(t, x, k));
        assert(node_ok(t, c as int));
        lemma_pre_within(t, c as int, mirror);
        lemma_pre_kids_within(t, x, i + 1, mirror);
        let first = pre(t, c as int, mirror);
        let rest = pre_kids(t, x, i + 1, mirror);
        assert forall|j: int| 0 <= j < (first + rest).len() implies x < (#[trigger] (first
            + rest)[j]) < t.len() && t[(first + rest)[j] as int].level > t[x].level by {
            if j < first.len() {
                assert(first[j] == (first + rest)[j]);
            } else {
                assert(rest[j - first.len()] == (first + rest)[j]);
            }
        }
    }
}

/// Linking a node under `p` leaves the walk from a node as it was, where
/// that walk does not come by `p`.
proof fn lemma_pre_same(t: Seq<NodeView>, content: Seq<char>, p: int, x: int)
    requires
        wf(t),
        can_link(t, p),
        0 <= x < t.len(),
        forall|j: int| 0 <= j < pre(t, x, false).len() ==> pre(t, x, false)[j] != p,
    ensures
        pre(linked(t, content, p), x, false) == pre(t, x, false),
    decreases t.len() - x, t[x].children.len() + 1,
{
    let u = linked(t, content, p);
    assert(pre(t, x, false)[0] == x);
    assert forall|j: int| 0 <= j < pre_kids(t, x, 0, false).len() implies pre_kids(
        t,
        x,
        0,
        false,
    )[j] != p by {
        assert(pre(t, x, false)[j + 1] == pre_kids(t, x, 0, false)[j]);
    }
    lemma_pre_kids_same(t, content, p, x, 0);
}

/// As `lemma_pre_same`, for the subtrees of the children of `x` from the
/// `i`-th on.
proof fn lemma_pre_kids_same(t: Seq<NodeView>, content: Seq<char>, p: int, x: int, i: int)
    requires
        wf(t),
        can_link(t, p),
        0 <= x < t.len(),
        x != p,
        0 <= i,
        forall|j: int| 0 <= j < pre_kids(t, x, i, false).len() ==> pre_kids(t, x, i, false)[j] != p,
    ensures
        pre_kids(linked(t, content, p), x, i, false) == pre_kids(t, x, i, false),
    decreases t.len() - x, t[x].children.len() - i,
{
    let u = linked(t, content, p);
    assert(u[x].children == t[x].children);
    if i < t[x].children.len() {
        let c = kid(t, x, i, false);
        assert(node_ok(t, x));
        assert(child_ok(t, x, i));
        let first = pre(t, c as int, false);
        let rest = pre_kids(t, x, i + 1, false);
        assert(pre_kids(t, x, i, false) == first + rest);
        assert forall|j: int| 0 <= j < first.len() implies first[j] != p by {
            assert((first + rest)[j] == first[j]);
        }
        assert forall|j: int| 0 <= j < rest.len() implies rest[j] != p by {
            assert((first + rest)[j + first.len()] == rest[j]);
        }
        lemma_pre_same(t, content, p, c as int);
        lemma_pre_kids_same(t, content, p, x, i + 1);
    }
}

/// Linking a node under `p` puts it behind the subtrees of the children
/// that `p` had.
proof fn lemma_append_at_parent(t: Seq<NodeView>, content: Seq<char>, p: int, i: int)
    requires
        wf(t),
        can_link(t, p),
        0 <= i <= t[p].children.len(),
    ensures
        pre_kids(linked(t, content, p), p, i, false) == pre_kids(t, p, i, false).push(
            t.len() as usize,
        ),
    decreases t[p].children.len() - i,
{
    let u = linked(t, content, p);
    let n = t.len() as int;
    let m = t[p].children.len() as int;
    assert(node_ok(t, p));
    if i == m {
        assert(kid(u, p, m, false) == n);
        assert(pre_kids(u, n, 0, false) =~= Seq::empty());
        assert(pre(u, n, false) =~= seq![n as usize]);
        assert(pre_kids(u, p, m + 1, false) =~= Seq::empty());
        assert(pre_kids(t, p, m, false) =~= Seq::empty());
        assert(pre_kids(u, p, m, false) =~= pre_kids(t, p, m, false).push(n as usize));
    } else {
        let c = kid(t, p, i, false);
        assert(child_ok(t, p, i));
        assert(kid(u, p, i, false) == c);
        lemma_pre_within(t, c as int, false);
        lemma_pre_same(t, content, p, c as int);
        lemma_append_at_parent(t, content, p, i + 1);
        assert(pre_kids(u, p, i, false) =~= pre_kids(t, p, i, false).push(n as usize));
    }
}

/// Where the walk from `x` gives every position from `x` to the end of the
/// arena, and behind `p` lie deeper nodes only, a node linked under `p`
/// comes last in the walk from `x`.
proof fn lemma_append(t: Seq<NodeView>, content: Seq<char>, p: int, x: int)
    requires
        wf(t),
        can_link(t, p),
        0 <= x <= p,
        pre(t, x, false) == span(x, t.len() as int),
        forall|j: int| p < j < t.len() ==> t[j].level > t[p].level,
    ensures
        pre(linked(t, content, p), x, false) == span(x, t.len() as int + 1),
    decreases p - x, t[x].children.len() + 1,
{
    let u = linked(t, content, p);
    let n = t.len() as int;
    if x == p {
        lemma_append_at_parent(t, content, p, 0);
        assert(pre(u, p, false) =~= pre(t, p, false).push(n as usize));
        assert(span(p, n).push(n as usize) =~= span(p, n + 1));
    } else {
        let below = pre_kids(t, x, 0, false);
        assert(below =~= span(x + 1, n)) by {
            assert(pre(t, x, false) == seq![x as usize] + below);
            assert((seq![x as usize] + below).len() == 1 + below.len());
            assert(below.len() == n - x - 1);
            assert forall|j: int| 0 <= j < n - x - 1 implies below[j] == span(x + 1, n)[j] by {
                assert((seq![x as usize] + below)[j + 1] == below[j]);
                assert(span(x, n)[j + 1] == x + j + 1);
            }
        }
        lemma_append_kids(t, content, p, x, 0, x + 1);
        assert(pre(u, x, false) =~= span(x, n + 1));
    }
}

/// As `lemma_append`, for the subtrees of the children of `x` from the
/// `i`-th on, which give every position from `b` to the end of the arena.
proof fn lemma_append_kids(t: Seq<NodeView>, content: Seq<char>, p: int, x: int, i: int, b: int)
    requires
        wf(t),
        can_link(t, p),
        0 <= x < p,
        0 <= i,
        x < b <= p,
        pre_kids(t, x, i, false) == span(b, t.len() as int),
        forall|j: int| p < j < t.len() ==> t[j].level > t[p].level,
    ensures
        pre_kids(linked(t, content, p), x, i, false) == span(b, t.len() as int + 1),
    decreases p - x, t[x].children.len() - i,
{
    let u = linked(t, content, p);
    let n = t.len() as int;
    assert(u[x].children == t[x].children);
    assert(span(b, n).len() > 0);
    assert(i < t[x].children.len());
    let c = kid(t, x, i, false);
    assert(node_ok(t, x));
    assert(child_ok(t, x, i));
    assert(node_ok(t, c as int));
    let first = pre(t, c as int, false);
    let rest = pre_kids(t, x, i + 1, false);
    lemma_pre_within(t, c as int, false);
    assert((first + rest)[0] == first[0]);
    assert(c == b);
    let e = b + first.len();
    assert(first =~= span(b, e)) by {
        assert forall|j: int| 0 <= j < first.len() implies first[j] == span(b, e)[j] by {
            assert((first + rest)[j] == first[j]);
        }
    }
    assert(rest =~= span(e, n)) by {
        assert forall|j: int| 0 <= j < rest.len() implies rest[j] == span(e, n)[j] by {
            assert((first + rest)[j + first.len()] == rest[j]);
        }
    }
    if e <= p {
        assert forall|j: int| 0 <= j < first.len() implies first[j] != p by {}
        lemma_pre_same(t, content, p, c as int);
        lemma_append_kids(t, content, p, x, i + 1, e);
        assert(pre_kids(u, x, i, false) =~= span(b, n + 1));
    } else {
        assert(first[p - b] == p);
        assert(t[p].level >= t[c as int].level);
        if e < n {
            assert(rest.len() > 0);
            assert(i + 1 < t[x].children.len());
            let c2 = kid(t, x, i + 1, false);
            assert(child_ok(t, x, i + 1));
            lemma_pre_within(t, c2 as int, false);
            let first2 = pre(t, c2 as int, false);
            let rest2 = pre_kids(t, x, i + 2, false);
            assert((first2 + rest2)[0] == first2[0]);
            assert(c2 == e);
            assert(node_ok(t, c2 as int));
            assert(t[c2 as int].level == t[c as int].level);
            assert(false);
        }
        assert(rest =~= Seq::empty());
        if i + 1 < t[x].children.len() {
            let c2 = kid(t, x, i + 1, false);
            assert(child_ok(t, x, i + 1));
            lemma_pre_within(t, c2 as int, false);
            assert(false);
        }
        assert(pre_kids(u, x, i + 1, false) =~= Seq::empty());
        lemma_append(t, content, p, c as int);
        assert(pre_kids(u, x, i, false) =~= span(b, n + 1));
    }
}

/// A tree that is as reading leaves it stays so when a node is linked under
/// the last node of some depth on its pending path.
pub proof fn lemma_linked_as_read(t: Seq<NodeView>, content: Seq<char>, level: int)
    requires
        as_read(t),
        0 < t.len() < usize::MAX,
        2 <= level <= t.last().level + 1,
    ensures
        0 <= last_at(t, level - 1) < t.len(),
        as_read(linked(t, content, last_at(t, level - 1))),
        linked(t, content, last_at(t, level - 1)).last().level == level,
{
    let p = last_at(t, level - 1);
    let u = linked(t, content, p);
    let n = t.len() as int;
    lemma_last_at(t, level - 1);
    assert(0 <= p);
    assert(node_ok(t, p));
    lemma_linked_wf(t, content, p);
    assert(sequential(t) =~= span(0, n));
    lemma_append(t, content, p, 0);
    assert(pre_order(u, false) =~= sequential(u));
    assert forall|j: int| 0 < j < u.len() implies #[trigger] placed(u, j) by {
        lemma_last_at_levels(u.take(j), t.take(j), u[j].level - 1);
        if j < n {
            assert(placed(t, j));
            assert(node_ok(t, j));
        } else {
            assert(t.take(n) =~= t);
        }
    }
    assert forall|l: int| 1 <= l <= u.last().level implies 0 <= #[trigger] last_at(u, l)
        && forall|j: int| last_at(u, l) < j < u.len() ==> u[j].level > l by {
        lemma_last_at_linked(t, content, p, l);
        if l < level {
            assert(0 <= last_at(t, l));
        }
    }
}

/// What holds of a forest that was read from a document and not changed
/// since: every tree is as reading leaves it, and every level index is that
/// of its tree.
pub open spec fn forest_as_read(f: ForestView) -> bool {
    &&& forest_wf(f)
    &&& forall|i: int| 0 <= i < f.trees.len() ==> as_read(#[trigger] f.trees[i])
    &&& f.levels matches Some(lv) ==> forall|i: int|
        0 <= i < f.trees.len() ==> index_fresh(f.trees[i], #[trigger] lv[i])
}

/// What holds of what was read from `k` lines: the forest is well formed;
/// every tree is as reading leaves it and has at most `k` nodes; the depth
/// read last is that of the last node of the tree that nodes go to, and at
/// most `k`; every level index is that of its tree; and writing the forest
/// takes at most `k` lines.
pub open spec fn read_inv(s: ReadState, k: int) -> bool {
    &&& forest_wf(s.forest)
    &&& -1 <= s.current < s.forest.trees.len()
    &&& forall|i: int|
        0 <= i < s.forest.trees.len() ==> as_read(#[trigger] s.forest.trees[i])
            && s.forest.trees[i].len() <= k
    &&& s.current >= 0 && s.forest.trees[s.current].len() > 0 ==> s.prev_level
        == s.forest.trees[s.current].last().level
    &&& s.forest.levels matches Some(lv) ==> forall|i: int|
        0 <= i < s.forest.trees.len() ==> index_fresh(s.forest.trees[i], #[trigger] lv[i])
    &&& line_count(s.forest.trees) <= k
    &&& s.prev_level <= k
}

/// A header keeps what holds of what was read.
proof fn lemma_header_inv(s: ReadState, name: Seq<char>, k: int)
    requires
        read_inv(s, k),
        0 <= k,
    ensures
        read_inv(
            ReadState {
                forest: with_tree(s.forest, name),
                current: index_of(with_tree(s.forest, name).names, name),
                ..s
            },
            k + 1,
        ),
{
    let f = s.forest;
    let g = with_tree(f, name);
    let i = index_of(f.names, name);
    lemma_index_of(f.names, name);
    lemma_index_of(g.names, name);
    let none = Seq::<NodeView>::empty();
    assert(as_read(none)) by {
        assert(pre_order(none, false) =~= sequential(none));
    }
    assert(index_ok(none, Seq::<Seq<usize>>::empty()));
    lemma_empty_index_fresh();
    if i >= 0 {
        lemma_line_count_update(f.trees, i, none);
    } else {
        lemma_line_count_push(f.trees, none);
    }
    if i >= 0 {
        assert(index_of(g.names, name) == i);
        assert forall|j: int| 0 <= j < g.trees.len() implies as_read(#[trigger] g.trees[j])
            && g.trees[j].len() <= k + 1 by {
            if j != i {
                assert(g.trees[j] == f.trees[j]);
            }
        }
        if let Some(lv) = g.levels {
            assert forall|j: int| 0 <= j < g.trees.len() implies index_ok(
                g.trees[j],
                #[trigger] lv[j],
            ) && index_fresh(g.trees[j], lv[j]) by {
                if j != i {
                    assert(index_ok(f.trees[j], f.levels->0[j]));
                    assert(index_fresh(f.trees[j], f.levels->0[j]));
                }
            }
        }
    } else {
        assert(g.names.last() == name);
        assert(index_of(g.names, name) == f.names.len());
        assert forall|j: int| 0 <= j < g.trees.len() implies as_read(#[trigger] g.trees[j])
            && g.trees[j].len() <= k + 1 by {
            if j < f.trees.len() {
                assert(g.trees[j] == f.trees[j]);
            }
        }
        assert forall|a: int, b: int| 0 <= a < b < g.names.len() implies #[trigger] g.names[a]
            != #[trigger] g.names[b] by {
            if b < f.names.len() {
                assert(f.names[a] != f.names[b]);
            }
        }
        if let Some(lv) = g.levels {
            assert forall|j: int| 0 <= j < g.trees.len() implies index_ok(
                g.trees[j],
                #[trigger] lv[j],
            ) && index_fresh(g.trees[j], lv[j]) by {
                if j < f.trees.len() {
                    assert(index_ok(f.trees[j], f.levels->0[j]));
                    assert(index_fresh(f.trees[j], f.levels->0[j]));
                }
            }
        }
    }
}

/// A node read into the tree that nodes go to keeps what holds of what was
/// read.
proof fn lemma_node_inv(s: ReadState, t: Seq<NodeView>, level: usize, k: int)
    requires
        read_inv(s, k),
        0 <= s.current,
        as_read(t),
        t.len() == s.forest.trees[s.current].len() + 1,
        t.len() <= k + 1,
        t.last().level == level,
        s.forest.levels matches Some(lv) ==> index_fresh(
            t,
            add_to_rows(lv[s.current], level as int, (t.len() - 1) as usize),
        ),
    ensures
        read_inv(
            ReadState {
                forest: with_node(s.forest, s.current, t, level as int),
                prev_level: level,
                ..s
            },
            k + 1,
        ),
{
    let f = s.forest;
    let c = s.current;
    let g = with_node(f, c, t, level as int);
    lemma_line_count_update(f.trees, c, t);
    assert(node_ok(t, t.len() - 1));
    assert forall|j: int| 0 <= j < g.trees.len() implies as_read(#[trigger] g.trees[j])
        && g.trees[j].len() <= k + 1 by {
        if j != c {
            assert(g.trees[j] == f.trees[j]);
        }
    }
    if let Some(lv) = g.levels {
        assert forall|j: int| 0 <= j < g.trees.len() implies index_ok(g.trees[j], #[trigger] lv[j])
            && index_fresh(g.trees[j], lv[j]) by {
            assert(index_ok(f.trees[j], f.levels->0[j]));
            assert(index_fresh(f.trees[j], f.levels->0[j]));
            if j == c {
                let rows = f.levels->0[c];
                let added = add_to_rows(rows, level as int, (t.len() - 1) as usize);
                assert forall|d: int, e: int|
                    0 <= d < added.len() && 0 <= e < added[d].len() implies #[trigger] added[d][e]
                    < t.len() by {
                    if d < rows.len() && e < rows[d].len() {
                        assert(rows[d][e] < f.trees[c].len());
                    }
                }
            }
        }
    }
}

/// One more line keeps what holds of what was read.
pub proof fn lemma_step_inv<T: NodeContent>(s: ReadState, k: int, statement: StatementView)
    requires
        read_inv(s, k),
        0 <= k < usize::MAX,
        statement matches StatementView::Node(_, level) ==> level >= 1,
        step::<T>(s, k as usize, statement) is Ok,
    ensures
        read_inv(step::<T>(s, k as usize, statement)->Ok_0, k + 1),
{
    match statement {
        StatementView::TreeID(name) => {
            lemma_header_inv(s, name, k);
        },
        StatementView::Node(content, level) => {
            let t = s.forest.trees[s.current];
            if level == 1 {
                lemma_rooted_as_read(T::reads(content));
                lemma_rooted_index(T::reads(content));
                if let Some(lv) = s.forest.levels {
                    assert(t =~= Seq::<NodeView>::empty());
                    assert(index_fresh(t, lv[s.current]));
                    lemma_index_of_empty(lv[s.current]);
                }
                lemma_node_inv(s, crate::shape::rooted(T::reads(content)), 1, k);
            } else {
                lemma_linked_as_read(t, T::reads(content), level as int);
                if let Some(lv) = s.forest.levels {
                    assert(index_fresh(t, lv[s.current]));
                    lemma_linked_index(t, T::reads(content), lv[s.current], level as int);
                }
                lemma_node_inv(
                    s,
                    linked(t, T::reads(content), last_at(t, level - 1)),
                    level as usize,
                    k,
                );
            }
        },
        _ => {
            assert forall|i: int| 0 <= i < s.forest.trees.len() implies as_read(
                #[trigger] s.forest.trees[i],
            ) && s.forest.trees[i].len() <= k + 1 by {}
        },
    }
}

/// What was read is a well-formed forest of trees that are as reading
/// leaves them.
pub proof fn lemma_read_inv<T: NodeContent>(lines: Seq<Seq<char>>, k: int, with_levels: bool)
    requires
        0 <= k <= lines.len() <= usize::MAX,
        read_prefix::<T>(lines, k, with_levels) is Ok,
    ensures
        read_inv(read_prefix::<T>(lines, k, with_levels)->Ok_0, k),
        forest_as_read(read_prefix::<T>(lines, k, with_levels)->Ok_0.forest),
        read_prefix::<T>(lines, k, with_levels)->Ok_0.forest.levels.is_some() == with_levels,
        read_prefix::<T>(lines, k, with_levels)->Ok_0.prev_level == depth_before(lines, k),
    decreases k,
{
    if k == 0 {
        let s = start(with_levels);
        assert(s.forest.names =~= Seq::empty());
        assert(s.forest.trees =~= Seq::empty());
    } else {
        lemma_read_inv::<T>(lines, k - 1, with_levels);
        let s = read_prefix::<T>(lines, k - 1, with_levels)->Ok_0;
        if classify(lines[k - 1]) is Node {
            assert(is_node(lines[k - 1]));
        }
        lemma_step_inv::<T>(s, k - 1, classify(lines[k - 1]));
    }
}

} // verus!
