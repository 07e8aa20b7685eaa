//! Reading back what was written.

use crate::forest::{ForestView, index_of, lemma_index_of, with_tree};
use crate::fresh::{as_read, forest_as_read, lemma_read_inv, placed, read_inv};
use crate::order::{pre_order, sequential};
use crate::parser::{
    classify, lemma_header_holds_valid_name, lemma_node_holds_valid_content, StatementView,
    valid_content, valid_name,
};
use crate::reading::{
    last_at, lemma_last_at, lemma_last_at_levels, read, read_prefix, ReadError, ReadState, start,
    step,
};
use crate::rows::{ascending, index_fresh, row};
use crate::shape::{child_ok, linked, node_ok, NodeView, rooted};
use crate::tree::NodeContent;
use crate::writing::{
    document, forest_lines, header_line, lemma_statements_count, lemma_valid_reads_back,
    lemma_written_at, line_count, node_line, reads_back, statements, written_at,
};
use vstd::prelude::*;

verus! {

/// The payload type takes the text of every node of the forest and hands it
/// back unchanged.
pub open spec fn steady<T: NodeContent>(f: ForestView) -> bool {
    forall|i: int, b: int|
        0 <= i < f.trees.len() && 0 <= b < f.trees[i].len() ==> T::accepts(
            (#[trigger] f.trees[i][b]).content,
        ) && T::reads(f.trees[i][b].content) == f.trees[i][b].content
}

/// Every line that the forest is written as reads back as what it was
/// written for.
pub open spec fn writable(f: ForestView) -> bool {
    forall|j: int| 0 <= j < statements(f).len() ==> reads_back(#[trigger] statements(f)[j])
}

/// The first `j` nodes of `g` have the texts and depths of those of `t`,
/// and `g` has no more nodes.
pub open spec fn same_start(g: Seq<NodeView>, t: Seq<NodeView>, j: int) -> bool {
    &&& g.len() == j
    &&& forall|b: int|
        0 <= b < j ==> (#[trigger] g[b]).content == t[b].content && g[b].level == t[b].level
}

/// Two trees have nodes of the same texts and depths.
pub open spec fn same_nodes(g: Seq<NodeView>, t: Seq<NodeView>) -> bool {
    same_start(g, t, t.len() as int)
}

/// The first `i` trees of `f` have been read back.
pub open spec fn read_back_trees(s: ReadState, f: ForestView, i: int) -> bool {
    &&& s.forest.names == f.names.take(i)
    &&& s.forest.trees.len() == i
    &&& forall|a: int| 0 <= a < i ==> same_nodes(#[trigger] s.forest.trees[a], f.trees[a])
}

/// The first `i` trees of `f` have been read back, and of tree `i` the
/// header and the first `j` nodes.
pub open spec fn read_back_nodes(s: ReadState, f: ForestView, i: int, j: int) -> bool {
    &&& s.current == i
    &&& s.forest.names == f.names.take(i + 1)
    &&& s.forest.trees.len() == i + 1
    &&& forall|a: int| 0 <= a < i ==> same_nodes(#[trigger] s.forest.trees[a], f.trees[a])
    &&& same_start(s.forest.trees[i], f.trees[i], j)
}

/// What must hold of a forest for its document to read back.
pub open spec fn reads_back_whole<T: NodeContent>(f: ForestView) -> bool {
    &&& forest_as_read(f)
    &&& writable(f)
    &&& steady::<T>(f)
    &&& statements(f).len() <= usize::MAX
}

/// Reading back the header of tree `i`.
proof fn lemma_read_back_header<T: NodeContent>(f: ForestView, with_levels: bool, i: int)
    requires
        reads_back_whole::<T>(f),
        0 <= i < f.trees.len(),
        read_prefix::<T>(document(f), forest_lines(f, i).len() as int, with_levels) is Ok,
        read_back_trees(
            read_prefix::<T>(document(f), forest_lines(f, i).len() as int, with_levels)->Ok_0,
            f,
            i,
        ),
    ensures
        read_prefix::<T>(document(f), written_at(f, i, 0).len() as int, with_levels) is Ok,
        read_back_nodes(
            read_prefix::<T>(document(f), written_at(f, i, 0).len() as int, with_levels)->Ok_0,
            f,
            i,
            0,
        ),
{
    let doc = document(f);
    let a = forest_lines(f, i).len() as int;
    let s = read_prefix::<T>(doc, a, with_levels)->Ok_0;
    lemma_written_at(f, i, 0);
    assert(pre_order(f.trees[i], false).take(0) =~= Seq::empty());
    assert(written_at(f, i, 0) =~= forest_lines(f, i).push(header_line(f.names[i])));
    assert(reads_back(statements(f)[a]));
    let name = f.names[i];
    assert(classify(doc[a]) == StatementView::TreeID(name));
    let g = with_tree(s.forest, name);
    lemma_index_of(s.forest.names, name);
    if index_of(s.forest.names, name) >= 0 {
        let z = index_of(s.forest.names, name);
        assert(f.names.take(i)[z] == f.names[z]);
        assert(f.names[z] != f.names[i]);
    }
    assert(g.names =~= f.names.take(i + 1));
    lemma_index_of(g.names, name);
    assert(g.names[i] == name);
    assert(index_of(g.names, name) == i) by {
        assert(g.names.last() == name);
    }
    let s1 = read_prefix::<T>(doc, a + 1, with_levels)->Ok_0;
    assert(s1.forest == g);
    assert forall|b: int| 0 <= b < i implies same_nodes(
        #[trigger] s1.forest.trees[b],
        f.trees[b],
    ) by {
        assert(s1.forest.trees[b] == s.forest.trees[b]);
    }
}

/// The line behind what is written at `(i, j)` is the line of node `j` of
/// tree `i`, where the tree is walked as its nodes lie in the arena.
proof fn lemma_next_is_node(f: ForestView, i: int, j: int)
    requires
        0 <= i < f.trees.len(),
        0 <= j < f.trees[i].len() <= usize::MAX,
        pre_order(f.trees[i], false) == sequential(f.trees[i]),
    ensures
        written_at(f, i, j).len() < statements(f).len(),
        written_at(f, i, j + 1).len() == written_at(f, i, j).len() + 1,
        statements(f)[written_at(f, i, j).len() as int] == node_line(f.trees[i][j]),
{
    let t = f.trees[i];
    assert(sequential(t).len() == t.len());
    lemma_written_at(f, i, j);
    assert(pre_order(t, false)[j] == j);
    assert(pre_order(t, false).take(j + 1) =~= pre_order(t, false).take(j).push(j as usize));
    assert(written_at(f, i, j + 1) =~= written_at(f, i, j).push(node_line(t[j])));
}

/// What reading node `j` of the tree `t` makes of a state in which tree `i`
/// holds the first `j` nodes of `t`.
proof fn lemma_step_node<T: NodeContent>(
    s: ReadState,
    k: int,
    line: usize,
    t: Seq<NodeView>,
    j: int,
)
    requires
        read_inv(s, k),
        k < usize::MAX,
        as_read(t),
        0 <= j < t.len(),
        0 <= s.current,
        same_start(s.forest.trees[s.current], t, j),
        T::accepts(t[j].content),
        T::reads(t[j].content) == t[j].content,
    ensures
        step::<T>(s, line, StatementView::Node(t[j].content, t[j].level as nat)) is Ok,
        ({
            let s1 = step::<T>(s, line, StatementView::Node(t[j].content, t[j].level as nat))->Ok_0;
            &&& s1.current == s.current
            &&& s1.forest.names == s.forest.names
            &&& s1.forest.trees.len() == s.forest.trees.len()
            &&& forall|b: int|
                0 <= b < s.forest.trees.len() && b != s.current ==> #[trigger] s1.forest.trees[b]
                    == s.forest.trees[b]
            &&& same_start(s1.forest.trees[s.current], t, j + 1)
        }),
{
    let i = s.current;
    let g = s.forest.trees[i];
    let content = t[j].content;
    let level = t[j].level;
    assert(as_read(g));
    assert(node_ok(t, j));
    let s1 = step::<T>(s, line, StatementView::Node(content, level as nat))->Ok_0;
    if j == 0 {
        assert(level == 1);
        assert(s1.forest.trees[i] == rooted(content));
    } else {
        assert(placed(t, j));
        assert(node_ok(t, t[j].parent->0 as int));
        assert(level >= 2);
        assert(g.last() == g[j - 1]);
        assert(s.prev_level == t[j - 1].level);
        let p = last_at(g, level - 1);
        assert(0 <= p);
        lemma_last_at(g, level - 1);
        let u = linked(g, content, p);
        assert(s1.forest.trees[i] == u);
        assert forall|b: int| 0 <= b < j + 1 implies (#[trigger] u[b]).content == t[b].content
            && u[b].level == t[b].level by {
            if b < j {
                assert(g[b].content == t[b].content);
            }
        }
    }
}

/// The line behind what is written at `(i, j)` reads as node `j` of tree
/// `i`, where every line of the forest reads back.
proof fn lemma_next_reads_as_node(f: ForestView, i: int, j: int)
    requires
        writable(f),
        0 <= i < f.trees.len(),
        0 <= j < f.trees[i].len() <= usize::MAX,
        pre_order(f.trees[i], false) == sequential(f.trees[i]),
    ensures
        written_at(f, i, j).len() < statements(f).len(),
        written_at(f, i, j + 1).len() == written_at(f, i, j).len() + 1,
        classify(document(f)[written_at(f, i, j).len() as int]) == StatementView::Node(
            f.trees[i][j].content,
            f.trees[i][j].level as nat,
        ),
{
    let a = written_at(f, i, j).len() as int;
    lemma_next_is_node(f, i, j);
    assert(reads_back(statements(f)[a]));
}

/// One more line read: what the lines up to it read as, and then the line.
proof fn lemma_read_one_more<T: NodeContent>(lines: Seq<Seq<char>>, k: int, with_levels: bool)
    requires
        0 <= k,
        read_prefix::<T>(lines, k, with_levels) is Ok,
    ensures
        read_prefix::<T>(lines, k + 1, with_levels) == step::<T>(
            read_prefix::<T>(lines, k, with_levels)->Ok_0,
            k as usize,
            classify(lines[k]),
        ),
{
}

/// Reading back node `j` of tree `i`.
proof fn lemma_read_back_node<T: NodeContent>(f: ForestView, with_levels: bool, i: int, j: int)
    requires
        reads_back_whole::<T>(f),
        0 <= i < f.trees.len(),
        0 <= j < f.trees[i].len(),
        read_prefix::<T>(document(f), written_at(f, i, j).len() as int, with_levels) is Ok,
        read_back_nodes(
            read_prefix::<T>(document(f), written_at(f, i, j).len() as int, with_levels)->Ok_0,
            f,
            i,
            j,
        ),
    ensures
        read_prefix::<T>(document(f), written_at(f, i, j + 1).len() as int, with_levels) is Ok,
        read_back_nodes(
            read_prefix::<T>(document(f), written_at(f, i, j + 1).len() as int, with_levels)->Ok_0,
            f,
            i,
            j + 1,
        ),
{
    let doc = document(f);
    let t = f.trees[i];
    let a = written_at(f, i, j).len() as int;
    let s = read_prefix::<T>(doc, a, with_levels)->Ok_0;
    assert(as_read(t));
    lemma_next_reads_as_node(f, i, j);
    lemma_read_inv::<T>(doc, a, with_levels);
    lemma_step_node::<T>(s, a, a as usize, t, j);
    lemma_read_one_more::<T>(doc, a, with_levels);
    let s1 = step::<T>(s, a as usize, StatementView::Node(t[j].content, t[j].level as nat))->Ok_0;
    assert forall|b: int| 0 <= b < i implies same_nodes(
        #[trigger] s1.forest.trees[b],
        f.trees[b],
    ) by {
        assert(s1.forest.trees[b] == s.forest.trees[b]);
    }
}

/// Reading back the first `j` nodes of tree `i`.
proof fn lemma_read_back_tree<T: NodeContent>(f: ForestView, with_levels: bool, i: int, j: int)
    requires
        reads_back_whole::<T>(f),
        0 <= i < f.trees.len(),
        0 <= j <= f.trees[i].len(),
        read_prefix::<T>(document(f), written_at(f, i, 0).len() as int, with_levels) is Ok,
        read_back_nodes(
            read_prefix::<T>(document(f), written_at(f, i, 0).len() as int, with_levels)->Ok_0,
            f,
            i,
            0,
        ),
    ensures
        read_prefix::<T>(document(f), written_at(f, i, j).len() as int, with_levels) is Ok,
        read_back_nodes(
            read_prefix::<T>(document(f), written_at(f, i, j).len() as int, with_levels)->Ok_0,
            f,
            i,
            j,
        ),
    decreases j,
{
    if j > 0 {
        lemma_read_back_tree::<T>(f, with_levels, i, j - 1);
        lemma_read_back_node::<T>(f, with_levels, i, j - 1);
    }
}

/// With all nodes of tree `i` read back, the first `i + 1` trees are read
/// back.
proof fn lemma_tree_read_back(s: ReadState, f: ForestView, i: int)
    requires
        0 <= i < f.trees.len(),
        f.names.len() == f.trees.len(),
        read_back_nodes(s, f, i, f.trees[i].len() as int),
    ensures
        read_back_trees(s, f, i + 1),
{
    assert forall|a: int| 0 <= a < i + 1 implies same_nodes(
        #[trigger] s.forest.trees[a],
        f.trees[a],
    ) by {}
}

/// Reading back the first `i` trees.
proof fn lemma_read_back_forest<T: NodeContent>(f: ForestView, with_levels: bool, i: int)
    requires
        reads_back_whole::<T>(f),
        0 <= i <= f.trees.len(),
    ensures
        read_prefix::<T>(document(f), forest_lines(f, i).len() as int, with_levels) is Ok,
        read_back_trees(
            read_prefix::<T>(document(f), forest_lines(f, i).len() as int, with_levels)->Ok_0,
            f,
            i,
        ),
    decreases i,
{
    if i == 0 {
        let s = start(with_levels);
        assert(s.forest.names =~= f.names.take(0));
    } else {
        lemma_read_back_forest::<T>(f, with_levels, i - 1);
        lemma_read_back_header::<T>(f, with_levels, i - 1);
        let t = f.trees[i - 1];
        assert(as_read(t));
        assert(sequential(t).len() == t.len());
        lemma_read_back_tree::<T>(f, with_levels, i - 1, t.len() as int);
        lemma_written_at(f, i - 1, t.len() as int);
        assert(written_at(f, i - 1, t.len() as int) == forest_lines(f, i));
        let s = read_prefix::<T>(document(f), forest_lines(f, i).len() as int, with_levels)->Ok_0;
        lemma_tree_read_back(s, f, i - 1);
    }
}

/// Two rows that grow from left to right and hold the same positions are
/// the same row.
proof fn lemma_ascending_same(a: Seq<usize>, b: Seq<usize>)
    requires
        ascending(a),
        ascending(b),
        forall|v: usize| a.contains(v) <==> b.contains(v),
    ensures
        a == b,
    decreases a.len(),
{
    if a.len() == 0 {
        if b.len() > 0 {
            assert(b.contains(b[0]));
        }
        assert(a =~= b);
    } else {
        assert(a.contains(a.last()));
        assert(b.len() > 0);
        assert(b.contains(b.last()));
        let ia = choose|i: int| 0 <= i < a.len() && a[i] == b.last();
        let ib = choose|i: int| 0 <= i < b.len() && b[i] == a.last();
        assert(a.last() == b.last()) by {
            if ia < a.len() - 1 {
                assert(a[ia] < a[a.len() - 1]);
            }
            if ib < b.len() - 1 {
                assert(b[ib] < b[b.len() - 1]);
            }
        }
        let a0 = a.drop_last();
        let b0 = b.drop_last();
        assert forall|v: usize| a0.contains(v) <==> b0.contains(v) by {
            if a0.contains(v) {
                let i = choose|i: int| 0 <= i < a0.len() && a0[i] == v;
                assert(a[i] == v);
                assert(a[i] < a[a.len() - 1]);
                assert(a.contains(v));
                let k = choose|k: int| 0 <= k < b.len() && b[k] == v;
                assert(b0[k] == v);
            }
            if b0.contains(v) {
                let i = choose|i: int| 0 <= i < b0.len() && b0[i] == v;
                assert(b[i] == v);
                assert(b[i] < b[b.len() - 1]);
                assert(b.contains(v));
                let k = choose|k: int| 0 <= k < a.len() && a[k] == v;
                assert(a0[k] == v);
            }
        }
        assert(ascending(a0)) by {
            assert forall|x: int, y: int| 0 <= x < y < a0.len() implies #[trigger] a0[x]
                < #[trigger] a0[y] by {
                assert(a[x] < a[y]);
            }
        }
        assert(ascending(b0)) by {
            assert forall|x: int, y: int| 0 <= x < y < b0.len() implies #[trigger] b0[x]
                < #[trigger] b0[y] by {
                assert(b[x] < b[y]);
            }
        }
        lemma_ascending_same(a0, b0);
        assert(a =~= a0.push(a.last()));
        assert(b =~= b0.push(b.last()));
    }
}

/// In a tree as reading leaves it, a node lists exactly the nodes that
/// name it as their parent.
proof fn lemma_children_are_those(t: Seq<NodeView>, x: int, c: usize)
    requires
        as_read(t),
        0 <= x < t.len(),
    ensures
        t[x].children.contains(c) <==> (0 < c < t.len() && t[c as int].parent == Some(x as usize)),
{
    assert(node_ok(t, x));
    if t[x].children.contains(c) {
        let k = choose|k: int| 0 <= k < t[x].children.len() && t[x].children[k] == c;
        assert(child_ok(t, x, k));
    }
    if 0 < c < t.len() && t[c as int].parent == Some(x as usize) {
        assert(placed(t, c as int));
        assert(t[x].children[t[c as int].slot->0 as int] == c);
    }
}

/// Trees as reading leaves them are the same tree where their nodes have
/// the same texts and depths.
pub proof fn lemma_as_read_same(g: Seq<NodeView>, t: Seq<NodeView>)
    requires
        as_read(g),
        as_read(t),
        same_nodes(g, t),
    ensures
        g == t,
{
    assert forall|j: int| 0 <= j < t.len() implies g[j].parent == t[j].parent by {
        assert(node_ok(g, j));
        assert(node_ok(t, j));
        if j > 0 {
            assert(placed(g, j));
            assert(placed(t, j));
            lemma_last_at_levels(g.take(j), t.take(j), t[j].level - 1);
        }
    }
    assert forall|x: int| 0 <= x < t.len() implies g[x].children == t[x].children by {
        assert(node_ok(g, x));
        assert(node_ok(t, x));
        assert forall|v: usize| g[x].children.contains(v) <==> t[x].children.contains(v) by {
            lemma_children_are_those(g, x, v);
            lemma_children_are_those(t, x, v);
        }
        lemma_ascending_same(g[x].children, t[x].children);
    }
    assert forall|j: int| 0 <= j < t.len() implies g[j].slot == t[j].slot by {
        assert(node_ok(g, j));
        assert(node_ok(t, j));
        if j > 0 {
            assert(placed(g, j));
            assert(placed(t, j));
            let p = t[j].parent->0 as int;
            assert(node_ok(t, p));
            let a = g[j].slot->0 as int;
            let b = t[j].slot->0 as int;
            if a < b {
                assert(t[p].children[a] < t[p].children[b]);
            }
            if b < a {
                assert(t[p].children[b] < t[p].children[a]);
            }
        }
    }
    assert(g =~= t);
}

/// A tree has one level index that is its own.
pub proof fn lemma_index_same(t: Seq<NodeView>, a: Seq<Seq<usize>>, b: Seq<Seq<usize>>)
    requires
        index_fresh(t, a),
        index_fresh(t, b),
    ensures
        a == b,
{
    if a.len() < b.len() {
        assert(b[a.len() as int] == row(t, a.len() as int + 1, false));
    }
    if b.len() < a.len() {
        assert(a[b.len() as int] == row(t, b.len() as int + 1, false));
    }
    assert(a =~= b);
}

/// A forest that was read, whose lines all read back, and whose payload
/// type hands every text back as it took it, reads back from its document
/// as the forest that it is.
pub proof fn lemma_reads_back<T: NodeContent>(f: ForestView)
    requires
        reads_back_whole::<T>(f),
    ensures
        read::<T>(document(f), f.levels is Some) == Ok::<ForestView, ReadError>(f),
{
    let with_levels = f.levels is Some;
    let doc = document(f);
    let n = f.trees.len() as int;
    lemma_read_back_forest::<T>(f, with_levels, n);
    lemma_read_inv::<T>(doc, doc.len() as int, with_levels);
    let s = read_prefix::<T>(doc, doc.len() as int, with_levels)->Ok_0;
    let g = s.forest;
    assert(f.names.take(n) =~= f.names);
    assert forall|i: int| 0 <= i < n implies g.trees[i] == f.trees[i] by {
        assert(same_nodes(g.trees[i], f.trees[i]));
        lemma_as_read_same(g.trees[i], f.trees[i]);
    }
    assert(g.trees =~= f.trees);
    if with_levels {
        assert forall|i: int| 0 <= i < n implies g.levels->0[i] == f.levels->0[i] by {
            assert(index_fresh(g.trees[i], g.levels->0[i]));
            assert(index_fresh(f.trees[i], f.levels->0[i]));
            lemma_index_same(f.trees[i], g.levels->0[i], f.levels->0[i]);
        }
        assert(g.levels->0 =~= f.levels->0);
    }
}

/// The payload type takes every text and hands it back unchanged.
pub open spec fn plain<T: NodeContent>() -> bool {
    forall|content: Seq<char>| #[trigger] T::accepts(content) && T::reads(content) == content
}

/// Every name and every node text of the forest is valid.
pub open spec fn valid_texts(f: ForestView) -> bool {
    &&& forall|i: int| 0 <= i < f.names.len() ==> valid_name(#[trigger] f.names[i])
    &&& forall|i: int, b: int|
        0 <= i < f.trees.len() && 0 <= b < f.trees[i].len() ==> valid_content(
            (#[trigger] f.trees[i][b]).content,
        )
}

/// With a payload type that hands every text back unchanged, what was read
/// holds the names and node texts of the lines, which are valid.
pub proof fn lemma_read_valid_texts<T: NodeContent>(
    lines: Seq<Seq<char>>,
    k: int,
    with_levels: bool,
)
    requires
        plain::<T>(),
        0 <= k <= lines.len() <= usize::MAX,
        read_prefix::<T>(lines, k, with_levels) is Ok,
    ensures
        valid_texts(read_prefix::<T>(lines, k, with_levels)->Ok_0.forest),
    decreases k,
{
    if k > 0 {
        lemma_read_valid_texts::<T>(lines, k - 1, with_levels);
        lemma_read_inv::<T>(lines, k - 1, with_levels);
        let s = read_prefix::<T>(lines, k - 1, with_levels)->Ok_0;
        let s1 = read_prefix::<T>(lines, k, with_levels)->Ok_0;
        let f = s.forest;
        let g = s1.forest;
        let line = lines[k - 1];
        match classify(line) {
            StatementView::TreeID(name) => {
                lemma_header_holds_valid_name(line);
                lemma_index_of(f.names, name);
                let z = index_of(f.names, name);
                assert forall|i: int, b: int|
                    0 <= i < g.trees.len() && 0 <= b < g.trees[i].len() implies valid_content(
                    (#[trigger] g.trees[i][b]).content,
                ) by {
                    if i < f.trees.len() && i != z {
                        assert(g.trees[i][b] == f.trees[i][b]);
                    }
                }
                assert forall|i: int| 0 <= i < g.names.len() implies valid_name(
                    #[trigger] g.names[i],
                ) by {
                    if i < f.names.len() {
                        assert(g.names[i] == f.names[i]);
                    }
                }
            },
            StatementView::Node(content, level) => {
                lemma_node_holds_valid_content(line);
                assert(T::accepts(content) && T::reads(content) == content);
                let c = s.current;
                let t = f.trees[c];
                if level != 1 {
                    crate::fresh::lemma_linked_as_read(t, T::reads(content), level as int);
                }
                assert forall|i: int, b: int|
                    0 <= i < g.trees.len() && 0 <= b < g.trees[i].len() implies valid_content(
                    (#[trigger] g.trees[i][b]).content,
                ) by {
                    if i != c {
                        assert(g.trees[i][b] == f.trees[i][b]);
                    } else if level != 1 && b < t.len() {
                        assert(g.trees[i][b].content == t[b].content);
                        assert(valid_content(f.trees[c][b].content));
                    }
                }
            },
            _ => {},
        }
    } else {
        let s = start(with_levels);
        assert(s.forest.names =~= Seq::empty());
        assert(s.forest.trees =~= Seq::empty());
    }
}

/// What was read with a payload type that hands every text back unchanged
/// can be written and reads back.
pub proof fn lemma_read_reads_back<T: NodeContent>(lines: Seq<Seq<char>>, with_levels: bool)
    requires
        plain::<T>(),
        lines.len() <= usize::MAX,
        read::<T>(lines, with_levels) is Ok,
    ensures
        reads_back_whole::<T>(read::<T>(lines, with_levels)->Ok_0),
{
    let f = read::<T>(lines, with_levels)->Ok_0;
    lemma_read_inv::<T>(lines, lines.len() as int, with_levels);
    lemma_read_valid_texts::<T>(lines, lines.len() as int, with_levels);
    lemma_count_of_read(f, lines.len() as int);
    assert forall|j: int| 0 <= j < statements(f).len() implies reads_back(
        #[trigger] statements(f)[j],
    ) by {
        assert forall|i: int, b: int|
            0 <= i < f.trees.len() && 0 <= b < f.trees[i].len() implies valid_content(
            (#[trigger] f.trees[i][b]).content,
        ) && f.trees[i][b].level >= 1 by {
            assert(as_read(f.trees[i]));
            assert(node_ok(f.trees[i], b));
        }
        assert forall|i: int, b: int|
            0 <= i < f.trees.len() && 0 <= b < pre_order(f.trees[i], false).len() implies (
        #[trigger] pre_order(f.trees[i], false)[b]) < f.trees[i].len() by {
            assert(as_read(f.trees[i]));
        }
        lemma_valid_reads_back(f, j);
    }
}

/// A forest as reading leaves it is written in as many lines as
/// `line_count` says.
pub proof fn lemma_count_of_read(f: ForestView, k: int)
    requires
        forest_as_read(f),
        line_count(f.trees) <= k,
    ensures
        statements(f).len() <= k,
{
    assert forall|i: int| 0 <= i < f.trees.len() implies (#[trigger] pre_order(
        f.trees[i],
        false,
    )).len() == f.trees[i].len() by {
        assert(as_read(f.trees[i]));
        assert(sequential(f.trees[i]).len() == f.trees[i].len());
    }
    lemma_statements_count(f, f.trees.len() as int);
    assert(f.trees.take(f.trees.len() as int) =~= f.trees);
}

} // verus!
