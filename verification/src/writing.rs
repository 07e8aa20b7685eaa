//! What writing a forest means: the lines that stand for it, and the check
//! that each line reads back as what it was written for.

use crate::forest::ForestView;
use crate::order::pre_order;
use crate::parser::{
    classify, lemma_classify_header, markers, StatementView, valid_content, valid_name,
};
use crate::shape::NodeView;
use vstd::prelude::*;

verus! {

/// The line feed, as a byte.
pub const LINE_FEED: u8 = 10;

/// A line to be written: its text, and what it is meant to say.
pub ghost struct Written {
    pub text: Seq<char>,
    pub meant: StatementView,
}

/// The depth marker, `"+ "`, `d` times.
pub open spec fn marks(d: nat) -> Seq<char>
    decreases d,
{
    if d == 0 {
        Seq::empty()
    } else {
        marks((d - 1) as nat).push('+').push(' ')
    }
}

/// The header line of a tree.
pub open spec fn header_line(name: Seq<char>) -> Written {
    Written { text: seq!['['] + name + seq![']'], meant: StatementView::TreeID(name) }
}

/// The line of a node: the depth marker once for each level of depth, then
/// the text of the node.
pub open spec fn node_line(n: NodeView) -> Written {
    Written {
        text: marks(n.level as nat) + n.content,
        meant: StatementView::Node(n.content, n.level as nat),
    }
}

/// The lines of the nodes at the positions `order` of a tree.
pub open spec fn node_lines(t: Seq<NodeView>, order: Seq<usize>) -> Seq<Written> {
    Seq::new(order.len(), |j: int| node_line(t[order[j] as int]))
}

/// The lines of a tree: its nodes in pre-order.
pub open spec fn tree_lines(t: Seq<NodeView>) -> Seq<Written> {
    node_lines(t, pre_order(t, false))
}

/// The lines of the first `k` trees of a forest: for each tree its header,
/// then its nodes.
pub open spec fn forest_lines(f: ForestView, k: int) -> Seq<Written>
    decreases k,
{
    if k <= 0 {
        Seq::empty()
    } else {
        forest_lines(f, k - 1).push(header_line(f.names[k - 1])) + tree_lines(f.trees[k - 1])
    }
}

/// The lines of a forest.
pub open spec fn statements(f: ForestView) -> Seq<Written> {
    forest_lines(f, f.trees.len() as int)
}

/// A line reads back as what it was written for.
pub open spec fn reads_back(w: Written) -> bool {
    classify(w.text) == w.meant
}

/// The number of lines, from the first on, that read back as what they were
/// written for.
pub open spec fn sound_prefix(ws: Seq<Written>) -> int
    decreases ws.len(),
{
    if ws.len() == 0 {
        0
    } else if sound_prefix(ws.drop_last()) == ws.len() - 1 && reads_back(ws.last()) {
        ws.len() as int
    } else {
        sound_prefix(ws.drop_last())
    }
}

/// The texts of lines to be written.
pub open spec fn written_texts(ws: Seq<Written>) -> Seq<Seq<char>> {
    Seq::new(ws.len(), |j: int| ws[j].text)
}

/// The lines that a forest is written as.
pub open spec fn document(f: ForestView) -> Seq<Seq<char>> {
    written_texts(statements(f))
}

/// The bytes of lines as they are written: each line in UTF-8, with a line
/// feed behind it.
pub open spec fn bytes_of(lines: Seq<Seq<char>>) -> Seq<u8>
    decreases lines.len(),
{
    if lines.len() == 0 {
        Seq::empty()
    } else {
        bytes_of(lines.drop_last()) + vstd::utf8::encode_utf8(lines.last()).push(LINE_FEED)
    }
}

/// The message for a line that does not read back.
pub open spec fn defect(w: Written) -> Seq<char> {
    if w.meant is TreeID {
        "Could not parse Tree ID"@
    } else {
        "Could not parse node"@
    }
}

/// `sound_prefix` counts lines that read back, and stops at the first that
/// does not.
pub proof fn lemma_sound_prefix(ws: Seq<Written>)
    ensures
        0 <= sound_prefix(ws) <= ws.len(),
        forall|j: int| 0 <= j < sound_prefix(ws) ==> reads_back(#[trigger] ws[j]),
        sound_prefix(ws) < ws.len() ==> !reads_back(ws[sound_prefix(ws)]),
    decreases ws.len(),
{
    if ws.len() > 0 {
        lemma_sound_prefix(ws.drop_last());
        assert forall|j: int| 0 <= j < ws.len() - 1 implies ws[j] == ws.drop_last()[j] by {}
    }
}

/// With all of `ws` sound, one more line is sound or is the first defect.
pub proof fn lemma_sound_prefix_push(ws: Seq<Written>, w: Written)
    ensures
        sound_prefix(ws.push(w)) == (if sound_prefix(ws) == ws.len() && reads_back(w) {
            ws.len() as int + 1
        } else {
            sound_prefix(ws)
        }),
{
    assert(ws.push(w).drop_last() =~= ws);
}

/// Once a line does not read back, further lines change nothing.
pub proof fn lemma_sound_prefix_stops(ws: Seq<Written>, k: int)
    requires
        0 <= k <= ws.len(),
        sound_prefix(ws.take(k)) < k,
    ensures
        sound_prefix(ws) == sound_prefix(ws.take(k)),
    decreases ws.len() - k,
{
    if k < ws.len() {
        assert(ws.take(k + 1) =~= ws.take(k).push(ws[k]));
        lemma_sound_prefix_push(ws.take(k), ws[k]);
        lemma_sound_prefix_stops(ws, k + 1);
    } else {
        assert(ws.take(k) =~= ws);
    }
}

/// What is written when the first `i` trees are done, the header of tree
/// `i` is out, and so are the first `j` nodes of that tree.
pub open spec fn written_at(f: ForestView, i: int, j: int) -> Seq<Written> {
    forest_lines(f, i).push(header_line(f.names[i])) + node_lines(
        f.trees[i],
        pre_order(f.trees[i], false).take(j),
    )
}

/// The lines of the first trees are the first lines of the forest.
pub proof fn lemma_lines_prefix(f: ForestView, a: int, b: int)
    requires
        0 <= a <= b,
    ensures
        forest_lines(f, a).len() <= forest_lines(f, b).len(),
        forest_lines(f, b).take(forest_lines(f, a).len() as int) == forest_lines(f, a),
    decreases b - a,
{
    if a < b {
        lemma_lines_prefix(f, a, b - 1);
        let whole = forest_lines(f, b);
        let less = forest_lines(f, b - 1);
        assert(whole.take(less.len() as int) =~= less);
        assert(whole.take(forest_lines(f, a).len() as int) =~= less.take(
            forest_lines(f, a).len() as int,
        ));
    } else {
        assert(forest_lines(f, a).take(forest_lines(f, a).len() as int) =~= forest_lines(f, a));
    }
}

/// What is written at any point is the start of the lines of the forest,
/// and the line that comes next is the next line of the forest.
pub proof fn lemma_written_at(f: ForestView, i: int, j: int)
    requires
        0 <= i < f.trees.len(),
        0 <= j <= pre_order(f.trees[i], false).len(),
    ensures
        written_at(f, i, j).len() <= statements(f).len(),
        statements(f).take(written_at(f, i, j).len() as int) == written_at(f, i, j),
        forest_lines(f, i).len() < statements(f).len(),
        statements(f)[forest_lines(f, i).len() as int] == header_line(f.names[i]),
        j < pre_order(f.trees[i], false).len() ==> written_at(f, i, j).len() < statements(f).len()
            && statements(f)[written_at(f, i, j).len() as int] == node_line(
            f.trees[i][pre_order(f.trees[i], false)[j] as int],
        ),
        j == pre_order(f.trees[i], false).len() ==> written_at(f, i, j) == forest_lines(f, i + 1),
{
    let t = f.trees[i];
    let order = pre_order(t, false);
    let next = forest_lines(f, i + 1);
    lemma_lines_prefix(f, i + 1, f.trees.len() as int);
    assert(order.take(order.len() as int) =~= order);
    assert(written_at(f, i, order.len() as int) =~= next);
    assert(next.take(written_at(f, i, j).len() as int) =~= written_at(f, i, j));
    assert(statements(f).take(written_at(f, i, j).len() as int) =~= next.take(
        written_at(f, i, j).len() as int,
    ));
    assert(statements(f)[forest_lines(f, i).len() as int] == next[forest_lines(f, i).len() as int]);
    if j < order.len() {
        assert(statements(f)[written_at(f, i, j).len() as int] == next[written_at(
            f,
            i,
            j,
        ).len() as int]);
    }
}

/// Depth markers are made of `'+'` and `' '` in turn.
pub proof fn lemma_marks(d: nat)
    ensures
        marks(d).len() == 2 * d,
        forall|p: int|
            0 <= p < 2 * d ==> #[trigger] marks(d)[p] == (if p % 2 == 0 {
                '+'
            } else {
                ' '
            }),
    decreases d,
{
    if d > 0 {
        lemma_marks((d - 1) as nat);
        assert forall|p: int| 0 <= p < 2 * d implies #[trigger] marks(d)[p] == (if p % 2 == 0 {
            '+'
        } else {
            ' '
        }) by {
            if p < 2 * d - 2 {
                assert(marks(d)[p] == marks((d - 1) as nat)[p]);
            }
        }
    }
}

/// Behind `i` of the `d` markers of a node line, `d - i` markers follow.
proof fn lemma_markers_of_line(d: nat, content: Seq<char>, i: int)
    requires
        valid_content(content),
        0 <= i <= d,
    ensures
        markers(marks(d) + content, 2 * i) == d - i,
    decreases d - i,
{
    let s = marks(d) + content;
    lemma_marks(d);
    if i < d {
        assert(s[2 * i] == marks(d)[2 * i]);
        assert(s[2 * i + 1] == marks(d)[2 * i + 1]);
        lemma_markers_of_line(d, content, i + 1);
    } else {
        assert(s[2 * (d as int)] == content[0]);
    }
}

/// The line of a node of depth 1 or more with a valid content reads as
/// that node.
pub proof fn lemma_classify_node(level: nat, content: Seq<char>)
    requires
        level >= 1,
        valid_content(content),
    ensures
        classify(marks(level) + content) == StatementView::Node(content, level),
{
    let s = marks(level) + content;
    lemma_marks(level);
    lemma_markers_of_line(level, content, 0);
    assert(s[2 * (level as int)] == content[0]);
    assert forall|i: int| 0 <= i < s.len() implies s[i] != '\n' by {
        if i < 2 * level {
            assert(s[i] == marks(level)[i]);
        } else {
            assert(s[i] == content[i - 2 * level]);
        }
    }
    assert(s.skip(2 * (level as int)) =~= content);
}

/// A forest whose names and node texts are valid, under depths of 1 or
/// more, is written in lines that all read back.
pub proof fn lemma_valid_reads_back(f: ForestView, j: int)
    requires
        f.names.len() == f.trees.len(),
        forall|i: int| 0 <= i < f.names.len() ==> valid_name(#[trigger] f.names[i]),
        forall|i: int, b: int|
            0 <= i < f.trees.len() && 0 <= b < f.trees[i].len() ==> valid_content(
                (#[trigger] f.trees[i][b]).content,
            ) && f.trees[i][b].level >= 1,
        forall|i: int, b: int|
            0 <= i < f.trees.len() && 0 <= b < pre_order(f.trees[i], false).len()
                ==> (#[trigger] pre_order(f.trees[i], false)[b]) < f.trees[i].len(),
        0 <= j < statements(f).len(),
    ensures
        reads_back(statements(f)[j]),
{
    lemma_lines_valid(f, f.trees.len() as int, j);
}

/// As `lemma_valid_reads_back`, for the lines of the first `k` trees.
proof fn lemma_lines_valid(f: ForestView, k: int, j: int)
    requires
        f.names.len() == f.trees.len(),
        forall|i: int| 0 <= i < f.names.len() ==> valid_name(#[trigger] f.names[i]),
        forall|i: int, b: int|
            0 <= i < f.trees.len() && 0 <= b < f.trees[i].len() ==> valid_content(
                (#[trigger] f.trees[i][b]).content,
            ) && f.trees[i][b].level >= 1,
        forall|i: int, b: int|
            0 <= i < f.trees.len() && 0 <= b < pre_order(f.trees[i], false).len()
                ==> (#[trigger] pre_order(f.trees[i], false)[b]) < f.trees[i].len(),
        0 <= k <= f.trees.len(),
        0 <= j < forest_lines(f, k).len(),
    ensures
        reads_back(forest_lines(f, k)[j]),
    decreases k,
{
    if k > 0 {
        let before = forest_lines(f, k - 1);
        let t = f.trees[k - 1];
        if j < before.len() {
            lemma_lines_valid(f, k - 1, j);
        } else if j == before.len() {
            assert(valid_name(f.names[k - 1]));
            lemma_classify_header(f.names[k - 1]);
        } else {
            let b = j - before.len() - 1;
            let x = pre_order(t, false)[b];
            assert(forest_lines(f, k)[j] == node_line(t[x as int]));
            assert(valid_content(t[x as int].content));
            lemma_classify_node(t[x as int].level as nat, t[x as int].content);
        }
    }
}

/// The number of lines that trees are written in: for each tree one for
/// each node, and the header.
pub open spec fn line_count(trees: Seq<Seq<NodeView>>) -> int
    decreases trees.len(),
{
    if trees.len() == 0 {
        0
    } else {
        line_count(trees.drop_last()) + 1 + trees.last().len()
    }
}

/// The number of lines of trees of which one has changed.
pub proof fn lemma_line_count_update(trees: Seq<Seq<NodeView>>, i: int, t: Seq<NodeView>)
    requires
        0 <= i < trees.len(),
    ensures
        line_count(trees.update(i, t)) == line_count(trees) - trees[i].len() + t.len(),
    decreases trees.len(),
{
    let changed = trees.update(i, t);
    if i == trees.len() - 1 {
        assert(changed.drop_last() =~= trees.drop_last());
    } else {
        assert(changed.drop_last() =~= trees.drop_last().update(i, t));
        lemma_line_count_update(trees.drop_last(), i, t);
    }
}

/// The number of lines of trees with one more tree.
pub proof fn lemma_line_count_push(trees: Seq<Seq<NodeView>>, t: Seq<NodeView>)
    ensures
        line_count(trees.push(t)) == line_count(trees) + 1 + t.len(),
{
    assert(trees.push(t).drop_last() =~= trees);
}

/// The lines of a forest whose trees are walked whole are as many as
/// `line_count` says.
pub proof fn lemma_statements_count(f: ForestView, k: int)
    requires
        0 <= k <= f.trees.len(),
        forall|i: int|
            0 <= i < f.trees.len() ==> (#[trigger] pre_order(f.trees[i], false)).len()
                == f.trees[i].len(),
    ensures
        forest_lines(f, k).len() == line_count(f.trees.take(k)),
    decreases k,
{
    if k > 0 {
        lemma_statements_count(f, k - 1);
        assert(f.trees.take(k).drop_last() =~= f.trees.take(k - 1));
        assert(pre_order(f.trees[k - 1], false).len() == f.trees[k - 1].len());
    }
}

} // verus!
