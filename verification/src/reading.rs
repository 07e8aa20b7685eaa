//! What reading a document means: the forest that a sequence of lines
//! describes, or the first line at which they stop describing one.

use crate::error::line_number_at;
use crate::forest::{ForestView, index_of, no_trees, with_tree};
use crate::parser::{classify, StatementView};
use crate::shape::{linked, NodeView, rooted};
use crate::stack::{NodeStackContent, parent_index};
use crate::tree::NodeContent;
use vstd::prelude::*;

verus! {

/// What has been read so far: the forest, the place of the tree that nodes
/// go to (-1 before the first header), and the depth of the node read last.
pub ghost struct ReadState {
    pub forest: ForestView,
    pub current: int,
    pub prev_level: usize,
}

/// Why reading stopped: a message, and the number of the line, from 1.
pub ghost struct ReadError {
    pub message: Seq<char>,
    pub line: usize,
}

/// The position of the last node of depth `level`; -1 where there is none.
pub open spec fn last_at(t: Seq<NodeView>, level: int) -> int
    decreases t.len(),
{
    if t.len() == 0 {
        -1
    } else if t.last().level == level {
        t.len() - 1
    } else {
        last_at(t.drop_last(), level)
    }
}

/// A level index with one more position in the row of depth `level`.
pub open spec fn add_to_rows(rows: Seq<Seq<usize>>, level: int, position: usize) -> Seq<
    Seq<usize>,
> {
    if 1 <= level <= rows.len() {
        rows.update(level - 1, rows[level - 1].push(position))
    } else {
        rows.push(seq![position])
    }
}

/// The forest in which tree `i` has become `t` by one more node, of depth
/// `level`, which the tree's level index lists too.
pub open spec fn with_node(f: ForestView, i: int, t: Seq<NodeView>, level: int) -> ForestView {
    ForestView {
        trees: f.trees.update(i, t),
        levels: match f.levels {
            Some(lv) => Some(lv.update(i, add_to_rows(lv[i], level, (t.len() - 1) as usize))),
            None => None,
        },
        ..f
    }
}

/// Nothing read yet.
pub open spec fn start(with_levels: bool) -> ReadState {
    ReadState { forest: no_trees(with_levels), current: -1, prev_level: 0 }
}

/// Reading stops at the line that stands at index `i`: the failure names
/// that line by its number, counted from 1.
pub open spec fn stop(message: Seq<char>, i: usize) -> Result<ReadState, ReadError> {
    Err(ReadError { message, line: line_number_at(i as int) })
}

/// What line `i`, classified, makes of what was read before.
///
/// A header starts an empty tree. A node of depth 1 becomes the root of the
/// tree started last, which must have none yet. A deeper node becomes the last
/// child of the last node, in that tree, of one depth less. No node lies more
/// than one level below the node before it.
pub open spec fn step<T: NodeContent>(s: ReadState, i: usize, statement: StatementView) -> Result<
    ReadState,
    ReadError,
> {
    match statement {
        StatementView::Invalid => stop("Invalid statement"@, i),
        StatementView::Comment => Ok(s),
        StatementView::Empty => Ok(s),
        StatementView::TreeID(name) => {
            let f = with_tree(s.forest, name);
            Ok(ReadState { forest: f, current: index_of(f.names, name), ..s })
        },
        StatementView::Node(content, level) => {
            let rooted_already = s.current >= 0 && s.forest.trees[s.current].len() > 0;
            if level > s.prev_level + 1 {
                stop("Invalid node level"@, i)
            } else if level == 1 {
                if rooted_already {
                    stop("Multiple root nodes in the same tree"@, i)
                } else if s.current < 0 {
                    stop("Found root node without previous tree ID"@, i)
                } else if !T::accepts(content) {
                    stop("Failed parsing root node"@, i)
                } else {
                    Ok(
                        ReadState {
                            forest: with_node(s.forest, s.current, rooted(T::reads(content)), 1),
                            prev_level: 1,
                            ..s
                        },
                    )
                }
            } else {
                if !rooted_already {
                    stop("Couldn't find a parent ref"@, i)
                } else if !T::accepts(content) {
                    stop("Failed parsing node"@, i)
                } else {
                    let t = s.forest.trees[s.current];
                    Ok(
                        ReadState {
                            forest: with_node(
                                s.forest,
                                s.current,
                                linked(t, T::reads(content), last_at(t, level - 1)),
                                level as int,
                            ),
                            prev_level: level as usize,
                            ..s
                        },
                    )
                }
            }
        },
    }
}

/// What the first `k` lines read as.
pub open spec fn read_prefix<T: NodeContent>(lines: Seq<Seq<char>>, k: int, with_levels: bool)
    -> Result<ReadState, ReadError>
    decreases k,
{
    if k <= 0 {
        Ok(start(with_levels))
    } else {
        match read_prefix::<T>(lines, k - 1, with_levels) {
            Ok(s) => step::<T>(s, (k - 1) as usize, classify(lines[k - 1])),
            Err(e) => Err(e),
        }
    }
}

/// What a document reads as: a forest, or the first failure.
pub open spec fn read<T: NodeContent>(lines: Seq<Seq<char>>, with_levels: bool) -> Result<
    ForestView,
    ReadError,
> {
    match read_prefix::<T>(lines, lines.len() as int, with_levels) {
        Ok(s) => Ok(s.forest),
        Err(e) => Err(e),
    }
}

/// The depth of the last node line among the first `k` lines; 0 where there
/// is none.
pub open spec fn depth_before(lines: Seq<Seq<char>>, k: int) -> nat
    decreases k,
{
    if k <= 0 {
        0
    } else {
        match classify(lines[k - 1]) {
            StatementView::Node(_, level) => level,
            _ => depth_before(lines, k - 1),
        }
    }
}

/// What a document reads as whose source may have failed: `lines` are the
/// lines that could be read, and `complete` says whether they are all. A
/// failure in the lines that were read comes first; where there is none and
/// the lines are not all, the line behind them could not be read.
pub open spec fn read_source<T: NodeContent>(
    lines: Seq<Seq<char>>,
    complete: bool,
    with_levels: bool,
) -> Result<ForestView, ReadError> {
    match read::<T>(lines, with_levels) {
        Ok(f) => if complete {
            Ok(f)
        } else {
            Err(
                ReadError {
                    message: "Could not read line"@,
                    line: line_number_at(lines.len() as int),
                },
            )
        },
        Err(e) => Err(e),
    }
}

/// Where reading has failed, the failure names one of the lines read.
pub proof fn lemma_failure_line<T: NodeContent>(lines: Seq<Seq<char>>, k: int, with_levels: bool)
    requires
        0 <= k <= usize::MAX,
        read_prefix::<T>(lines, k, with_levels) is Err,
    ensures
        1 <= read_prefix::<T>(lines, k, with_levels)->Err_0.line <= k,
    decreases k,
{
    if k > 0 && read_prefix::<T>(lines, k - 1, with_levels) is Err {
        lemma_failure_line::<T>(lines, k - 1, with_levels);
    }
}

/// The stack holds the path from the root to the last node of the tree: for
/// each depth down to that node's, the last node of that depth.
pub open spec fn is_path(stack: Seq<NodeStackContent>, t: Seq<NodeView>) -> bool {
    &&& stack.len() == (if t.len() == 0 {
        0
    } else {
        t.last().level as int
    })
    &&& forall|k: int|
        0 <= k < stack.len() ==> {
            &&& (#[trigger] stack[k]).level == k + 1
            &&& stack[k].tree_position == last_at(t, k + 1)
            &&& 0 <= last_at(t, k + 1)
        }
}

/// Where `last_at` finds a node, it is a node of that depth.
pub proof fn lemma_last_at(t: Seq<NodeView>, level: int)
    ensures
        -1 <= last_at(t, level) < t.len(),
        last_at(t, level) >= 0 ==> t[last_at(t, level)].level == level,
    decreases t.len(),
{
    if t.len() > 0 && t.last().level != level {
        lemma_last_at(t.drop_last(), level);
    }
}

/// `last_at` looks at depths only.
pub proof fn lemma_last_at_levels(t: Seq<NodeView>, u: Seq<NodeView>, level: int)
    requires
        t.len() == u.len(),
        forall|i: int| 0 <= i < t.len() ==> t[i].level == u[i].level,
    ensures
        last_at(t, level) == last_at(u, level),
    decreases t.len(),
{
    if t.len() > 0 && t.last().level != level {
        lemma_last_at_levels(t.drop_last(), u.drop_last(), level);
    }
}

/// After a node was linked, it is the last of its depth; for the other
/// depths nothing has changed.
pub proof fn lemma_last_at_linked(t: Seq<NodeView>, content: Seq<char>, parent: int, level: int)
    requires
        0 <= parent < t.len(),
        t[parent].level < usize::MAX,
    ensures
        last_at(linked(t, content, parent), level) == (if level == t[parent].level + 1 {
            t.len() as int
        } else {
            last_at(t, level)
        }),
{
    let u = linked(t, content, parent);
    if level != t[parent].level + 1 {
        assert(u.drop_last().len() == t.len());
        lemma_last_at_levels(u.drop_last(), t, level);
    }
}

/// On a path, the parent of a node of depth `level` is the entry of depth
/// `level - 1`.
pub proof fn lemma_parent_on_path(stack: Seq<NodeStackContent>, level: usize)
    requires
        forall|k: int| 0 <= k < stack.len() ==> (#[trigger] stack[k]).level == k + 1,
        2 <= level <= stack.len() + 1,
    ensures
        parent_index(stack, level) == level - 2,
    decreases stack.len(),
{
    if stack.len() > 0 && stack.last().level >= level {
        lemma_parent_on_path(stack.drop_last(), level);
    }
}

} // verus!
