//! The forest: trees by name, with a level index for each where one was
//! asked for.

use crate::error::ParseTreeError;
use crate::fresh::{forest_as_read, lemma_step_inv, read_inv};
use crate::iface::Model;
use crate::iter::push_kids;
use crate::order::{index_ok, kids_all};
use crate::parser::{classify, StatementView, TreeParser, TreeStatement};
use crate::reading::{
    add_to_rows, is_path, last_at, lemma_last_at, lemma_last_at_linked, lemma_parent_on_path, read,
    read_prefix, read_source, start, step, with_node, ReadError, ReadState,
};
use crate::rows::{index_current, lemma_kids_all_add, lemma_kids_all_one, lemma_row_levels, row};
use crate::shape::{
    can_link, find, is_linked, linked, node_ok, rooted, texts, unlinked, wf, NodeView,
};
use crate::stack::NodeStack;
use crate::text::{decimal, to_decimal};
use crate::tree::{level_rows, numbered, NodeContent, Tree, TreeLevel, TreeModel};
use crate::writing::{bytes_of, document, sound_prefix, statements};
use vstd::prelude::*;

verus! {

/// What a forest is to the contracts: the names of its trees in the order in
/// which they were added, the trees, and the level indexes.
pub ghost struct ForestView {
    pub names: Seq<Seq<char>>,
    pub trees: Seq<Seq<NodeView>>,
    pub levels: Option<Seq<Seq<Seq<usize>>>>,
}

/// The position of the tree called `name`; -1 where there is none.
pub open spec fn index_of(names: Seq<Seq<char>>, name: Seq<char>) -> int
    decreases names.len(),
{
    if names.len() == 0 {
        -1
    } else if names.last() == name {
        names.len() - 1
    } else {
        index_of(names.drop_last(), name)
    }
}

/// The forest invariant: one tree and one name each, no name twice, every
/// tree well formed, and every level index within its tree's arena.
pub open spec fn forest_wf(f: ForestView) -> bool {
    &&& f.names.len() == f.trees.len()
    &&& forall|i: int, j: int|
        0 <= i < j < f.names.len() ==> #[trigger] f.names[i] != #[trigger] f.names[j]
    &&& forall|i: int| 0 <= i < f.trees.len() ==> wf(#[trigger] f.trees[i])
    &&& f.levels matches Some(lv) ==> lv.len() == f.trees.len() && forall|i: int|
        0 <= i < f.trees.len() ==> index_ok(f.trees[i], #[trigger] lv[i])
}

/// A forest without trees.
pub open spec fn no_trees(with_levels: bool) -> ForestView {
    ForestView {
        names: Seq::empty(),
        trees: Seq::empty(),
        levels: if with_levels {
            Some(Seq::empty())
        } else {
            None
        },
    }
}

/// The forest with an empty tree under `name`: in the place of the tree of
/// that name, or behind the others.
pub open spec fn with_tree(f: ForestView, name: Seq<char>) -> ForestView {
    let i = index_of(f.names, name);
    if i >= 0 {
        ForestView {
            names: f.names,
            trees: f.trees.update(i, Seq::empty()),
            levels: match f.levels {
                Some(lv) => Some(lv.update(i, Seq::empty())),
                None => None,
            },
        }
    } else {
        ForestView {
            names: f.names.push(name),
            trees: f.trees.push(Seq::empty()),
            levels: match f.levels {
                Some(lv) => Some(lv.push(Seq::empty())),
                None => None,
            },
        }
    }
}

/// The forest with another tree in place `i`.
pub open spec fn with_nodes(f: ForestView, i: int, t: Seq<NodeView>) -> ForestView {
    ForestView { trees: f.trees.update(i, t), ..f }
}

/// `index_of` finds the name, and the last of its places.
pub proof fn lemma_index_of(names: Seq<Seq<char>>, name: Seq<char>)
    ensures
        -1 <= index_of(names, name) < names.len(),
        index_of(names, name) >= 0 ==> names[index_of(names, name)] == name,
        index_of(names, name) < 0 ==> forall|i: int| 0 <= i < names.len() ==> names[i] != name,
        forall|i: int| index_of(names, name) < i < names.len() ==> names[i] != name,
    decreases names.len(),
{
    if names.len() > 0 && names.last() != name {
        lemma_index_of(names.drop_last(), name);
        assert forall|i: int| 0 <= i < names.len() - 1 implies names[i] == names.drop_last()[i] by {
        }
    }
}

/// A set of trees, each under a name of its own.
#[derive(Debug)]
pub struct Forest<T: NodeContent> {
    names: Vec<String>,
    trees: Vec<Tree<T>>,
    levels: Option<Vec<Vec<TreeLevel>>>,
}

/// The rows of the level indexes of a forest.
pub open spec fn all_rows(levels: Option<Vec<Vec<TreeLevel>>>) -> Option<Seq<Seq<Seq<usize>>>> {
    match levels {
        Some(v) => Some(Seq::new(v@.len(), |i: int| level_rows(v@[i]@))),
        None => None,
    }
}

impl<T: NodeContent> View for Forest<T> {
    type V = ForestView;

    closed spec fn view(&self) -> ForestView {
        ForestView {
            names: texts(self.names@),
            trees: Seq::new(self.trees@.len(), |i: int| self.trees@[i]@),
            levels: all_rows(self.levels),
        }
    }
}

impl<T: NodeContent> Forest<T> {
    /// The rows of the level indexes name their depths.
    pub closed spec fn rows_numbered(&self) -> bool {
        self.levels matches Some(v) ==> forall|i: int|
            0 <= i < v@.len() ==> numbered(#[trigger] v@[i]@)
    }

    /// The payload of node `b` of the tree in place `i`.
    pub closed spec fn payload(&self, i: int, b: int) -> T {
        self.trees@[i].payload(b)
    }

    /// Every node that `before` holds is held with the payload that it had,
    /// but for the nodes of the tree in place `but`.
    pub open spec fn keeps_payloads(&self, before: &Self, but: int) -> bool {
        forall|j: int, b: int|
            0 <= j < before@.trees.len() && j != but && 0 <= b < before@.trees[j].len()
                ==> #[trigger] self.payload(j, b) == before.payload(j, b)
    }

    /// The forest invariant holds of this forest, and the rows of its level
    /// indexes name their depths.
    pub open spec fn wf(&self) -> bool {
        forest_wf(self@) && self.rows_numbered()
    }

    /// A forest without trees and without level indexes.
    pub fn empty() -> (r: Self)
        ensures
            r.wf(),
            r@ == no_trees(false),
    {
        let r = Forest { names: Vec::new(), trees: Vec::new(), levels: None };
        assert(r@.names =~= Seq::empty());
        assert(r@.trees =~= Seq::empty());
        r
    }

    /// A forest without trees, which keeps a level index for each tree that
    /// it gets.
    pub fn empty_with_levels() -> (r: Self)
        ensures
            r.wf(),
            r@ == no_trees(true),
    {
        let r = Forest { names: Vec::new(), trees: Vec::new(), levels: Some(Vec::new()) };
        assert(r@.names =~= Seq::empty());
        assert(r@.trees =~= Seq::empty());
        assert(r@.levels->0 =~= Seq::empty());
        r
    }

    /// The number of trees.
    pub fn len(&self) -> (r: usize)
        ensures
            r == self@.trees.len(),
    {
        self.trees.len()
    }

    /// The place of the tree called `tree_id`.
    pub fn position(&self, tree_id: &str) -> (r: Option<usize>)
        ensures
            r is None ==> index_of(self@.names, tree_id@) < 0,
            r matches Some(i) ==> i == index_of(self@.names, tree_id@),
    {
        let name = String::from_str(tree_id);
        let mut i = self.names.len();
        proof {
            assert(self@.names.take(i as int) =~= self@.names);
        }
        while i > 0
            invariant
                i <= self.names@.len(),
                name@ == tree_id@,
                index_of(self@.names, tree_id@) == index_of(self@.names.take(i as int), tree_id@),
            decreases i,
        {
            i = i - 1;
            assert(self@.names.take(i + 1).drop_last() =~= self@.names.take(i as int));
            if self.names[i] == name {
                return Some(i);
            }
        }
        None
    }

    /// The name of the tree in place `i`.
    pub fn name_at(&self, i: usize) -> (r: &String)
        requires
            self.wf(),
            i < self@.trees.len(),
        ensures
            r@ == self@.names[i as int],
    {
        &self.names[i]
    }

    /// The tree in place `i`.
    pub fn tree_at(&self, i: usize) -> (r: &Tree<T>)
        requires
            self.wf(),
            i < self@.trees.len(),
        ensures
            r@ == self@.trees[i as int],
            r.wf(),
            forall|b: int| #[trigger] r.payload(b) == self.payload(i as int, b),
    {
        assert(self@.trees[i as int] == self.trees@[i as int]@);
        &self.trees[i]
    }

    /// The tree called `tree_id`.
    pub fn get_tree(&self, tree_id: &str) -> (r: Option<&Tree<T>>)
        requires
            self.wf(),
        ensures
            r.is_some() == (index_of(self@.names, tree_id@) >= 0),
            r matches Some(t) ==> t.wf() && t@ == self@.trees[index_of(self@.names, tree_id@)],
            r matches Some(t) ==> forall|b: int| #[trigger]
                t.payload(b) == self.payload(index_of(self@.names, tree_id@), b),
    {
        proof {
            lemma_index_of(self@.names, tree_id@);
        }
        match self.position(tree_id) {
            Some(i) => Some(self.tree_at(i)),
            None => None,
        }
    }

    /// The tree called `tree_id`, ready to be walked, with its level index
    /// where the forest keeps one.
    pub fn tree<'a>(&'a self, tree_id: &str) -> (r: Option<TreeModel<'a, T>>)
        requires
            self.wf(),
        ensures
            r.is_some() == (index_of(self@.names, tree_id@) >= 0),
            r matches Some(m) ==> {
                let i = index_of(self@.names, tree_id@);
                &&& m.wf()
                &&& m.nodes() == self@.trees[i]
                &&& m.rows() == match self@.levels {
                    Some(lv) => Some(lv[i]),
                    None => None,
                }
                &&& forall|b: int| #[trigger] m.tree().payload(b) == self.payload(i, b)
            },
    {
        TreeModel::new(self, tree_id)
    }

    /// Puts an empty tree under `tree_id`. A tree of that name is replaced,
    /// and so is its level index.
    pub fn new_tree(&mut self, tree_id: &str)
        requires
            old(self).wf(),
        ensures
            final(self).wf(),
            final(self)@ == with_tree(old(self)@, tree_id@),
            final(self).keeps_payloads(old(self), index_of(old(self)@.names, tree_id@)),
    {
        proof {
            lemma_index_of(self@.names, tree_id@);
        }
        match self.position(tree_id) {
            Some(i) => {
                self.trees[i] = Tree::new();
                match &mut self.levels {
                    Some(v) => {
                        v[i] = Vec::new();
                    },
                    None => {},
                }
                proof {
                    let f = with_tree(old(self)@, tree_id@);
                    assert(self@.names =~= f.names);
                    assert(self@.trees =~~= f.trees);
                    if let Some(lv) = f.levels {
                        assert(self@.levels->0 =~~= lv);
                    }
                }
            },
            None => {
                self.add_tree(tree_id, Tree::new());
            },
        }
    }

    /// Puts a tree under a name that the forest does not hold yet, with an
    /// empty level index where the forest keeps level indexes.
    fn add_tree(&mut self, tree_id: &str, tree: Tree<T>)
        requires
            old(self).wf(),
            tree.wf(),
            index_of(old(self)@.names, tree_id@) < 0,
        ensures
            final(self).wf(),
            final(self)@.names == old(self)@.names.push(tree_id@),
            final(self)@.trees == old(self)@.trees.push(tree@),
            final(self)@.levels == match old(self)@.levels {
                Some(lv) => Some(lv.push(Seq::empty())),
                None => None,
            },
            final(self).keeps_payloads(old(self), -1),
    {
        proof {
            lemma_index_of(self@.names, tree_id@);
        }
        self.names.push(String::from_str(tree_id));
        self.trees.push(tree);
        match &mut self.levels {
            Some(v) => {
                v.push(Vec::new());
            },
            None => {},
        }
        proof {
            assert(self@.names =~= old(self)@.names.push(tree_id@));
            assert(self@.trees =~= old(self)@.trees.push(tree@));
            if let Some(lv) = old(self)@.levels {
                assert(self@.levels->0 =~~= lv.push(Seq::empty()));
            }
        }
    }

    /// Gives the tree called `tree_id` its root, made from the text
    /// `root_node_content`, and returns the root's position, 0.
    pub fn set_root(&mut self, tree_id: &str, root_node_content: &str) -> (r: Result<usize, String>)
        requires
            old(self).wf(),
        ensures
            final(self).wf(),
            final(self).keeps_payloads(old(self), -1),
            ({
                let f = old(self)@;
                let i = index_of(f.names, tree_id@);
                if i < 0 {
                    &&& r matches Err(e) && e@ == "Tree ID not found"@
                    &&& final(self)@ == f
                } else if f.trees[i].len() == 0 && T::accepts(root_node_content@) {
                    &&& r == Ok::<usize, String>(0)
                    &&& final(self)@ == with_nodes(f, i, rooted(T::reads(root_node_content@)))
                } else {
                    &&& r matches Err(e) && e@ == "Failed parsing root node"@
                    &&& final(self)@ == f
                }
            }),
    {
        proof {
            lemma_index_of(self@.names, tree_id@);
        }
        let i = match self.position(tree_id) {
            Some(i) => i,
            None => {
                return Err(String::from_str("Tree ID not found"));
            },
        };
        assert(self@.trees[i as int] == self.trees@[i as int]@);
        let ghost f = self@;
        let done = self.trees[i].add_root_node(root_node_content);
        proof {
            self.lemma_changed(*old(self), i as int);
        }
        if done {
            Ok(0)
        } else {
            Err(String::from_str("Failed parsing root node"))
        }
    }

    /// Adds a node made from the text `node_content` to the tree called
    /// `tree_id`, as the last child of the node at `node_index`, and returns
    /// its position.
    pub fn link_node(&mut self, tree_id: &str, node_index: usize, node_content: &str) -> (r: Result<
        usize,
        String,
    >)
        requires
            old(self).wf(),
        ensures
            final(self).wf(),
            final(self).keeps_payloads(old(self), -1),
            ({
                let f = old(self)@;
                let i = index_of(f.names, tree_id@);
                if i < 0 {
                    &&& r matches Err(e) && e@ == "Tree ID not found"@
                    &&& final(self)@ == f
                } else if node_index >= f.trees[i].len() {
                    &&& r matches Err(e) && e@ == "Node index not found"@
                    &&& final(self)@ == f
                } else if can_link(f.trees[i], node_index as int) && T::accepts(node_content@) {
                    &&& r == Ok::<usize, String>(f.trees[i].len() as usize)
                    &&& final(self)@ == with_nodes(
                        f,
                        i,
                        linked(f.trees[i], T::reads(node_content@), node_index as int),
                    )
                } else {
                    &&& r matches Err(e) && e@ == "Failed parsing node"@
                    &&& final(self)@ == f
                }
            }),
    {
        proof {
            lemma_index_of(self@.names, tree_id@);
        }
        let i = match self.position(tree_id) {
            Some(i) => i,
            None => {
                return Err(String::from_str("Tree ID not found"));
            },
        };
        assert(self@.trees[i as int] == self.trees@[i as int]@);
        if node_index >= self.trees[i].get_nodes_len() {
            return Err(String::from_str("Node index not found"));
        }
        let linked = self.trees[i].link_node(node_content, node_index);
        proof {
            self.lemma_changed(*old(self), i as int);
        }
        match linked {
            Some(new_node) => Ok(new_node),
            None => Err(String::from_str("Failed parsing node")),
        }
    }

    /// Takes the node at `node_index` of the tree called `tree_id` out of
    /// its parent's children, and returns its position.
    pub fn unlink_node(&mut self, tree_id: &str, node_index: usize) -> (r: Result<usize, String>)
        requires
            old(self).wf(),
        ensures
            final(self).wf(),
            final(self).keeps_payloads(old(self), -1),
            ({
                let f = old(self)@;
                let i = index_of(f.names, tree_id@);
                if i < 0 {
                    &&& r matches Err(e) && e@ == "Tree ID not found"@
                    &&& final(self)@ == f
                } else if node_index >= f.trees[i].len() {
                    &&& r matches Err(e) && e@ == "Node index not found"@
                    &&& final(self)@ == f
                } else if node_index == 0 {
                    &&& r matches Err(e) && e@ == "Trying to unlink the root node"@
                    &&& final(self)@ == f
                } else if is_linked(f.trees[i], node_index as int) {
                    &&& r == Ok::<usize, String>(node_index)
                    &&& final(self)@ == with_nodes(f, i, unlinked(f.trees[i], node_index as int))
                } else {
                    &&& r matches Err(e) && e@ == "Node not found in parent node children array"@
                    &&& final(self)@ == f
                }
            }),
    {
        proof {
            lemma_index_of(self@.names, tree_id@);
        }
        let i = match self.position(tree_id) {
            Some(i) => i,
            None => {
                return Err(String::from_str("Tree ID not found"));
            },
        };
        assert(self@.trees[i as int] == self.trees@[i as int]@);
        if node_index >= self.trees[i].get_nodes_len() {
            return Err(String::from_str("Node index not found"));
        }
        if node_index == 0 {
            return Err(String::from_str("Trying to unlink the root node"));
        }
        let unlinked = self.trees[i].unlink_node(node_index);
        proof {
            self.lemma_changed(*old(self), i as int);
        }
        match unlinked {
            Some(position) => Ok(position),
            None => Err(String::from_str("Node not found in parent node children array")),
        }
    }

    /// The node of the tree called `tree_id` that a path of texts names,
    /// from the root's text on.
    pub fn find_node(&self, tree_id: &str, path: Vec<String>) -> (r: Option<usize>)
        requires
            self.wf(),
        ensures
            r == (if index_of(self@.names, tree_id@) >= 0 {
                find(self@.trees[index_of(self@.names, tree_id@)], texts(path@))
            } else {
                None
            }),
    {
        match self.get_tree(tree_id) {
            Some(tree) => tree.find_node(&path),
            None => None,
        }
    }

    /// Makes the level index of every tree anew, from the trees as they are.
    /// A forest that kept no level indexes keeps them from now on.
    ///
    /// Linking and unlinking leave a level index as it is; this brings it up
    /// to the tree again.
    pub fn rebuild_levels(&mut self)
        requires
            old(self).wf(),
        ensures
            final(self).wf(),
            final(self)@.names == old(self)@.names,
            final(self)@.trees == old(self)@.trees,
            final(self).keeps_payloads(old(self), -1),
            final(self)@.levels is Some,
            forall|i: int|
                0 <= i < final(self)@.trees.len() ==> index_current(
                    final(self)@.trees[i],
                    #[trigger] final(self)@.levels->0[i],
                ),
    {
        let mut all: Vec<Vec<TreeLevel>> = Vec::new();
        let mut i: usize = 0;
        while i < self.trees.len()
            invariant
                i <= self.trees@.len(),
                self.wf(),
                all@.len() == i,
                forall|j: int|
                    0 <= j < i ==> {
                        &&& numbered(#[trigger] all@[j]@)
                        &&& index_ok(self@.trees[j], level_rows(all@[j]@))
                        &&& index_current(self@.trees[j], level_rows(all@[j]@))
                    },
            decreases self.trees@.len() - i,
        {
            let index = level_index(self.tree_at(i));
            all.push(index);
            i = i + 1;
        }
        let ghost f = self@;
        self.levels = Some(all);
        proof {
            assert(self@.trees =~= f.trees);
            assert forall|j: int| 0 <= j < self@.trees.len() implies index_ok(
                self@.trees[j],
                #[trigger] self@.levels->0[j],
            ) && index_current(self@.trees[j], self@.levels->0[j]) by {
                assert(numbered(all@[j]@));
            }
        }
    }

    /// Lists a node in the level index of tree `i`, where the forest keeps
    /// level indexes: in the row of its depth, which is made if it is not
    /// there yet.
    fn add_node_to_levels(&mut self, i: usize, level: usize, node_pos: usize)
        requires
            old(self).wf(),
            i < old(self)@.trees.len(),
            node_pos < old(self)@.trees[i as int].len(),
            level >= 1,
            old(self)@.levels matches Some(lv) ==> level <= lv[i as int].len() + 1,
        ensures
            final(self).wf(),
            final(self)@.names == old(self)@.names,
            final(self)@.trees == old(self)@.trees,
            final(self)@.levels == match old(self)@.levels {
                Some(lv) => Some(
                    lv.update(i as int, add_to_rows(lv[i as int], level as int, node_pos)),
                ),
                None => None,
            },
    {
        let ghost f = self@;
        match &mut self.levels {
            Some(v) => {
                let ghost rows = level_rows(v@[i as int]@);
                assert(rows == f.levels->0[i as int]);
                if level - 1 < v[i].len() {
                    v[i][level - 1].node_positions.push(node_pos);
                } else {
                    let mut node_positions: Vec<usize> = Vec::new();
                    node_positions.push(node_pos);
                    v[i].push(TreeLevel { level, node_positions });
                }
                assert(level_rows(v@[i as int]@) =~~= add_to_rows(rows, level as int, node_pos));
            },
            None => {},
        }
        proof {
            assert(self@.trees =~= f.trees);
            if let Some(lv) = f.levels {
                let added = lv.update(i as int, add_to_rows(lv[i as int], level as int, node_pos));
                assert(self@.levels->0 =~~= added);
                assert forall|j: int| 0 <= j < self@.trees.len() implies index_ok(
                    self@.trees[j],
                    #[trigger] added[j],
                ) by {
                    assert(index_ok(f.trees[j], lv[j]));
                }
            }
        }
    }

    /// Gives the empty tree in place `i` its root, and lists the root in the
    /// tree's level index.
    fn root_at(&mut self, i: usize, content: &str) -> (r: bool)
        requires
            old(self).wf(),
            i < old(self)@.trees.len(),
            old(self)@.trees[i as int].len() == 0,
        ensures
            final(self).wf(),
            r == T::accepts(content@),
            final(self)@ == (if r {
                with_node(old(self)@, i as int, rooted(T::reads(content@)), 1)
            } else {
                old(self)@
            }),
    {
        assert(self@.trees[i as int] == self.trees@[i as int]@);
        let done = self.trees[i].add_root_node(content);
        proof {
            self.lemma_changed(*old(self), i as int);
        }
        if done {
            self.add_node_to_levels(i, 1, 0);
        }
        done
    }

    /// Links a node under `parent` in the tree in place `i`, and lists it in
    /// the tree's level index.
    fn link_at(&mut self, i: usize, content: &str, parent: usize) -> (r: Option<usize>)
        requires
            old(self).wf(),
            i < old(self)@.trees.len(),
            can_link(old(self)@.trees[i as int], parent as int),
            old(self)@.levels matches Some(lv) ==> old(self)@.trees[i as int][parent as int].level
                <= lv[i as int].len(),
        ensures
            final(self).wf(),
            r == (if T::accepts(content@) {
                Some(old(self)@.trees[i as int].len() as usize)
            } else {
                None
            }),
            final(self)@ == (if r is Some {
                with_node(
                    old(self)@,
                    i as int,
                    linked(old(self)@.trees[i as int], T::reads(content@), parent as int),
                    old(self)@.trees[i as int][parent as int].level + 1,
                )
            } else {
                old(self)@
            }),
    {
        assert(self@.trees[i as int] == self.trees@[i as int]@);
        let ghost t = self@.trees[i as int];
        assert(crate::shape::node_ok(t, parent as int));
        let level = match self.trees[i].get_node(parent) {
            Some(node) => node.get_level() + 1,
            None => 1,
        };
        let linked = self.trees[i].link_node(content, parent);
        proof {
            self.lemma_changed(*old(self), i as int);
        }
        match linked {
            Some(position) => {
                self.add_node_to_levels(i, level, position);
            },
            None => {},
        }
        linked
    }

    /// Reads a document, given as its lines, into a forest without level
    /// indexes. On failure the message names the line, counted from 1.
    pub fn build(lines: &Vec<String>) -> (r: Result<Self, String>)
        ensures
            match read::<T>(texts(lines@), false) {
                Ok(f) => r matches Ok(forest) && forest.wf() && forest@ == f && forest_as_read(f),
                Err(e) => r matches Err(message) && message@ == failure_text(e),
            },
    {
        match Self::new(lines, false) {
            Ok(forest) => Ok(forest),
            Err(e) => Err(failure(&e)),
        }
    }

    /// Reads a document, given as its lines, into a forest with a level
    /// index for each tree. On failure the message names the line, counted
    /// from 1.
    pub fn build_levels(lines: &Vec<String>) -> (r: Result<Self, String>)
        ensures
            match read::<T>(texts(lines@), true) {
                Ok(f) => r matches Ok(forest) && forest.wf() && forest@ == f && forest_as_read(f),
                Err(e) => r matches Err(message) && message@ == failure_text(e),
            },
    {
        match Self::new(lines, true) {
            Ok(forest) => Ok(forest),
            Err(e) => Err(failure(&e)),
        }
    }

    /// Reads a document from a source that may have failed, into a forest
    /// without level indexes: `lines` are the lines that could be read, and
    /// `complete` says whether they are all. On failure the message names
    /// the line, counted from 1.
    pub fn build_source(lines: &Vec<String>, complete: bool) -> (r: Result<Self, String>)
        ensures
            match read_source::<T>(texts(lines@), complete, false) {
                Ok(f) => r matches Ok(forest) && forest.wf() && forest@ == f && forest_as_read(f),
                Err(e) => r matches Err(message) && message@ == failure_text(e),
            },
    {
        match Self::new_source(lines, complete, false) {
            Ok(forest) => Ok(forest),
            Err(e) => Err(failure(&e)),
        }
    }

    /// As `build_source`, into a forest with a level index for each tree.
    pub fn build_levels_source(lines: &Vec<String>, complete: bool) -> (r: Result<Self, String>)
        ensures
            match read_source::<T>(texts(lines@), complete, true) {
                Ok(f) => r matches Ok(forest) && forest.wf() && forest@ == f && forest_as_read(f),
                Err(e) => r matches Err(message) && message@ == failure_text(e),
            },
    {
        match Self::new_source(lines, complete, true) {
            Ok(forest) => Ok(forest),
            Err(e) => Err(failure(&e)),
        }
    }

    /// Writes the forest as a document into `buf_writer`, and tells whether
    /// every line was written: see `Model::serialize`.
    pub fn serialize(&self, buf_writer: &mut Vec<u8>) -> (r: bool)
        requires
            self.wf(),
        ensures
            ({
                let ws = statements(self@);
                let k = sound_prefix(ws);
                &&& 0 <= k <= ws.len()
                &&& final(buf_writer)@ == old(buf_writer)@ + bytes_of(document(self@).take(k))
                &&& r == (k == ws.len())
            }),
    {
        Model::<T>::serialize(self, buf_writer).is_ok()
    }

    /// Reads a document, line by line. With `use_levels` the forest keeps a
    /// level index for each tree.
    pub fn new(lines: &Vec<String>, use_levels: bool) -> (r: Result<Self, ParseTreeError>)
        ensures
            match read::<T>(texts(lines@), use_levels) {
                Ok(f) => r matches Ok(forest) && forest.wf() && forest@ == f && forest_as_read(f),
                Err(e) => r matches Err(error) && error.message_text() == e.message
                    && error.line_number() == e.line,
            },
    {
        let parser = TreeParser::new();
        let mut reader = Reader::<T>::start(use_levels);
        let ghost text = texts(lines@);
        let mut i: usize = 0;
        while i < lines.len()
            invariant
                i <= lines@.len(),
                text == texts(lines@),
                reader.wf(i as int),
                read_prefix::<T>(text, i as int, use_levels) == Ok::<ReadState, ReadError>(
                    reader.state(),
                ),
            decreases lines@.len() - i,
        {
            let statement = parser.parse_statement(lines[i].as_str());
            assert(statement@ == classify(text[i as int]));
            match reader.read(statement, i) {
                Ok(_) => {},
                Err(e) => {
                    proof {
                        lemma_stays_failed::<T>(text, i + 1, text.len() as int, use_levels);
                    }
                    return Err(e);
                },
            }
            i = i + 1;
        }
        Ok(reader.forest)
    }

    /// Reads a document from a source that may have failed: `lines` are the
    /// lines that could be read, and `complete` says whether they are all.
    /// With `use_levels` the forest keeps a level index for each tree.
    ///
    /// A failure in the lines that were read comes first. Where there is
    /// none and the lines are not all, the error is that the line behind
    /// them could not be read.
    pub fn new_source(lines: &Vec<String>, complete: bool, use_levels: bool) -> (r: Result<
        Self,
        ParseTreeError,
    >)
        ensures
            match read_source::<T>(texts(lines@), complete, use_levels) {
                Ok(f) => r matches Ok(forest) && forest.wf() && forest@ == f && forest_as_read(f),
                Err(e) => r matches Err(error) && error.message_text() == e.message
                    && error.line_number() == e.line,
            },
    {
        match Self::new(lines, use_levels) {
            Ok(forest) => {
                if complete {
                    Ok(forest)
                } else {
                    Err(ParseTreeError::at_index("Could not read line", lines.len()))
                }
            },
            Err(e) => Err(e),
        }
    }

    /// A forest in which one tree has changed, and has not lost nodes, is
    /// still well formed.
    proof fn lemma_changed(&self, before: Self, i: int)
        requires
            before.wf(),
            0 <= i < before.trees@.len(),
            self.names == before.names,
            self.levels == before.levels,
            self.trees@.len() == before.trees@.len(),
            forall|j: int|
                0 <= j < self.trees@.len() && j != i ==> self.trees@[j] == before.trees@[j],
            self.trees@[i].wf(),
            self.trees@[i]@.len() >= before.trees@[i]@.len(),
        ensures
            self.wf(),
            self@ == with_nodes(before@, i, self.trees@[i]@),
            self.trees@[i]@ == before.trees@[i]@ ==> self@ == before@,
            (forall|b: int|
                0 <= b < before.trees@[i]@.len() ==> self.trees@[i].payload(b)
                    == before.trees@[i].payload(b)) ==> self.keeps_payloads(&before, -1),
    {
        assert(self@.trees =~= before@.trees.update(i, self.trees@[i]@));
        if self.trees@[i]@ == before.trees@[i]@ {
            assert(self@.trees =~= before@.trees);
        }
        assert forall|j: int| 0 <= j < self@.trees.len() implies wf(#[trigger] self@.trees[j]) by {
            if j != i {
                assert(self@.trees[j] == before@.trees[j]);
            }
        }
        if let Some(lv) = self@.levels {
            assert forall|j: int| 0 <= j < self@.trees.len() implies index_ok(
                self@.trees[j],
                #[trigger] lv[j],
            ) by {
                assert(index_ok(before@.trees[j], lv[j]));
            }
        }
    }

    /// As `tree`, by the place of the tree.
    pub fn model_at<'a>(&'a self, i: usize) -> (r: TreeModel<'a, T>)
        requires
            self.wf(),
            i < self@.trees.len(),
        ensures
            r.wf(),
            r.nodes() == self@.trees[i as int],
            r.rows() == match self@.levels {
                Some(lv) => Some(lv[i as int]),
                None => None,
            },
            forall|b: int| #[trigger] r.tree().payload(b) == self.payload(i as int, b),
    {
        let levels = match &self.levels {
            Some(v) => {
                assert(level_rows(v@[i as int]@) == self@.levels->0[i as int]);
                Some(&v[i])
            },
            None => None,
        };
        TreeModel::of(self.tree_at(i), levels)
    }
}

/// What reading holds on to from line to line: the forest so far, the place
/// of the tree that nodes go to, the depth of the node read last, and the
/// stack of the nodes that may yet get children.
struct Reader<T: NodeContent> {
    forest: Forest<T>,
    stack: NodeStack,
    prev_level: usize,
    current: Option<usize>,
}

impl<T: NodeContent> Reader<T> {
    /// What was read so far.
    spec fn state(&self) -> ReadState {
        ReadState {
            forest: self.forest@,
            current: match self.current {
                Some(c) => c as int,
                None => -1,
            },
            prev_level: self.prev_level,
        }
    }

    /// After `k` lines the reader is in order: what was read is as reading
    /// leaves it, and the stack holds the path to the last node of the tree
    /// that nodes go to.
    spec fn wf(&self, k: int) -> bool {
        &&& self.forest.wf()
        &&& read_inv(self.state(), k)
        &&& is_path(
            self.stack@,
            match self.current {
                Some(c) => self.forest@.trees[c as int],
                None => Seq::empty(),
            },
        )
    }

    /// A reader before the first line.
    fn start(use_levels: bool) -> (r: Self)
        ensures
            r.wf(0),
            r.state() == start(use_levels),
    {
        let forest = if use_levels {
            Forest::empty_with_levels()
        } else {
            Forest::empty()
        };
        Reader { forest, stack: NodeStack::new(), prev_level: 0, current: None }
    }

    /// Takes in line `i`, classified.
    fn read(&mut self, statement: TreeStatement, i: usize) -> (r: Result<(), ParseTreeError>)
        requires
            old(self).wf(i as int),
            i < usize::MAX,
            statement@ matches StatementView::Node(_, level) ==> level >= 1,
        ensures
            match step::<T>(old(self).state(), i, statement@) {
                Ok(s) => r is Ok && final(self).wf(i + 1) && final(self).state() == s,
                Err(e) => r matches Err(error) && error.message_text() == e.message
                    && error.line_number() == e.line,
            },
    {
        let ghost before = self.state();
        proof {
            if step::<T>(before, i, statement@) is Ok {
                lemma_step_inv::<T>(before, i as int, statement@);
            }
        }
        match statement {
            TreeStatement::Invalid => {
                return Err(ParseTreeError::at_index("Invalid statement", i));
            },
            TreeStatement::TreeID(tree_id) => {
                self.stack.flush();
                self.forest.new_tree(tree_id.as_str());
                self.current = self.forest.position(tree_id.as_str());
                proof {
                    lemma_index_of(before.forest.names, tree_id@);
                    lemma_index_of(self.forest@.names, tree_id@);
                }
            },
            TreeStatement::Node(content, level) => {
                if level - 1 > self.prev_level {
                    return Err(ParseTreeError::at_index("Invalid node level", i));
                }
                if level == 1 {
                    if self.stack.top().is_some() {
                        return Err(
                            ParseTreeError::at_index("Multiple root nodes in the same tree", i),
                        );
                    }
                    let c = match self.current {
                        Some(c) => c,
                        None => {
                            return Err(
                                ParseTreeError::at_index(
                                    "Found root node without previous tree ID",
                                    i,
                                ),
                            );
                        },
                    };
                    proof {
                        let t = self.forest@.trees[c as int];
                        if t.len() > 0 {
                            assert(node_ok(t, t.len() - 1));
                        }
                    }
                    if !self.forest.root_at(c, content.as_str()) {
                        return Err(ParseTreeError::at_index("Failed parsing root node", i));
                    }
                    self.stack.push_new(1, 0);
                    proof {
                        let t = self.forest@.trees[c as int];
                        assert(t.drop_last() =~= Seq::empty());
                    }
                } else {
                    let ghost path = self.stack@;
                    let parent_ref = match self.stack.pop_parent(level) {
                        Some(parent_ref) => parent_ref,
                        None => {
                            proof {
                                if path.len() > 0 {
                                    lemma_parent_on_path(path, level);
                                }
                            }
                            return Err(
                                ParseTreeError::at_index("Couldn't find a parent ref", i),
                            );
                        },
                    };
                    let c = match self.current {
                        Some(c) => c,
                        None => {
                            return Err(ParseTreeError::at_index("Couldn't find tree", i));
                        },
                    };
                    let ghost t = self.forest@.trees[c as int];
                    proof {
                        lemma_parent_on_path(path, level);
                        lemma_last_at(t, level - 1);
                        lemma_last_at_linked(
                            t,
                            T::reads(content@),
                            last_at(t, level - 1),
                            level as int,
                        );
                    }
                    let new_node = match self.forest.link_at(
                        c,
                        content.as_str(),
                        parent_ref.tree_position,
                    ) {
                        Some(new_node) => new_node,
                        None => {
                            return Err(ParseTreeError::at_index("Failed parsing node", i));
                        },
                    };
                    self.stack.push(parent_ref);
                    self.stack.push_new(level, new_node);
                    proof {
                        let u = self.forest@.trees[c as int];
                        assert forall|k: int| 0 <= k < self.stack@.len() implies {
                            &&& (#[trigger] self.stack@[k]).level == k + 1
                            &&& self.stack@[k].tree_position == last_at(u, k + 1)
                            &&& 0 <= last_at(u, k + 1)
                        } by {
                            lemma_last_at_linked(
                                t,
                                T::reads(content@),
                                last_at(t, level - 1),
                                k + 1,
                            );
                            if k < level - 1 {
                                assert(self.stack@[k] == path[k]);
                            }
                        }
                    }
                }
                self.prev_level = level;
            },
            _ => {},
        }
        Ok(())
    }
}

/// The level index of a tree as it is: for each depth the nodes in reach
/// from the root, from left to right.
fn level_index<T: NodeContent>(tree: &Tree<T>) -> (r: Vec<TreeLevel>)
    requires
        tree.wf(),
    ensures
        numbered(r@),
        index_ok(tree@, level_rows(r@)),
        index_current(tree@, level_rows(r@)),
{
    let ghost t = tree@;
    let mut rows: Vec<TreeLevel> = Vec::new();
    let mut current: Vec<usize> = Vec::new();
    if tree.get_nodes_len() > 0 {
        current.push(0);
    }
    let ghost mut depth: int = 1;
    assert(current@ =~= row(t, 1, false));
    while current.len() > 0
        invariant
            tree.wf(),
            t == tree@,
            1 <= depth <= t.len() + 1,
            rows@.len() == depth - 1,
            current@ == row(t, depth, false),
            numbered(rows@),
            index_ok(t, level_rows(rows@)),
            forall|d: int|
                0 <= d < rows@.len() ==> (#[trigger] level_rows(rows@)[d]) == row(t, d + 1, false)
                    && level_rows(rows@)[d].len() > 0,
        decreases t.len() + 1 - depth,
    {
        proof {
            lemma_row_levels(t, depth, false);
            assert(current@[0] < t.len() && t[current@[0] as int].level == depth);
            assert(node_ok(t, current@[0] as int));
        }
        let level = match tree.get_node(current[0]) {
            Some(node) => node.get_level(),
            None => 0,
        };
        let mut below: Vec<usize> = Vec::new();
        let mut k: usize = 0;
        while k < current.len()
            invariant
                tree.wf(),
                t == tree@,
                k <= current@.len(),
                current@ == row(t, depth, false),
                forall|j: int| 0 <= j < current@.len() ==> (#[trigger] current@[j]) < t.len(),
                below@ == kids_all(t, current@.take(k as int), false),
            decreases current@.len() - k,
        {
            push_kids(tree, current[k], &mut below, false);
            proof {
                assert(current@.take(k + 1) =~= current@.take(k as int) + seq![current@[k as int]]);
                lemma_kids_all_add(t, current@.take(k as int), seq![current@[k as int]], false);
                lemma_kids_all_one(t, current@[k as int], false);
            }
            k = k + 1;
        }
        proof {
            assert(current@.take(current@.len() as int) =~= current@);
        }
        let ghost done = level_rows(rows@);
        let ghost listed = current@;
        rows.push(TreeLevel { level, node_positions: current });
        proof {
            assert(level_rows(rows@) =~~= done.push(listed));
            assert forall|d: int, e: int|
                0 <= d < level_rows(rows@).len() && 0 <= e < level_rows(rows@)[d].len() implies
                #[trigger] level_rows(rows@)[d][e] < t.len() by {
                if d < done.len() {
                    assert(done[d][e] < t.len());
                }
            }
            depth = depth + 1;
        }
        current = below;
    }
    proof {
        assert(row(t, depth, false) =~= Seq::<usize>::empty());
    }
    rows
}

/// A failure to read in words: the message, and the number of the line.
pub open spec fn failure_text(e: ReadError) -> Seq<char> {
    e.message + " at line "@ + decimal(e.line as nat)
}

/// A failure to read in words.
fn failure(e: &ParseTreeError) -> (r: String)
    ensures
        r@ == e.message_text() + " at line "@ + decimal(e.line_number() as nat),
{
    let mut s = String::from_str(e.message().as_str());
    s.append(" at line ");
    let number = to_decimal(e.line() as u128);
    s.append(number.as_str());
    s
}

/// Once reading has failed, it has failed for good, with the same failure.
pub proof fn lemma_stays_failed<T: NodeContent>(
    lines: Seq<Seq<char>>,
    k: int,
    m: int,
    with_levels: bool,
)
    requires
        k <= m,
        read_prefix::<T>(lines, k, with_levels) is Err,
    ensures
        read_prefix::<T>(lines, m, with_levels) == read_prefix::<T>(lines, k, with_levels),
    decreases m - k,
{
    if k < m {
        lemma_stays_failed::<T>(lines, k, m - 1, with_levels);
    }
}

} // verus!
