//! Trees written as indented plain text.
//!
//! A document holds one or more trees. Each tree starts with a header, its
//! name in square brackets, and goes on with one line for each node: the
//! marker `"+ "` once for each step of depth, then the text of the node.
//! Lines that start with `#` are comments.
//!
//! ```text
//! # A simple tree.
//! [my_tree]
//! + root_node
//! + + child_1
//! + + + child_1_1
//! + + + child_1_2
//! + + child_2
//! + + + child_2_1
//! + + child_3
//! ```
//!
//! # Reading, walking, changing, writing
//!
//! [`Model::parse`] reads the lines of a document into a [`Forest`]. A tree
//! of the forest is walked in arena order, level by level, or depth first,
//! forwards or mirrored; each walker gives nodes with their positions.
//!
//! ```text
//! let lines: Vec<String> = text.lines().map(String::from).collect();
//! let forest: Forest<SimpleNode> = Model::parse(&lines)?;
//! if let Some(tree) = forest.tree("my_tree") {
//!     let mut walker = tree.bfs_iter();
//!     while let Some((node, position)) = walker.next() {
//!         println!("{}: {}", position, node.get_content_ref().get_content());
//!     }
//! }
//! ```
//!
//! A forest is also built and changed by hand, and written back as a
//! document:
//!
//! ```text
//! let mut forest: Forest<SimpleNode> = Forest::empty();
//! forest.new_tree("my_tree");
//! let root = forest.set_root("my_tree", "root_node")?;
//! let node_1 = forest.link_node("my_tree", root, "node_1")?;
//! forest.link_node("my_tree", node_1, "node_1_1")?;
//! forest.unlink_node("my_tree", node_1)?;
//! let mut sink: Vec<u8> = Vec::new();
//! let lines_written = Model::serialize(&forest, &mut sink)?;
//! ```
//!
//! # Payloads
//!
//! The text of a node is kept in a payload of a type that implements
//! [`NodeContent`]. [`SimpleNode`] keeps the text as it is. A type of one's
//! own can read more out of the text, or decline it, in which case reading
//! stops with an error.
//!
//! # What is proved
//!
//! A tree is an arena: one growing array of nodes that name their parent
//! and children by position. Positions never change; an unlinked node stays
//! in the arena, out of reach from the root. Every function is verified
//! against a contract over the model of [`shape`], and [`laws`] holds what
//! follows for the library as a whole: that the walks of a tree as read
//! agree with each other, that an unlinked subtree is out of reach, and that
//! what was read, written and read again is what was read at first.

pub mod error;
pub mod forest;
pub mod fresh;
pub mod iface;
pub mod iter;
pub mod laws;
pub mod order;
pub mod parser;
pub mod reading;
pub mod roundtrip;
pub mod rows;
pub mod shape;
pub mod stack;
pub mod text;
pub mod tree;
pub mod writing;

pub use error::{ParseTreeError, SerializeTreeError};
pub use forest::{Forest, ForestView};
pub use iface::Model;
pub use parser::{StatementView, TreeParser, TreeStatement};
pub use shape::{NodeView, Text};
pub use stack::{NodeStack, NodeStackContent};
pub use tree::{NodeContent, SimpleNode, Tree, TreeLevel, TreeModel, TreeNode};
