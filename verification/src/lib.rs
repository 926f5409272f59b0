//! Flame graphs from sampled call stacks.
//!
//! The input is a stream of lines, each a stack of frame names and the number
//! of samples in which that stack was seen. The lines are aggregated into a
//! frame tree, a prefix tree with a count at every node, and the tree is laid
//! out as rectangles: one for each node, as wide as the count of the node,
//! with the children side by side on the row below their parent.
//!
//! * [`symbol`]: frame names are interned, and the tree holds their symbols.
//! * [`text`]: one line of input is taken apart.
//! * [`tree`]: the frame tree, how a stack is recorded in it, and how deep the
//!   picture of it has to be.
//! * [`order`]: the order of names, and the tree with the children of every
//!   node in that order.
//! * [`layout`]: the rectangles of a tree, by a lazy walk and by recursion.
//! * [`ingest`]: the settings and the state of one run, line after line.
//! * [`format`] and [`dump`]: text for the output.
//! * [`tree_laws`], [`layout_laws`], [`text_laws`]: what holds of every tree,
//!   every layout and every text, as proved statements.

pub mod dump;
pub mod format;
pub mod ingest;
pub mod layout;
pub mod layout_laws;
pub mod order;
pub mod symbol;
pub mod text;
pub mod text_laws;
pub mod tree;
pub mod tree_laws;
