//! Hierarchical clustering of metric spaces, and exact range and
//! nearest-neighbour search over the resulting tree.
//!
//! Distances are unsigned integers. A metric is anything that implements
//! [`metric::Metric`]; a dataset keeps its instances in memory together with
//! the metric; a tree of clusters is built over the dataset by repeated
//! two-pole splits; the searches descend that tree and prune with the triangle
//! inequality.
//!
//! * [`metric`], [`dataset`]: distances, and the instances they are taken
//!   between.
//! * [`cluster`], [`partition`], [`criteria`], [`traverse`], [`name`],
//!   [`history`], [`order`]: the tree and how it grows.
//! * [`reorder`], [`tree`]: the tree with its dataset, and the depth-first
//!   layout.
//! * [`rnn`], [`clustered`], [`geometry`], [`line`]: range search.
//! * [`knn`], [`sieve`], [`nearest`]: nearest-neighbour search.
//! * [`cakes`]: the facade over all of it.
//! * [`helpers`], [`counting`], [`error`]: what the others lean on.
//! * [`layout`]: where the columns of a dataset lie that is kept in files.

pub mod error;
pub mod helpers;
pub mod metric;
pub mod dataset;
pub mod history;
pub mod cluster;
pub mod criteria;
pub mod partition;
pub mod traverse;
pub mod geometry;
pub mod counting;
pub mod rnn;
pub mod clustered;
pub mod reorder;
pub mod tree;
pub mod name;
pub mod nearest;
pub mod sieve;
pub mod knn;
pub mod cakes;
pub mod layout;
pub mod order;
pub mod line;

