//! Canonical keys for finite undirected graphs.
//!
//! The key of a graph is an integer sequence that does not depend on how the
//! nodes are numbered: graphs that a permutation of the nodes maps onto each
//! other have the same key, and graphs with the same key are isomorphic. It
//! is found by refining colourings of the nodes and, where refinement alone
//! does not tell all nodes apart, by a search over the colourings that arise
//! when single nodes are given a colour of their own.
//!
//! * [`graph`]: the graphs taken, and what is read of them;
//! * [`partition`], [`coloring`]: colourings and the splitting of cells;
//! * [`refinement`], [`refine`], [`equitable`]: refinement, and that it ends
//!   in an equitable colouring;
//! * [`kdim`]: the invariant by which branches are compared;
//! * [`descriptor`]: the integer sequence that a numbered graph is written as;
//! * [`search`], [`key`]: the search, and the key;
//! * [`invariance`], [`distinct`]: that the key is the same however the
//!   nodes are numbered, and what it tells apart.

pub mod coloring;
pub mod descriptor;
pub mod distinct;
pub mod equitable;
pub mod graph;
pub mod invariance;
pub mod kdim;
pub mod key;
pub mod partition;
pub mod refine;
pub mod refinement;
pub mod search;

pub use key::GraphKey;
