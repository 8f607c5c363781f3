//! A memory-bounded Monte Carlo tree search engine for Ataxx: a fixed-capacity
//! least-recently-used node store, a tree of playouts over it, quantized
//! evaluators and the budget decisions of the search driver.
pub mod board;
pub mod bits;
pub mod node;
pub mod lru;
pub mod features;
pub mod value;
pub mod policy;
pub mod tree;
pub mod search;
