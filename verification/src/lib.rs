//! A read-only adjacency-list graph and the adapter that lets a join driver
//! extend a partially bound tuple through it.

pub mod extender;
pub mod filter;
pub mod graph;
pub mod order;
pub mod search;

pub use extender::{GraphExtender, GraphExtenderExt};
pub use graph::{GraphTrait, GraphVector};
pub use search::gallop;
