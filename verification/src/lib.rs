//! A tree-shaped cache of the distinct value combinations seen on an ordered
//! list of string columns, with the time each combination was last observed.

pub mod arrays;
pub mod cache;
pub mod config;
pub mod heap;
pub mod laws;
pub mod node;
pub mod predicate;
pub mod read_laws;
pub mod row;
pub mod tree;
pub mod value;
