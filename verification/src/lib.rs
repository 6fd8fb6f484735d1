pub mod global_store;
pub mod index;
pub mod tree;
pub mod writer;

pub use global_store::PutStatus;
