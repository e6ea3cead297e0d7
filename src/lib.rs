//! A key-value map with secondary indices that are kept up to date on every insert.
//!
//! Each index is built from a function that maps an entry to zero or more secondary
//! keys; the index maps each secondary key to the set of primary keys whose entries
//! produced it.
pub mod key_fn;
pub mod model;
pub mod index_state;
pub mod indexed;

pub use indexed::{DEFAULT_KIND, IndexId, IndexedMap};
