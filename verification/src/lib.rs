//! A fixed-capacity set-membership structure built on two-choice (cuckoo)
//! hashing: each key may live in one of two parallel tables, at a position
//! chosen by one of two hash functions, and insertion resolves collisions
//! through a chain of displacements.

pub mod hash;
pub mod table;

pub use hash::HashFunction;
pub use hash::HashMod;
pub use table::CuckooTable;
