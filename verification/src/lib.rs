//! A chained hash map keyed by 64-bit integers, with a prime-sized bucket
//! array that grows when the load factor passes a fixed threshold. Every
//! operation carries a contract over a mathematical map view, and the
//! structural invariants (prime bucket count, bounded load factor, exact
//! element count) are proved to hold across every operation.

mod bucket;
pub mod model;
pub mod laws;
pub mod prime;
pub mod table;

pub use table::TrashMap;
