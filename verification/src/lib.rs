//! A hash map index for exact and range lookup.
//!
//! An index is built once, from a finite list of records, and only read
//! from then on. It holds a hash store from each key to a value, and a
//! directory: the keys in ascending order, each once. An exact lookup goes
//! to the store. A range lookup resolves its two keys to directory
//! positions by binary search and walks the directory from the one to the
//! other, both included. A range whose first key is ordered after its
//! second is empty.
//!
//! A key that is not in the directory resolves to the position where it
//! would be inserted, and to the last position where that lies past the
//! end: a range that ends, or even starts, after all keys still reaches the
//! last key.
//!
//! The four indexes differ in what they store and hand out:
//! [`full_record::Index`] stores whole records, [`destructured::Index`] the
//! fields without the key, [`borrowed::Index`] clones of the records of a
//! table, and [`owned::IndexOwned`] the fields, from which it builds the
//! records anew for each query. [`lookup::Lookup`] is what they share,
//! [`model::IndexModel`] what they are in contracts, and [`laws`] what
//! holds of all of them.

pub mod borrowed;
pub mod destructured;
pub mod directory;
pub mod full_record;
pub mod key;
pub mod laws;
pub mod lookup;
pub mod model;
pub mod owned;

pub use destructured::Index as IndexDestructured;
pub use full_record::Index;
