//! Duplicate-file discovery core: records of hashed files, a duplicate
//! index that classifies each incoming record as a first sighting or a
//! duplicate, grouped reporting, streaming content hashing, directory
//! traversal bookkeeping, and byte-count formatting.

pub mod records;
pub mod helpers;
pub mod dupfinder;
pub mod hashing;
pub mod traverse;
