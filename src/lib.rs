//! Finds groups of files with byte-identical contents.
//!
//! The `lsdup` module holds the duplicate-detection engine: content
//! identities, physical identities, the hashing front end and the visitor
//! that decides which files must be hashed and groups the results.
pub mod lsdup;
