//! A small content-addressed object store in the style of a version-control
//! plumbing layer: object framing, streaming hash-and-compress writes,
//! bounded streaming reads, and tree objects built from directory snapshots.

pub mod error;
pub mod kind;
pub mod header;
pub mod parser;
pub mod sha;
pub mod zlib;
pub mod reader;
pub mod writer;
pub mod tree;
pub mod store;
