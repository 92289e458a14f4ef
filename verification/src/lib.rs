//! The input side of a hashing engine: how bytes get from a source to a hash state.
//!
//! `copy` moves bytes from a source to an accumulator through one buffer, reading
//! again where a read was interrupted, so that no byte is lost or counted twice.
//! `mapping` decides whether a file is mapped into memory instead, and leaves the
//! file ready for reading wherever it is not. `stream` says what a copy does with
//! any run of reads, `source` holds a byte source that follows a script,
//! `accumulator` the hash state as the input side sees it, and `file` an open file
//! as the decision to map it sees it.

pub mod accumulator;
pub mod copy;
pub mod file;
pub mod mapping;
pub mod source;
pub mod stream;
