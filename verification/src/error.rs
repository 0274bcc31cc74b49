//! The errors of the library.
use vstd::prelude::*;

verus! {

/// The standard library's I/O error, carried as an opaque value.
#[verifier::external_type_specification]
#[verifier::external_body]
pub struct ExIoError(std::io::Error);

/// The consensus crate's error, carried as an opaque value.
#[verifier::external_type_specification]
#[verifier::external_body]
pub struct ExRaftError(raft::Error);

#[derive(Debug)]
pub enum LatticeError {
    Io(std::io::Error),
    Config(String),
    Corrupt(String),
    Network(String),
    Raft(raft::Error),
}

pub type Result<T> = std::result::Result<T, LatticeError>;

/// The error is a report of corrupt data with this text.
pub open spec fn is_corrupt(e: LatticeError, text: Seq<char>) -> bool {
    e matches LatticeError::Corrupt(m) && m@ == text
}

/// The error is a report of a network fault with this text.
pub open spec fn is_network(e: LatticeError, text: Seq<char>) -> bool {
    e matches LatticeError::Network(m) && m@ == text
}

} // verus!
