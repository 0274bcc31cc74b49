//! What nodes and clients say to each other.
pub mod frame;
pub mod message;
pub mod transport;
