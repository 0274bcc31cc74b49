//! A time-series store with compressed segments and replication.
pub mod api;
pub mod cluster;
pub mod config;
pub mod endian;
pub mod error;
pub mod storage;
pub mod text;

pub use config::Config;
pub use error::{LatticeError, Result};
