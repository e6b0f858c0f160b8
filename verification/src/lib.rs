//! Decoding of digit strings into words.
//!
//! A configuration maps tokens (short character sequences) to symbols. A digit
//! string is decoded by cutting it into consecutive tokens and replacing each
//! by its symbol; every way of cutting it gives one word. Three parsers find
//! all of them, each in its own way, and all three are proved to return the
//! list that [`decoding::decodings`] defines.

pub mod config;
pub mod decoding;
pub mod dfs;
pub mod error;
pub mod graph;
pub mod laws;
pub mod memoized;
pub mod naive;
pub mod partition;
pub mod table;
pub mod text;

pub use config::{default_config, Config};
pub use dfs::DfsParser;
pub use error::ParseError;
pub use graph::{DecodeGraph, Edge};
pub use memoized::MemoizedParser;
pub use naive::Parser;
pub use table::Table;
