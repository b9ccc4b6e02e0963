//! A streaming codec for a RESP-style wire protocol, and a small command
//! dispatcher over a key-value store.
//!
//! Every executable function carries a contract over a mathematical model of
//! the bytes and values it handles, and the contracts are machine-checked.

pub mod codec;
pub mod describe;
pub mod dispatch;
pub mod error;
pub mod index;
pub mod integer;
pub mod laws;
pub mod parser;
pub mod scan;
pub mod store;
pub mod text;
pub mod value;
