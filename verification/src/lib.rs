//! An append-only, log-structured key/value store with a RESP-style frame
//! codec: records are length-prefixed and CRC-checked, an in-memory index
//! maps each key to the offset of its live record, and frames are parsed
//! incrementally from a byte buffer.

pub mod command;
pub mod connection;
pub mod frame;
pub mod index;
pub mod record;
pub mod server;
pub mod store;

pub use command::Command;
pub use connection::Connection;
pub use frame::Frame;
pub use record::KeyValuePair;
pub use record::StoreError;
pub use store::load;
pub use store::open;
pub use store::AKVMEM;
