//! An append-oriented log store: timestamped entries are grouped into
//! compressed chunks, chunks are laid out in one store image addressed
//! through a sector-based offset index, and entries are found again by
//! timestamp without decoding the whole store.
pub mod bytes;
pub mod codec;
pub mod entry;
pub mod compression;
pub mod chunk;
pub mod header;
pub mod store;
pub mod group;
pub mod lookup;
pub mod config;
pub mod diagram;
