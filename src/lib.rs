//! Binary state reconciliation for entity-component data.
//!
//! Components are encoded as self-delimiting chunks (`[tag:1][length:4][payload]`),
//! streams of chunks are parsed back structurally, and two aligned streams are
//! compared chunk by chunk to produce a correction stream holding only the
//! authoritative chunks whose payload differs.
pub mod chunk;
pub mod codec;
pub mod component;
pub mod diff;
pub mod laws;

pub use component::{kind_to_bytes, kind_to_tag, tag_to_kind, Component, ComponentKind};
pub use chunk::{chunk_to_bytes, to_chunks, Chunk, StreamError};
pub use codec::{chunk_to_component, deserialize, encode_component, serialize, DecodeError};
pub use diff::{diff, DiffError};
