//! Type-length-value framing of byte payloads, with a verified encoder and decoder.
//!
//! A frame is a type byte whose low nibble gives how many bytes hold the length
//! (0, 1, 2, 4 or 8), that many little-endian length bytes, and the payload.
//! Containers are frames whose payload is itself a run of frames.
mod error;
pub mod format;
mod reader;
mod writer;

pub use error::Error;
pub use reader::TlvReader;
pub use writer::TlvWriter;
