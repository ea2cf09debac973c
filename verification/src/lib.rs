//! A prefix-forgettable append-only event log.
//!
//! The log stores a monotonically growing sequence of opaque byte-string
//! events, addressed by a contiguous 64-bit index.  Finalized events live in
//! compressed blocks that form a reverse-linked multi-level tree; the newest
//! events wait in a mutable staging area at the tail of the file image.

pub mod be;
pub mod cache;
pub mod codec;
pub mod error;
pub mod frame;
pub mod image;
pub mod iter;
pub mod laws;
pub mod log;
pub mod model;
pub mod records;

pub use cache::{Cache, NoCache};
pub use error::Error;
pub use frame::{EventFrame, EventFrameIo, SigLenPad};
pub use iter::{IdxBound, LeafSlice, NodeType};
pub use log::EventFile;
