//! Append-only memory journal: records short notes and handoff checkpoints,
//! generates collision-free short identifiers, resolves identifier prefixes,
//! orders records by timestamp, and computes the slice of notes a checkpoint
//! covers.

pub mod clock;
pub mod codec;
pub mod errors;
pub mod files;
pub mod handoff;
pub mod ids;
pub mod order;
pub mod records;
pub mod resolve;
pub mod store;
pub mod text;

pub use errors::Error;
