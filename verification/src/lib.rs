//! The core of an audio routing daemon: a registry of named source and sink
//! endpoints and of the connections attached to them, the sample buffers
//! they share, and the five calls that clients drive it with: open, map,
//! event-subscribe, sync and close.
//!
//! Every call is a plain function on [`scheme::AudioScheme`]. What a call
//! sends to the clients comes back as a list of notifications, and what a
//! mapping reaches comes back as the id that owns the buffer: writing the
//! packets and holding the shared storage is the caller's part.

pub mod buffer;
pub mod error;
pub mod ids;
pub mod laws;
pub mod mix;
pub mod model;
pub mod names;
pub mod notify;
pub mod path;
pub mod request;
pub mod scheme;

pub use crate::buffer::AudioBuffer;
pub use crate::error::SchemeError;
pub use crate::scheme::AudioScheme;
