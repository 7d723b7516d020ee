//! Incremental vector-document synchronization.
//!
//! A compiled document is held as a content-addressed store of immutable
//! fragments.  A server-side engine computes, per client session, the minimal
//! set of modules a client still lacks; a binary stream codec frames those
//! modules for transport; a client store merges incoming streams and serves a
//! windowed renderer that materializes only the part of the document visible
//! in a viewport rectangle.

pub mod cast;
pub mod client;
pub mod codec;
pub mod decode;
pub mod doc;
pub mod encode;
pub mod engine;
pub mod geom;
pub mod ir;
pub mod laws;
pub mod render;
pub mod store;
pub mod stream;
pub mod wire;

use vstd::prelude::*;

verus! {

/// Wire-format version written at the head of every module stream.
pub const FORMAT_VERSION: u64 = 1;

/// Version of the fragment encoding, carried inside every module payload and
/// versioned independently of the stream framing.
pub const IR_VERSION: u64 = 1;

} // verus!
