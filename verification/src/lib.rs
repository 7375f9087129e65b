//! A layered Linux DRM/KMS display library: plane layers, scene composition,
//! buffer lifetimes, atomic commits, sessions, and what devices are measured
//! by.
//!
//! Everything here computes. Descriptors are numbers and buffers are bytes: the
//! calls that reach a device are made around the library, which decides what
//! they are and what their answers mean.

pub mod cache;
pub mod canvas;
pub mod commit;
pub mod compose;
pub mod corpus;
pub mod cursor;
pub mod display;
pub mod draft;
pub mod dumb;
pub mod dump;
pub mod errno;
pub mod external;
pub mod finalize;
pub mod fourcc;
pub mod frame;
pub mod json;
pub mod kernel;
pub mod lower;
pub mod order;
pub mod path;
pub mod plan;
pub mod planes;
pub mod pool;
pub mod presenter;
pub mod probe;
pub mod release;
pub mod report;
pub mod ring;
pub mod rules;
pub mod scenario;
pub mod scene;
pub mod seat;
pub mod session;
pub mod signaling;
pub mod skip;
pub mod source;
pub mod survey;
pub mod sync;
pub mod text;
pub mod time;

use vstd::prelude::*;

verus! {

/// The revision of the behavioural baseline this build is held to.
///
/// Kept as a constant so a consumer can tell at a glance which baseline a given
/// build goes by.
pub const UPSTREAM_BASELINE: &'static str = "4a0b64a";

} // verus!
