//! A native/managed bridge for a video-capture pipeline.
//!
//! The library holds the verified core of the boundary protocol: the stream
//! descriptor model, a self-describing text codec for descriptors, the
//! session registry with opaque handles, the frame-pull logic, and the
//! ledger that tracks ownership of transferred byte buffers. The hardware
//! abstraction layer itself (device enumeration, stream I/O) is driven by a
//! thin unverified shell that feeds its outcomes to the functions here as
//! plain values.

pub mod format;
pub mod errors;
pub mod codec;
pub mod session;
pub mod stream;
pub mod buffers;
