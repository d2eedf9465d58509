//! Preparation of correlator visibilities for RFI flagging, and the binary
//! flag-file format that the resulting flags are stored in.
//!
//! The library holds the logic: buffer geometry, the scatter of raw chunks into
//! per-baseline image buffers, the collection of per-baseline flag masks, and
//! the flag-file codec. Reading correlator files, running the flagging engine
//! and writing files are left to the caller.
pub mod geometry;
pub mod image;
pub mod reshape;
pub mod flags;
pub mod codec;
pub mod dispatch;
pub mod template;
pub mod fileset;
pub mod pipeline;
