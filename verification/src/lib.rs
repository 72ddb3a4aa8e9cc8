//! Client-side core of a coverage collection session: block framing,
//! payload accumulation, coverage record decoding, path resolution, the
//! coverage bitmaps and the record writer.

pub mod frame;
pub mod session;
pub mod decimal;
pub mod record;
pub mod roundtrip;
pub mod path;
pub mod bitmap;
pub mod history;
pub mod client;

pub use crate::client::LcovCoverageClient;
