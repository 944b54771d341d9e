//! Verified core of a microscopy crop-extraction pipeline.
//!
//! A scan directory holds single-plane frames keyed by (channel, time, z)
//! coordinates.  The library discovers and indexes those frames, parses and
//! validates a table of crop rectangles, extracts each rectangle from every
//! frame, and records the results as chunks of a hierarchical, chunk-addressed
//! array store, optionally together with a per-frame background median.
//! Everything here is pure computation over plain values; reading frames from
//! disk and persisting the store are left to the surrounding application.

pub mod analyze;
pub mod args;
pub mod bbox;
pub mod crop;
pub mod frames;
pub mod median;
pub mod slices;
pub mod store;
pub mod text;
pub mod video;
