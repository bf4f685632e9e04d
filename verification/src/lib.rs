//! Core of a static photo-gallery builder.
//!
//! The library discovers nested image collections in a directory tree,
//! resolves per-collection metadata and a representative thumbnail, decides
//! which resized copies and thumbnails are stale and must be regenerated,
//! and assembles one hierarchical rendering context per collection.  All
//! filesystem facts reach it as plain values: a directory tree for
//! discovery, and a snapshot of modification times for staleness.  The thin
//! shell around the library performs the reads, writes, image operations and
//! template rendering that those values describe.

pub mod collection;
pub mod config;
pub mod context;
pub mod copyplan;
pub mod errors;
pub mod fsmodel;
pub mod hooks;
pub mod laws;
pub mod metadata;
pub mod paths;
pub mod pipeline;
