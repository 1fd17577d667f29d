//! Incremental source-resolution and caching substrate for a
//! document-typesetting compiler.
//!
//! The crate decouples unsaved editor buffers, the physical filesystem and
//! the compiler's expectation of stable, addressable inputs behind a small
//! demand interface: sandboxed path resolution, an identity-keyed slot
//! cache with independently lazy text/byte results, a package locator, a
//! font catalog with lazy payloads, and a bridge that turns raw filesystem
//! notifications into targeted invalidations.

pub mod clock;
pub mod config;
pub mod error;
pub mod fonts;
pub mod model;
pub mod package;
pub mod sandbox;
pub mod text;
pub mod watch;
pub mod world;

