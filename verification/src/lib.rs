//! Byte-range serving of disc images.
//!
//! A server of this kind holds a catalog of the image files under a root
//! directory and hands out arbitrary ranges of their bytes, so that a
//! client can stream an image without fetching it whole.
//!
//! - [`scan`] builds the [`catalog`] from the steps of a walk of the root:
//!   which files are taken, and the public name of each ([`names`]).
//! - [`range`] reads `Range` header values and settles them against the
//!   size of an image.
//! - [`cache`] holds recently read chunks within a budget of bytes.
//! - [`reader`] gathers the bytes of a range chunk by chunk through the
//!   cache, and loads what the cache lacks.
//! - [`rumd`] and [`filters`] turn requests into answers.
//!
//! Nothing here touches a file or a socket: the walk of the root and the
//! reading of files are handed in by the caller, as values and as a
//! loader.

pub mod cache;
pub mod catalog;
pub mod filters;
pub mod names;
pub mod range;
pub mod reader;
pub mod rumd;
pub mod scan;
pub mod text;
