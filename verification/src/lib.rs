//! Cursor pack core: binary cursor encoding (`.cur` / `.ani`), pack manifests,
//! folder import, raster helpers, and the decisions behind applying a pack on
//! Windows.
//!
//! Everything here works on plain values; reading and writing files, the
//! registry, and drawing vector artwork happen at the edges, in the application.
use vstd::prelude::*;

pub mod ani;
pub mod apply;
pub mod artwork;
pub mod compile;
pub mod bytes;
pub mod error;
pub mod ico;
pub mod import;
pub mod keyed;
pub mod manifest;
pub mod raster;
pub mod registry;
pub mod restore;
pub mod text;
pub mod utf16;

pub use error::Error;

verus! {

/// Smallest source art we accept. Below this, output at 128px would be an upscale
/// and would look soft, which is the single most common flaw in cursor packs.
pub const MIN_SOURCE_PX: u32 = 128;

} // verus!
