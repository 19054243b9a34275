//! Headless GDS layout viewer: a flattened layout cell in, a self-contained SVG
//! (or a PNG thumbnail) out, every shape coloured by its layer, with an optional
//! violation overlay.

pub mod binary64;
pub mod text;
pub mod geom;
pub mod gds;
pub mod svg;
pub mod png;
pub mod scan;
pub mod args;
pub mod marks;
pub mod sfloat;
pub mod raster;
pub mod summary;
pub mod blend;

use vstd::prelude::*;

verus! {

} // verus!
