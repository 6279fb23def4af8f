//! Verified core of a sailing-route isochrone router: the integer and table-driven
//! parts of routing and of the map and polar renderings (route reconstruction and
//! thinning, routing-grid sea cells, sail-switching rules, bitmap fonts and pixel
//! rasterisation).  Everything that computes with floating point lives in the
//! application around it.

use vstd::prelude::*;

pub mod ensemble;
pub mod font;
pub mod grib;
pub mod grid;
pub mod line;
pub mod raster;
pub mod route;
pub mod sails;
pub mod scan;

verus! {

} // verus!
