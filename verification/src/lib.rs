use vstd::prelude::*;

pub mod error;
pub mod image_process;
pub mod kmeans;
pub mod raster;
pub mod rng;

pub use error::ColorMapError;
pub use kmeans::ColorContainer;
pub use raster::Pixel;
pub use raster::Raster;

verus! {

/// Options for one run: how many centroids to extract, whether to aggregate
/// by mean instead of median, whether to crop borders before background
/// detection, and whether to export a debug snapshot of the masked raster.
#[derive(Debug)]
pub struct Configuration {
    pub is_cropping: bool,
    pub is_debug: bool,
    pub is_mean: bool,
    pub k: usize,
    pub image_path: String,
}

} // verus!
