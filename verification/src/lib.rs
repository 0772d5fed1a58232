pub mod dimensions;
pub mod dive;
pub mod raster;
pub mod rng;
pub mod search;
pub mod selector;
pub mod time;
