//! A jigsaw-style image reconstruction engine.
//!
//! Given a reference image and an unordered collection of rectangular tiles
//! cut from it, the engine reassembles the tiles into their original raster
//! positions: each open canvas slot is matched against every remaining
//! candidate tile with a mean-squared-error similarity metric, and the best
//! match is committed greedily.

pub mod engine;
pub mod menu;
pub mod pixel;
pub mod scorer;
