//! Denoising and auto-cropping of raster images: a 3x3 median filter on the
//! first channel, and a cropper that keeps the rows between the first and the
//! last crossing of an adaptive threshold by the per-row noise energy.

pub mod buffer;
pub mod median;
pub mod noise;
