//! Reading and writing true-color TGA images, raw or run-length encoded,
//! with an in-memory pixel buffer that supports per-pixel access and flips.
use vstd::prelude::*;

pub mod color;
pub mod error;
pub mod file;
pub mod header;
pub mod image;
pub mod rle;

verus! {

} // verus!
