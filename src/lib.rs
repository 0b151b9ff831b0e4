//! A lossless image codec with a chunk-based pixel stream: raw pixels, references into a
//! table of recently seen pixels, two kinds of small differences, and runs. The encoder can
//! cut an image into segments, encode them independently, and merge them into exactly the
//! stream that a sequential encode gives.
use vstd::prelude::*;

pub mod chunks;
pub mod codec;
pub mod decoder;
pub mod encoder;
pub mod image;
pub mod split;
pub mod stream;
pub mod util;

verus! {

} // verus!
