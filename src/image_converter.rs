use vstd::prelude::*;

pub mod crc;
pub mod png;

verus! {

/// A decoded image: its size and one row of pixel values per line.
pub struct RawImage {
    pub width: u32,
    pub height: u32,
    pub image_data: Vec<Vec<i32>>,
}

} // verus!
