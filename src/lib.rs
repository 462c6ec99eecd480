use vstd::prelude::*;

pub mod algorithms;
pub mod image_converter;
pub mod vec_extension;

verus! {

} // verus!
