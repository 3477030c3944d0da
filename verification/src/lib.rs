//! A verified toolkit for the PPM pixel-map formats: a tokenizer and header
//! parser for the binary (`P6`) variant, pure per-pixel colour transforms,
//! and a chunked transform pipeline whose output is proved byte-exact.

use vstd::prelude::*;

pub mod error;
pub mod header;
pub mod image;
pub mod pipeline;
pub mod pixel;
pub mod tokenizer;

verus! {

/// Adds two to a number.
pub fn add_two(a: i32) -> (r: i32)
    requires
        a + 2 <= i32::MAX,
    ensures
        r == a + 2,
{
    a + 2
}

} // verus!
