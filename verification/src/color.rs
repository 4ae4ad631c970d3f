//! A color value in hue/saturation/lightness/alpha form, generic over the
//! scalar the caller measures channels in.

use vstd::prelude::*;

verus! {

/// A color given as hue, saturation, lightness and alpha channels.
#[derive(Debug, Clone, Copy, PartialEq, Eq)]
pub struct Hsla<T: Copy> {
    pub h: T,
    pub s: T,
    pub l: T,
    pub a: T,
}

} // verus!
