//! The result of a viewport query.

use vstd::prelude::*;
use crate::ipoint::IPoint;
use crate::pixelmap::PixelMap;

verus! {

/// What a viewport query returns: a pixel for every point the player sees
/// or remembers, and the board size.
pub struct View {
    pub tiles: PixelMap,
    pub size: IPoint,
}

} // verus!
