//! The player: a position and the bitmap it carries.
use vstd::prelude::*;
use crate::grid::Bitmap;
use crate::state::Point2;

verus! {

pub struct Player {
    pub position: Point2,
    pub bitmap: Bitmap,
}

impl Player {
    pub fn new(position: Point2, bitmap: Bitmap) -> (r: Self)
        ensures
            r.position == position,
            r.bitmap == bitmap,
    {
        Self { position, bitmap }
    }
}

} // verus!
