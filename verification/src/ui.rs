//! What the terminal views show of a bitmap.
use vstd::prelude::*;
use crate::grid::Bitmap;

verus! {

/// A view of one side of the grid.
pub struct SideView {
    side: Bitmap,
}

impl SideView {
    /// The bitmap that the view shows.
    pub closed spec fn shown(&self) -> Bitmap {
        self.side
    }

    pub fn new(side: Bitmap) -> (r: Self)
        ensures
            r.shown() == side,
    {
        Self { side }
    }

    pub fn side(&self) -> (r: &Bitmap)
        ensures
            *r == self.shown(),
    {
        &self.side
    }
}

/// The character that a side view draws for a cell: a full block for a set
/// cell, a space otherwise.
pub fn side_glyph(value: bool) -> (r: char)
    ensures
        r == if value { '\u{2588}' } else { ' ' },
{
    if value { '\u{2588}' } else { ' ' }
}

/// The character that the main canvas draws for a cell: a full block for a
/// set cell, a dot otherwise.
pub fn canvas_glyph(value: bool) -> (r: char)
    ensures
        r == if value { '\u{2588}' } else { '.' },
{
    if value { '\u{2588}' } else { '.' }
}

} // verus!
