//! The game state: the voxel grid, the sites, the main bitmap and the player.
use vstd::prelude::*;
use crate::grid::{Bitmap, Volume};

verus! {

/// A position in the grid, `(x, y)`.
pub type Point2 = (usize, usize);

/// Side length of the cubic voxel grid.
pub const GRID_SIZE: usize = 64;

/// Number of sites placed when the game starts.
pub const N_SITES: usize = 8;

/// Number of random candidate positions tried for each site.
pub const N_TRIALS: usize = 200;

/// Numerator of the goodness above which a site's pattern is complete.
pub const PATTERN_COMPLETION_NUMERATOR: usize = 9;

/// Denominator of the goodness above which a site's pattern is complete.
pub const PATTERN_COMPLETION_DENOMINATOR: usize = 10;

/// Everything that changes while the game runs.
pub struct GameState {
    // Encapsulate all mutable game components
    pub state: Volume,
    pub sites: Vec<Option<Point2>>,
    pub bmp: Bitmap,
    pub player: Point2,
}

/// Where the player stands after the key `direction`, in a grid of side
/// `grid_size`: `w` and `s` move along the second coordinate, `d` and `a`
/// along the first, never past the grid's edge; other keys do nothing.
pub open spec fn moved(p: Point2, direction: char, grid_size: usize) -> Point2 {
    if direction == 'w' {
        if p.1 < grid_size - 1 { (p.0, (p.1 + 1) as usize) } else { p }
    } else if direction == 'a' {
        if p.0 > 0 { ((p.0 - 1) as usize, p.1) } else { p }
    } else if direction == 's' {
        if p.1 > 0 { (p.0, (p.1 - 1) as usize) } else { p }
    } else if direction == 'd' {
        if p.0 < grid_size - 1 { ((p.0 + 1) as usize, p.1) } else { p }
    } else {
        p
    }
}

/// The key that walks back the way `direction` went.
pub open spec fn opposite(direction: char) -> char {
    if direction == 'w' {
        's'
    } else if direction == 's' {
        'w'
    } else if direction == 'a' {
        'd'
    } else if direction == 'd' {
        'a'
    } else {
        direction
    }
}

/// Each key moves one step along its axis whenever the grid's edge allows,
/// whatever the other coordinate, and leaves the player in place at the edge:
/// `w` adds one to the second coordinate, `s` takes one from it, `d` adds one
/// to the first, `a` takes one from it.
pub proof fn lemma_move_keys(p: Point2, grid_size: usize)
    ensures
        p.1 + 1 < grid_size ==> moved(p, 'w', grid_size) == (p.0, (p.1 + 1) as usize),
        p.1 + 1 >= grid_size ==> moved(p, 'w', grid_size) == p,
        p.1 > 0 ==> moved(p, 's', grid_size) == (p.0, (p.1 - 1) as usize),
        p.1 == 0 ==> moved(p, 's', grid_size) == p,
        p.0 + 1 < grid_size ==> moved(p, 'd', grid_size) == ((p.0 + 1) as usize, p.1),
        p.0 + 1 >= grid_size ==> moved(p, 'd', grid_size) == p,
        p.0 > 0 ==> moved(p, 'a', grid_size) == ((p.0 - 1) as usize, p.1),
        p.0 == 0 ==> moved(p, 'a', grid_size) == p,
{
}

/// A player inside the grid stays inside it, whatever the key.
pub proof fn lemma_move_stays_in_grid(p: Point2, direction: char, grid_size: usize)
    requires
        p.0 < grid_size,
        p.1 < grid_size,
    ensures
        moved(p, direction, grid_size).0 < grid_size,
        moved(p, direction, grid_size).1 < grid_size,
{
}

/// A move changes at most one coordinate, by one.
pub proof fn lemma_move_is_one_step(p: Point2, direction: char, grid_size: usize)
    ensures
        moved(p, direction, grid_size).0 == p.0 || moved(p, direction, grid_size).1 == p.1,
        -1 <= moved(p, direction, grid_size).0 - p.0 <= 1,
        -1 <= moved(p, direction, grid_size).1 - p.1 <= 1,
{
}

/// A key other than `w`, `a`, `s`, `d` leaves the player where it is.
pub proof fn lemma_other_keys_ignored(p: Point2, direction: char, grid_size: usize)
    requires
        direction != 'w' && direction != 'a' && direction != 's' && direction != 'd',
    ensures
        moved(p, direction, grid_size) == p,
{
}

/// A move that changed the player's position, inside the grid, is undone by
/// the opposite key.
pub proof fn lemma_move_undone(p: Point2, direction: char, grid_size: usize)
    requires
        p.0 < grid_size,
        p.1 < grid_size,
        moved(p, direction, grid_size) != p,
    ensures
        moved(moved(p, direction, grid_size), opposite(direction), grid_size) == p,
{
}

impl GameState {
    // Method to handle player movement
    pub fn move_player(&mut self, direction: char)
        requires
            direction == 'w' || direction == 'd' ==> old(self).state.len_x() > 0,
        ensures
            final(self).player == moved(old(self).player, direction, old(self).state.len_x()),
            final(self).state == old(self).state,
            final(self).sites == old(self).sites,
            final(self).bmp == old(self).bmp,
    {
        let grid_size = self.state.dim().0; // Assuming square grid

        match direction {
            'w' => {
                if self.player.1 < grid_size - 1 {
                    self.player.1 += 1;
                }
            },
            'a' => {
                if self.player.0 > 0 {
                    self.player.0 -= 1;
                }
            },
            's' => {
                if self.player.1 > 0 {
                    self.player.1 -= 1;
                }
            },
            'd' => {
                if self.player.0 < grid_size - 1 {
                    self.player.0 += 1;
                }
            },
            _ => {}, // Ignore other keys
        }
    }

    // Method to force a new site at player position
    pub fn force_site(&mut self)
        ensures
            final(self).sites@ == old(self).sites@.push(Some(old(self).player)),
            final(self).player == old(self).player,
            final(self).state == old(self).state,
            final(self).bmp == old(self).bmp,
    {
        self.sites.push(Some(self.player));
    }
}

} // verus!
