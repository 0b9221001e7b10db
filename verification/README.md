# site_patterns

A small terminal game on a cubic grid of voxels. Some voxels are switched on
at random; sites are placed where a main bitmap best matches the first layer
of the grid; the player walks the grid with `w`, `a`, `s`, `d` and drops new
sites with Enter.

- `src/` is the verified library (Verus): boolean grids backed by `ndarray`
  (`grid`), conversions between images and bitmaps (`bitmap_loader`), pattern
  scores and site selection (`pattern`), sites (`site`), the game state and
  player movement (`state`), the player (`player`) and what the views draw
  (`ui`).
- `app/` is the program around it: file loading and saving, random numbers
  and the `cursive` user interface.
- `tests/` holds the tests.
