//! A grid game in which sites collect patterns of voxels that match a bitmap.

pub mod bitmap_loader;
pub mod grid;
pub mod pattern;
pub mod player;
pub mod site;
pub mod state;
pub mod ui;
