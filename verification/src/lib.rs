//! Game logic of a small top-down shooter: a navigation heat map and
//! direction field over a tile grid, the blood decal canvas, weapon pickup
//! and firing decisions, projectile hits and health.

pub mod blood;
pub mod combat;
mod containers;
pub mod navigation;
pub mod search;
pub mod search_laws;
pub mod timing;
pub mod weapon;
