//! Procedural dungeon generation: a tile grid, rectangular rooms, a
//! rooms-and-corridors placer, a binary-space-partition placer and a
//! wall-inference pass, all proved against their contracts.

pub mod tile;
pub mod room;
pub mod level;
pub mod random;
pub mod roomscorridors;
pub mod bsp;
