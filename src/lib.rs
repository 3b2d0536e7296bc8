//! Block-placement solver for tower-defense mazes.
//!
//! The library decomposes a tile grid into spawn and core regions, searches
//! shortest paths under a layer of tentative blocks, and greedily places blocks
//! that lengthen every spawn region's path to a core without cutting it off.
pub mod app;
pub mod container;
pub mod map;
