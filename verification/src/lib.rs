//! TinkerField's world model: brushes and their bounding boxes, the brush
//! store with its acceleration grid, material naming, texture tiling and the
//! text format of map files.
pub mod geometry;
pub mod world;
pub mod texture;
pub mod materials;
pub mod maps;
pub mod editor;
pub mod roundtrip;
pub mod grid_laws;
pub mod removal;
pub mod rotation;

use vstd::prelude::*;

verus! {
} // verus!
