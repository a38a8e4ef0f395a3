# TinkerField

A toy construction game whose world is made of signed-distance-field brushes
(boxes, cylinders, spheres and cones that add to or carve from the world),
edited in real time and ray-marched on the GPU.

## Layout

- `src/` is the verified library (Verus):
  - `geometry.rs`: brushes in fixed point (micrometres, quaternions scaled by
    2^30) and the exact bounding box of a rotated brush.
  - `world.rs`: the brush store with its free-slot list and the one-metre
    acceleration grid; the grid contents are specified cell by cell.
  - `grid_laws.rs`: the grid seen from outside: packed offsets are running
    sums of the counts, each cell lists rising ids of the brushes that cover
    it, and the grid is a function of the brushes in use.
  - `texture.rs`, `materials.rs`: RGB to RGBA, tiling of textures to a
    1024x1024 layer, PNG decoding (through the `png` crate), the canonical
    order of material names, specular strength by name.
  - `maps.rs`: the map file format: a parser over bytes, the writer, and the
    loading of a parsed map into a world.
  - `roundtrip.rs`: proofs that a saved map parses back to what was saved,
    and that what a parse keeps can be saved again.
  - `editor.rs`: key bindings and the brush edits they make.
- `app/` is the program around it: the window and input (winit), the GPU
  (wgpu), files, and everything computed in floating point (the camera,
  rotations from angles, mouse drags, number formatting).
- `tests/` exercise the library on concrete values.
