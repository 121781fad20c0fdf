# voxel_world

A small voxel world whose logic is verified with Verus.

- `src/world/`: blocks (`voxel`), positions, the sparse octree that stores a
  cube of blocks and keeps itself compact (`octree`), laws about writes and
  moves (`laws`), chunks of 32 voxels a side (`chunk`), and the chunk
  manager that reads and writes world positions (`world_access`).
- `src/json.rs`: a JSON value of the library's own, which the octree and the
  saved map are written to and read from, and the calls into `serde_json`
  that read and write JSON text.
- `src/mesh.rs`: the visible faces of a chunk's solid voxels as quads, in
  exact integer coordinates (half voxels, atlas tiles).
- `src/terrain.rs`: a chunk filled from a height map.
- `src/map_file.rs`: the saved map (seed and block changes) and its replay.
- `src/seed_input.rs`: typing a seed on the keyboard.
- `app/`: the Bevy program around the library: window, camera, player,
  noise, rendering, and the files.
- `tests/`: tests of the library.
