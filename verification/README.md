# openspace

Floorplan-to-3D reconstruction: a raster floorplan is turned into wall
segments, the walls are extruded into meshes, rooms are tinted from photos,
and the scene is written as a binary glTF (GLB) file.

## Layout

- `src/` — the verified library (Verus). Every function carries a contract
  over a mathematical model of its data:
  - `status`, `lifecycle` — project statuses, their stored names, and the
    state machine that requests and build stages drive (with its laws:
    refused builds change nothing, no two builds run at once, events report
    the new state).
  - `raster`, `blobs`, `projection`, `lines`, `structural`, `draw` — pixel
    grids and the wall detection passes: thresholds, dilation and erosion,
    4-connected blob removal, projection profiles and their peaks, run
    extraction, and the synthetic test plan.
  - `meshplan`, `floorplan` — which meshes a floorplan yields, their
    triangle indices, and identity bookkeeping of openings and rooms.
  - `glb` — the binary buffer layout and GLB container framing, with
    read-back laws for both.
  - `naming` — the names under which uploads and projects are stored.
  - `texture` — photo swatches (through the `image` crate) and the rule for
    which meshes take a room's photo color.
- `tests/` — tests of the library.
- `app/` — the HTTP server around the library: routes, database, build
  worker, image decoding, floating-point geometry and the glTF JSON.
