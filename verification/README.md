# Grid Wall Builder for Godot

A grid editor for wall layouts that exports them as Godot 4 `.tscn` scenes
(one `StaticBody3D` with a `BoxMesh` and a `BoxShape3D` per merged wall
segment, optionally a `BackPlanes` subtree with one `PlaneMesh` per segment)
and imports the scenes it exported, including older exports without the
metadata comments.

The logic is a library verified with Verus; the desktop front end is plain
Rust around it.

## Layout

- `src/` — the verified library:
  - `grid.rs`: the occupancy grid, resizing, and merging filled cells into
    disjoint rectangles (greedy, column by column), with its laws.
  - `columns.rs`: the column storage model behind the grid.
  - `editor.rs`: painting a cell, painting a Bresenham line, and the
    pointer-stroke state machine of the editor.
  - `scene_export.rs`: the scene text, with the numbers already written out.
  - `text.rs`, `scene_lines.rs`, `scene_parser.rs`: reading a scene's lines,
    blocks and integers; every test that a float decides is listed, in
    order, for the caller to run.
  - `scene_import.rs`: the grid unit as a greatest common divisor, the grid's
    extent, and filling the grid from imported segments.
  - `scene_round_trip.rs`: an exported scene reads back as what was written,
    with or without its metadata comments.
- `app/` — the egui front end, file dialogs and file I/O, and the `f32` side
  of export and import (formatting and parsing floats, turning world units
  into cells).
- `tests/` — tests of the library.
