//! Grid wall layouts for Godot scenes.

pub mod columns;
pub mod grid;
pub mod text;
pub mod scene_lines;
pub mod scene_parser;
pub mod scene_import;
pub mod scene_export;
pub mod editor;
pub mod scene_round_trip;
