//! Domain logic of the thaum painter: property-track tiling, the shared
//! document runtime (layers, selection, canvases, undo history), the file
//! schema reader and the pure state of the painter panels.

pub mod text;
pub mod json;
pub mod interp_mode;
pub mod track;
pub mod retile;
pub mod canvas;
pub mod records;
pub mod selection;
pub mod document;
pub mod store;
pub mod track_ops;
pub mod track_move;
pub mod track_cut;
pub mod hand_settings;
pub mod runtime;
pub mod layers_panel;
pub mod panel_click;
pub mod graphic_picker;
pub mod panels;
pub mod file_schema;
