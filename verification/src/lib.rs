//! The state of a file tree sidebar, and the colors that a document mentions, as a text editor shows
//! them.
pub mod color_invariants;
pub mod color_laws;
pub mod color_map_laws;
pub mod color_moves;
pub mod color_order_laws;
pub mod color_requests;
pub mod color_show_laws;
pub mod colors;
pub mod diagnostics;
pub mod diagnostics_laws;
pub mod draw_laws;
pub mod entry;
pub mod geometry;
pub mod git;
pub mod key;
pub mod label_laws;
pub mod listing;
pub mod order;
pub mod path;
pub mod path_laws;
pub mod path_map;
pub mod render;
pub mod row;
pub mod row_laws;
pub mod selection_laws;
pub mod sidebar;
pub mod sidebar_laws;
pub mod style;
pub mod text;
pub mod tree;
pub mod tree_laws;
pub mod tree_order_laws;
