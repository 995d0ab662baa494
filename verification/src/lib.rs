//! Turning a decoded protocol frame into the flat, indented table of rows
//! that a tree view shows, together with the text helpers around it.

mod text;
pub mod hex;
pub mod decimal;
pub mod value;
pub mod row;
pub mod tree_lines;
pub mod tree_items;
pub mod hex_input;
pub mod text_ranges;
pub mod viewer;
