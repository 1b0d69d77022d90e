//! The element model: typed nodes of the document tree, each exposing an
//! exact build-to-markup operation and, where applicable, a decode routine
//! (see the `reader` module).

pub mod abstract_numbering;
pub mod comment_extended;
pub mod comments_extended;
pub mod div;
pub mod font_scheme;
pub mod level;
pub mod paragraph;
pub mod table_cell;
pub mod web_settings;
