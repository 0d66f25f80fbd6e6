//! The logic of grove, a file tree pinned to one root with live previews.
pub mod text;
pub mod text_laws;
pub mod rounding;
pub mod path;
pub mod order;
pub mod entry;
pub mod tree;
pub mod row_laws;
pub mod rows;
pub mod planes;
pub mod picture;
pub mod media;
pub mod media_laws;
pub mod line;
pub mod theme;
pub mod wrap;
pub mod shift;
pub mod doc;
pub mod doc_laws;
pub mod armor;
pub mod clipboard;
pub mod release;
pub mod release_laws;
pub mod update;
pub mod rect;
pub mod json;
pub mod graphics;
pub mod pane;
pub mod pane_laws;
pub mod screen;
pub mod screen_laws;
