//! The decision-making core of a terminal pager that understands ANSI styling,
//! hyperlinks and inline sixel / kitty images.
#![allow(unused_imports)]

pub mod ansi;
pub mod ansi_laws;
pub mod chunk_laws;
pub mod chunks;
pub mod clip_laws;
pub mod column_laws;
pub mod document;
pub mod document_laws;
pub mod external;
pub mod image;
pub mod input;
pub mod input_laws;
pub mod kitty;
pub mod kitty_clip;
pub mod kitty_laws;
pub mod line_laws;
pub mod links;
pub mod links_laws;
pub mod navigation;
pub mod render;
pub mod render_laws;
pub mod scan;
pub mod screen;
pub mod screen_laws;
pub mod search;
pub mod sequence_laws;
pub mod session;
pub mod sixel;
pub mod sixel_laws;
pub mod size_laws;
pub mod state;
pub mod state_laws;
pub mod strings;
pub mod style;
pub mod style_laws;
pub mod terminal;
pub mod terminal_laws;
pub mod text;
