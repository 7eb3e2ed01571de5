//! Terminal rendering of Markdown: ANSI styles, box-drawn tables and list numbering.
pub mod event;
pub mod laws;
pub mod markdown;
pub mod render;
pub mod style;
pub mod table;
pub mod text;
