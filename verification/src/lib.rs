//! A Markdown pager: renders Markdown into styled terminal lines and drives
//! the paging, search and line-jump state machine of the viewer.

pub mod style;
pub mod text;
pub mod tree;
pub mod xml;
pub mod markdown;
pub mod highlight;
pub mod render;
pub mod app;
pub mod laws;
