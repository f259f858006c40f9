//! A terminal Markdown previewer's library: rendering Markdown to styled,
//! width-fitted terminal lines, and the state of the scrolling view over them.
pub mod style;
pub mod text;
pub mod wrap;
pub mod theme;
pub mod doc;
pub mod render;
pub mod highlight;
pub mod cli;
pub mod app;
pub mod input;
pub mod status;
pub mod events;
pub mod logdir;
