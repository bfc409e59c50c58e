//! An incremental, keystroke-driven filter over a list of path strings, and a
//! literal text search with cyclic navigation inside one file's lines.
//!
//! - [`engine`] narrows and ranks the candidates one typed character at a
//!   time; [`ranking`] orders a layer, [`text`] finds characters and words.
//! - [`viewer`] searches the lines of one file and steps through the matches;
//!   [`highlight`] colours the lines it shows.
//! - [`app`] decides what a key does and what the two panes show;
//!   [`setup`] reads the settings from the command line's arguments.

pub mod app;
pub mod engine;
pub mod highlight;
pub mod ranking;
pub mod setup;
pub mod text;
pub mod viewer;
