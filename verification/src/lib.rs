//! Rename subtitle files to match the video files beside them.
//!
//! - `names` turns a filename into comparable parts: tokens, a normalised stem,
//!   an episode id and a language tag;
//! - `similarity` scores two stems with the Ratcliff/Obershelp measure;
//! - `planning` decides, folder by folder, which subtitle goes where;
//! - `applying` decides what a run reports and when it must refuse;
//! - `listing` and `cli` word a plan and make the command line's decisions;
//! - `tui` is the terminal interface's wizard, as a state machine;
//! - `presentation`, `paths` and `text` hold the wording and the text helpers
//!   the front-ends share.

pub mod text;
pub mod names;
pub mod counting;
pub mod similarity;
pub mod paths;
pub mod ordering;
pub mod planning;
pub mod presentation;
pub mod listing;
pub mod cli;
pub mod parallel;
pub mod applying;
pub mod tui;
