//! The terminal interface's state and the text layout it draws with.
//!
//! Drawing and the event loop belong to the front-end; what a key press or a
//! click does to the wizard, and how text is fitted into a number of columns,
//! is decided here.

pub mod input;

pub mod app;
pub mod ui;
