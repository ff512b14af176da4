//! The lines that each page is made of.
//!
//! A line is a list of spans, and a span is a text with a role. What a role looks like on a
//! terminal, and where on the screen the lines are drawn, is left to the program around the
//! library.

pub mod archived;
pub mod card;
pub mod chrome;
pub mod clean;
pub mod library;
pub mod lines;
pub mod options;
pub mod relations;
pub mod review;
pub mod stats;
pub mod widgets;
