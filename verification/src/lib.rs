//! A Markdown vault with spaced repetition: the rules of the vault, the review
//! queue and the interface, each stated as a contract and proved.

pub mod app;
pub mod archive;
pub mod communities;
pub mod config;
pub mod expand;
pub mod graph;
pub mod ignore;
pub mod index;
pub mod listing;
pub mod model;
pub mod note;
pub mod outside;
pub mod parser;
pub mod player;
pub mod quiz;
pub mod reviews;
pub mod search;
pub mod stats;
pub mod sync;
pub mod text;
pub mod videos;
