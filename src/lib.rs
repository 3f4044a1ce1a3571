//! Context construction for rendering Handlebars templates from the command line.
pub mod text;
pub mod context;
pub mod engine;
pub mod entries;
pub mod context_file;
pub mod helper;
