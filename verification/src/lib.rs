//! Brakoll: a small issue tracker that collects `*brakoll` comments from source files.
pub mod text;
pub mod status;
pub mod issue;
pub mod arg;
pub mod listing;
pub mod summary;
pub mod brakoll;
pub mod utils;
pub mod loading_bar;
pub mod render;
pub mod laws;
pub mod edit_laws;
pub mod output_laws;
pub mod arg_laws;
