//! Edit predictions drawn from a general language model.

pub mod models;
pub mod picker;
pub mod provider;
pub mod ranges;
pub mod removal;
pub mod request;
pub mod rows;
pub mod run;
pub mod sanitize;
pub mod snippets;
pub mod text;
pub mod window;
