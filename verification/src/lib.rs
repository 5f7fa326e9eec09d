//! Core logic of the beet scheduler: edit-token cookies, edit authorization,
//! time-slot planning and the availability grid.

pub mod text;
pub mod edit_tokens;
pub mod token;
pub mod forms;
pub mod editing;
pub mod slots;
pub mod models;
pub mod view;
pub mod migrations;
pub mod settings;
