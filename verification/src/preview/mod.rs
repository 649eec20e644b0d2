//! The diff preview.
pub mod app;
pub mod card;
pub mod compose;
pub mod driver;
pub mod editor;
pub mod emphasis;
pub mod highlight;
pub mod numbering;
pub mod render;
pub mod session;
pub mod splice;
pub mod ui;
