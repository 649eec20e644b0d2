//! The file list.
pub mod app;
pub mod driver;
pub mod keys;
pub mod rows;
pub mod session;
pub mod stage;
pub mod tree;
pub mod ui;
