//! The logic of a two-pane git viewer: what is read out of git's output, what
//! the file list and the preview hold, how keys change them, and what is drawn.
pub mod annotate;
pub mod checkout;
pub mod config;
pub mod formats;
pub mod git;
pub mod herdr_cli;
pub mod hostenv;
pub mod input;
pub mod ipc;
pub mod json;
pub mod keymap;
pub mod layout;
pub mod list;
pub mod logx;
pub mod nvim;
pub mod orchestrate;
pub mod path;
pub mod placeholder;
pub mod popup;
pub mod preview;
pub mod repo;
pub mod style;
pub mod text;
pub mod textarea;
pub mod width;
