//! The terminal browser's state and how keys change it.
pub mod app;
pub mod event;
pub mod render;
