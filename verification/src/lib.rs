pub mod app;
pub mod clipboard;
pub mod targets;
