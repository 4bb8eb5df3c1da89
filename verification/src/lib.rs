pub mod text;
pub mod path;
pub mod store;
pub mod hotkey;
pub mod clipboard;
pub mod session;
pub mod laws;
