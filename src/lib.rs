//! Layout engine and configuration resolver for a tiling window manager.
pub mod config;
pub mod layout;
pub mod number;
pub mod parse;
pub mod session;
pub mod text;
pub mod tile;
