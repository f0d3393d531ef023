//! ward — a pinentry that asks and never keeps.

pub mod args;
pub mod assuan;
pub mod conversation;
pub mod harden;
pub mod install;
pub mod laws;
pub mod paths;
pub mod secret;
pub mod server;
pub mod table;
pub mod text;
pub mod theme;
pub mod ui;
pub mod unicode;
