//! What each operation is for, stated of its inputs and its results.

pub mod choice;
pub mod colours;
pub mod commands;
pub mod pixels;
pub mod questions;
pub mod replies;
pub mod screens;
pub mod startup;
pub mod talk;
pub mod texts;
pub mod typing;
pub mod views;
pub mod windows;
pub mod wire;
