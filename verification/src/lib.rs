pub mod runner;
pub mod utils;
pub mod text;
pub mod config;
pub mod input;
pub mod components;
pub mod store;
pub mod app;
pub mod non_tui;
pub mod cli;
