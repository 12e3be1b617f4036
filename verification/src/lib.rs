//! Host-side core for GRBL-HAL motion controllers: wire commands, status
//! parsing, streaming and polling decisions, and the bed-extension translator.

pub mod commands;
pub mod text;
pub mod decimal;
pub mod motion;
pub mod state;
pub mod parser;
pub mod poller;
pub mod streamer;
pub mod session;
