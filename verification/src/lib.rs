//! Verified core of a tmux control server.

pub mod bytes;
pub mod commands;
pub mod errors;
pub mod numbers;
pub mod offsets;
pub mod outside;
pub mod score;
pub mod sequences;
pub mod shell;
pub mod text;
pub mod tmux;
pub mod types;
