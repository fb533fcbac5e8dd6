use vstd::prelude::*;

pub mod text;
pub mod status;
pub mod chat;
pub mod commands;
pub mod config;
pub mod monitor;
pub mod retry;
