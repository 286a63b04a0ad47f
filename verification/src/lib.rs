//! Core logic of `pygmy`: message chunking, Markdown rendering for chat
//! backends, configuration handling and version bookkeeping.
pub mod config;
pub mod text;
pub mod markdown;
pub mod send;
pub mod version_check;
pub mod telegram;
pub mod ntfy;
pub mod self_update;
pub mod init;
pub mod cli;
pub mod usage;
