//! The decisions behind the command-line commands.
pub mod sync;
pub mod serve;
