//! Verified core of the FTD package manager: documents, package configuration,
//! snapshot/sync bookkeeping, status reporting and request routing.
pub mod text;
pub mod strmap;
pub mod paths;
pub mod error;
pub mod document;
pub mod config;
pub mod apis;
pub mod commands;
pub mod status;
pub mod cache;
pub mod library;
pub mod authors;
pub use authors::authors;
