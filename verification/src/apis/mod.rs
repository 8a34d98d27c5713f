//! What the package server and its clients exchange.
pub mod sync2;
pub mod sync;
