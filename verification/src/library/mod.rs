//! Values that documents draw from the package.
pub mod get_data;
