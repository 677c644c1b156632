//! Resolution of a game asset bundle's layout into its asset directories.
pub mod config;
pub mod masterbundle;
pub mod path;
pub mod text;
