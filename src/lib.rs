//! Core of a toolkit for a game's content archives: the hash catalog, archive
//! header checks and extraction planning, the asset-path rewriter, and
//! content-addressed project checkpoints.
pub mod text;
pub mod repath;
pub mod catalog;
pub mod error;
pub mod wad;
pub mod checkpoint;
pub mod bin;
