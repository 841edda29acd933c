//! Incremental archiving of creator content: diffing remote listings against
//! synced state, resolving rich post bodies into a canonical content model
//! with deduplicated file references, and planning downloads.

pub mod api;
pub mod archive;
pub mod config;
pub mod content;
pub mod creator;
pub mod diff;
pub mod fanbox;
pub mod files;
pub mod members;
pub mod patreon;
pub mod resolve;
pub mod text;
pub mod utils;
