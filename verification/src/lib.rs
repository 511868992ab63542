//! Card recognition and deck building for Magic: The Gathering collections.
//!
//! The verified core: perceptual-hash matching against the card cache, the
//! deck list and its export formats, and the pure decisions of the database
//! refresh (bulk data cleanup, card faces, retries, stale files).

pub mod cache;
pub mod gui;
pub mod refresh_database;
pub mod text;
