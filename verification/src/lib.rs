//! Synchronisation and retention rules for a local archive of dated radar
//! frames: which remote files to fetch, how their names carry their state,
//! which frames to keep, and when the poll loop waits, syncs and stops.

pub mod archive;
pub mod poll;
pub mod prune;
pub mod startup;
pub mod sync;
pub mod text;
pub mod timecode;
pub mod viewer;
