//! Blocks and sorted tables for a log-structured-merge storage engine.
//!
//! A [`block::Block`] packs sorted key-value entries into one binary unit with
//! an offset index. A [`table::SsTable`] is an immutable sequence of such blocks
//! followed by per-block metadata, searched in two levels: first the metadata,
//! then the block.

pub mod block;
pub mod error;
pub mod iterators;
pub mod key;
pub mod table;
pub mod wire;
