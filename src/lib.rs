//! Indexing and ranked search over a source tree: structural chunking,
//! full-text query preparation, re-ranking, structural diffs and the
//! small rules around them.

pub mod text;
pub mod records;

pub mod hasher;
pub mod walker;
pub mod syntax;
pub mod chunker;
pub mod index;

pub mod fts;
pub mod search;
pub mod hybrid;
pub mod views;
pub mod present;
pub mod context;

pub mod diff;
pub mod format;

pub mod config;
pub mod embed;
pub mod protocol;
