//! A memory system for agents.
//!
//! [`memory::Memory`] is the interface: it stores memories, recalls them, links
//! those that are recalled together, learns from feedback, merges memories that
//! are alike, and synchronises devices. [`store::MemoryStore`] keeps memories,
//! finds them by their words or by an embedding, and keeps the links between
//! them. [`sync`] merges snapshots of stores.
//!
//! Strengths, weights and scores are IEEE 754 numbers, held as bits in
//! [`binary::Binary64`] and [`binary::Binary32`].

pub mod binary;
pub mod compression;
pub mod compression_laws;
pub mod consolidation_laws;
pub mod content;
pub mod convergence;
pub mod datum;
pub mod exact;
pub mod feedback;
pub mod feedback_laws;
pub mod format;
pub mod notation;
pub mod number_laws;
pub mod host;
pub mod import_laws;
pub mod index;
pub mod links;
pub mod memory;
pub mod memory_laws;
pub mod merge_laws;
pub mod meta;
pub mod numbers;
pub mod pg;
pub mod ranking;
pub mod recall_laws;
pub mod reward_laws;
pub mod rounding;
pub mod search_laws;
pub mod sqlite;
pub mod statistics;
pub mod statistics_laws;
pub mod store;
pub mod store_laws;
pub mod sync;
pub mod text;
pub mod times;
pub mod transfer_laws;
pub mod types;
pub mod vector;
pub mod word_laws;

pub use crate::memory::Memory;
pub use crate::store::MemoryStore;
pub use crate::sync::{merge_snapshot, MergeReport, Snapshot};
pub use crate::types::{
    MemoryConfig, MemoryLayer, MemoryRecord, MemoryStats, MemoryType, RecallResult,
    RetrievalConfig,
};
