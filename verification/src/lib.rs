//! mem-core: agent memory core.
//!
//! The flat memory table's key layout, identity allocation and retrieval
//! rules, plus the configuration model, as verified code. The storage engine
//! and the configuration file reader are driven by the embedding application,
//! which hands the scanned keys and rows to the functions here.

pub mod codec;
pub mod config;
pub mod memory;

pub use config::{ConfigError, EmbeddingConfig, KrystallizerConfig};
pub use memory::{MemoryKey, MemoryRow, MemoryStats, MemoryStore};
