//! Verified core of a local code-intelligence engine: content addressing,
//! the chunk / edge / module model, the query language, module detection,
//! hybrid ranking, dependency traversal and module-level rollups, and the
//! index store with its per-file indexing step.
mod text;
pub mod chunk;
pub mod content_hash;
pub mod cycles;
pub mod extract;
pub mod filter;
pub mod fusion;
pub mod pipeline;
pub mod project;
pub mod query;
pub mod rollup;
pub mod service;
pub mod store;
pub mod traversal;
pub mod vector;

pub use chunk::{Chunk, ChunkKind, ChunkLocation, Edge, EdgeKind, Language, Module, ProjectType};
pub use content_hash::{ContentHash, HashParseError};
pub use project::{DirInfo, ProjectDetector};
pub use query::{SearchQuery, Timestamp};
pub use store::{FileBatch, IndexStore};
pub use vector::Embedding;
