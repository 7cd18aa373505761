//! Vecta: the verified core of a vector database engine.
//!
//! Vector coordinates are held as the IEEE-754 bit patterns of `f32` values
//! (`u32`), so that storage, ranking by total order, the on-disk formats and
//! the write-ahead log can be stated and proved over plain integers.

pub mod text;
pub mod seqs;
pub mod codec;
pub mod metric;
pub mod topk;
pub mod batch;
pub mod flat_index;
pub mod serialize;
pub mod wal;
pub mod hnsw;
pub mod sharding;
pub mod hnsw_format;
pub mod layer_search;
pub mod hnsw_insert;
pub mod hnsw_search;
pub mod ivf;
pub mod ivf_format;
pub mod pq;
pub mod ivf_pq_format;
pub mod server;
pub mod filter;
pub mod persist;
pub mod concurrent;
pub mod binding;
pub mod messages;
