pub mod distance;
pub mod wal;
pub mod wal_laws;
pub mod error;
pub mod storage;
pub mod pq;
pub mod concurrent_hnsw;
pub mod hnsw;
pub mod hnsw_remap;
pub mod snapshot;
pub mod planner;
pub mod recovery;
pub mod api;
pub mod storage_laws;
pub mod catalog;
pub mod compaction_laws;
