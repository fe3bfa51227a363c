//! Image auto-tagging: letterboxing, tensor layout, score ranking and
//! tag-name resolution, each stated and proved with Verus.

pub mod error;
pub mod fingerprint;
pub mod ingest;
pub mod letterbox;
pub mod ranker;
pub mod resolver;
mod sorting;
pub mod storage;
pub mod tensor;
