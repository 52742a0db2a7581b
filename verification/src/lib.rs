//! Profiling data sink: typed keys and values, ingestion of sample batches,
//! symbol trees and the aggregation queries that read them.

pub mod collector;
pub mod queries;
pub mod storage;
pub mod symbolizer;
pub mod text;
