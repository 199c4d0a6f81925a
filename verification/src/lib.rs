//! Knowledge, recall and retrieval for Converge formations: the verified core.

pub mod policy;
pub mod text;
pub mod lexical;
pub mod bm25;
pub mod entry;
pub mod table;
pub mod error;
pub mod knowledge_base;
pub mod provenance;
pub mod ranking;
pub mod suggestor;
pub mod fusion;
