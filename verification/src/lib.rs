//! Memory engine core: the filament data model, its binary wire format,
//! the mesh memory graph and the persistence codecs.

pub mod model;
pub mod wire;
pub mod csr;
pub mod graph;
pub mod text;
pub mod crc32;
pub mod wal;
pub mod storage;
pub mod json;
pub mod auth;
pub mod embed;
pub mod llm;
pub mod vector;
pub mod audit;
pub mod mcp;
pub mod engine;
pub mod tagging;
