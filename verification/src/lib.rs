//! Retrieval core of a small retrieval-augmented generation pipeline:
//! text segmentation, content-addressed records, fusion of dense and
//! lexical search hits, and assembly of a bounded prompt context.

pub mod text;
pub mod segmenter;
pub mod global;
pub mod error;
pub mod record;
pub mod gateway;
pub mod gateway_laws;
pub mod fusion;
pub mod fusion_laws;
pub mod context;
pub mod query;
pub mod minervadoc;
pub mod generation;
