//! Core of a retrieval-augmented generation (RAG) pipeline: chunking a
//! document into bounded-weight pieces, keeping a vector-store collection in a
//! usable state, embedding and indexing the chunks, retrieving the chunks
//! closest to a query, assembling the retrieved excerpts into a context, and
//! rendering that context through a named template.
//!
//! External collaborators (a production embedding model, a remote vector
//! database, a generative model) are reached by the application around this
//! crate; the orchestration rules, the deterministic stub embedder and the
//! in-memory store that stand in for them here are verified.
#![verifier::loop_isolation(false)]

pub mod chunker;
pub mod collection;
pub mod context;
pub mod embedder;
pub mod ingest;
pub mod pipeline;
pub mod store;
pub mod text;
