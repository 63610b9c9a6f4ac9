//! A vector index, the vector database built on it, and the write rules of a graph store.

pub mod beam;
pub mod decimal;
pub mod distance;
pub mod error;
pub mod graph_laws;
pub mod graph_storage;
pub mod index;
pub mod index_laws;
pub mod index_model;
pub mod link_laws;
pub mod lists;
pub mod metadata;
pub mod path_rules;
pub mod ranking;
pub mod search;
pub mod search_laws;
pub mod sorting;
pub mod table_laws;
pub mod tables;
pub mod text;
pub mod types;
pub mod vector_db;
