//! Core of a linked-note knowledge base: note parsing, link resolution,
//! diagnostics, graph queries, search ranking and index synthesis.

pub mod text;
pub mod paths;
pub mod picking;
pub mod sorting;
pub mod ast;
pub mod wide;
pub mod fences;
pub mod mask;
pub mod matching;
pub mod frontmatter;
pub mod sections;
pub mod links;
pub mod parser;
pub mod typo;
pub mod diagnostics;
pub mod digraph;
pub mod wiring;
pub mod routes;
pub mod graph;
pub mod trails;
pub mod steiner;
pub mod rag_graph;
pub mod graph_rag;
pub mod taxonomy;
pub mod synthesis;
pub mod moc;
pub mod security;
pub mod watcher;
pub mod lsp;
pub mod editor;
pub mod mcp;
pub mod serve;
pub mod commands;
pub mod retrieval;
pub mod fusion;
pub mod storage;
pub mod beam;
pub mod hnsw;
pub mod recall;
pub mod rng;
pub mod adjacency;
pub mod walks;
pub mod topology;
pub mod tokens;
pub mod embedder;
