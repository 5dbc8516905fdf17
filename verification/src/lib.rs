//! Content graph resolution engine for a wiki-style site generator.
//!
//! The library indexes content items (articles and assets) by identifier,
//! scans article bodies for wikilink syntax, resolves link tokens against
//! the index (exact match first, then deterministic suffix fallback),
//! builds the forward reference map, answers backlink queries, and exports
//! the resulting link graph as a JSON node/edge structure.

pub mod content;
pub mod filesystem;
pub mod frontmatter;
pub mod links;
pub mod repository;

pub use content::{Article, ArticleContent, Asset, Content, ContentIndex};
