//! FlexFind's indexing and search core: the packed per-root index, the query
//! language, the search engine and the settings model, with their contracts.

pub mod text;
pub mod pathmatch;
pub mod types;
pub mod walker;
pub mod persist;
pub mod settings;
pub mod query;
pub mod order;
pub mod engine;
pub mod icons;
pub mod shell;
pub mod windows;
pub mod reindex;
pub mod sibling;
pub mod tray;

