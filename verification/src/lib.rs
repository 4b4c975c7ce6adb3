//! Verified core of the SHU news MCP server: the department news data
//! model, the article search, the `search_articles` tool's argument checks
//! and Markdown rendering, and the pure parts of remote data loading.

pub mod data;
pub mod handler;
pub mod order;
pub mod tools;
pub mod text;
