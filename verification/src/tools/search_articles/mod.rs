//! The `search_articles` tool: keyword search over the department news.

pub mod search;
pub mod strings;
pub mod tool;

pub use tool::SearchArticlesTool;
