//! The MCP tools of the server.

pub mod search_articles;
