//! The data layer: the models, and the pure parts of fetching the data
//! files from GitHub and of building the department index.

pub mod fetcher;
pub mod loader;
pub mod models;
