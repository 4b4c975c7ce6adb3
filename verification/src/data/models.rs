//! Data model of one department's crawled news file.

use std::collections::HashMap;
use vstd::prelude::*;

verus! {

/// The crawled data of one department.
#[derive(Debug, Clone)]
pub struct DepartmentData {
    /// Source domain.
    pub domain: String,
    /// Department name.
    pub department: String,
    /// Site type number (`type` in the JSON file).
    pub site_type: String,
    /// Crawl timestamp (`YYYYMMDD_HHMMSS`).
    pub crawl_time: String,
    /// Total number of articles of the department.
    pub total_articles: u64,
    /// Column name to number of articles.
    pub columns: HashMap<String, u64>,
    /// The articles.
    pub articles: Vec<Article>,
}

/// Metadata of one article.
#[derive(Debug, Clone)]
pub struct Article {
    /// Title.
    pub title: String,
    /// Original link.
    pub url: String,
    /// Publication date (`YYYY-MM-DD`, ordered as text).
    pub date: String,
    /// Column the article belongs to.
    pub column: String,
}

/// An article together with the name of its department.
#[derive(Debug, Clone)]
pub struct ArticleRef<'a> {
    /// The article.
    pub article: &'a Article,
    /// Name of the department the article belongs to.
    pub department: &'a str,
}

impl<'a> ArticleRef<'a> {
    /// The article and the department name, as values.
    pub open spec fn spec_pair(&self) -> (Article, Seq<char>) {
        (*self.article, self.department@)
    }
}

} // verus!
