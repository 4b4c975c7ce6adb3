use shu_mcp::data::models::{Article, DepartmentData};
use shu_mcp::tools::search_articles::search::{search_articles, select_articles};
use std::collections::HashMap;

/// The test index: two departments with six articles.
fn make_test_index() -> Vec<DepartmentData> {
    let mut columns_a = HashMap::new();
    columns_a.insert("综合新闻".to_string(), 3);
    columns_a.insert("通知公告".to_string(), 1);

    let mut columns_b = HashMap::new();
    columns_b.insert("科研动态".to_string(), 2);

    vec![
        DepartmentData {
            domain: "www.shu.edu.cn".to_string(),
            department: "上海大学".to_string(),
            site_type: "16".to_string(),
            crawl_time: "20260514_000000".to_string(),
            total_articles: 4,
            columns: columns_a,
            articles: vec![
                Article {
                    title: "上海大学召开2026年第二次党群工作例会".to_string(),
                    url: "https://www.shu.edu.cn/info/1056/1001.htm".to_string(),
                    date: "2026-05-13".to_string(),
                    column: "综合新闻".to_string(),
                },
                Article {
                    title: "国际心脏研究会主席到访上海大学".to_string(),
                    url: "https://www.shu.edu.cn/info/1056/1002.htm".to_string(),
                    date: "2026-05-12".to_string(),
                    column: "综合新闻".to_string(),
                },
                Article {
                    title: "上海大学2026年春季学期期末考试通知".to_string(),
                    url: "https://www.shu.edu.cn/info/1056/1003.htm".to_string(),
                    date: "2026-05-10".to_string(),
                    column: "通知公告".to_string(),
                },
                Article {
                    title: "上海大学援疆教师获评优秀援疆干部人才".to_string(),
                    url: "https://www.shu.edu.cn/info/1056/1004.htm".to_string(),
                    date: "2026-05-13".to_string(),
                    column: "综合新闻".to_string(),
                },
            ],
        },
        DepartmentData {
            domain: "sfs.shu.edu.cn".to_string(),
            department: "外国语学院".to_string(),
            site_type: "1".to_string(),
            crawl_time: "20260514_000000".to_string(),
            total_articles: 2,
            columns: columns_b,
            articles: vec![
                Article {
                    title: "外国语学院科研项目申报通知".to_string(),
                    url: "https://sfs.shu.edu.cn/1001.htm".to_string(),
                    date: "2026-05-11".to_string(),
                    column: "科研动态".to_string(),
                },
                Article {
                    title: "上海大学外国语学院举办学术研讨会".to_string(),
                    url: "https://sfs.shu.edu.cn/1002.htm".to_string(),
                    date: "2026-05-09".to_string(),
                    column: "科研动态".to_string(),
                },
            ],
        },
    ]
}

#[test]
fn single_keyword_matches_all() {
    let index = make_test_index();
    let results = search_articles("上海大学", None, None, 50, &index);
    assert_eq!(results.len(), 5);
    assert_eq!(results[0].article_ref.article.date, "2026-05-13");
}

#[test]
fn multi_keyword_and_logic() {
    let index = make_test_index();
    let results = search_articles("上海大学 教师", None, None, 50, &index);
    assert_eq!(results.len(), 1);
    assert!(results[0].article_ref.article.title.contains("援疆教师"));
}

#[test]
fn case_insensitive() {
    let index = make_test_index();
    let results = search_articles("外国语学院", None, None, 50, &index);
    assert_eq!(results.len(), 2);
}

#[test]
fn date_range_filter() {
    let index = make_test_index();
    let results = search_articles(
        "上海大学",
        Some("2026-05-12"),
        Some("2026-05-13"),
        50,
        &index,
    );
    for r in &results {
        assert!(r.article_ref.article.date.as_str() >= "2026-05-12");
        assert!(r.article_ref.article.date.as_str() <= "2026-05-13");
    }
    assert_eq!(results.len(), 3);
}

#[test]
fn limit_truncation() {
    let index = make_test_index();
    let results = search_articles("上海大学", None, None, 2, &index);
    assert_eq!(results.len(), 2);
}

#[test]
fn empty_query_returns_empty() {
    let index = make_test_index();
    let results = search_articles("   ", None, None, 50, &index);
    assert!(results.is_empty());
}

#[test]
fn no_match_returns_empty() {
    let index = make_test_index();
    let results = search_articles("量子计算", None, None, 50, &index);
    assert!(results.is_empty());
}

#[test]
fn sorted_by_date_desc() {
    let index = make_test_index();
    let results = search_articles("上海大学", None, None, 50, &index);
    for i in 1..results.len() {
        assert!(results[i - 1].article_ref.article.date >= results[i].article_ref.article.date);
    }
}

#[test]
fn date_from_only() {
    let index = make_test_index();
    let results = search_articles("上海大学", Some("2026-05-13"), None, 50, &index);
    for r in &results {
        assert!(r.article_ref.article.date.as_str() >= "2026-05-13");
    }
}

#[test]
fn date_to_only() {
    let index = make_test_index();
    let results = search_articles("上海大学", None, Some("2026-05-10"), 50, &index);
    for r in &results {
        assert!(r.article_ref.article.date.as_str() <= "2026-05-10");
    }
}

fn urls(index: &[DepartmentData], query: &str, limit: usize) -> Vec<String> {
    search_articles(query, None, None, limit, index)
        .iter()
        .map(|r| r.article_ref.article.url.clone())
        .collect()
}

#[test]
fn equal_dates_keep_index_order() {
    let index = make_test_index();
    let found = urls(&index, "上海大学", 50);
    assert_eq!(
        found,
        vec![
            "https://www.shu.edu.cn/info/1056/1001.htm",
            "https://www.shu.edu.cn/info/1056/1004.htm",
            "https://www.shu.edu.cn/info/1056/1002.htm",
            "https://www.shu.edu.cn/info/1056/1003.htm",
            "https://sfs.shu.edu.cn/1002.htm",
        ]
    );
}

#[test]
fn smaller_limit_gives_prefix() {
    let index = make_test_index();
    let all = urls(&index, "上海大学", 50);
    for limit in 0..7 {
        let some = urls(&index, "上海大学", limit);
        assert_eq!(some.len(), limit.min(all.len()));
        assert_eq!(&all[..some.len()], &some[..]);
    }
}

#[test]
fn same_search_same_results() {
    let index = make_test_index();
    assert_eq!(urls(&index, "通知", 50), urls(&index, "通知", 50));
    assert_eq!(urls(&index, "通知", 50).len(), 2);
}

#[test]
fn department_names_are_carried() {
    let index = make_test_index();
    let results = search_articles("研讨会", None, None, 50, &index);
    assert_eq!(results.len(), 1);
    assert_eq!(results[0].article_ref.department, "外国语学院");
}

#[test]
fn ascii_keywords_ignore_case() {
    let mut index = make_test_index();
    index[1].articles[0].title = "SHU Research News".to_string();
    let results = search_articles("  research\u{3000}SHU ", None, None, 50, &index);
    assert_eq!(results.len(), 1);
    assert_eq!(results[0].article_ref.article.url, "https://sfs.shu.edu.cn/1001.htm");
    assert!(search_articles("researchx", None, None, 50, &index).is_empty());
}

#[test]
fn date_bounds_are_inclusive() {
    let index = make_test_index();
    let results = search_articles("上海大学", Some("2026-05-10"), Some("2026-05-10"), 50, &index);
    assert_eq!(results.len(), 1);
    assert_eq!(results[0].article_ref.article.date, "2026-05-10");
    let none = search_articles("上海大学", Some("2026-05-14"), None, 50, &index);
    assert!(none.is_empty());
}

#[test]
fn empty_index_finds_nothing() {
    let index: Vec<DepartmentData> = Vec::new();
    assert!(search_articles("上海大学", None, None, 50, &index).is_empty());
}

#[test]
fn selection_with_given_lowercase_titles() {
    let index = make_test_index();
    // lowercase titles given by hand: only the second department's first
    // article and the first department's third article carry "x"
    let lowered: Vec<Vec<String>> = vec![
        vec!["a".to_string(), "b".to_string(), "x y".to_string(), "c".to_string()],
        vec!["y x".to_string(), "d".to_string()],
    ];
    let kws = vec!["x".to_string()];
    let found = select_articles(&kws, &lowered, None, None, 50, &index);
    let urls: Vec<&str> = found.iter().map(|r| r.article_ref.article.url.as_str()).collect();
    assert_eq!(urls, vec!["https://sfs.shu.edu.cn/1001.htm", "https://www.shu.edu.cn/info/1056/1003.htm"]);
    let both = vec!["x".to_string(), "y".to_string()];
    assert_eq!(select_articles(&both, &lowered, None, Some("2026-05-10"), 50, &index).len(), 1);
    assert_eq!(select_articles(&both, &lowered, None, None, 1, &index).len(), 1);
}

#[test]
fn ascii_query_ignores_case() {
    let mut index = make_test_index();
    index[0].articles[1].title = "Rust Mcp Notes".to_string();
    let results = search_articles("MCP rust", None, None, 50, &index);
    assert_eq!(results.len(), 1);
    assert_eq!(results[0].article_ref.article.title, "Rust Mcp Notes");
}
