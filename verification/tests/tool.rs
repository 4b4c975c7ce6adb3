use shu_mcp::data::models::{Article, DepartmentData};
use shu_mcp::tools::search_articles::strings::{
    ERR_INVALID_DATE_FROM, ERR_INVALID_DATE_TO, ERR_LIMIT_OUT_OF_RANGE, TABLE_HEADER,
    WARN_NO_RESULTS,
};
use shu_mcp::tools::search_articles::tool::{escape_md, is_valid_date, ToolReply};
use shu_mcp::tools::search_articles::SearchArticlesTool;
use std::collections::HashMap;

fn article(title: &str, url: &str, date: &str, column: &str) -> Article {
    Article {
        title: title.to_string(),
        url: url.to_string(),
        date: date.to_string(),
        column: column.to_string(),
    }
}

fn index() -> Vec<DepartmentData> {
    vec![DepartmentData {
        domain: "www.shu.edu.cn".to_string(),
        department: "上海大学".to_string(),
        site_type: "16".to_string(),
        crawl_time: "20260514_000000".to_string(),
        total_articles: 3,
        columns: HashMap::new(),
        articles: (1..=30)
            .map(|i| {
                article(
                    &format!("新闻|第{i}条"),
                    &format!("https://x/{i}"),
                    &format!("2026-05-{:02}", i),
                    "综合新闻",
                )
            })
            .collect(),
    }]
}

fn tool(query: &str, from: Option<&str>, to: Option<&str>, limit: Option<u8>) -> SearchArticlesTool {
    SearchArticlesTool {
        query: query.to_string(),
        date_from: from.map(|s| s.to_string()),
        date_to: to.map(|s| s.to_string()),
        limit,
    }
}

fn error_of(r: ToolReply) -> String {
    match r {
        ToolReply::Error(m) => m,
        ToolReply::Text(t) => panic!("expected an error, got {t}"),
    }
}

fn text_of(r: ToolReply) -> String {
    match r {
        ToolReply::Text(t) => t,
        ToolReply::Error(m) => panic!("expected a text, got {m}"),
    }
}

#[test]
fn limit_out_of_range_is_refused() {
    let idx = index();
    assert_eq!(error_of(tool("新闻", None, None, Some(0)).call_tool(&idx)), ERR_LIMIT_OUT_OF_RANGE);
    assert_eq!(error_of(tool("新闻", None, None, Some(51)).call_tool(&idx)), ERR_LIMIT_OUT_OF_RANGE);
    // the limit is checked before the dates
    assert_eq!(
        error_of(tool("新闻", Some("bad"), None, Some(51)).call_tool(&idx)),
        ERR_LIMIT_OUT_OF_RANGE
    );
}

#[test]
fn bad_dates_are_refused() {
    let idx = index();
    assert_eq!(
        error_of(tool("新闻", Some("2026/05/01"), None, None).call_tool(&idx)),
        ERR_INVALID_DATE_FROM
    );
    assert_eq!(
        error_of(tool("新闻", None, Some("2026-5-1"), None).call_tool(&idx)),
        ERR_INVALID_DATE_TO
    );
    assert_eq!(
        error_of(tool("新闻", Some("x"), Some("y"), None).call_tool(&idx)),
        ERR_INVALID_DATE_FROM
    );
}

#[test]
fn default_limit_is_twenty() {
    let idx = index();
    let text = text_of(tool("新闻", None, None, None).call_tool(&idx));
    assert_eq!(text.lines().count(), 2 + 20);
    let text = text_of(tool("新闻", None, None, Some(50)).call_tool(&idx));
    assert_eq!(text.lines().count(), 2 + 30);
    let text = text_of(tool("新闻", None, None, Some(1)).call_tool(&idx));
    assert_eq!(text.lines().count(), 2 + 1);
}

#[test]
fn table_text_is_exact() {
    let idx = index();
    let text = text_of(tool("第3条", None, None, None).call_tool(&idx));
    assert_eq!(
        text,
        format!(
            "{TABLE_HEADER}\n| [新闻\\|第3条](https://x/3) | 上海大学 - 综合新闻 | 2026-05-03 |\n"
        )
    );
}

#[test]
fn rows_come_newest_first() {
    let idx = index();
    let text = text_of(tool("新闻", Some("2026-05-28"), Some("2026-05-29"), None).call_tool(&idx));
    let expected = format!(
        "{TABLE_HEADER}\n| [新闻\\|第29条](https://x/29) | 上海大学 - 综合新闻 | 2026-05-29 |\n| [新闻\\|第28条](https://x/28) | 上海大学 - 综合新闻 | 2026-05-28 |\n"
    );
    assert_eq!(text, expected);
}

#[test]
fn nothing_found_says_so() {
    let idx = index();
    assert_eq!(text_of(tool("量子计算", None, None, None).call_tool(&idx)), WARN_NO_RESULTS);
    assert_eq!(text_of(tool("  ", None, None, None).call_tool(&idx)), WARN_NO_RESULTS);
}

#[test]
fn date_shape() {
    assert!(is_valid_date("2026-05-13"));
    assert!(is_valid_date("0000-99-99"));
    assert!(!is_valid_date("2026-05-1"));
    assert!(!is_valid_date("2026-05-130"));
    assert!(!is_valid_date("2026/05/13"));
    assert!(!is_valid_date("2026-0a-13"));
    assert!(!is_valid_date("２０２６-05-1"));
    assert!(!is_valid_date(""));
}

#[test]
fn pipes_are_escaped() {
    assert_eq!(escape_md("a|b||c"), "a\\|b\\|\\|c");
    assert_eq!(escape_md("无管道"), "无管道");
    assert_eq!(escape_md(""), "");
    assert_eq!(escape_md("|"), "\\|");
}

#[test]
fn escaping_reads_back() {
    for s in ["a|b||c", "\\|x", "|", "", "无|管\\道", "\\", "a\\||"] {
        assert_eq!(escape_md(s).replace("\\|", "|"), s);
    }
}
