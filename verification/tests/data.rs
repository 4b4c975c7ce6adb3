use shu_mcp::data::fetcher::{
    contents_api_url, finish_fetch, is_json_file_name, json_file_names, raw_url, FetchError,
    DEFAULT_BRANCH,
};
use shu_mcp::data::loader::collect_departments;
use shu_mcp::data::models::DepartmentData;
use shu_mcp::handler::MyServerHandler;
use std::collections::HashMap;

fn dept(name: &str, domain: &str) -> DepartmentData {
    DepartmentData {
        domain: domain.to_string(),
        department: name.to_string(),
        site_type: "1".to_string(),
        crawl_time: "20260514_000000".to_string(),
        total_articles: 0,
        columns: HashMap::new(),
        articles: Vec::new(),
    }
}

#[test]
fn listing_url() {
    assert_eq!(
        contents_api_url(DEFAULT_BRANCH),
        "https://api.github.com/repos/preca-hoshino/shu-mcp-data/contents/output?ref=master"
    );
}

#[test]
fn download_url_encodes_the_name() {
    assert_eq!(
        raw_url("dev", "上海 大学.json"),
        "https://raw.githubusercontent.com/preca-hoshino/shu-mcp-data/dev/output/%E4%B8%8A%E6%B5%B7%20%E5%A4%A7%E5%AD%A6.json"
    );
    assert_eq!(
        raw_url("master", "a-b_c.d~e"),
        "https://raw.githubusercontent.com/preca-hoshino/shu-mcp-data/master/output/a-b_c.d~e"
    );
    assert_eq!(
        raw_url("master", "a/b?c"),
        "https://raw.githubusercontent.com/preca-hoshino/shu-mcp-data/master/output/a%2Fb%3Fc"
    );
}

#[test]
fn json_names() {
    assert!(is_json_file_name("shu.json"));
    assert!(is_json_file_name("shu.JSON"));
    assert!(is_json_file_name("a.b.Json"));
    assert!(!is_json_file_name("json"));
    assert!(is_json_file_name(".json"));
    assert!(!is_json_file_name("shu.json.bak"));
    assert!(!is_json_file_name("shu.jsonl"));
    assert!(!is_json_file_name("shu."));
    assert!(!is_json_file_name("README.md"));
    assert!(!is_json_file_name(""));
}

#[test]
fn listing_keeps_json_files_in_order() {
    let names = vec![
        Some("b.json".to_string()),
        None,
        Some("README.md".to_string()),
        Some("a.JSON".to_string()),
    ];
    assert_eq!(json_file_names(&names), Ok(vec!["b.json".to_string(), "a.JSON".to_string()]));
    let none = vec![None, Some("x.txt".to_string())];
    assert_eq!(json_file_names(&none), Err(FetchError::EmptyListing));
    assert_eq!(json_file_names(&Vec::new()), Err(FetchError::EmptyListing));
}

#[test]
fn departments_by_name_descending() {
    let got = collect_departments(vec![
        Some(dept("b", "1")),
        None,
        Some(dept("c", "2")),
        Some(dept("a", "3")),
        Some(dept("c", "4")),
        Some(dept("上海大学", "5")),
    ]);
    let order: Vec<(String, String)> =
        got.iter().map(|d| (d.department.clone(), d.domain.clone())).collect();
    assert_eq!(
        order,
        vec![
            ("上海大学".to_string(), "5".to_string()),
            ("c".to_string(), "2".to_string()),
            ("c".to_string(), "4".to_string()),
            ("b".to_string(), "1".to_string()),
            ("a".to_string(), "3".to_string()),
        ]
    );
}

#[test]
fn fetch_fails_when_nothing_arrived() {
    assert_eq!(
        finish_fetch(vec![None, None, None], 3).err(),
        Some(FetchError::AllDownloadsFailed { files: 3 })
    );
    let ok = finish_fetch(vec![None, Some(dept("a", "1")), Some(dept("b", "2"))], 3).unwrap();
    assert_eq!(ok.len(), 2);
    assert_eq!(ok[0].department, "b");
    assert_eq!(ok[1].department, "a");
}

#[test]
fn example_resource() {
    let h = MyServerHandler;
    let list = h.list_resources();
    assert_eq!(list.len(), 1);
    assert_eq!(list[0].uri, "shu://example");
    let r = h.read_resource("shu://example").unwrap();
    assert_eq!(r.text, "This is an example resource content.");
    assert_eq!(r.mime_type, "text/plain");
    assert_eq!(h.read_resource("shu://other").err().unwrap(), "Unknown resource URI: shu://other");
}

#[test]
fn no_tools_are_offered() {
    let h = MyServerHandler;
    assert!(h.list_tool_names().is_empty());
    assert_eq!(h.call_tool("search_articles"), Err("No tools implemented".to_string()));
}

#[test]
fn many_departments_sort_stably() {
    let names = ["b", "a", "c", "b", "a", "c", "b", "d", "a"];
    let parsed: Vec<Option<DepartmentData>> = names
        .iter()
        .enumerate()
        .map(|(i, n)| Some(dept(n, &format!("d{}", i))))
        .collect();
    let got = collect_departments(parsed);
    let order: Vec<(String, String)> = got
        .iter()
        .map(|d| (d.department.clone(), d.domain.clone()))
        .collect();
    let want: Vec<(String, String)> = [
        ("d", "d7"),
        ("c", "d2"),
        ("c", "d5"),
        ("b", "d0"),
        ("b", "d3"),
        ("b", "d6"),
        ("a", "d1"),
        ("a", "d4"),
        ("a", "d8"),
    ]
    .iter()
    .map(|(a, b)| (a.to_string(), b.to_string()))
    .collect();
    assert_eq!(order, want);
}
