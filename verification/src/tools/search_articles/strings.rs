//! The texts and bounds of the `search_articles` tool.

use vstd::prelude::*;

verus! {

/// Smallest accepted `limit`.
pub const LIMIT_MIN: u8 = 1;

/// Largest accepted `limit`.
pub const LIMIT_MAX: u8 = 50;

/// `limit` when none is given.
pub const LIMIT_DEFAULT: u8 = 20;

/// Reply when `limit` is out of range.
pub const ERR_LIMIT_OUT_OF_RANGE: &'static str = "❌ 错误：`limit` 参数必须在 1-50 之间。";

/// Reply when `date_from` is not `YYYY-MM-DD`.
pub const ERR_INVALID_DATE_FROM: &'static str = "❌ 错误：`date_from` 格式不正确，须为 YYYY-MM-DD。";

/// Reply when `date_to` is not `YYYY-MM-DD`.
pub const ERR_INVALID_DATE_TO: &'static str = "❌ 错误：`date_to` 格式不正确，须为 YYYY-MM-DD。";

/// Reply when nothing matches.
pub const WARN_NO_RESULTS: &'static str = "🔍 未找到匹配的文章，请尝试调整关键词或日期范围。";

/// Header of the result table.
pub const TABLE_HEADER: &'static str = "| 标题 | 部门+栏目 | 时间 |\n|------|-----------|------|";

} // verus!
