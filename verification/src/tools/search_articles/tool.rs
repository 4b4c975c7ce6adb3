//! The `search_articles` tool: argument checks, the search, and the
//! Markdown table of the results.

use super::search::{is_search_result, result_pairs, search_articles, SearchResult};
use super::strings::{
    ERR_INVALID_DATE_FROM, ERR_INVALID_DATE_TO, ERR_LIMIT_OUT_OF_RANGE, LIMIT_DEFAULT, LIMIT_MAX,
    LIMIT_MIN, TABLE_HEADER, WARN_NO_RESULTS,
};
use crate::data::models::{Article, DepartmentData};
use crate::text::{ascii_lowered, is_ascii_text, keywords_of, lowercase_of, push_char, words};
use vstd::prelude::*;
use vstd::string::StringSliceAdditionalSpecFns;
use vstd::utf8::encode_utf8;

verus! {

/// The arguments of a `search_articles` call.
#[derive(Debug)]
pub struct SearchArticlesTool {
    /// Keywords, separated by white space (required).
    pub query: String,
    /// First date (`YYYY-MM-DD`), if any.
    pub date_from: Option<String>,
    /// Last date (`YYYY-MM-DD`), if any.
    pub date_to: Option<String>,
    /// Largest number of results (1 to 50, 20 when absent).
    pub limit: Option<u8>,
}

/// What a tool call answers: an error message for bad arguments, or the
/// text of the answer.
#[derive(Debug)]
pub enum ToolReply {
    /// The arguments were refused, with this message.
    Error(String),
    /// The answer text.
    Text(String),
}

/// `r` is the error reply `msg`.
pub open spec fn is_error_reply(r: ToolReply, msg: Seq<char>) -> bool {
    r matches ToolReply::Error(m) && m@ == msg
}

/// `r` is the text reply `text`.
pub open spec fn is_text_reply(r: ToolReply, text: Seq<char>) -> bool {
    r matches ToolReply::Text(t) && t@ == text
}

/// An ASCII digit.
pub open spec fn is_ascii_digit(b: u8) -> bool {
    0x30 <= b <= 0x39
}

/// The bytes have the shape `YYYY-MM-DD`: ten bytes, `-` at positions 4
/// and 7, ASCII digits elsewhere.
pub open spec fn is_date_shape(b: Seq<u8>) -> bool {
    &&& b.len() == 10
    &&& b[4] == 0x2d
    &&& b[7] == 0x2d
    &&& forall|i: int| 0 <= i < 10 && i != 4 && i != 7 ==> is_ascii_digit(#[trigger] b[i])
}

/// Whether `b[from..to]` are all ASCII digits.
fn all_digits(b: &[u8], from: usize, to: usize) -> (r: bool)
    requires
        from <= to <= b@.len(),
    ensures
        r == forall|i: int| from <= i < to ==> is_ascii_digit(#[trigger] b@[i]),
{
    let mut i = from;
    while i < to
        invariant
            from <= i <= to <= b@.len(),
            forall|k: int| from <= k < i ==> is_ascii_digit(#[trigger] b@[k]),
        decreases to - i,
    {
        if !(0x30 <= b[i] && b[i] <= 0x39) {
            return false;
        }
        i = i + 1;
    }
    true
}

/// Whether `s` has the date shape `YYYY-MM-DD` (digits are not checked
/// further: `2026-13-99` passes).
pub fn is_valid_date(s: &str) -> (r: bool)
    ensures
        r == is_date_shape(s.spec_bytes()),
{
    if s.len() != 10 {
        return false;
    }
    let bytes = s.as_bytes();
    let r = bytes[4] == 0x2d && bytes[7] == 0x2d && all_digits(bytes, 0, 4) && all_digits(bytes, 5, 7)
        && all_digits(bytes, 8, 10);
    proof {
        if r {
            assert forall|i: int| 0 <= i < 10 && i != 4 && i != 7 implies is_ascii_digit(
                #[trigger] bytes@[i],
            ) by {
                if i < 4 {
                } else if i < 7 {
                } else {
                }
            }
        }
    }
    r
}

/// `s` with each `|` written `\|`, so that it can stand in a Markdown table.
pub open spec fn escape_pipes(s: Seq<char>) -> Seq<char>
    decreases s.len(),
{
    if s.len() == 0 {
        seq![]
    } else {
        escape_pipes(s.drop_last()) + if s.last() == '|' {
            seq!['\\', '|']
        } else {
            seq![s.last()]
        }
    }
}

/// In escaped text every `|` follows a `\`, so none ends a table cell.
pub proof fn lemma_escaped_pipes(s: Seq<char>)
    ensures
        forall|i: int|
            0 <= i < escape_pipes(s).len() && #[trigger] escape_pipes(s)[i] == '|' ==> i > 0
                && escape_pipes(s)[i - 1] == '\\',
    decreases s.len(),
{
    if s.len() > 0 {
        lemma_escaped_pipes(s.drop_last());
        let rest = escape_pipes(s.drop_last());
        let e = escape_pipes(s);
        assert forall|i: int| 0 <= i < e.len() && #[trigger] e[i] == '|' implies i > 0 && e[i - 1]
            == '\\' by {
            if i < rest.len() {
                assert(e[i] == rest[i]);
                assert(e[i - 1] == rest[i - 1]);
            }
        }
    }
}

/// `s` with each `\|` read as `|`, left to right: what
/// `s.replace("\\|", "|")` gives.
pub open spec fn unescape_pipes(s: Seq<char>) -> Seq<char>
    decreases s.len(),
{
    if s.len() == 0 {
        seq![]
    } else if s.len() >= 2 && s[0] == '\\' && s[1] == '|' {
        seq!['|'] + unescape_pipes(s.skip(2))
    } else {
        seq![s[0]] + unescape_pipes(s.drop_first())
    }
}

/// Escaping a concatenation escapes each part.
proof fn lemma_escape_concat(a: Seq<char>, b: Seq<char>)
    ensures
        escape_pipes(a + b) == escape_pipes(a) + escape_pipes(b),
    decreases b.len(),
{
    if b.len() == 0 {
        assert(a + b =~= a);
        assert(escape_pipes(a) + escape_pipes(b) =~= escape_pipes(a));
    } else {
        lemma_escape_concat(a, b.drop_last());
        assert((a + b).drop_last() =~= a + b.drop_last());
        assert((a + b).last() == b.last());
        let tail = if b.last() == '|' {
            seq!['\\', '|']
        } else {
            seq![b.last()]
        };
        assert(escape_pipes(a + b) =~= escape_pipes(a) + escape_pipes(b.drop_last()) + tail);
    }
}

/// Escaped text never starts with `|`.
proof fn lemma_escape_first(s: Seq<char>)
    requires
        s.len() > 0,
    ensures
        escape_pipes(s) == escape_pipes(seq![s[0]]) + escape_pipes(s.drop_first()),
        escape_pipes(s).len() > 0,
        escape_pipes(s)[0] != '|',
        escape_pipes(seq![s[0]]) == if s[0] == '|' {
            seq!['\\', '|']
        } else {
            seq![s[0]]
        },
{
    let one = seq![s[0]];
    assert(s =~= one + s.drop_first());
    lemma_escape_concat(one, s.drop_first());
    assert(one.drop_last() =~= Seq::<char>::empty());
    assert(one.last() == s[0]);
    assert(escape_pipes(Seq::<char>::empty()) == Seq::<char>::empty());
    if s[0] == '|' {
        assert(escape_pipes(one) =~= seq!['\\', '|']);
    } else {
        assert(escape_pipes(one) =~= seq![s[0]]);
    }
}

/// Escaping works character by character: a `|` becomes `\|`, every
/// other character stays, and the escape of a concatenation is the
/// concatenation of the escapes.
pub proof fn lemma_escape_by_character(a: Seq<char>, b: Seq<char>, c: char)
    ensures
        escape_pipes(a + b) == escape_pipes(a) + escape_pipes(b),
        escape_pipes(seq![c]) == if c == '|' {
            seq!['\\', '|']
        } else {
            seq![c]
        },
        escape_pipes(Seq::<char>::empty()) == Seq::<char>::empty(),
{
    lemma_escape_concat(a, b);
    lemma_escape_first(seq![c]);
    assert(seq![c].drop_first() =~= Seq::<char>::empty());
    assert(escape_pipes(seq![seq![c][0]]) + escape_pipes(Seq::<char>::empty()) =~= escape_pipes(
        seq![seq![c][0]],
    ));
}

/// Reading back escaped text gives the original: removing the backslash
/// before each pipe of `escape_pipes(s)` gives `s`.
pub proof fn lemma_escape_round_trip(s: Seq<char>)
    ensures
        unescape_pipes(escape_pipes(s)) == s,
    decreases s.len(),
{
    if s.len() > 0 {
        let c = s[0];
        let t = s.drop_first();
        lemma_escape_first(s);
        lemma_escape_round_trip(t);
        let e = escape_pipes(s);
        let et = escape_pipes(t);
        if c == '|' {
            assert(e =~= seq!['\\', '|'] + et);
            assert(e.skip(2) =~= et);
        } else {
            assert(e =~= seq![c] + et);
            if et.len() > 0 {
                lemma_escape_first(t);
                assert(e[1] == et[0]);
            }
            assert(e.drop_first() =~= et);
        }
        assert(s =~= seq![c] + t);
    }
}

/// Escapes the pipes of `s` for a Markdown table cell, as
/// `s.replace('|', "\\|")` does.
pub fn escape_md(s: &str) -> (r: String)
    ensures
        r@ == escape_pipes(s@),
{
    let mut out = String::new();
    for c in it: s.chars()
        invariant
            it.seq() == s@,
            out@ == escape_pipes(s@.take(it.index() as int)),
    {
        let ghost i = it.index();
        if c == '|' {
            push_char(&mut out, '\\');
            push_char(&mut out, '|');
        } else {
            push_char(&mut out, c);
        }
        proof {
            assert(s@.take(i + 1).drop_last() =~= s@.take(i as int));
            assert(s@.take(i + 1).last() == c);
            assert(out@ =~= escape_pipes(s@.take(i + 1)));
        }
    }
    proof {
        assert(s@.take(s@.len() as int) =~= s@);
    }
    out
}

/// One table row: linked title, department and column, date.
pub open spec fn table_row(h: (Article, Seq<char>)) -> Seq<char> {
    "| ["@ + escape_pipes(h.0.title@) + "]("@ + h.0.url@ + ") | "@ + h.1 + " - "@ + h.0.column@
        + " | "@ + h.0.date@ + " |\n"@
}

/// The rows of the results, in order.
pub open spec fn table_rows(res: Seq<(Article, Seq<char>)>) -> Seq<char>
    decreases res.len(),
{
    if res.len() == 0 {
        seq![]
    } else {
        table_rows(res.drop_last()) + table_row(res.last())
    }
}

/// The Markdown table of the results.
pub open spec fn table_text(res: Seq<(Article, Seq<char>)>) -> Seq<char> {
    TABLE_HEADER@ + "\n"@ + table_rows(res)
}

/// Renders the results as a Markdown table.
#[verifier::rlimit(40)]
fn render_table<'a>(results: &Vec<SearchResult<'a>>) -> (r: String)
    ensures
        r@ == table_text(result_pairs(results@)),
{
    let mut out = String::from_str(TABLE_HEADER);
    out.append("\n");
    let mut i: usize = 0;
    while i < results.len()
        invariant
            i <= results@.len(),
            out@ == TABLE_HEADER@ + "\n"@ + table_rows(result_pairs(results@).take(i as int)),
        decreases results@.len() - i,
    {
        let r = &results[i];
        let a = r.article_ref.article;
        let title = escape_md(a.title.as_str());
        let ghost before = out@;
        out.append("| [");
        out.append(title.as_str());
        out.append("](");
        out.append(a.url.as_str());
        out.append(") | ");
        out.append(r.article_ref.department);
        out.append(" - ");
        out.append(a.column.as_str());
        out.append(" | ");
        out.append(a.date.as_str());
        out.append(" |\n");
        proof {
            let pairs = result_pairs(results@);
            assert(pairs.take(i + 1).drop_last() =~= pairs.take(i as int));
            assert(pairs.take(i + 1).last() == r.article_ref.spec_pair());
            assert(out@ =~= before + table_row(r.article_ref.spec_pair()));
        }
        i = i + 1;
    }
    proof {
        assert(result_pairs(results@).take(i as int) =~= result_pairs(results@));
    }
    out
}

/// The UTF-8 bytes of an optional text.
pub open spec fn opt_string_bytes(o: Option<String>) -> Option<Seq<u8>> {
    match o {
        Some(s) => Some(encode_utf8(s@)),
        None => None,
    }
}

/// The limit of a call: the given one, or 20.
pub open spec fn limit_of(tool: SearchArticlesTool) -> u8 {
    match tool.limit {
        Some(l) => l,
        None => LIMIT_DEFAULT,
    }
}

/// A given date that does not have the shape `YYYY-MM-DD`.
pub open spec fn bad_date(d: Option<String>) -> bool {
    d matches Some(s) && !is_date_shape(encode_utf8(s@))
}

impl SearchArticlesTool {
    /// Runs the tool on `index`.
    ///
    /// The limit (20 when absent) must lie in 1..=50, and each given date
    /// must have the shape `YYYY-MM-DD`; else the reply is the matching error
    /// message, checked in that order. Otherwise the reply is the search's
    /// results as a Markdown table, or a notice that nothing matched.
    pub fn call_tool(&self, index: &[DepartmentData]) -> (r: ToolReply)
        ensures
            ({
                let lim = limit_of(*self);
                let from = opt_string_bytes(self.date_from);
                let to = opt_string_bytes(self.date_to);
                if lim < LIMIT_MIN || lim > LIMIT_MAX {
                    is_error_reply(r, ERR_LIMIT_OUT_OF_RANGE@)
                } else if bad_date(self.date_from) {
                    is_error_reply(r, ERR_INVALID_DATE_FROM@)
                } else if bad_date(self.date_to) {
                    is_error_reply(r, ERR_INVALID_DATE_TO@)
                } else {
                    &&& exists|res: Seq<(Article, Seq<char>)>|
                        #[trigger] is_search_result(self.query@, from, to, lim as nat, index@, res)
                            && is_text_reply(
                            r,
                            if res.len() == 0 {
                                WARN_NO_RESULTS@
                            } else {
                                table_text(res)
                            },
                        )
                    &&& is_ascii_text(self.query@) ==> forall|k: int|
                        0 <= k < keywords_of(self.query@).len() ==> #[trigger] keywords_of(self.query@)[k]
                            == ascii_lowered(words(self.query@)[k])
                    &&& keywords_of(self.query@).len() > 0 ==> forall|d: int, a: int|
                        0 <= d < index@.len() && 0 <= a < index@[d].articles@.len() && is_ascii_text(
                            index@[d].articles@[a].title@,
                        ) ==> #[trigger] lowercase_of(index@[d].articles@[a].title@) == ascii_lowered(
                            index@[d].articles@[a].title@,
                        )
                }
            }),
    {
        let limit = match self.limit {
            Some(l) => l,
            None => LIMIT_DEFAULT,
        };
        if limit < LIMIT_MIN || limit > LIMIT_MAX {
            return ToolReply::Error(String::from_str(ERR_LIMIT_OUT_OF_RANGE));
        }
        let from: Option<&str> = match &self.date_from {
            Some(s) => Some(s.as_str()),
            None => None,
        };
        let to: Option<&str> = match &self.date_to {
            Some(s) => Some(s.as_str()),
            None => None,
        };
        match from {
            Some(f) => {
                if !is_valid_date(f) {
                    return ToolReply::Error(String::from_str(ERR_INVALID_DATE_FROM));
                }
            },
            None => {},
        }
        match to {
            Some(t) => {
                if !is_valid_date(t) {
                    return ToolReply::Error(String::from_str(ERR_INVALID_DATE_TO));
                }
            },
            None => {},
        }
        let results = search_articles(self.query.as_str(), from, to, limit as usize, index);
        if results.len() == 0 {
            return ToolReply::Text(String::from_str(WARN_NO_RESULTS));
        }
        ToolReply::Text(render_table(&results))
    }
}

/// A date is accepted exactly when it has ten bytes, `-` at bytes 4 and 7,
/// and ASCII digits `0`..`9` at every other byte.
pub proof fn lemma_date_shape_exact(b: Seq<u8>)
    ensures
        is_date_shape(b) <==> b.len() == 10 && b[4] == 0x2d && b[7] == 0x2d && forall|i: int|
            0 <= i < 10 && i != 4 && i != 7 ==> 0x30 <= #[trigger] b[i] <= 0x39,
{
}

/// A date argument is refused exactly when it is given and is not ten
/// bytes with `-` at bytes 4 and 7 and ASCII digits elsewhere; an absent
/// date is never refused.
pub proof fn lemma_bad_date_exact(d: Option<String>)
    ensures
        !bad_date(None),
        bad_date(d) <==> (d matches Some(s) && !({
            let b = encode_utf8(s@);
            b.len() == 10 && b[4] == 0x2d && b[7] == 0x2d && forall|i: int|
                0 <= i < 10 && i != 4 && i != 7 ==> 0x30 <= #[trigger] b[i] <= 0x39
        })),
{
}

/// The table with one more result is the table before it followed by that
/// result's own row: its escaped title linked to its URL, its own
/// department and column, and its date. The table of no results is the
/// header alone.
pub proof fn lemma_table_row_per_result(res: Seq<(Article, Seq<char>)>, h: (Article, Seq<char>))
    ensures
        table_text(Seq::empty()) == TABLE_HEADER@ + "\n"@,
        table_text(res.push(h)) == table_text(res) + "| ["@ + escape_pipes(h.0.title@) + "]("@
            + h.0.url@ + ") | "@ + h.1 + " - "@ + h.0.column@ + " | "@ + h.0.date@ + " |\n"@,
{
    assert(res.push(h).drop_last() =~= res);
    assert(TABLE_HEADER@ + "\n"@ + Seq::<char>::empty() =~= TABLE_HEADER@ + "\n"@);
    let row = "| ["@ + escape_pipes(h.0.title@) + "]("@ + h.0.url@ + ") | "@ + h.1 + " - "@ + h.0.column@
        + " | "@ + h.0.date@ + " |\n"@;
    assert(table_rows(res.push(h)) == table_rows(res) + row);
    assert(TABLE_HEADER@ + "\n"@ + (table_rows(res) + row) =~= TABLE_HEADER@ + "\n"@ + table_rows(res) + row);
}

/// Row `k` of the table is made from result `k` alone.
pub proof fn lemma_table_row_k(res: Seq<(Article, Seq<char>)>, k: int)
    requires
        0 <= k < res.len(),
    ensures
        table_text(res.take(k + 1)) == table_text(res.take(k)) + "| ["@ + escape_pipes(res[k].0.title@)
            + "]("@ + res[k].0.url@ + ") | "@ + res[k].1 + " - "@ + res[k].0.column@ + " | "@
            + res[k].0.date@ + " |\n"@,
{
    assert(res.take(k + 1) =~= res.take(k).push(res[k]));
    lemma_table_row_per_result(res.take(k), res[k]);
}

} // verus!
