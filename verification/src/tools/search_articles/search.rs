//! Article search: every whitespace-separated keyword must occur in the
//! title (case-insensitively), the date must lie in the given range, and the
//! results come newest first, cut to the limit.

use crate::data::models::{Article, ArticleRef, DepartmentData};
use crate::order::{
    comes_before, is_greatest_first, is_rearranged, is_sorted_greatest_first, keys_of,
    lemma_greatest_first_unique, lemma_permutation_onto, sort_greatest_first, TextKeyed,
};
use crate::text::{
    ascii_lowered, bytes_contain, is_ascii_text, bytes_lt, contains_text, is_white_space, keywords, keywords_of,
    lemma_bytes_lt_asymmetric, lemma_bytes_lt_irreflexive, lowercase_of, str_lt, to_lowercase,
    words,
};
use vstd::prelude::*;
use vstd::string::StringSliceAdditionalSpecFns;
use vstd::utf8::encode_utf8;

verus! {

/// One search result.
#[derive(Debug, Clone)]
pub struct SearchResult<'a> {
    /// The article found, with its department.
    pub article_ref: ArticleRef<'a>,
}

impl<'a> TextKeyed for SearchResult<'a> {
    open spec fn sort_key(&self) -> Seq<u8> {
        encode_utf8(self.article_ref.article.date@)
    }

    fn key_text(&self) -> (r: &str) {
        self.article_ref.article.date.as_str()
    }
}

/// The UTF-8 bytes of an optional text.
pub open spec fn opt_text_bytes(o: Option<&str>) -> Option<Seq<u8>> {
    match o {
        Some(s) => Some(s.spec_bytes()),
        None => None,
    }
}

/// `date` is not before `from` and not after `to`, where given, comparing
/// the texts byte by byte.
pub open spec fn date_in_range(date: Seq<u8>, from: Option<Seq<u8>>, to: Option<Seq<u8>>) -> bool {
    &&& (from matches Some(f) ==> !bytes_lt(date, f))
    &&& (to matches Some(t) ==> !bytes_lt(t, date))
}

/// Every keyword occurs in `text`.
pub open spec fn keywords_in(text: Seq<char>, kws: Seq<Seq<char>>) -> bool {
    forall|k: int|
        0 <= k < kws.len() ==> bytes_contain(encode_utf8(text), encode_utf8(#[trigger] kws[k]))
}

/// Every keyword occurs in the lowercase form of `title`.
pub open spec fn title_has_keywords(title: Seq<char>, kws: Seq<Seq<char>>) -> bool {
    keywords_in(lowercase_of(title), kws)
}

/// The article has every keyword in its title and its date in range.
pub open spec fn article_matches(
    a: Article,
    kws: Seq<Seq<char>>,
    from: Option<Seq<u8>>,
    to: Option<Seq<u8>>,
) -> bool {
    title_has_keywords(a.title@, kws) && date_in_range(encode_utf8(a.date@), from, to)
}

/// The matching articles among `arts`, in order, each paired with the
/// department name `name`.
pub open spec fn article_hits(
    arts: Seq<Article>,
    name: Seq<char>,
    kws: Seq<Seq<char>>,
    from: Option<Seq<u8>>,
    to: Option<Seq<u8>>,
) -> Seq<(Article, Seq<char>)> {
    arts.filter_map(
        |a: Article|
            if article_matches(a, kws, from, to) {
                Some((a, name))
            } else {
                None
            },
    )
}

/// The matching articles of one department, in its order, each with the
/// department's name.
pub open spec fn department_hits(
    d: DepartmentData,
    kws: Seq<Seq<char>>,
    from: Option<Seq<u8>>,
    to: Option<Seq<u8>>,
) -> Seq<(Article, Seq<char>)> {
    article_hits(d.articles@, d.department@, kws, from, to)
}

/// The matching articles of all departments, department by department.
pub open spec fn index_hits(
    index: Seq<DepartmentData>,
    kws: Seq<Seq<char>>,
    from: Option<Seq<u8>>,
    to: Option<Seq<u8>>,
) -> Seq<(Article, Seq<char>)>
    decreases index.len(),
{
    if index.len() == 0 {
        seq![]
    } else {
        index_hits(index.drop_last(), kws, from, to) + department_hits(index.last(), kws, from, to)
    }
}

/// The article, whose title in lowercase is `lower`, has every keyword
/// in that lowercase title and its date in range.
pub open spec fn lowered_matches(
    a: Article,
    lower: Seq<char>,
    kws: Seq<Seq<char>>,
    from: Option<Seq<u8>>,
    to: Option<Seq<u8>>,
) -> bool {
    keywords_in(lower, kws) && date_in_range(encode_utf8(a.date@), from, to)
}

/// The matching articles among `arts`, in order, each paired with the
/// department name `name`, where `lowers[i]` is the lowercase title of
/// `arts[i]`.
pub open spec fn lowered_hits(
    arts: Seq<Article>,
    lowers: Seq<Seq<char>>,
    name: Seq<char>,
    kws: Seq<Seq<char>>,
    from: Option<Seq<u8>>,
    to: Option<Seq<u8>>,
) -> Seq<(Article, Seq<char>)>
    decreases arts.len(),
{
    if arts.len() == 0 {
        seq![]
    } else {
        let i = arts.len() - 1;
        let rest = lowered_hits(arts.drop_last(), lowers, name, kws, from, to);
        if lowered_matches(arts[i], lowers[i], kws, from, to) {
            rest.push((arts[i], name))
        } else {
            rest
        }
    }
}

/// The matching articles of all departments, department by department,
/// where `lowered[d][a]` is the lowercase title of article `a` of
/// department `d`.
pub open spec fn index_lowered_hits(
    index: Seq<DepartmentData>,
    lowered: Seq<Seq<Seq<char>>>,
    kws: Seq<Seq<char>>,
    from: Option<Seq<u8>>,
    to: Option<Seq<u8>>,
) -> Seq<(Article, Seq<char>)>
    decreases index.len(),
{
    if index.len() == 0 {
        seq![]
    } else {
        let d = index.len() - 1;
        index_lowered_hits(index.drop_last(), lowered, kws, from, to) + lowered_hits(
            index[d].articles@,
            lowered[d],
            index[d].department@,
            kws,
            from,
            to,
        )
    }
}

/// `lowered` has one lowercase title for each article of `index`.
pub open spec fn fits_index(lowered: Seq<Seq<Seq<char>>>, index: Seq<DepartmentData>) -> bool {
    &&& lowered.len() == index.len()
    &&& forall|d: int| 0 <= d < index.len() ==> #[trigger] lowered[d].len() == index[d].articles@.len()
}

/// `lowered` holds `lowercase_of` of each title of `index`.
pub open spec fn lowercase_titles_of(lowered: Seq<Seq<Seq<char>>>, index: Seq<DepartmentData>) -> bool {
    &&& fits_index(lowered, index)
    &&& forall|d: int, a: int|
        0 <= d < index.len() && 0 <= a < index[d].articles@.len() ==> #[trigger] lowered[d][a]
            == lowercase_of(index[d].articles@[a].title@)
}

/// The view of a table of texts.
pub open spec fn texts_view(t: Seq<Vec<String>>) -> Seq<Seq<Seq<char>>> {
    t.map_values(|v: Vec<String>| v@.map_values(|s: String| s@))
}

/// `res` is what selecting with the lowercase keywords `kws` and the
/// lowercase titles `lowered` returns: the matching articles, newest date
/// first (equal dates in index order), the first `limit` of them.
pub open spec fn is_selection(
    kws: Seq<Seq<char>>,
    lowered: Seq<Seq<Seq<char>>>,
    from: Option<Seq<u8>>,
    to: Option<Seq<u8>>,
    limit: nat,
    index: Seq<DepartmentData>,
    res: Seq<(Article, Seq<char>)>,
) -> bool {
    let hits = index_lowered_hits(index, lowered, kws, from, to);
    exists|p: Seq<int>| is_greatest_first(date_keys(hits), p) && #[trigger] is_top_of(hits, p, limit, res)
}

/// The dates of found articles, as bytes.
pub open spec fn date_keys(hits: Seq<(Article, Seq<char>)>) -> Seq<Seq<u8>> {
    hits.map_values(|h: (Article, Seq<char>)| encode_utf8(h.0.date@))
}

/// `res` is what a search for `query` with the date bounds `from`, `to`
/// and the limit `limit` returns on `index`: nothing for a query without
/// words; else the matching articles, newest date first (equal dates in
/// index order), the first `limit` of them.
pub open spec fn is_search_result(
    query: Seq<char>,
    from: Option<Seq<u8>>,
    to: Option<Seq<u8>>,
    limit: nat,
    index: Seq<DepartmentData>,
    res: Seq<(Article, Seq<char>)>,
) -> bool {
    let kws = keywords_of(query);
    let hits = index_hits(index, kws, from, to);
    if kws.len() == 0 {
        res.len() == 0
    } else {
        exists|p: Seq<int>|
            is_greatest_first(date_keys(hits), p) && #[trigger] is_top_of(hits, p, limit, res)
    }
}

/// `res` is the first `limit` of `hits` in the order `p` lists them.
pub open spec fn is_top_of(
    hits: Seq<(Article, Seq<char>)>,
    p: Seq<int>,
    limit: nat,
    res: Seq<(Article, Seq<char>)>,
) -> bool {
    &&& res.len() == if limit < hits.len() { limit } else { hits.len() }
    &&& forall|k: int| 0 <= k < res.len() ==> res[k] == hits[#[trigger] p[k]]
}

/// The articles and department names of search results.
pub open spec fn result_pairs<'a>(s: Seq<SearchResult<'a>>) -> Seq<(Article, Seq<char>)> {
    s.map_values(|r: SearchResult<'a>| r.article_ref.spec_pair())
}

/// Whether every keyword occurs in `title_lower`.
fn has_all_keywords(title_lower: &String, kws: &Vec<String>) -> (r: bool)
    ensures
        r == (forall|k: int|
            0 <= k < kws@.len() ==> bytes_contain(
                encode_utf8(title_lower@),
                encode_utf8(#[trigger] kws@[k]@),
            )),
{
    let mut k: usize = 0;
    while k < kws.len()
        invariant
            k <= kws@.len(),
            forall|t: int|
                0 <= t < k ==> bytes_contain(
                    encode_utf8(title_lower@),
                    encode_utf8(#[trigger] kws@[t]@),
                ),
        decreases kws@.len() - k,
    {
        if !contains_text(title_lower.as_str(), kws[k].as_str()) {
            return false;
        }
        k = k + 1;
    }
    true
}

/// With lowercase titles given, `lowered_hits` are the found articles.
proof fn lemma_lowered_hits_agree(
    arts: Seq<Article>,
    lowers: Seq<Seq<char>>,
    name: Seq<char>,
    kws: Seq<Seq<char>>,
    from: Option<Seq<u8>>,
    to: Option<Seq<u8>>,
)
    requires
        lowers.len() >= arts.len(),
        forall|i: int| 0 <= i < arts.len() ==> #[trigger] lowers[i] == lowercase_of(arts[i].title@),
    ensures
        lowered_hits(arts, lowers, name, kws, from, to) == article_hits(arts, name, kws, from, to),
    decreases arts.len(),
{
    if arts.len() > 0 {
        let i = arts.len() - 1;
        lemma_lowered_hits_agree(arts.drop_last(), lowers, name, kws, from, to);
        assert(lowers[i] == lowercase_of(arts[i].title@));
        let rest = article_hits(arts.drop_last(), name, kws, from, to);
        if article_matches(arts[i], kws, from, to) {
            assert(article_hits(arts, name, kws, from, to) == rest + seq![(arts[i], name)]);
            assert(rest + seq![(arts[i], name)] =~= rest.push((arts[i], name)));
        } else {
            assert(article_hits(arts, name, kws, from, to) == rest);
        }
    }
}

/// With the lowercase titles of `index` given, `index_lowered_hits` are
/// the found articles.
proof fn lemma_index_lowered_hits_agree(
    index: Seq<DepartmentData>,
    lowered: Seq<Seq<Seq<char>>>,
    kws: Seq<Seq<char>>,
    from: Option<Seq<u8>>,
    to: Option<Seq<u8>>,
)
    requires
        lowered.len() >= index.len(),
        forall|d: int| 0 <= d < index.len() ==> #[trigger] lowered[d].len() >= index[d].articles@.len(),
        forall|d: int, a: int|
            0 <= d < index.len() && 0 <= a < index[d].articles@.len() ==> #[trigger] lowered[d][a]
                == lowercase_of(index[d].articles@[a].title@),
    ensures
        index_lowered_hits(index, lowered, kws, from, to) == index_hits(index, kws, from, to),
    decreases index.len(),
{
    if index.len() > 0 {
        let d = index.len() - 1;
        lemma_index_lowered_hits_agree(index.drop_last(), lowered, kws, from, to);
        assert(lowered[d].len() >= index[d].articles@.len());
        assert forall|i: int| 0 <= i < index[d].articles@.len() implies #[trigger] lowered[d][i]
            == lowercase_of(index[d].articles@[i].title@) by {}
        lemma_lowered_hits_agree(index[d].articles@, lowered[d], index[d].department@, kws, from, to);
        assert(index.last() == index[d]);
    }
}

/// Selects from `index` the articles whose lowercase title contains every
/// keyword of `keywords` (already lowercase) and whose date lies within
/// `date_from` and `date_to` where given; newest first, equal dates in
/// index order, at most `limit` of them. `lowered[d][a]` is the lowercase
/// title of article `a` of department `d`.
pub fn select_articles<'a>(
    keywords: &Vec<String>,
    lowered: &Vec<Vec<String>>,
    date_from: Option<&str>,
    date_to: Option<&str>,
    limit: usize,
    index: &'a [DepartmentData],
) -> (res: Vec<SearchResult<'a>>)
    requires
        fits_index(texts_view(lowered@), index@),
    ensures
        is_selection(
            keywords@.map_values(|w: String| w@),
            texts_view(lowered@),
            opt_text_bytes(date_from),
            opt_text_bytes(date_to),
            limit as nat,
            index@,
            result_pairs(res@),
        ),
{
    let ghost kw_views = keywords@.map_values(|w: String| w@);
    let ghost lw = texts_view(lowered@);
    let ghost from = opt_text_bytes(date_from);
    let ghost to = opt_text_bytes(date_to);
    let mut results: Vec<SearchResult<'a>> = Vec::new();
    let mut d: usize = 0;
    while d < index.len()
        invariant
            d <= index@.len(),
            kw_views == keywords@.map_values(|w: String| w@),
            lw == texts_view(lowered@),
            fits_index(lw, index@),
            from == opt_text_bytes(date_from),
            to == opt_text_bytes(date_to),
            result_pairs(results@) == index_lowered_hits(index@.take(d as int), lw, kw_views, from, to),
        decreases index@.len() - d,
    {
        let dept = &index[d];
        let row = &lowered[d];
        proof {
            assert(lw[d as int] == row@.map_values(|s: String| s@));
            assert(lw[d as int].len() == dept.articles@.len());
        }
        let mut a: usize = 0;
        while a < dept.articles.len()
            invariant
                d < index@.len(),
                *dept == index@[d as int],
                lw[d as int] == row@.map_values(|s: String| s@),
                row@.len() == dept.articles@.len(),
                a <= dept.articles@.len(),
                kw_views == keywords@.map_values(|w: String| w@),
                from == opt_text_bytes(date_from),
                to == opt_text_bytes(date_to),
                result_pairs(results@) == index_lowered_hits(index@.take(d as int), lw, kw_views, from, to)
                    + lowered_hits(dept.articles@.take(a as int), lw[d as int], dept.department@, kw_views, from, to),
            decreases dept.articles@.len() - a,
        {
            let article = &dept.articles[a];
            let lower = &row[a];
            let has_kws = has_all_keywords(lower, keywords);
            proof {
                assert(keywords@.len() == kw_views.len());
                assert forall|k: int| 0 <= k < keywords@.len() implies #[trigger] keywords@[k]@ == kw_views[k] by {
                    assert(keywords@.map_values(|w: String| w@)[k] == keywords@[k]@);
                }
                assert(lw[d as int][a as int] == lower@);
                assert(has_kws == keywords_in(lower@, kw_views));
            }
            let mut keep = has_kws;
            let date = article.date.as_str();
            if keep {
                match date_from {
                    Some(f) => {
                        if str_lt(date, f) {
                            keep = false;
                        }
                    },
                    None => {},
                }
            }
            if keep {
                match date_to {
                    Some(t) => {
                        if str_lt(t, date) {
                            keep = false;
                        }
                    },
                    None => {},
                }
            }
            proof {
                assert(date.spec_bytes() == encode_utf8(article.date@));
                assert(keep == lowered_matches(*article, lw[d as int][a as int], kw_views, from, to));
            }
            let ghost before = results@;
            if keep {
                results.push(
                    SearchResult {
                        article_ref: ArticleRef { article: article, department: dept.department.as_str() },
                    },
                );
            }
            proof {
                let arts = dept.articles@;
                assert(arts.take(a + 1).drop_last() =~= arts.take(a as int));
                assert(arts.take(a + 1)[a as int] == *article);
                if keep {
                    assert(result_pairs(results@) =~= result_pairs(before).push((*article, dept.department@)));
                } else {
                    assert(result_pairs(results@) =~= result_pairs(before));
                }
            }
            a = a + 1;
        }
        proof {
            assert(dept.articles@.take(a as int) =~= dept.articles@);
            assert(index@.take(d + 1).drop_last() =~= index@.take(d as int));
            assert(index@.take(d + 1)[d as int] == *dept);
        }
        d = d + 1;
    }
    proof {
        assert(index@.take(index@.len() as int) =~= index@);
    }
    let ghost found = results@;
    let ghost hits = index_lowered_hits(index@, lw, kw_views, from, to);
    sort_greatest_first(&mut results);
    let ghost sorted = results@;
    results.truncate(limit);
    proof {
        let p = choose|p: Seq<int>| is_greatest_first(keys_of(found), p) && #[trigger] is_rearranged(found, sorted, p);
        assert(keys_of(found) =~= date_keys(hits));
        assert forall|k: int| 0 <= k < result_pairs(results@).len() implies result_pairs(results@)[k] == hits[#[trigger] p[k]] by {
            assert(results@[k] == sorted[k]);
            assert(sorted[k] == found[p[k]]);
        }
        assert(is_top_of(hits, p, limit as nat, result_pairs(results@)));
    }
    results
}

/// Searches the articles of `index`.
///
/// `query` is split at white space into keywords, all of which must occur
/// in an article's title, ignoring case; `date_from` and `date_to`
/// (`YYYY-MM-DD`), where given, bound the date; the results come newest
/// first and at most `limit` of them.
pub fn search_articles<'a>(
    query: &str,
    date_from: Option<&str>,
    date_to: Option<&str>,
    limit: usize,
    index: &'a [DepartmentData],
) -> (res: Vec<SearchResult<'a>>)
    ensures
        is_search_result(
            query@,
            opt_text_bytes(date_from),
            opt_text_bytes(date_to),
            limit as nat,
            index@,
            result_pairs(res@),
        ),
        is_ascii_text(query@) ==> forall|k: int|
            0 <= k < keywords_of(query@).len() ==> #[trigger] keywords_of(query@)[k] == ascii_lowered(
                words(query@)[k],
            ),
        keywords_of(query@).len() > 0 ==> forall|d: int, a: int|
            0 <= d < index@.len() && 0 <= a < index@[d].articles@.len() && is_ascii_text(
                index@[d].articles@[a].title@,
            ) ==> #[trigger] lowercase_of(index@[d].articles@[a].title@) == ascii_lowered(
                index@[d].articles@[a].title@,
            ),
{
    let kws = keywords(query);
    proof {
        if is_ascii_text(query@) {
            assert forall|k: int| 0 <= k < keywords_of(query@).len() implies #[trigger] keywords_of(query@)[k]
                == ascii_lowered(words(query@)[k]) by {
                assert(kws@.map_values(|w: String| w@)[k] == kws@[k]@);
            }
        }
    }
    if kws.len() == 0 {
        return Vec::new();
    }
    let mut lowered: Vec<Vec<String>> = Vec::new();
    let mut d: usize = 0;
    while d < index.len()
        invariant
            d <= index@.len(),
            lowered@.len() == d,
            forall|e: int| 0 <= e < d ==> #[trigger] lowered@[e]@.len() == index@[e].articles@.len(),
            forall|e: int, a: int|
                0 <= e < d && 0 <= a < index@[e].articles@.len() ==> #[trigger] lowered@[e]@[a]@
                    == lowercase_of(index@[e].articles@[a].title@),
            forall|e: int, a: int|
                0 <= e < d && 0 <= a < index@[e].articles@.len() && is_ascii_text(
                    index@[e].articles@[a].title@,
                ) ==> #[trigger] lowercase_of(index@[e].articles@[a].title@) == ascii_lowered(
                    index@[e].articles@[a].title@,
                ),
        decreases index@.len() - d,
    {
        let dept = &index[d];
        let mut row: Vec<String> = Vec::new();
        let mut a: usize = 0;
        while a < dept.articles.len()
            invariant
                *dept == index@[d as int],
                a <= dept.articles@.len(),
                row@.len() == a,
                forall|i: int| 0 <= i < a ==> #[trigger] row@[i]@ == lowercase_of(dept.articles@[i].title@),
                forall|i: int|
                    0 <= i < a && is_ascii_text(dept.articles@[i].title@) ==> #[trigger] lowercase_of(
                        dept.articles@[i].title@,
                    ) == ascii_lowered(dept.articles@[i].title@),
            decreases dept.articles@.len() - a,
        {
            row.push(to_lowercase(dept.articles[a].title.as_str()));
            a = a + 1;
        }
        lowered.push(row);
        d = d + 1;
    }
    let ghost lw = texts_view(lowered@);
    proof {
        assert forall|e: int| 0 <= e < index@.len() implies #[trigger] lw[e].len() == index@[e].articles@.len() by {
            assert(lw[e] == lowered@[e]@.map_values(|s: String| s@));
        }
        assert forall|e: int, a: int|
            0 <= e < index@.len() && 0 <= a < index@[e].articles@.len() implies #[trigger] lw[e][a]
                == lowercase_of(index@[e].articles@[a].title@) by {
            assert(lw[e] == lowered@[e]@.map_values(|s: String| s@));
            assert(lw[e][a] == lowered@[e]@[a]@);
        }
        assert(fits_index(lw, index@));
    }
    let res = select_articles(&kws, &lowered, date_from, date_to, limit, index);
    proof {
        let kw_views = kws@.map_values(|w: String| w@);
        let from = opt_text_bytes(date_from);
        let to = opt_text_bytes(date_to);
        lemma_index_lowered_hits_agree(index@, lw, kw_views, from, to);
        let hits = index_hits(index@, kw_views, from, to);
        let p = choose|p: Seq<int>| is_greatest_first(date_keys(hits), p) && #[trigger] is_top_of(hits, p, limit as nat, result_pairs(res@));
        assert(is_top_of(hits, p, limit as nat, result_pairs(res@)));
    }
    res
}

/// Every found article of `arts` matches.
proof fn lemma_article_hits_match(
    arts: Seq<Article>,
    name: Seq<char>,
    kws: Seq<Seq<char>>,
    from: Option<Seq<u8>>,
    to: Option<Seq<u8>>,
)
    ensures
        forall|i: int|
            0 <= i < article_hits(arts, name, kws, from, to).len() ==> article_matches(
                (#[trigger] article_hits(arts, name, kws, from, to)[i]).0,
                kws,
                from,
                to,
            ),
    decreases arts.len(),
{
    if arts.len() > 0 {
        lemma_article_hits_match(arts.drop_last(), name, kws, from, to);
        let rest = article_hits(arts.drop_last(), name, kws, from, to);
        let all = article_hits(arts, name, kws, from, to);
        let a = arts.last();
        if article_matches(a, kws, from, to) {
            assert(all == rest + seq![(a, name)]);
        } else {
            assert(all == rest);
        }
        assert forall|i: int| 0 <= i < all.len() implies article_matches((#[trigger] all[i]).0, kws, from, to) by {
            if i < rest.len() {
                assert(all[i] == rest[i]);
            }
        }
    }
}

/// Every found article of the index matches.
proof fn lemma_index_hits_match(
    index: Seq<DepartmentData>,
    kws: Seq<Seq<char>>,
    from: Option<Seq<u8>>,
    to: Option<Seq<u8>>,
)
    ensures
        forall|i: int|
            0 <= i < index_hits(index, kws, from, to).len() ==> article_matches(
                (#[trigger] index_hits(index, kws, from, to)[i]).0,
                kws,
                from,
                to,
            ),
    decreases index.len(),
{
    if index.len() > 0 {
        let rest = index_hits(index.drop_last(), kws, from, to);
        let last = department_hits(index.last(), kws, from, to);
        lemma_index_hits_match(index.drop_last(), kws, from, to);
        lemma_article_hits_match(index.last().articles@, index.last().department@, kws, from, to);
        assert forall|i: int| 0 <= i < index_hits(index, kws, from, to).len() implies article_matches(
            (#[trigger] index_hits(index, kws, from, to)[i]).0,
            kws,
            from,
            to,
        ) by {
            if i < rest.len() {
                assert(index_hits(index, kws, from, to)[i] == rest[i]);
            } else {
                assert(index_hits(index, kws, from, to)[i] == last[i - rest.len()]);
            }
        }
    }
}

/// A search has only one result: the contract fixes it completely.
pub proof fn lemma_search_result_unique(
    query: Seq<char>,
    from: Option<Seq<u8>>,
    to: Option<Seq<u8>>,
    limit: nat,
    index: Seq<DepartmentData>,
    r1: Seq<(Article, Seq<char>)>,
    r2: Seq<(Article, Seq<char>)>,
)
    requires
        is_search_result(query, from, to, limit, index, r1),
        is_search_result(query, from, to, limit, index, r2),
    ensures
        r1 == r2,
{
    let kws = keywords_of(query);
    let hits = index_hits(index, kws, from, to);
    if kws.len() == 0 {
        assert(r1 =~= r2);
    } else {
        let p = choose|p: Seq<int>| is_greatest_first(date_keys(hits), p) && #[trigger] is_top_of(hits, p, limit, r1);
        let q = choose|q: Seq<int>| is_greatest_first(date_keys(hits), q) && #[trigger] is_top_of(hits, q, limit, r2);
        lemma_greatest_first_unique(date_keys(hits), p, q);
        assert forall|k: int| 0 <= k < r1.len() implies r1[k] == r2[k] by {
            assert(r1[k] == hits[p[k]]);
            assert(r2[k] == hits[q[k]]);
        }
        assert(r1 =~= r2);
    }
}

/// Results come newest first: no result's date is after an earlier
/// result's date.
pub proof fn lemma_results_newest_first(
    query: Seq<char>,
    from: Option<Seq<u8>>,
    to: Option<Seq<u8>>,
    limit: nat,
    index: Seq<DepartmentData>,
    res: Seq<(Article, Seq<char>)>,
)
    requires
        is_search_result(query, from, to, limit, index, res),
    ensures
        forall|i: int, j: int|
            0 <= i < j < res.len() ==> !bytes_lt(
                encode_utf8((#[trigger] res[i]).0.date@),
                encode_utf8((#[trigger] res[j]).0.date@),
            ),
{
    let kws = keywords_of(query);
    let hits = index_hits(index, kws, from, to);
    if kws.len() > 0 {
        let keys = date_keys(hits);
        let p = choose|p: Seq<int>| is_greatest_first(keys, p) && #[trigger] is_top_of(hits, p, limit, res);
        assert forall|i: int, j: int| 0 <= i < j < res.len() implies !bytes_lt(
            encode_utf8((#[trigger] res[i]).0.date@),
            encode_utf8((#[trigger] res[j]).0.date@),
        ) by {
            assert(comes_before(keys, p[i], p[j]));
            assert(res[i] == hits[p[i]]);
            assert(res[j] == hits[p[j]]);
            lemma_bytes_lt_asymmetric(keys[p[i]], keys[p[j]]);
            lemma_bytes_lt_irreflexive(keys[p[i]]);
        }
    }
}

/// Every result has all the keywords in its title and its date in range.
pub proof fn lemma_results_match(
    query: Seq<char>,
    from: Option<Seq<u8>>,
    to: Option<Seq<u8>>,
    limit: nat,
    index: Seq<DepartmentData>,
    res: Seq<(Article, Seq<char>)>,
)
    requires
        is_search_result(query, from, to, limit, index, res),
    ensures
        forall|k: int|
            0 <= k < res.len() ==> article_matches((#[trigger] res[k]).0, keywords_of(query), from, to),
{
    let kws = keywords_of(query);
    let hits = index_hits(index, kws, from, to);
    if kws.len() > 0 {
        let p = choose|p: Seq<int>| is_greatest_first(date_keys(hits), p) && #[trigger] is_top_of(hits, p, limit, res);
        lemma_index_hits_match(index, kws, from, to);
        assert forall|k: int| 0 <= k < res.len() implies article_matches((#[trigger] res[k]).0, kws, from, to) by {
            assert(res[k] == hits[p[k]]);
        }
    }
}

/// A search returns at most `limit` results.
pub proof fn lemma_results_within_limit(
    query: Seq<char>,
    from: Option<Seq<u8>>,
    to: Option<Seq<u8>>,
    limit: nat,
    index: Seq<DepartmentData>,
    res: Seq<(Article, Seq<char>)>,
)
    requires
        is_search_result(query, from, to, limit, index, res),
    ensures
        res.len() <= limit,
{
}

/// When no more articles match than the limit allows, every matching
/// article is among the results.
pub proof fn lemma_all_matches_found(
    query: Seq<char>,
    from: Option<Seq<u8>>,
    to: Option<Seq<u8>>,
    limit: nat,
    index: Seq<DepartmentData>,
    res: Seq<(Article, Seq<char>)>,
)
    requires
        is_search_result(query, from, to, limit, index, res),
        keywords_of(query).len() > 0,
        index_hits(index, keywords_of(query), from, to).len() <= limit,
    ensures
        res.len() == index_hits(index, keywords_of(query), from, to).len(),
        forall|i: int|
            0 <= i < index_hits(index, keywords_of(query), from, to).len() ==> res.contains(
                #[trigger] index_hits(index, keywords_of(query), from, to)[i],
            ),
{
    let kws = keywords_of(query);
    let hits = index_hits(index, kws, from, to);
    let p = choose|p: Seq<int>| is_greatest_first(date_keys(hits), p) && #[trigger] is_top_of(hits, p, limit, res);
    assert forall|i: int| 0 <= i < hits.len() implies res.contains(#[trigger] hits[i]) by {
        let m = lemma_permutation_onto(p, hits.len() as int, i);
        assert(res[m] == hits[p[m]]);
    }
}

/// A smaller limit gives a prefix of the results of a larger one.
pub proof fn lemma_limit_prefix(
    query: Seq<char>,
    from: Option<Seq<u8>>,
    to: Option<Seq<u8>>,
    l1: nat,
    l2: nat,
    index: Seq<DepartmentData>,
    r1: Seq<(Article, Seq<char>)>,
    r2: Seq<(Article, Seq<char>)>,
)
    requires
        l1 <= l2,
        is_search_result(query, from, to, l1, index, r1),
        is_search_result(query, from, to, l2, index, r2),
    ensures
        r1 == r2.take(r1.len() as int),
{
    let kws = keywords_of(query);
    let hits = index_hits(index, kws, from, to);
    if kws.len() == 0 {
        assert(r1 =~= r2.take(0));
    } else {
        let p = choose|p: Seq<int>| is_greatest_first(date_keys(hits), p) && #[trigger] is_top_of(hits, p, l1, r1);
        let q = choose|q: Seq<int>| is_greatest_first(date_keys(hits), q) && #[trigger] is_top_of(hits, q, l2, r2);
        lemma_greatest_first_unique(date_keys(hits), p, q);
        assert forall|k: int| 0 <= k < r1.len() implies r1[k] == r2.take(r1.len() as int)[k] by {
            assert(r1[k] == hits[p[k]]);
            assert(r2[k] == hits[q[k]]);
        }
        assert(r1 =~= r2.take(r1.len() as int));
    }
}

/// A text of white space alone has no words.
proof fn lemma_blank_has_no_words(s: Seq<char>)
    requires
        forall|i: int| 0 <= i < s.len() ==> is_white_space(#[trigger] s[i]),
    ensures
        words(s).len() == 0,
    decreases s.len(),
{
    if s.len() > 0 {
        lemma_blank_has_no_words(s.drop_last());
    }
}

/// A query of white space alone (or empty) finds nothing.
pub proof fn lemma_blank_query_finds_nothing(
    query: Seq<char>,
    from: Option<Seq<u8>>,
    to: Option<Seq<u8>>,
    limit: nat,
    index: Seq<DepartmentData>,
    res: Seq<(Article, Seq<char>)>,
)
    requires
        forall|i: int| 0 <= i < query.len() ==> is_white_space(#[trigger] query[i]),
        is_search_result(query, from, to, limit, index, res),
    ensures
        res.len() == 0,
{
    lemma_blank_has_no_words(query);
}

/// Matching ignores ASCII case: two titles whose lowercase forms are
/// their ASCII lowerings (as the search ensures of ASCII titles), and which
/// differ only in ASCII case, match the same keywords.
pub proof fn lemma_ascii_case_ignored(t1: Seq<char>, t2: Seq<char>, kws: Seq<Seq<char>>)
    requires
        lowercase_of(t1) == ascii_lowered(t1),
        lowercase_of(t2) == ascii_lowered(t2),
        ascii_lowered(t1) == ascii_lowered(t2),
    ensures
        title_has_keywords(t1, kws) == title_has_keywords(t2, kws),
{
}

/// Every found article of `arts` is one of them, with `name`, and matches;
/// every one of them that matches is found.
proof fn lemma_lowered_hits_members(
    arts: Seq<Article>,
    lowers: Seq<Seq<char>>,
    name: Seq<char>,
    kws: Seq<Seq<char>>,
    from: Option<Seq<u8>>,
    to: Option<Seq<u8>>,
)
    requires
        lowers.len() >= arts.len(),
    ensures
        forall|i: int|
            0 <= i < lowered_hits(arts, lowers, name, kws, from, to).len() ==> exists|a: int|
                0 <= a < arts.len() && #[trigger] lowered_hits(arts, lowers, name, kws, from, to)[i] == (
                arts[a],
                name,
            ) && lowered_matches(arts[a], lowers[a], kws, from, to),
        forall|a: int|
            0 <= a < arts.len() && lowered_matches(#[trigger] arts[a], lowers[a], kws, from, to)
                ==> lowered_hits(arts, lowers, name, kws, from, to).contains((arts[a], name)),
    decreases arts.len(),
{
    if arts.len() > 0 {
        let n = arts.len() - 1;
        let init = arts.drop_last();
        lemma_lowered_hits_members(init, lowers, name, kws, from, to);
        let rest = lowered_hits(init, lowers, name, kws, from, to);
        let all = lowered_hits(arts, lowers, name, kws, from, to);
        assert forall|i: int| 0 <= i < all.len() implies exists|a: int|
            0 <= a < arts.len() && #[trigger] all[i] == (arts[a], name) && lowered_matches(
                arts[a],
                lowers[a],
                kws,
                from,
                to,
            ) by {
            if i < rest.len() {
                assert(all[i] == rest[i]);
                let a = choose|a: int|
                    0 <= a < init.len() && #[trigger] rest[i] == (init[a], name) && lowered_matches(
                        init[a],
                        lowers[a],
                        kws,
                        from,
                        to,
                    );
                assert(init[a] == arts[a]);
            } else {
                assert(all[i] == (arts[n], name));
            }
        }
        assert forall|a: int|
            0 <= a < arts.len() && lowered_matches(#[trigger] arts[a], lowers[a], kws, from, to)
                implies all.contains((arts[a], name)) by {
            if a < n {
                assert(init[a] == arts[a]);
                assert(rest.contains((init[a], name)));
                let i = choose|i: int| 0 <= i < rest.len() && rest[i] == (init[a], name);
                assert(all[i] == rest[i]);
            } else {
                assert(all[all.len() - 1] == (arts[a], name));
            }
        }
    }
}

/// `h` is an article of the index, with its department's name, that
/// matches, `lowered` giving the lowercase titles.
spec fn is_hit_of(
    index: Seq<DepartmentData>,
    lowered: Seq<Seq<Seq<char>>>,
    kws: Seq<Seq<char>>,
    from: Option<Seq<u8>>,
    to: Option<Seq<u8>>,
    h: (Article, Seq<char>),
) -> bool {
    exists|d: int, a: int|
        0 <= d < index.len() && 0 <= a < index[d].articles@.len() && h == (
            index[d].articles@[a],
            index[d].department@,
        ) && lowered_matches(index[d].articles@[a], lowered[d][a], kws, from, to)
}

/// Every found article of the index is an article of some department,
/// with that department's name, and matches; every article that matches is
/// found.
proof fn lemma_index_lowered_hits_members(
    index: Seq<DepartmentData>,
    lowered: Seq<Seq<Seq<char>>>,
    kws: Seq<Seq<char>>,
    from: Option<Seq<u8>>,
    to: Option<Seq<u8>>,
)
    requires
        fits_index(lowered, index),
    ensures
        forall|i: int|
            0 <= i < index_lowered_hits(index, lowered, kws, from, to).len() ==> is_hit_of(
                index,
                lowered,
                kws,
                from,
                to,
                #[trigger] index_lowered_hits(index, lowered, kws, from, to)[i],
            ),
        forall|d: int, a: int|
            0 <= d < index.len() && 0 <= a < index[d].articles@.len() && lowered_matches(
                #[trigger] index[d].articles@[a],
                lowered[d][a],
                kws,
                from,
                to,
            ) ==> index_lowered_hits(index, lowered, kws, from, to).contains(
                (index[d].articles@[a], index[d].department@),
            ),
    decreases index.len(),
{
    if index.len() > 0 {
        let n = index.len() - 1;
        let init = index.drop_last();
        assert(fits_index(lowered.take(n), init)) by {
            assert forall|d: int| 0 <= d < init.len() implies #[trigger] lowered.take(n)[d].len()
                == init[d].articles@.len() by {
                assert(lowered[d].len() == index[d].articles@.len());
            }
        }
        lemma_index_lowered_hits_members(init, lowered.take(n), kws, from, to);
        lemma_index_prefix_hits(index, lowered, kws, from, to);
        let rest = index_lowered_hits(init, lowered, kws, from, to);
        assert(rest == index_lowered_hits(init, lowered.take(n), kws, from, to));
        let last = lowered_hits(
            index[n].articles@,
            lowered[n],
            index[n].department@,
            kws,
            from,
            to,
        );
        assert(lowered[n].len() == index[n].articles@.len());
        lemma_lowered_hits_members(index[n].articles@, lowered[n], index[n].department@, kws, from, to);
        let all = index_lowered_hits(index, lowered, kws, from, to);
        assert(all == rest + last);
        assert forall|i: int| 0 <= i < all.len() implies is_hit_of(index, lowered, kws, from, to, #[trigger] all[i]) by {
            if i < rest.len() {
                assert(all[i] == rest[i]);
                assert(is_hit_of(init, lowered.take(n), kws, from, to, rest[i]));
                let (d, a) = choose|d: int, a: int|
                    0 <= d < init.len() && 0 <= a < init[d].articles@.len() && rest[i] == (
                        init[d].articles@[a],
                        init[d].department@,
                    ) && lowered_matches(init[d].articles@[a], lowered.take(n)[d][a], kws, from, to);
                assert(init[d] == index[d]);
                assert(lowered.take(n)[d] == lowered[d]);
                assert(all[i] == (index[d].articles@[a], index[d].department@));
                assert(lowered_matches(index[d].articles@[a], lowered[d][a], kws, from, to));
            } else {
                assert(all[i] == last[i - rest.len()]);
                let a = choose|a: int|
                    0 <= a < index[n].articles@.len() && #[trigger] last[i - rest.len()] == (
                        index[n].articles@[a],
                        index[n].department@,
                    ) && lowered_matches(index[n].articles@[a], lowered[n][a], kws, from, to);
                assert(all[i] == (index[n].articles@[a], index[n].department@));
            }
        }
        assert forall|d: int, a: int|
            0 <= d < index.len() && 0 <= a < index[d].articles@.len() && lowered_matches(
                #[trigger] index[d].articles@[a],
                lowered[d][a],
                kws,
                from,
                to,
            ) implies all.contains((index[d].articles@[a], index[d].department@)) by {
            if d < n {
                assert(init[d] == index[d]);
                assert(lowered.take(n)[d] == lowered[d]);
                assert(init[d].articles@[a] == index[d].articles@[a]);
                let i = choose|i: int| 0 <= i < rest.len() && rest[i] == (index[d].articles@[a], index[d].department@);
                assert(all[i] == rest[i]);
            } else {
                let i = choose|i: int| 0 <= i < last.len() && last[i] == (index[d].articles@[a], index[d].department@);
                assert(all[rest.len() + i] == last[i]);
            }
        }
    }
}

/// The hits of the departments before the last one do not depend on the
/// lowercase titles of the last one.
proof fn lemma_index_prefix_hits(
    index: Seq<DepartmentData>,
    lowered: Seq<Seq<Seq<char>>>,
    kws: Seq<Seq<char>>,
    from: Option<Seq<u8>>,
    to: Option<Seq<u8>>,
)
    requires
        index.len() > 0,
        lowered.len() >= index.len(),
    ensures
        index_lowered_hits(index.drop_last(), lowered, kws, from, to) == index_lowered_hits(
            index.drop_last(),
            lowered.take(index.len() - 1),
            kws,
            from,
            to,
        ),
{
    lemma_index_hits_take(index.drop_last(), lowered, lowered.take(index.len() - 1), kws, from, to);
}

/// `index_lowered_hits` reads only the first `index.len()` tables.
proof fn lemma_index_hits_take(
    index: Seq<DepartmentData>,
    l1: Seq<Seq<Seq<char>>>,
    l2: Seq<Seq<Seq<char>>>,
    kws: Seq<Seq<char>>,
    from: Option<Seq<u8>>,
    to: Option<Seq<u8>>,
)
    requires
        l1.len() >= index.len(),
        l2.len() >= index.len(),
        forall|d: int| 0 <= d < index.len() ==> #[trigger] l1[d] == l2[d],
    ensures
        index_lowered_hits(index, l1, kws, from, to) == index_lowered_hits(index, l2, kws, from, to),
    decreases index.len(),
{
    if index.len() > 0 {
        lemma_index_hits_take(index.drop_last(), l1, l2, kws, from, to);
        assert(l1[index.len() - 1] == l2[index.len() - 1]);
    }
}

/// Every result of selecting is an article of the index, with its
/// department's name, whose lowercase title (as given in `lowered`)
/// contains every keyword and whose date is not before `from` nor after
/// `to`, where given.
pub proof fn lemma_selection_sound(
    kws: Seq<Seq<char>>,
    lowered: Seq<Seq<Seq<char>>>,
    from: Option<Seq<u8>>,
    to: Option<Seq<u8>>,
    limit: nat,
    index: Seq<DepartmentData>,
    res: Seq<(Article, Seq<char>)>,
)
    requires
        fits_index(lowered, index),
        is_selection(kws, lowered, from, to, limit, index, res),
    ensures
        forall|k: int|
            0 <= k < res.len() ==> exists|d: int, a: int|
                0 <= d < index.len() && 0 <= a < index[d].articles@.len() && #[trigger] res[k] == (
                    index[d].articles@[a],
                    index[d].department@,
                ) && (forall|j: int|
                    0 <= j < kws.len() ==> bytes_contain(
                        encode_utf8(lowered[d][a]),
                        encode_utf8(#[trigger] kws[j]),
                    )) && (from matches Some(f) ==> !bytes_lt(encode_utf8(res[k].0.date@), f)) && (
                to matches Some(t) ==> !bytes_lt(t, encode_utf8(res[k].0.date@))),
{
    let hits = index_lowered_hits(index, lowered, kws, from, to);
    let p = choose|p: Seq<int>| is_greatest_first(date_keys(hits), p) && #[trigger] is_top_of(hits, p, limit, res);
    lemma_index_lowered_hits_members(index, lowered, kws, from, to);
    assert forall|k: int| 0 <= k < res.len() implies exists|d: int, a: int|
        0 <= d < index.len() && 0 <= a < index[d].articles@.len() && #[trigger] res[k] == (
            index[d].articles@[a],
            index[d].department@,
        ) && (forall|j: int|
            0 <= j < kws.len() ==> bytes_contain(
                encode_utf8(lowered[d][a]),
                encode_utf8(#[trigger] kws[j]),
            )) && (from matches Some(f) ==> !bytes_lt(encode_utf8(res[k].0.date@), f)) && (
        to matches Some(t) ==> !bytes_lt(t, encode_utf8(res[k].0.date@))) by {
        assert(res[k] == hits[p[k]]);
        assert(0 <= p[k] < hits.len());
        assert(is_hit_of(index, lowered, kws, from, to, hits[p[k]]));
        let (d, a) = choose|d: int, a: int|
            0 <= d < index.len() && 0 <= a < index[d].articles@.len() && hits[p[k]] == (
                index[d].articles@[a],
                index[d].department@,
            ) && lowered_matches(index[d].articles@[a], lowered[d][a], kws, from, to);
    }
}

/// When a selection holds fewer results than the limit, every article of
/// the index whose lowercase title (as given in `lowered`) contains every
/// keyword and whose date is not before `from` nor after `to`, where
/// given, is among the results with its department's name.
pub proof fn lemma_selection_complete(
    kws: Seq<Seq<char>>,
    lowered: Seq<Seq<Seq<char>>>,
    from: Option<Seq<u8>>,
    to: Option<Seq<u8>>,
    limit: nat,
    index: Seq<DepartmentData>,
    res: Seq<(Article, Seq<char>)>,
    d: int,
    a: int,
)
    requires
        fits_index(lowered, index),
        is_selection(kws, lowered, from, to, limit, index, res),
        res.len() < limit,
        0 <= d < index.len(),
        0 <= a < index[d].articles@.len(),
        forall|j: int|
            0 <= j < kws.len() ==> bytes_contain(encode_utf8(lowered[d][a]), encode_utf8(#[trigger] kws[j])),
        from matches Some(f) ==> !bytes_lt(encode_utf8(index[d].articles@[a].date@), f),
        to matches Some(t) ==> !bytes_lt(t, encode_utf8(index[d].articles@[a].date@)),
    ensures
        res.contains((index[d].articles@[a], index[d].department@)),
{
    let hits = index_lowered_hits(index, lowered, kws, from, to);
    let p = choose|p: Seq<int>| is_greatest_first(date_keys(hits), p) && #[trigger] is_top_of(hits, p, limit, res);
    lemma_index_lowered_hits_members(index, lowered, kws, from, to);
    let art = index[d].articles@[a];
    assert(lowered_matches(art, lowered[d][a], kws, from, to));
    assert(hits.contains((art, index[d].department@)));
    let i = choose|i: int| 0 <= i < hits.len() && hits[i] == (art, index[d].department@);
    let m = lemma_permutation_onto(p, hits.len() as int, i);
    assert(res[m] == hits[p[m]]);
}

/// The lowercase title of every article of the index.
spec fn lowercase_table(index: Seq<DepartmentData>) -> Seq<Seq<Seq<char>>> {
    Seq::new(
        index.len(),
        |d: int| Seq::new(index[d].articles@.len(), |a: int| lowercase_of(index[d].articles@[a].title@)),
    )
}

/// A search selects with the lowercase titles of the index.
proof fn lemma_search_is_selection(
    query: Seq<char>,
    from: Option<Seq<u8>>,
    to: Option<Seq<u8>>,
    limit: nat,
    index: Seq<DepartmentData>,
    res: Seq<(Article, Seq<char>)>,
)
    requires
        is_search_result(query, from, to, limit, index, res),
        keywords_of(query).len() > 0,
    ensures
        fits_index(lowercase_table(index), index),
        is_selection(keywords_of(query), lowercase_table(index), from, to, limit, index, res),
{
    let lw = lowercase_table(index);
    let kws = keywords_of(query);
    lemma_index_lowered_hits_agree(index, lw, kws, from, to);
}

/// Every result of a search is an article of the index, with its
/// department's name, whose lowercase title contains every keyword of the
/// query and whose date is not before `from` nor after `to`, where given.
pub proof fn lemma_search_results_sound(
    query: Seq<char>,
    from: Option<Seq<u8>>,
    to: Option<Seq<u8>>,
    limit: nat,
    index: Seq<DepartmentData>,
    res: Seq<(Article, Seq<char>)>,
)
    requires
        is_search_result(query, from, to, limit, index, res),
    ensures
        forall|k: int|
            0 <= k < res.len() ==> exists|d: int, a: int|
                0 <= d < index.len() && 0 <= a < index[d].articles@.len() && #[trigger] res[k] == (
                    index[d].articles@[a],
                    index[d].department@,
                ) && (forall|j: int|
                    0 <= j < keywords_of(query).len() ==> bytes_contain(
                        encode_utf8(lowercase_of(res[k].0.title@)),
                        encode_utf8(#[trigger] keywords_of(query)[j]),
                    )) && (from matches Some(f) ==> !bytes_lt(encode_utf8(res[k].0.date@), f)) && (
                to matches Some(t) ==> !bytes_lt(t, encode_utf8(res[k].0.date@))),
{
    if keywords_of(query).len() > 0 {
        let lw = lowercase_table(index);
        lemma_search_is_selection(query, from, to, limit, index, res);
        lemma_selection_sound(keywords_of(query), lw, from, to, limit, index, res);
        assert forall|k: int| 0 <= k < res.len() implies exists|d: int, a: int|
            0 <= d < index.len() && 0 <= a < index[d].articles@.len() && #[trigger] res[k] == (
                index[d].articles@[a],
                index[d].department@,
            ) && (forall|j: int|
                0 <= j < keywords_of(query).len() ==> bytes_contain(
                    encode_utf8(lowercase_of(res[k].0.title@)),
                    encode_utf8(#[trigger] keywords_of(query)[j]),
                )) && (from matches Some(f) ==> !bytes_lt(encode_utf8(res[k].0.date@), f)) && (
            to matches Some(t) ==> !bytes_lt(t, encode_utf8(res[k].0.date@))) by {
            let (d, a) = choose|d: int, a: int|
                0 <= d < index.len() && 0 <= a < index[d].articles@.len() && #[trigger] res[k] == (
                    index[d].articles@[a],
                    index[d].department@,
                ) && (forall|j: int|
                    0 <= j < keywords_of(query).len() ==> bytes_contain(
                        encode_utf8(lw[d][a]),
                        encode_utf8(#[trigger] keywords_of(query)[j]),
                    )) && (from matches Some(f) ==> !bytes_lt(encode_utf8(res[k].0.date@), f)) && (
                to matches Some(t) ==> !bytes_lt(t, encode_utf8(res[k].0.date@)));
            assert(lw[d][a] == lowercase_of(res[k].0.title@));
        }
    }
}

/// When a search for a query with words returns fewer results than the
/// limit, every article of the index whose lowercase title contains every
/// keyword of the query and whose date is not before `from` nor after
/// `to`, where given, is among the results with its department's name.
pub proof fn lemma_search_results_complete(
    query: Seq<char>,
    from: Option<Seq<u8>>,
    to: Option<Seq<u8>>,
    limit: nat,
    index: Seq<DepartmentData>,
    res: Seq<(Article, Seq<char>)>,
    d: int,
    a: int,
)
    requires
        is_search_result(query, from, to, limit, index, res),
        keywords_of(query).len() > 0,
        res.len() < limit,
        0 <= d < index.len(),
        0 <= a < index[d].articles@.len(),
        forall|j: int|
            0 <= j < keywords_of(query).len() ==> bytes_contain(
                encode_utf8(lowercase_of(index[d].articles@[a].title@)),
                encode_utf8(#[trigger] keywords_of(query)[j]),
            ),
        from matches Some(f) ==> !bytes_lt(encode_utf8(index[d].articles@[a].date@), f),
        to matches Some(t) ==> !bytes_lt(t, encode_utf8(index[d].articles@[a].date@)),
    ensures
        res.contains((index[d].articles@[a], index[d].department@)),
{
    let lw = lowercase_table(index);
    lemma_search_is_selection(query, from, to, limit, index, res);
    assert(lw[d][a] == lowercase_of(index[d].articles@[a].title@));
    lemma_selection_complete(keywords_of(query), lw, from, to, limit, index, res, d, a);
}

/// The positions in `arts` of the found articles, in increasing order.
proof fn lemma_lowered_hits_positions(
    arts: Seq<Article>,
    lowers: Seq<Seq<char>>,
    name: Seq<char>,
    kws: Seq<Seq<char>>,
    from: Option<Seq<u8>>,
    to: Option<Seq<u8>>,
) -> (idx: Seq<int>)
    ensures
        idx.len() == lowered_hits(arts, lowers, name, kws, from, to).len(),
        forall|i: int|
            0 <= i < idx.len() ==> 0 <= #[trigger] idx[i] < arts.len()
                && lowered_hits(arts, lowers, name, kws, from, to)[i] == (arts[idx[i]], name),
        forall|i: int, j: int| 0 <= i < j < idx.len() ==> #[trigger] idx[i] < #[trigger] idx[j],
    decreases arts.len(),
{
    if arts.len() == 0 {
        seq![]
    } else {
        let n = arts.len() - 1;
        let init = arts.drop_last();
        let idx0 = lemma_lowered_hits_positions(init, lowers, name, kws, from, to);
        let rest = lowered_hits(init, lowers, name, kws, from, to);
        let all = lowered_hits(arts, lowers, name, kws, from, to);
        let idx = if lowered_matches(arts[n], lowers[n], kws, from, to) {
            idx0.push(n)
        } else {
            idx0
        };
        assert forall|i: int| 0 <= i < idx.len() implies 0 <= #[trigger] idx[i] < arts.len() && all[i] == (
            arts[idx[i]],
            name,
        ) by {
            if i < idx0.len() {
                assert(idx[i] == idx0[i]);
                assert(all[i] == rest[i]);
                assert(init[idx0[i]] == arts[idx0[i]]);
            }
        }
        assert forall|i: int, j: int| 0 <= i < j < idx.len() implies #[trigger] idx[i] < #[trigger] idx[j] by {
            if j < idx0.len() {
                assert(idx[i] == idx0[i]);
                assert(idx[j] == idx0[j]);
            } else {
                assert(idx[i] == idx0[i]);
            }
        }
        idx
    }
}

/// The positions in the index (department, article) of the found
/// articles, in increasing order: department first, then article.
proof fn lemma_index_lowered_hits_positions(
    index: Seq<DepartmentData>,
    lowered: Seq<Seq<Seq<char>>>,
    kws: Seq<Seq<char>>,
    from: Option<Seq<u8>>,
    to: Option<Seq<u8>>,
) -> (pos: Seq<(int, int)>)
    ensures
        pos.len() == index_lowered_hits(index, lowered, kws, from, to).len(),
        forall|i: int|
            0 <= i < pos.len() ==> 0 <= (#[trigger] pos[i]).0 < index.len() && 0 <= pos[i].1
                < index[pos[i].0].articles@.len() && index_lowered_hits(index, lowered, kws, from, to)[i]
                == (index[pos[i].0].articles@[pos[i].1], index[pos[i].0].department@),
        forall|i: int, j: int|
            0 <= i < j < pos.len() ==> (#[trigger] pos[i]).0 < (#[trigger] pos[j]).0 || (pos[i].0
                == pos[j].0 && pos[i].1 < pos[j].1),
    decreases index.len(),
{
    if index.len() == 0 {
        seq![]
    } else {
        let n = index.len() - 1;
        let init = index.drop_last();
        let pos0 = lemma_index_lowered_hits_positions(init, lowered, kws, from, to);
        let idx = lemma_lowered_hits_positions(
            index[n].articles@,
            lowered[n],
            index[n].department@,
            kws,
            from,
            to,
        );
        let rest = index_lowered_hits(init, lowered, kws, from, to);
        let last = lowered_hits(index[n].articles@, lowered[n], index[n].department@, kws, from, to);
        let all = index_lowered_hits(index, lowered, kws, from, to);
        assert(all == rest + last);
        let pos = pos0 + idx.map_values(|a: int| (n, a));
        assert forall|i: int| 0 <= i < pos.len() implies 0 <= (#[trigger] pos[i]).0 < index.len() && 0
            <= pos[i].1 < index[pos[i].0].articles@.len() && all[i] == (
            index[pos[i].0].articles@[pos[i].1],
            index[pos[i].0].department@,
        ) by {
            if i < pos0.len() {
                assert(pos[i] == pos0[i]);
                assert(all[i] == rest[i]);
                assert(init[pos0[i].0] == index[pos0[i].0]);
            } else {
                let k = i - pos0.len();
                assert(pos[i] == (n, idx[k]));
                assert(all[i] == last[k]);
            }
        }
        assert forall|i: int, j: int| 0 <= i < j < pos.len() implies (#[trigger] pos[i]).0 < (
        #[trigger] pos[j]).0 || (pos[i].0 == pos[j].0 && pos[i].1 < pos[j].1) by {
            if j < pos0.len() {
                assert(pos[i] == pos0[i]);
                assert(pos[j] == pos0[j]);
            } else if i < pos0.len() {
                assert(pos[i] == pos0[i]);
                assert(pos[j] == (n, idx[j - pos0.len()]));
            } else {
                assert(pos[i] == (n, idx[i - pos0.len()]));
                assert(pos[j] == (n, idx[j - pos0.len()]));
            }
        }
        pos
    }
}

/// Selected articles with the same date come in index order: department
/// by department, and within a department in its order.
pub proof fn lemma_selection_ties_in_index_order(
    kws: Seq<Seq<char>>,
    lowered: Seq<Seq<Seq<char>>>,
    from: Option<Seq<u8>>,
    to: Option<Seq<u8>>,
    limit: nat,
    index: Seq<DepartmentData>,
    res: Seq<(Article, Seq<char>)>,
)
    requires
        is_selection(kws, lowered, from, to, limit, index, res),
    ensures
        forall|i: int, j: int|
            0 <= i < j < res.len() && (#[trigger] res[i]).0.date@ == (#[trigger] res[j]).0.date@
                ==> exists|d1: int, a1: int, d2: int, a2: int|
                0 <= d1 < index.len() && 0 <= a1 < index[d1].articles@.len() && 0 <= d2 < index.len()
                    && 0 <= a2 < index[d2].articles@.len() && res[i] == (
                    index[d1].articles@[a1],
                    index[d1].department@,
                ) && res[j] == (index[d2].articles@[a2], index[d2].department@) && (d1 < d2 || (d1
                    == d2 && a1 < a2)),
{
    let hits = index_lowered_hits(index, lowered, kws, from, to);
    let keys = date_keys(hits);
    let p = choose|p: Seq<int>| is_greatest_first(keys, p) && #[trigger] is_top_of(hits, p, limit, res);
    let pos = lemma_index_lowered_hits_positions(index, lowered, kws, from, to);
    assert forall|i: int, j: int|
        0 <= i < j < res.len() && (#[trigger] res[i]).0.date@ == (#[trigger] res[j]).0.date@
            implies exists|d1: int, a1: int, d2: int, a2: int|
        0 <= d1 < index.len() && 0 <= a1 < index[d1].articles@.len() && 0 <= d2 < index.len() && 0
            <= a2 < index[d2].articles@.len() && res[i] == (
            index[d1].articles@[a1],
            index[d1].department@,
        ) && res[j] == (index[d2].articles@[a2], index[d2].department@) && (d1 < d2 || (d1 == d2
            && a1 < a2)) by {
        assert(res[i] == hits[p[i]]);
        assert(res[j] == hits[p[j]]);
        assert(comes_before(keys, p[i], p[j]));
        assert(keys[p[i]] == encode_utf8(hits[p[i]].0.date@));
        assert(keys[p[j]] == encode_utf8(hits[p[j]].0.date@));
        lemma_bytes_lt_irreflexive(keys[p[i]]);
        assert(p[i] < p[j]);
        let pi = pos[p[i]];
        let pj = pos[p[j]];
        assert(pi.0 < pj.0 || (pi.0 == pj.0 && pi.1 < pj.1));
    }
}

/// Search results with the same date come in index order: department by
/// department, and within a department in its order.
pub proof fn lemma_search_ties_in_index_order(
    query: Seq<char>,
    from: Option<Seq<u8>>,
    to: Option<Seq<u8>>,
    limit: nat,
    index: Seq<DepartmentData>,
    res: Seq<(Article, Seq<char>)>,
)
    requires
        is_search_result(query, from, to, limit, index, res),
    ensures
        forall|i: int, j: int|
            0 <= i < j < res.len() && (#[trigger] res[i]).0.date@ == (#[trigger] res[j]).0.date@
                ==> exists|d1: int, a1: int, d2: int, a2: int|
                0 <= d1 < index.len() && 0 <= a1 < index[d1].articles@.len() && 0 <= d2 < index.len()
                    && 0 <= a2 < index[d2].articles@.len() && res[i] == (
                    index[d1].articles@[a1],
                    index[d1].department@,
                ) && res[j] == (index[d2].articles@[a2], index[d2].department@) && (d1 < d2 || (d1
                    == d2 && a1 < a2)),
{
    if keywords_of(query).len() > 0 {
        lemma_search_is_selection(query, from, to, limit, index, res);
        lemma_selection_ties_in_index_order(
            keywords_of(query),
            lowercase_table(index),
            from,
            to,
            limit,
            index,
            res,
        );
    }
}

} // verus!
