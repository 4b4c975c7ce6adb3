//! Text helpers: byte-wise ordering of strings, substring search,
//! splitting at white space, lowercasing.

use vstd::prelude::*;
use vstd::string::StringSliceAdditionalSpecFns;

verus! {

/// Strict lexicographic order on byte strings: the order of `str`'s `<`,
/// which compares the UTF-8 bytes.
pub open spec fn bytes_lt(a: Seq<u8>, b: Seq<u8>) -> bool
    decreases a.len(),
{
    if b.len() == 0 {
        false
    } else if a.len() == 0 {
        true
    } else if a[0] != b[0] {
        a[0] < b[0]
    } else {
        bytes_lt(a.drop_first(), b.drop_first())
    }
}

/// `a < b` on the UTF-8 bytes of two strings, as `str`'s `<` does.
pub fn str_lt(a: &str, b: &str) -> (r: bool)
    ensures
        r == bytes_lt(a.spec_bytes(), b.spec_bytes()),
{
    let x = a.as_bytes();
    let y = b.as_bytes();
    let mut i: usize = 0;
    assert(x@.skip(0) =~= x@);
    assert(y@.skip(0) =~= y@);
    while i < x.len() && i < y.len() && x[i] == y[i]
        invariant
            i <= x@.len(),
            i <= y@.len(),
            bytes_lt(x@, y@) == bytes_lt(x@.skip(i as int), y@.skip(i as int)),
        decreases x@.len() - i,
    {
        assert(x@.skip(i as int).drop_first() =~= x@.skip(i + 1));
        assert(y@.skip(i as int).drop_first() =~= y@.skip(i + 1));
        i = i + 1;
    }
    if i < y.len() {
        if i < x.len() {
            x[i] < y[i]
        } else {
            true
        }
    } else {
        false
    }
}


/// No byte string is below itself.
pub proof fn lemma_bytes_lt_irreflexive(a: Seq<u8>)
    ensures
        !bytes_lt(a, a),
    decreases a.len(),
{
    if a.len() > 0 {
        lemma_bytes_lt_irreflexive(a.drop_first());
    }
}

/// The byte order is transitive.
pub proof fn lemma_bytes_lt_transitive(a: Seq<u8>, b: Seq<u8>, c: Seq<u8>)
    requires
        bytes_lt(a, b),
        bytes_lt(b, c),
    ensures
        bytes_lt(a, c),
    decreases a.len(),
{
    if a.len() > 0 && b.len() > 0 && c.len() > 0 && a[0] == b[0] && b[0] == c[0] {
        lemma_bytes_lt_transitive(a.drop_first(), b.drop_first(), c.drop_first());
    }
}

/// Of two different byte strings, one is below the other.
pub proof fn lemma_bytes_lt_total(a: Seq<u8>, b: Seq<u8>)
    ensures
        bytes_lt(a, b) || bytes_lt(b, a) || a == b,
    decreases a.len(),
{
    if a.len() > 0 && b.len() > 0 && a[0] == b[0] {
        lemma_bytes_lt_total(a.drop_first(), b.drop_first());
        if a.drop_first() == b.drop_first() {
            assert(a =~= seq![a[0]] + a.drop_first());
            assert(b =~= seq![b[0]] + b.drop_first());
        }
    } else if a.len() == 0 && b.len() == 0 {
        assert(a =~= b);
    }
}

/// The byte order is lexicographic: `a` is below `b` exactly when `a` is a
/// proper prefix of `b`, or at the first position where they differ the
/// byte of `a` is the smaller, whatever the lengths after it.
pub proof fn lemma_bytes_lt_lexicographic(a: Seq<u8>, b: Seq<u8>)
    ensures
        bytes_lt(a, b) <==> (a.len() < b.len() && b.take(a.len() as int) == a) || exists|i: int|
            0 <= i < a.len() && i < b.len() && a.take(i) == b.take(i) && #[trigger] a[i] < b[i],
    decreases a.len(),
{
    if b.len() == 0 {
    } else if a.len() == 0 {
        assert(b.take(0) =~= a);
    } else if a[0] != b[0] {
        if a[0] < b[0] {
            assert(a.take(0) =~= b.take(0));
        } else {
            if a.len() < b.len() && b.take(a.len() as int) == a {
                assert(b.take(a.len() as int)[0] == b[0]);
            }
            assert forall|i: int| 0 <= i < a.len() && i < b.len() && a.take(i) == b.take(i) implies !(
            #[trigger] a[i] < b[i]) by {
                if i > 0 {
                    assert(a.take(i)[0] == a[0]);
                    assert(b.take(i)[0] == b[0]);
                }
            }
        }
    } else {
        let a1 = a.drop_first();
        let b1 = b.drop_first();
        lemma_bytes_lt_lexicographic(a1, b1);
        if a.len() < b.len() && b.take(a.len() as int) == a {
            assert(b1.take(a1.len() as int) =~= a1) by {
                assert forall|k: int| 0 <= k < a1.len() implies b1.take(a1.len() as int)[k] == a1[k] by {
                    assert(b.take(a.len() as int)[k + 1] == a[k + 1]);
                }
            }
        }
        if a1.len() < b1.len() && b1.take(a1.len() as int) == a1 {
            assert(b.take(a.len() as int) =~= a) by {
                assert forall|k: int| 0 <= k < a.len() implies b.take(a.len() as int)[k] == a[k] by {
                    if k > 0 {
                        assert(b1.take(a1.len() as int)[k - 1] == a1[k - 1]);
                    }
                }
            }
        }
        if exists|i: int| 0 <= i < a.len() && i < b.len() && a.take(i) == b.take(i) && #[trigger] a[i] < b[i] {
            let i = choose|i: int| 0 <= i < a.len() && i < b.len() && a.take(i) == b.take(i) && #[trigger] a[i] < b[i];
            assert(i > 0);
            assert(a1.take(i - 1) =~= b1.take(i - 1)) by {
                assert forall|k: int| 0 <= k < i - 1 implies #[trigger] a1.take(i - 1)[k] == b1.take(i - 1)[k] by {
                    assert(a.take(i)[k + 1] == b.take(i)[k + 1]);
                }
            }
            assert(a1[i - 1] < b1[i - 1]);
        }
        if exists|i: int| 0 <= i < a1.len() && i < b1.len() && a1.take(i) == b1.take(i) && #[trigger] a1[i] < b1[i] {
            let i = choose|i: int| 0 <= i < a1.len() && i < b1.len() && a1.take(i) == b1.take(i) && #[trigger] a1[i] < b1[i];
            assert(a.take(i + 1) =~= b.take(i + 1)) by {
                assert forall|k: int| 0 <= k < i + 1 implies #[trigger] a.take(i + 1)[k] == b.take(i + 1)[k] by {
                    if k > 0 {
                        assert(a1.take(i)[k - 1] == b1.take(i)[k - 1]);
                    }
                }
            }
            assert(a[i + 1] < b[i + 1]);
        }
    }
}

/// At most one of `a < b` and `b < a` holds.
pub proof fn lemma_bytes_lt_asymmetric(a: Seq<u8>, b: Seq<u8>)
    ensures
        !(bytes_lt(a, b) && bytes_lt(b, a)),
{
    if bytes_lt(a, b) && bytes_lt(b, a) {
        lemma_bytes_lt_transitive(a, b, a);
        lemma_bytes_lt_irreflexive(a);
    }
}


/// Whether `c` has the Unicode `White_Space` property, by which
/// `str::split_whitespace` separates words.
pub open spec fn is_white_space(c: char) -> bool {
    let u = c as u32;
    ||| 0x09 <= u <= 0x0d
    ||| u == 0x20
    ||| u == 0x85
    ||| u == 0xa0
    ||| u == 0x1680
    ||| 0x2000 <= u <= 0x200a
    ||| u == 0x2028
    ||| u == 0x2029
    ||| u == 0x202f
    ||| u == 0x205f
    ||| u == 0x3000
}

/// Whether `c` has the Unicode `White_Space` property.
pub fn is_white_space_char(c: char) -> (r: bool)
    ensures
        r == is_white_space(c),
{
    let u = c as u32;
    (0x09 <= u && u <= 0x0d) || u == 0x20 || u == 0x85 || u == 0xa0 || u == 0x1680 || (0x2000
        <= u && u <= 0x200a) || u == 0x2028 || u == 0x2029 || u == 0x202f || u == 0x205f || u
        == 0x3000
}

/// The words of `s`: its maximal runs of characters that are not white
/// space, in order, as `str::split_whitespace` yields them.
pub open spec fn words(s: Seq<char>) -> Seq<Seq<char>>
    decreases s.len(),
{
    if s.len() == 0 {
        seq![]
    } else {
        let rest = words(s.drop_last());
        let c = s.last();
        if is_white_space(c) {
            rest
        } else if s.len() >= 2 && !is_white_space(s[s.len() - 2]) {
            rest.update(rest.len() - 1, rest.last().push(c))
        } else {
            rest.push(seq![c])
        }
    }
}

/// A text whose last character is not white space has a word.
proof fn lemma_words_nonempty(s: Seq<char>)
    requires
        s.len() > 0,
        !is_white_space(s.last()),
    ensures
        words(s).len() > 0,
    decreases s.len(),
{
    if s.len() >= 2 && !is_white_space(s[s.len() - 2]) {
        lemma_words_nonempty(s.drop_last());
    }
}

/// A non-empty text without white space is one word: itself.
pub proof fn lemma_words_single(s: Seq<char>)
    requires
        s.len() > 0,
        forall|i: int| 0 <= i < s.len() ==> !is_white_space(#[trigger] s[i]),
    ensures
        words(s) == seq![s],
    decreases s.len(),
{
    assert(!is_white_space(s[s.len() - 1]));
    if s.len() == 1 {
        assert(s.drop_last() =~= Seq::<char>::empty());
        assert(words(s.drop_last()) == Seq::<Seq<char>>::empty());
        assert(seq![s.last()] =~= s);
    } else {
        let init = s.drop_last();
        assert forall|i: int| 0 <= i < init.len() implies !is_white_space(#[trigger] init[i]) by {
            assert(init[i] == s[i]);
        }
        lemma_words_single(init);
        assert(!is_white_space(s[s.len() - 2]));
        assert(init.push(s.last()) =~= s);
        assert(seq![init].update(0, init.push(s.last())) =~= seq![s]);
    }
}

/// Splitting at a white space character: the words of `a`, a white space
/// character, then `b` are the words of `a` followed by those of `b`.
pub proof fn lemma_words_split(a: Seq<char>, w: char, b: Seq<char>)
    requires
        is_white_space(w),
    ensures
        words(a + seq![w] + b) == words(a) + words(b),
    decreases b.len(),
{
    let s = a + seq![w] + b;
    if b.len() == 0 {
        assert(s.drop_last() =~= a);
        assert(words(b) =~= Seq::<Seq<char>>::empty());
        assert(words(a) + words(b) =~= words(a));
    } else {
        let bi = b.drop_last();
        let c = b.last();
        lemma_words_split(a, w, bi);
        assert(s.drop_last() =~= a + seq![w] + bi);
        assert(s.last() == c);
        let rest = words(a) + words(bi);
        if is_white_space(c) {
        } else if b.len() >= 2 && !is_white_space(b[b.len() - 2]) {
            assert(s[s.len() - 2] == b[b.len() - 2]);
            assert(bi.last() == b[b.len() - 2]);
            lemma_words_nonempty(bi);
            let wb = words(bi);
            assert(rest.update(rest.len() - 1, rest.last().push(c)) =~= words(a) + wb.update(
                wb.len() - 1,
                wb.last().push(c),
            ));
        } else {
            if b.len() >= 2 {
                assert(s[s.len() - 2] == b[b.len() - 2]);
            } else {
                assert(s[s.len() - 2] == w);
            }
            assert(rest.push(seq![c]) =~= words(a) + words(bi).push(seq![c]));
        }
    }
}

/// The lowercase form of a text, as `str::to_lowercase` computes it
/// (Unicode's full lowercase mapping).
pub uninterp spec fn lowercase_of(s: Seq<char>) -> Seq<char>;

/// Every character is ASCII.
pub open spec fn is_ascii_text(s: Seq<char>) -> bool {
    forall|i: int| 0 <= i < s.len() ==> (#[trigger] s[i] as u32) < 0x80
}

/// ASCII lower case of a character: `A`..`Z` become `a`..`z`, every other
/// character stays.
pub open spec fn ascii_lower_char(c: char) -> char {
    if 0x41 <= (c as u32) <= 0x5a {
        ((c as u32) + 32) as char
    } else {
        c
    }
}

/// A text in ASCII lower case.
pub open spec fn ascii_lowered(s: Seq<char>) -> Seq<char> {
    s.map_values(|c: char| ascii_lower_char(c))
}

/// Calls `str::to_lowercase`: its result is named `lowercase_of`, which
/// depends on the text alone. Of the Unicode mapping only its ASCII part is
/// stated: on an ASCII text it turns `A`..`Z` into `a`..`z` and keeps every
/// other character; what it does with other characters is left unsaid.
#[verifier::external_body]
pub(crate) fn to_lowercase(s: &str) -> (r: String)
    ensures
        r@ == lowercase_of(s@),
        is_ascii_text(s@) ==> r@ == ascii_lowered(s@),
{
    s.to_lowercase()
}

/// Calls `String::push`, which appends one character.
#[verifier::external_body]
pub(crate) fn push_char(s: &mut String, c: char)
    ensures
        final(s)@ == old(s)@.push(c),
{
    s.push(c)
}

/// The keywords of a query: its words, each in lowercase.
pub open spec fn keywords_of(query: Seq<char>) -> Seq<Seq<char>> {
    words(query).map_values(|w: Seq<char>| lowercase_of(w))
}

/// Splits `query` at white space and lowercases each word, as
/// `query.split_whitespace().map(str::to_lowercase)` does.
pub fn keywords(query: &str) -> (r: Vec<String>)
    ensures
        r@.map_values(|w: String| w@) == keywords_of(query@),
        is_ascii_text(query@) ==> forall|k: int|
            0 <= k < r@.len() ==> #[trigger] r@[k]@ == ascii_lowered(words(query@)[k]),
{
    let ghost s = query@;
    let ghost mut done: Seq<Seq<char>> = seq![];
    let ghost mut start: int = 0;
    let mut out: Vec<String> = Vec::new();
    let mut cur = String::new();
    let mut in_word = false;
    for c in it: query.chars()
        invariant
            it.seq() == s,
            s == query@,
            0 <= start <= it.index(),
            out@.map_values(|w: String| w@) == done.map_values(|w: Seq<char>| lowercase_of(w)),
            is_ascii_text(s) ==> forall|k: int|
                0 <= k < done.len() ==> lowercase_of(#[trigger] done[k]) == ascii_lowered(done[k]),
            in_word ==> start < it.index() && !is_white_space(s[it.index() - 1]),
            in_word ==> cur@ == s.subrange(start, it.index() as int),
            !in_word ==> it.index() == 0 || is_white_space(s[it.index() - 1]),
            in_word ==> words(s.take(it.index() as int)) == done.push(s.subrange(start, it.index() as int)),
            !in_word ==> words(s.take(it.index() as int)) == done,
    {
        let ghost i = it.index() as int;
        proof {
            assert(s.take(i + 1).drop_last() =~= s.take(i));
            assert(s.take(i + 1).last() == c);
            if i >= 1 {
                assert(s.take(i + 1)[i - 1] == s[i - 1]);
            }
        }
        if is_white_space_char(c) {
            if in_word {
                let lw = to_lowercase(cur.as_str());
                let ghost before = out@;
                out.push(lw);
                proof {
                    assert(out@.map_values(|w: String| w@) =~= before.map_values(|w: String| w@).push(
                        lowercase_of(s.subrange(start, i)),
                    ));
                    if is_ascii_text(s) {
                        assert(is_ascii_text(cur@)) by {
                            assert forall|j: int| 0 <= j < cur@.len() implies (#[trigger] cur@[j] as u32) < 0x80 by {
                                assert(cur@[j] == s[start + j]);
                            }
                        }
                    }
                    done = done.push(s.subrange(start, i));
                }
                cur = String::new();
                in_word = false;
            }
        } else {
            if in_word {
                push_char(&mut cur, c);
                proof {
                    assert(s.subrange(start, i).push(c) =~= s.subrange(start, i + 1));
                    let prev = done.push(s.subrange(start, i));
                    assert(prev.update(prev.len() - 1, prev.last().push(c)) =~= done.push(
                        s.subrange(start, i + 1),
                    ));
                }
            } else {
                cur = String::new();
                push_char(&mut cur, c);
                in_word = true;
                proof {
                    start = i;
                    assert(s.subrange(i, i + 1) =~= seq![c]);
                    assert(cur@ =~= seq![c]);
                }
            }
        }
    }
    if in_word {
        let lw = to_lowercase(cur.as_str());
        let ghost before = out@;
        out.push(lw);
        proof {
            let i = s.len() as int;
            assert(out@.map_values(|w: String| w@) =~= before.map_values(|w: String| w@).push(
                lowercase_of(s.subrange(start, i)),
            ));
            if is_ascii_text(s) {
                assert(is_ascii_text(cur@)) by {
                    assert forall|j: int| 0 <= j < cur@.len() implies (#[trigger] cur@[j] as u32) < 0x80 by {
                        assert(cur@[j] == s[start + j]);
                    }
                }
            }
            done = done.push(s.subrange(start, i));
        }
    }
    proof {
        assert(s.take(s.len() as int) =~= s);
        if is_ascii_text(s) {
            assert forall|k: int| 0 <= k < out@.len() implies #[trigger] out@[k]@ == ascii_lowered(words(s)[k]) by {
                assert(out@.map_values(|w: String| w@)[k] == out@[k]@);
                assert(lowercase_of(done[k]) == ascii_lowered(done[k]));
            }
        }
    }
    out
}

/// `needle` occurs in `haystack` as a contiguous run.
pub open spec fn bytes_contain(haystack: Seq<u8>, needle: Seq<u8>) -> bool {
    exists|i: int|
        0 <= i <= haystack.len() - needle.len() && #[trigger] haystack.subrange(
            i,
            i + needle.len(),
        ) == needle
}

/// Whether `needle` occurs in `haystack`, as `str::contains` decides it on
/// the UTF-8 bytes.
pub fn contains_text(haystack: &str, needle: &str) -> (r: bool)
    ensures
        r == bytes_contain(haystack.spec_bytes(), needle.spec_bytes()),
{
    let h = haystack.as_bytes();
    let m = needle.as_bytes();
    if m.len() > h.len() {
        return false;
    }
    let last = h.len() - m.len();
    let mut i: usize = 0;
    while i <= last
        invariant
            last == h@.len() - m@.len(),
            m@.len() <= h@.len(),
            h@ == haystack.spec_bytes(),
            m@ == needle.spec_bytes(),
            i <= last + 1,
            forall|k: int| 0 <= k < i ==> #[trigger] h@.subrange(k, k + m@.len()) != m@,
        decreases last + 1 - i,
    {
        let mut j: usize = 0;
        while j < m.len() && h[i + j] == m[j]
            invariant
                i <= last,
                last == h@.len() - m@.len(),
                m@.len() <= h@.len(),
                i + m@.len() <= h@.len(),
                h@.len() == h.len(),
                m@.len() == m.len(),
                j <= m@.len(),
                forall|t: int| 0 <= t < j ==> h@[i + t] == m@[t],
            decreases m@.len() - j,
        {
            j = j + 1;
        }
        if j == m.len() {
            assert(h@.subrange(i as int, i + m@.len()) =~= m@);
            assert(bytes_contain(h@, m@));
            return true;
        }
        assert(h@.subrange(i as int, i + m@.len())[j as int] != m@[j as int]);
        i = i + 1;
    }
    assert forall|k: int| 0 <= k <= h@.len() - m@.len() implies #[trigger] h@.subrange(
        k,
        k + m@.len(),
    ) != m@ by {}
    false
}

} // verus!
