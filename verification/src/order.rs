//! Stable ordering of items by a text key, greatest key first: the order
//! in which search results (newest date first) and departments (name
//! descending) are listed.

use crate::text::{
    bytes_lt, lemma_bytes_lt_asymmetric, lemma_bytes_lt_irreflexive, lemma_bytes_lt_total,
    lemma_bytes_lt_transitive, str_lt,
};
use vstd::prelude::*;
use vstd::set_lib::{lemma_int_range, lemma_len_subset, set_int_range};
use vstd::string::StringSliceAdditionalSpecFns;

verus! {

/// An item ordered by the UTF-8 bytes of a text key.
pub trait TextKeyed {
    /// The key's bytes.
    spec fn sort_key(&self) -> Seq<u8>;

    /// The key.
    fn key_text(&self) -> (r: &str)
        ensures
            r.spec_bytes() == self.sort_key(),
    ;
}

/// The keys of a sequence of items.
pub open spec fn keys_of<T: TextKeyed>(s: Seq<T>) -> Seq<Seq<u8>> {
    s.map_values(|t: T| t.sort_key())
}

/// In the listing of the items with keys `keys`, the item at position `i`
/// comes before the one at position `j`: its key is greater, or the keys are
/// equal and it came first.
pub open spec fn comes_before(keys: Seq<Seq<u8>>, i: int, j: int) -> bool {
    bytes_lt(keys[j], keys[i]) || (keys[i] == keys[j] && i < j)
}

/// `p` lists each of the positions `0..n` exactly once.
pub open spec fn is_permutation(p: Seq<int>, n: int) -> bool {
    &&& p.len() == n
    &&& forall|k: int| 0 <= k < n ==> 0 <= #[trigger] p[k] < n
    &&& forall|k: int, l: int| 0 <= k < l < n ==> p[k] != p[l]
}

/// `p` lists the positions of items with keys `keys` greatest key first,
/// items with equal keys in their original order.
pub open spec fn is_greatest_first(keys: Seq<Seq<u8>>, p: Seq<int>) -> bool {
    &&& is_permutation(p, keys.len() as int)
    &&& forall|k: int, l: int|
        0 <= k < l < p.len() ==> comes_before(keys, #[trigger] p[k], #[trigger] p[l])
}

/// `after` holds the items of `before` in the order that `p` lists.
pub open spec fn is_rearranged<T>(before: Seq<T>, after: Seq<T>, p: Seq<int>) -> bool {
    &&& after.len() == p.len()
    &&& forall|k: int| 0 <= k < p.len() ==> after[k] == before[#[trigger] p[k]]
}

/// `after` is `before` listed greatest key first, items with equal keys
/// in their original order.
pub open spec fn is_sorted_greatest_first<T: TextKeyed>(before: Seq<T>, after: Seq<T>) -> bool {
    exists|p: Seq<int>|
        is_greatest_first(keys_of(before), p) && #[trigger] is_rearranged(before, after, p)
}

/// The positions `s` are listed in the order `comes_before` gives.
pub open spec fn is_listed_in_order(keys: Seq<Seq<u8>>, s: Seq<usize>) -> bool {
    forall|k: int, l: int|
        0 <= k < l < s.len() ==> comes_before(keys, #[trigger] s[k] as int, #[trigger] s[l] as int)
}

/// Every position in `s` lies in `lo..hi`.
pub open spec fn positions_within(s: Seq<usize>, lo: int, hi: int) -> bool {
    forall|k: int| 0 <= k < s.len() ==> lo <= #[trigger] s[k] < hi
}

/// `comes_before` is transitive.
proof fn lemma_comes_before_transitive(keys: Seq<Seq<u8>>, i: int, j: int, k: int)
    requires
        comes_before(keys, i, j),
        comes_before(keys, j, k),
    ensures
        comes_before(keys, i, k),
{
    if bytes_lt(keys[j], keys[i]) && bytes_lt(keys[k], keys[j]) {
        lemma_bytes_lt_transitive(keys[k], keys[j], keys[i]);
    }
}

/// Of two different positions, one comes before the other.
proof fn lemma_comes_before_total(keys: Seq<Seq<u8>>, i: int, j: int)
    requires
        i != j,
    ensures
        comes_before(keys, i, j) || comes_before(keys, j, i),
{
    lemma_bytes_lt_total(keys[i], keys[j]);
}

/// No position comes before itself.
proof fn lemma_comes_before_irreflexive(keys: Seq<Seq<u8>>, i: int)
    ensures
        !comes_before(keys, i, i),
{
    lemma_bytes_lt_irreflexive(keys[i]);
}

/// Whether the item at position `i` of `v` comes before the one at `j`.
fn position_comes_before<T: TextKeyed>(v: &Vec<T>, i: usize, j: usize) -> (r: bool)
    requires
        i < v@.len(),
        j < v@.len(),
    ensures
        r == comes_before(keys_of(v@), i as int, j as int),
{
    let ki = v[i].key_text();
    let kj = v[j].key_text();
    proof {
        assert(keys_of(v@)[i as int] == v@[i as int].sort_key());
        assert(keys_of(v@)[j as int] == v@[j as int].sort_key());
        lemma_bytes_lt_total(ki.spec_bytes(), kj.spec_bytes());
    }
    if str_lt(kj, ki) {
        true
    } else if str_lt(ki, kj) {
        false
    } else {
        i < j
    }
}

/// Merges an ordered list of positions in `lo..mid` and one of positions in
/// `mid..hi` into one ordered list.
fn merge_positions<T: TextKeyed>(
    v: &Vec<T>,
    a: Vec<usize>,
    b: Vec<usize>,
    Ghost(lo): Ghost<int>,
    Ghost(mid): Ghost<int>,
    Ghost(hi): Ghost<int>,
) -> (c: Vec<usize>)
    requires
        lo <= mid <= hi <= v@.len(),
        positions_within(a@, lo, mid),
        positions_within(b@, mid, hi),
        is_listed_in_order(keys_of(v@), a@),
        is_listed_in_order(keys_of(v@), b@),
    ensures
        c@.len() == a@.len() + b@.len(),
        positions_within(c@, lo, hi),
        is_listed_in_order(keys_of(v@), c@),
{
    let ghost keys = keys_of(v@);
    let mut c: Vec<usize> = Vec::new();
    let mut i: usize = 0;
    let mut j: usize = 0;
    while i < a.len() || j < b.len()
        invariant
            keys == keys_of(v@),
            lo <= mid <= hi <= v@.len(),
            positions_within(a@, lo, mid),
            positions_within(b@, mid, hi),
            is_listed_in_order(keys, a@),
            is_listed_in_order(keys, b@),
            i <= a@.len(),
            j <= b@.len(),
            c@.len() == i + j,
            positions_within(c@, lo, hi),
            is_listed_in_order(keys, c@),
            c@.len() > 0 && i < a@.len() ==> comes_before(keys, c@.last() as int, a@[i as int] as int),
            c@.len() > 0 && j < b@.len() ==> comes_before(keys, c@.last() as int, b@[j as int] as int),
        decreases a@.len() + b@.len() - i - j,
    {
        let take_a = if i < a.len() && j < b.len() {
            position_comes_before(v, a[i], b[j])
        } else {
            i < a.len()
        };
        let ghost before = c@;
        let x: usize;
        if take_a {
            x = a[i];
            assert(lo <= a@[i as int] < mid);
            c.push(x);
            i = i + 1;
            proof {
                if i < a@.len() {
                    assert(comes_before(keys, a@[i - 1] as int, a@[i as int] as int));
                }
                if j < b@.len() {
                    assert(comes_before(keys, x as int, b@[j as int] as int));
                }
            }
        } else {
            x = b[j];
            assert(mid <= b@[j as int] < hi);
            c.push(x);
            j = j + 1;
            proof {
                if j < b@.len() {
                    assert(comes_before(keys, b@[j - 1] as int, b@[j as int] as int));
                }
                if i < a@.len() {
                    assert(a@[i as int] < mid);
                    lemma_comes_before_total(keys, x as int, a@[i as int] as int);
                }
            }
        }
        proof {
            assert(c@ == before.push(x));
            assert(lo <= x < hi);
            assert forall|k: int| 0 <= k < c@.len() implies lo <= #[trigger] c@[k] < hi by {
                if k < before.len() {
                    assert(c@[k] == before[k]);
                }
            }
            assert forall|k: int, l: int| 0 <= k < l < c@.len() implies comes_before(
                keys,
                #[trigger] c@[k] as int,
                #[trigger] c@[l] as int,
            ) by {
                if l == c@.len() - 1 {
                    if k < before.len() - 1 {
                        assert(comes_before(keys, before[k] as int, before.last() as int));
                        lemma_comes_before_transitive(keys, before[k] as int, before.last() as int, x as int);
                    }
                } else {
                    assert(c@[k] == before[k]);
                    assert(c@[l] == before[l]);
                }
            }
        }
    }
    c
}

/// The positions `lo..hi` sorted into the order `comes_before` gives.
fn sort_positions<T: TextKeyed>(v: &Vec<T>, lo: usize, hi: usize) -> (r: Vec<usize>)
    requires
        lo <= hi <= v@.len(),
    ensures
        r@.len() == hi - lo,
        positions_within(r@, lo as int, hi as int),
        is_listed_in_order(keys_of(v@), r@),
    decreases hi - lo,
{
    if hi - lo == 0 {
        return Vec::new();
    }
    if hi - lo == 1 {
        let mut r: Vec<usize> = Vec::new();
        r.push(lo);
        return r;
    }
    let mid = lo + (hi - lo) / 2;
    let left = sort_positions(v, lo, mid);
    let right = sort_positions(v, mid, hi);
    merge_positions(v, left, right, Ghost(lo as int), Ghost(mid as int), Ghost(hi as int))
}

/// Sorts `v` stably by key, greatest key first.
pub fn sort_greatest_first<T: TextKeyed>(v: &mut Vec<T>)
    ensures
        is_sorted_greatest_first(old(v)@, final(v)@),
{
    let n = v.len();
    let ghost orig = v@;
    let ghost keys = keys_of(orig);
    let order = sort_positions(v, 0, n);
    let ghost p: Seq<int> = order@.map_values(|x: usize| x as int);
    proof {
        assert forall|k: int| 0 <= k < n implies 0 <= #[trigger] p[k] < n by {}
        assert forall|k: int, l: int| 0 <= k < l < n implies p[k] != p[l] by {
            assert(comes_before(keys, order@[k] as int, order@[l] as int));
            if p[k] == p[l] {
                lemma_comes_before_irreflexive(keys, p[k]);
            }
        }
        assert(is_permutation(p, n as int));
        assert forall|k: int, l: int| 0 <= k < l < p.len() implies comes_before(keys, #[trigger] p[k], #[trigger] p[l]) by {
            assert(comes_before(keys, order@[k] as int, order@[l] as int));
        }
        assert(is_greatest_first(keys, p));
    }
    // take the items out, last first
    let mut slots: Vec<Option<T>> = Vec::new();
    while v.len() > 0
        invariant
            orig.len() == n,
            slots@.len() + v@.len() == n,
            v@ == orig.take(v@.len() as int),
            forall|k: int| 0 <= k < slots@.len() ==> #[trigger] slots@[k] == Some(orig[n - 1 - k]),
        decreases v@.len(),
    {
        let ghost before = v@;
        let x = v.pop().unwrap();
        proof {
            assert(x == orig[before.len() - 1]);
            assert(v@ =~= orig.take(v@.len() as int));
        }
        slots.push(Some(x));
    }
    // put them back in the sorted order
    let mut k: usize = 0;
    while k < n
        invariant
            orig.len() == n,
            slots@.len() == n,
            order@.len() == n,
            p == order@.map_values(|x: usize| x as int),
            is_permutation(p, n as int),
            k <= n,
            v@.len() == k,
            forall|t: int| 0 <= t < k ==> #[trigger] v@[t] == orig[p[t]],
            forall|t: int| k <= t < n ==> #[trigger] slots@[n - 1 - p[t]] == Some(orig[p[t]]),
        decreases n - k,
    {
        let pos = order[k];
        proof {
            assert(p[k as int] == pos);
            assert(slots@[n - 1 - p[k as int]] == Some(orig[p[k as int]]));
        }
        let mut taken: Option<T> = None;
        std::mem::swap(&mut taken, &mut slots[n - 1 - pos]);
        proof {
            assert forall|t: int| k + 1 <= t < n implies #[trigger] slots@[n - 1 - p[t]] == Some(orig[p[t]]) by {
                assert(p[t] != p[k as int]);
            }
        }
        let item = taken.unwrap();
        v.push(item);
        k = k + 1;
    }
    proof {
        assert(is_rearranged(orig, v@, p));
    }
}

/// A permutation of `0..n` lists every position of `0..n`.
pub proof fn lemma_permutation_onto(p: Seq<int>, n: int, x: int) -> (m: int)
    requires
        is_permutation(p, n),
        0 <= x < n,
    ensures
        0 <= m < n,
        p[m] == x,
{
    let range = Set::new(|y: int| 0 <= y < n);
    lemma_int_range(0, n);
    assert(range =~= set_int_range(0, n));
    assert(p.no_duplicates());
    p.unique_seq_to_set();
    vstd::seq_lib::seq_to_set_is_finite(p);
    if !p.to_set().contains(x) {
        let smaller = range.remove(x);
        assert(smaller.len() == n - 1);
        assert forall|y: int| p.to_set().contains(y) implies smaller.contains(y) by {
            let k = choose|k: int| 0 <= k < p.len() && p[k] == y;
        }
        lemma_len_subset(p.to_set(), smaller);
        assert(false);
    }
    let m = choose|m: int| 0 <= m < p.len() && p[m] == x;
    m
}

/// `comes_before` never holds both ways.
pub proof fn lemma_comes_before_asymmetric(keys: Seq<Seq<u8>>, i: int, j: int)
    ensures
        !(comes_before(keys, i, j) && comes_before(keys, j, i)),
{
    lemma_bytes_lt_asymmetric(keys[i], keys[j]);
    lemma_bytes_lt_irreflexive(keys[i]);
}

/// There is only one way to list items greatest key first, equal keys in
/// their original order.
pub proof fn lemma_greatest_first_unique(keys: Seq<Seq<u8>>, p: Seq<int>, q: Seq<int>)
    requires
        is_greatest_first(keys, p),
        is_greatest_first(keys, q),
    ensures
        p == q,
{
    let n = keys.len() as int;
    if exists|k: int| 0 <= k < n && p[k] != q[k] {
        let k0 = choose|k: int| 0 <= k < n && p[k] != q[k];
        // the first position where they differ
        let k = first_difference(p, q, k0);
        let m = lemma_permutation_onto(p, n, q[k]);
        let m2 = lemma_permutation_onto(q, n, p[k]);
        if m < k {
            assert(p[m] == q[m]);
        }
        if m2 < k {
            assert(p[m2] == q[m2]);
        }
        assert(comes_before(keys, p[k], p[m]));
        assert(comes_before(keys, q[k], q[m2]));
        lemma_comes_before_asymmetric(keys, p[k], q[k]);
    }
    assert(p =~= q);
}

/// The first position below or at `k` at which `p` and `q` differ.
proof fn first_difference(p: Seq<int>, q: Seq<int>, k: int) -> (f: int)
    requires
        0 <= k < p.len(),
        k < q.len(),
        p[k] != q[k],
    ensures
        0 <= f <= k,
        p[f] != q[f],
        forall|i: int| 0 <= i < f ==> p[i] == q[i],
    decreases k,
{
    if exists|i: int| 0 <= i < k && p[i] != q[i] {
        let i = choose|i: int| 0 <= i < k && p[i] != q[i];
        first_difference(p, q, i)
    } else {
        k
    }
}

/// Sorting greatest key first is determined: two results of sorting the
/// same items are equal.
pub proof fn lemma_sorted_greatest_first_unique<T: TextKeyed>(before: Seq<T>, a: Seq<T>, b: Seq<T>)
    requires
        is_sorted_greatest_first(before, a),
        is_sorted_greatest_first(before, b),
    ensures
        a == b,
{
    let p = choose|p: Seq<int>| is_greatest_first(keys_of(before), p) && #[trigger] is_rearranged(before, a, p);
    let q = choose|q: Seq<int>| is_greatest_first(keys_of(before), q) && #[trigger] is_rearranged(before, b, q);
    lemma_greatest_first_unique(keys_of(before), p, q);
    assert forall|k: int| 0 <= k < a.len() implies a[k] == b[k] by {
        assert(a[k] == before[p[k]]);
        assert(b[k] == before[q[k]]);
    }
    assert(a =~= b);
}

/// After sorting greatest key first, no item's key is greater than an
/// earlier item's key.
pub proof fn lemma_sorted_keys_descend<T: TextKeyed>(before: Seq<T>, after: Seq<T>)
    requires
        is_sorted_greatest_first(before, after),
    ensures
        forall|i: int, j: int|
            0 <= i < j < after.len() ==> !bytes_lt(
                (#[trigger] after[i]).sort_key(),
                (#[trigger] after[j]).sort_key(),
            ),
{
    let keys = keys_of(before);
    let p = choose|p: Seq<int>| is_greatest_first(keys, p) && #[trigger] is_rearranged(before, after, p);
    assert forall|i: int, j: int| 0 <= i < j < after.len() implies !bytes_lt(
        (#[trigger] after[i]).sort_key(),
        (#[trigger] after[j]).sort_key(),
    ) by {
        assert(comes_before(keys, p[i], p[j]));
        assert(after[i] == before[p[i]]);
        assert(after[j] == before[p[j]]);
        lemma_bytes_lt_asymmetric(keys[p[i]], keys[p[j]]);
        lemma_bytes_lt_irreflexive(keys[p[i]]);
    }
}

/// Sorting keeps the items: `after` is a rearrangement of `before` (each
/// position of `before` lands at exactly one position of `after`), so each
/// item before is there after and each item after was there before.
pub proof fn lemma_sorted_same_items<T: TextKeyed>(before: Seq<T>, after: Seq<T>)
    requires
        is_sorted_greatest_first(before, after),
    ensures
        after.len() == before.len(),
        exists|p: Seq<int>|
            is_permutation(p, before.len() as int) && #[trigger] is_rearranged(before, after, p),
        forall|i: int| 0 <= i < before.len() ==> after.contains(#[trigger] before[i]),
        forall|i: int| 0 <= i < after.len() ==> before.contains(#[trigger] after[i]),
{
    let keys = keys_of(before);
    let p = choose|p: Seq<int>| is_greatest_first(keys, p) && #[trigger] is_rearranged(before, after, p);
    assert forall|i: int| 0 <= i < before.len() implies after.contains(#[trigger] before[i]) by {
        let m = lemma_permutation_onto(p, before.len() as int, i);
        assert(after[m] == before[p[m]]);
    }
    assert forall|i: int| 0 <= i < after.len() implies before.contains(#[trigger] after[i]) by {
        assert(after[i] == before[p[i]]);
    }
}

/// Sorting is stable: after sorting, keys never increase, and items with
/// equal keys keep the order they had before. `p[k]` is the position
/// before sorting of the item at position `k` after it.
pub proof fn lemma_sorted_stable<T: TextKeyed>(before: Seq<T>, after: Seq<T>) -> (p: Seq<int>)
    requires
        is_sorted_greatest_first(before, after),
    ensures
        is_permutation(p, before.len() as int),
        is_rearranged(before, after, p),
        forall|i: int, j: int|
            0 <= i < j < after.len() ==> !bytes_lt(
                (#[trigger] after[i]).sort_key(),
                (#[trigger] after[j]).sort_key(),
            ) && (after[i].sort_key() == after[j].sort_key() ==> p[i] < p[j]),
{
    let keys = keys_of(before);
    let p = choose|p: Seq<int>| is_greatest_first(keys, p) && #[trigger] is_rearranged(before, after, p);
    assert forall|i: int, j: int| 0 <= i < j < after.len() implies !bytes_lt(
        (#[trigger] after[i]).sort_key(),
        (#[trigger] after[j]).sort_key(),
    ) && (after[i].sort_key() == after[j].sort_key() ==> p[i] < p[j]) by {
        assert(comes_before(keys, p[i], p[j]));
        assert(after[i] == before[p[i]]);
        assert(after[j] == before[p[j]]);
        lemma_bytes_lt_asymmetric(keys[p[i]], keys[p[j]]);
        lemma_bytes_lt_irreflexive(keys[p[i]]);
    }
    p
}

} // verus!
