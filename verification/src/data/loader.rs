//! Building the department index from the parsed data files.

use super::models::DepartmentData;
use crate::order::{
    is_sorted_greatest_first, lemma_sorted_keys_descend, lemma_sorted_same_items, lemma_sorted_stable,
    sort_greatest_first, TextKeyed,
};
use crate::text::bytes_lt;
use vstd::prelude::*;
use vstd::utf8::encode_utf8;

verus! {

impl TextKeyed for DepartmentData {
    open spec fn sort_key(&self) -> Seq<u8> {
        encode_utf8(self.department@)
    }

    fn key_text(&self) -> (r: &str) {
        self.department.as_str()
    }
}

/// The values present in `s`, in order.
pub open spec fn present<T>(s: Seq<Option<T>>) -> Seq<T> {
    s.filter_map(|o: Option<T>| o)
}

/// Builds the index from the data files that parsed (`Some`), skipping the
/// others: department names descending, equal names in file order.
pub fn collect_departments(parsed: Vec<Option<DepartmentData>>) -> (r: Vec<DepartmentData>)
    ensures
        is_sorted_greatest_first(present(parsed@), r@),
{
    let ghost all = parsed@;
    let total = parsed.len();
    // take the files out, last first
    let mut pending = parsed;
    let mut reversed: Vec<Option<DepartmentData>> = Vec::new();
    while pending.len() > 0
        invariant
            all.len() == total,
            reversed@.len() + pending@.len() == total,
            pending@ == all.take(pending@.len() as int),
            forall|k: int| 0 <= k < reversed@.len() ==> #[trigger] reversed@[k] == all[total - 1 - k],
        decreases pending@.len(),
    {
        let ghost before = pending@;
        let item = pending.pop().unwrap();
        proof {
            assert(item == all[before.len() - 1]);
            assert(pending@ =~= all.take(pending@.len() as int));
        }
        reversed.push(item);
    }
    // and keep them in file order
    let mut kept: Vec<DepartmentData> = Vec::new();
    let mut done: usize = 0;
    assert(all.take(0) =~= Seq::<Option<DepartmentData>>::empty());
    while reversed.len() > 0
        invariant
            all.len() == total,
            done + reversed@.len() == total,
            forall|k: int| 0 <= k < reversed@.len() ==> #[trigger] reversed@[k] == all[total - 1 - k],
            kept@ == present(all.take(done as int)),
        decreases reversed@.len(),
    {
        let ghost before = reversed@;
        let item = reversed.pop().unwrap();
        proof {
            assert(item == before[before.len() - 1]);
            assert(item == all[done as int]);
            assert(all.take(done + 1).drop_last() =~= all.take(done as int));
            assert forall|k: int| 0 <= k < reversed@.len() implies #[trigger] reversed@[k] == all[total - 1 - k] by {
                assert(reversed@[k] == before[k]);
            }
        }
        match item {
            Some(d) => {
                kept.push(d);
            },
            None => {},
        }
        done = done + 1;
    }
    proof {
        assert(all.take(done as int) =~= all);
    }
    sort_greatest_first(&mut kept);
    kept
}

/// The index lists department names in descending byte order; it is as
/// long as the list of departments that parsed, each of them is in it, and
/// each of its entries is one of them.
pub proof fn lemma_index_names_descend(parsed: Seq<Option<DepartmentData>>, index: Seq<DepartmentData>)
    requires
        is_sorted_greatest_first(present(parsed), index),
    ensures
        forall|i: int, j: int|
            0 <= i < j < index.len() ==> !bytes_lt(
                encode_utf8((#[trigger] index[i]).department@),
                encode_utf8((#[trigger] index[j]).department@),
            ),
        index.len() == present(parsed).len(),
        forall|i: int| 0 <= i < index.len() ==> present(parsed).contains(#[trigger] index[i]),
        forall|i: int| 0 <= i < present(parsed).len() ==> index.contains(#[trigger] present(parsed)[i]),
{
    lemma_sorted_keys_descend(present(parsed), index);
    lemma_sorted_same_items(present(parsed), index);
    assert forall|i: int, j: int| 0 <= i < j < index.len() implies !bytes_lt(
        encode_utf8((#[trigger] index[i]).department@),
        encode_utf8((#[trigger] index[j]).department@),
    ) by {
        assert(index[i].sort_key() == encode_utf8(index[i].department@));
        assert(index[j].sort_key() == encode_utf8(index[j].department@));
    }
}

/// Where in `s` each present value stands, in increasing order.
proof fn lemma_present_positions<T>(s: Seq<Option<T>>) -> (idx: Seq<int>)
    ensures
        idx.len() == present(s).len(),
        forall|i: int|
            0 <= i < idx.len() ==> 0 <= #[trigger] idx[i] < s.len() && s[idx[i]] == Some(present(s)[i]),
        forall|i: int, j: int| 0 <= i < j < idx.len() ==> #[trigger] idx[i] < #[trigger] idx[j],
    decreases s.len(),
{
    if s.len() == 0 {
        seq![]
    } else {
        let n = s.len() - 1;
        let init = s.drop_last();
        let idx0 = lemma_present_positions(init);
        let idx = match s.last() {
            Some(_) => idx0.push(n),
            None => idx0,
        };
        assert(present(s) == match s.last() {
            Some(x) => present(init) + seq![x],
            None => present(init),
        });
        assert forall|i: int| 0 <= i < idx.len() implies 0 <= #[trigger] idx[i] < s.len() && s[idx[i]] == Some(
            present(s)[i],
        ) by {
            if i < idx0.len() {
                assert(idx[i] == idx0[i]);
                assert(init[idx0[i]] == s[idx0[i]]);
            }
        }
        assert forall|i: int, j: int| 0 <= i < j < idx.len() implies #[trigger] idx[i] < #[trigger] idx[j] by {
            assert(idx[i] == idx0[i]);
            if j < idx0.len() {
                assert(idx[j] == idx0[j]);
            }
        }
        idx
    }
}

/// Departments of the same name keep the order of their data files: of
/// two index entries with equal names, the earlier came from an earlier
/// file.
pub proof fn lemma_index_keeps_file_order(parsed: Seq<Option<DepartmentData>>, index: Seq<DepartmentData>)
    requires
        is_sorted_greatest_first(present(parsed), index),
    ensures
        forall|i: int, j: int|
            0 <= i < j < index.len() && (#[trigger] index[i]).department@ == (#[trigger] index[j]).department@
                ==> exists|fi: int, fj: int|
                0 <= fi < fj < parsed.len() && parsed[fi] == Some(index[i]) && parsed[fj] == Some(index[j]),
{
    let p = lemma_sorted_stable(present(parsed), index);
    let idx = lemma_present_positions(parsed);
    assert forall|i: int, j: int|
        0 <= i < j < index.len() && (#[trigger] index[i]).department@ == (#[trigger] index[j]).department@
            implies exists|fi: int, fj: int|
        0 <= fi < fj < parsed.len() && parsed[fi] == Some(index[i]) && parsed[fj] == Some(index[j]) by {
        assert(index[i].sort_key() == index[j].sort_key());
        assert(p[i] < p[j]);
        assert(index[i] == present(parsed)[p[i]]);
        assert(index[j] == present(parsed)[p[j]]);
        assert(parsed[idx[p[i]]] == Some(index[i]));
        assert(parsed[idx[p[j]]] == Some(index[j]));
    }
}

} // verus!
