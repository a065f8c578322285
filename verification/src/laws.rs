//! The laws the operations obey, stated over the model and proved once and
//! for all.

use vstd::prelude::*;

use crate::model::key_idx;
use crate::model::lemma_key_idx;
use crate::model::lemma_key_idx_push_absent;
use crate::model::lemma_key_idx_same_keys;
use crate::model::null_pad;
use crate::model::spec_nav;
use crate::model::spec_remove;
use crate::model::spec_set;
use crate::model::spec_upsert;
use crate::path::index_val;
use crate::path::is_index;
use crate::value::SpecValue;

verus! {

/// Round trip: once an update has made a path exist and set it, navigating
/// the same path finds exactly the value that was written.
pub proof fn lemma_update_roundtrip(v: SpecValue, segs: Seq<Seq<char>>, x: SpecValue)
    requires
        spec_upsert(v, segs, x) is Some,
    ensures
        spec_nav(spec_upsert(v, segs, x).unwrap(), segs) == Some(x),
    decreases segs.len(),
{
    if segs.len() == 0 {
    } else {
        let s0 = segs[0];
        let rest = segs.skip(1);
        match v {
            SpecValue::Array(items) => {
                let i = index_val(s0);
                crate::path::lemma_digits_val_nonneg(s0);
                let padded = if i < items.len() {
                    items
                } else {
                    null_pad(items, i + 1)
                };
                lemma_update_roundtrip(padded[i], rest, x);
                assert(i < padded.len());
            },
            SpecValue::Object(entries) => {
                let k = key_idx(entries, s0);
                if k >= 0 {
                    lemma_key_idx(entries, s0);
                    lemma_update_roundtrip(entries[k].1, rest, x);
                    let nv = spec_upsert(entries[k].1, rest, x).unwrap();
                    let updated = entries.update(k, (entries[k].0, nv));
                    assert(forall|i: int|
                        0 <= i < entries.len() ==> (#[trigger] entries[i]).0 == updated[i].0);
                    lemma_key_idx_same_keys(entries, updated, s0);
                    assert(updated[k].0 == s0);
                    assert(updated[k].1 == nv);
                } else {
                    lemma_update_roundtrip(SpecValue::Null, rest, x);
                    let nv = spec_upsert(SpecValue::Null, rest, x).unwrap();
                    lemma_key_idx_push_absent(entries, s0, nv);
                    assert(entries.push((s0, nv))[entries.len() as int].1 == nv);
                }
            },
            _ => {
                lemma_update_roundtrip(SpecValue::Null, rest, x);
                if is_index(s0) {
                    let i = index_val(s0);
                    crate::path::lemma_digits_val_nonneg(s0);
                    let padded = null_pad(Seq::empty(), i + 1);
                    assert(i < padded.len());
                } else {
                    let nv = spec_upsert(SpecValue::Null, rest, x).unwrap();
                    assert(key_idx(seq![(s0, nv)], s0) == 0);
                }
            },
        }
    }
}

/// Round trip through an exclusive reference: writing a value behind the
/// reference that navigation hands out leaves the tree with that value at
/// the navigated path, so reading it again finds it.
pub proof fn lemma_set_roundtrip(v: SpecValue, segs: Seq<Seq<char>>, x: SpecValue)
    requires
        spec_nav(v, segs) is Some,
    ensures
        spec_nav(spec_set(v, segs, x), segs) == Some(x),
    decreases segs.len(),
{
    if segs.len() > 0 {
        let s0 = segs[0];
        let rest = segs.skip(1);
        match v {
            SpecValue::Array(items) => {
                let i = index_val(s0);
                crate::path::lemma_digits_val_nonneg(s0);
                lemma_set_roundtrip(items[i], rest, x);
            },
            SpecValue::Object(entries) => {
                let k = key_idx(entries, s0);
                lemma_key_idx(entries, s0);
                lemma_set_roundtrip(entries[k].1, rest, x);
                let nv = spec_set(entries[k].1, rest, x);
                let updated = entries.update(k, (entries[k].0, nv));
                assert(forall|i: int|
                    0 <= i < entries.len() ==> (#[trigger] entries[i]).0 == updated[i].0);
                lemma_key_idx_same_keys(entries, updated, s0);
                assert(updated[k].1 == nv);
            },
            _ => {},
        }
    }
}

/// No double delete: when the parent container of the addressed node is an
/// object that holds the final key only once, a delete that removed the
/// node leaves nothing more to remove, and a second delete of the same
/// path answers absence.
pub proof fn lemma_delete_twice(v: SpecValue, segs: Seq<Seq<char>>)
    requires
        segs.len() >= 1,
        spec_nav(v, segs.take(segs.len() - 1)) is Some,
        spec_nav(v, segs.take(segs.len() - 1)).unwrap() matches SpecValue::Object(entries),
        ({
            let entries = spec_nav(v, segs.take(segs.len() - 1)).unwrap()->Object_0;
            forall|i: int, j: int|
                0 <= i < entries.len() && 0 <= j < entries.len() && (#[trigger] entries[i]).0
                    == segs.last() && (#[trigger] entries[j]).0 == segs.last() ==> i == j
        }),
        spec_remove(v, segs) is Some,
    ensures
        spec_remove(spec_remove(v, segs).unwrap().0, segs) is None,
    decreases segs.len(),
{
    let s0 = segs[0];
    let rest = segs.skip(1);
    if segs.len() == 1 {
        assert(segs.take(0) =~= Seq::<Seq<char>>::empty());
        let entries = v->Object_0;
        let k = key_idx(entries, s0);
        lemma_key_idx(entries, s0);
        assert(segs.last() == s0);
        let left = entries.remove(k);
        assert forall|i: int| 0 <= i < left.len() implies (#[trigger] left[i]).0 != s0 by {
            if i < k {
                assert(left[i] == entries[i]);
            } else {
                assert(left[i] == entries[i + 1]);
                assert(entries[k].0 == s0);
                if entries[i + 1].0 == s0 {
                    assert(i + 1 == k);
                }
            }
        }
        lemma_key_idx(left, s0);
        assert(key_idx(left, s0) == -1);
    } else {
        let parent_segs = segs.take(segs.len() - 1);
        assert(parent_segs[0] == s0);
        assert(parent_segs.skip(1) =~= rest.take(rest.len() - 1));
        assert(rest.last() == segs.last());
        match v {
            SpecValue::Array(items) => {
                let i = index_val(s0);
                crate::path::lemma_digits_val_nonneg(s0);
                lemma_delete_twice(items[i], rest);
                let child = spec_remove(items[i], rest).unwrap().0;
                let w = SpecValue::Array(items.update(i, child));
                assert(spec_remove(v, segs).unwrap().0 == w);
                assert(items.update(i, child)[i] == child);
            },
            SpecValue::Object(entries) => {
                let k = key_idx(entries, s0);
                lemma_key_idx(entries, s0);
                lemma_delete_twice(entries[k].1, rest);
                let child = spec_remove(entries[k].1, rest).unwrap().0;
                let updated = entries.update(k, (entries[k].0, child));
                assert(forall|i: int|
                    0 <= i < entries.len() ==> (#[trigger] entries[i]).0 == updated[i].0);
                lemma_key_idx_same_keys(entries, updated, s0);
                assert(updated[k].1 == child);
            },
            _ => {},
        }
    }
}

/// Auto-vivification never deletes or reorders existing siblings. In an
/// object it touches at most the entry holding the first segment as key
/// and keeps every key where it was; in an array it keeps every existing
/// element but the addressed one in place and value, and whatever it adds
/// beyond the old length, below the addressed index, is null.
pub proof fn lemma_upsert_preserves_siblings(v: SpecValue, segs: Seq<Seq<char>>, x: SpecValue)
    requires
        segs.len() >= 1,
        spec_upsert(v, segs, x) is Some,
    ensures
        v is Object ==> ({
            let entries = v->Object_0;
            let res = spec_upsert(v, segs, x).unwrap()->Object_0;
            &&& res.len() >= entries.len()
            &&& forall|i: int|
                0 <= i < entries.len() ==> (#[trigger] res[i]).0 == entries[i].0
            &&& forall|i: int|
                0 <= i < entries.len() && (#[trigger] entries[i]).0 != segs[0] ==> res[i]
                    == entries[i]
        }),
        v is Array ==> ({
            let items = v->Array_0;
            let res = spec_upsert(v, segs, x).unwrap()->Array_0;
            &&& res.len() >= items.len()
            &&& forall|j: int|
                0 <= j < items.len() && j != index_val(segs[0]) ==> #[trigger] res[j] == items[j]
            &&& forall|j: int|
                items.len() <= j < res.len() && j != index_val(segs[0]) ==> #[trigger] res[j]
                    == SpecValue::Null
        }),
{
    let s0 = segs[0];
    match v {
        SpecValue::Array(items) => {
            crate::path::lemma_digits_val_nonneg(s0);
        },
        SpecValue::Object(entries) => {
            lemma_key_idx(entries, s0);
        },
        _ => {},
    }
}

/// The empty path names the root: navigation answers the whole value, an
/// update replaces it wholesale, and removal takes it all, leaving null.
pub proof fn lemma_empty_path(v: SpecValue, x: SpecValue)
    ensures
        spec_nav(v, Seq::empty()) == Some(v),
        spec_upsert(v, Seq::empty(), x) == Some(x),
        spec_remove(v, Seq::empty()) == Some((SpecValue::Null, v)),
{
}

/// Array auto-extension: writing through an index segment into an empty
/// array makes an array one longer than the index, null everywhere below
/// the index and holding the written value at it.
pub proof fn lemma_vivify_empty_array(s: Seq<char>, x: SpecValue)
    requires
        is_index(s),
    ensures
        spec_upsert(SpecValue::Array(Seq::empty()), seq![s], x) is Some,
        ({
            let arr = spec_upsert(SpecValue::Array(Seq::empty()), seq![s], x).unwrap()->Array_0;
            &&& arr.len() == index_val(s) + 1
            &&& forall|i: int| 0 <= i < index_val(s) ==> #[trigger] arr[i] == SpecValue::Null
            &&& arr[index_val(s)] == x
        }),
{
    let segs: Seq<Seq<char>> = seq![s];
    assert(segs.skip(1) =~= Seq::<Seq<char>>::empty());
    let i = index_val(s);
    crate::path::lemma_digits_val_nonneg(s);
    let padded = null_pad(Seq::empty(), i + 1);
    assert(padded.len() == i + 1);
    assert(spec_upsert(SpecValue::Null, segs.skip(1), x) == Some(x));
}

} // verus!

