//! The mathematical model of the operations: navigation, auto-vivifying
//! update and removal over `SpecValue`, with a path already split into
//! segments.

use vstd::prelude::*;

use crate::path::index_val;
use crate::path::is_index;
use crate::value::SpecValue;

verus! {

/// The position of the first entry of `entries` whose key is `key`, or `-1`
/// when no entry has it.
pub open spec fn key_idx(entries: Seq<(Seq<char>, SpecValue)>, key: Seq<char>) -> int
    decreases entries.len(),
{
    if entries.len() == 0 {
        -1
    } else if entries[0].0 == key {
        0
    } else {
        let r = key_idx(entries.skip(1), key);
        if r < 0 {
            -1
        } else {
            r + 1
        }
    }
}

/// What `key_idx` finds: `-1` exactly when the key is absent, and otherwise
/// the first entry holding the key.
pub proof fn lemma_key_idx(entries: Seq<(Seq<char>, SpecValue)>, key: Seq<char>)
    ensures
        key_idx(entries, key) == -1 || 0 <= key_idx(entries, key) < entries.len(),
        key_idx(entries, key) == -1 <==> (forall|i: int|
            0 <= i < entries.len() ==> (#[trigger] entries[i]).0 != key),
        key_idx(entries, key) >= 0 ==> entries[key_idx(entries, key)].0 == key,
        key_idx(entries, key) >= 0 ==> (forall|i: int|
            0 <= i < key_idx(entries, key) ==> (#[trigger] entries[i]).0 != key),
    decreases entries.len(),
{
    if entries.len() > 0 && entries[0].0 != key {
        lemma_key_idx(entries.skip(1), key);
        assert(forall|i: int|
            1 <= i < entries.len() ==> entries.skip(1)[i - 1] == #[trigger] entries[i]);
    }
}

/// `key_idx` reads only the keys: two entry sequences with the same keys in
/// the same order agree on it.
pub proof fn lemma_key_idx_same_keys(
    e1: Seq<(Seq<char>, SpecValue)>,
    e2: Seq<(Seq<char>, SpecValue)>,
    key: Seq<char>,
)
    requires
        e1.len() == e2.len(),
        forall|i: int| 0 <= i < e1.len() ==> (#[trigger] e1[i]).0 == e2[i].0,
    ensures
        key_idx(e1, key) == key_idx(e2, key),
    decreases e1.len(),
{
    if e1.len() > 0 {
        lemma_key_idx_same_keys(e1.skip(1), e2.skip(1), key);
        assert(forall|i: int| 1 <= i < e1.len() ==> e1.skip(1)[i - 1] == #[trigger] e1[i]);
        assert(forall|i: int| 1 <= i < e2.len() ==> e2.skip(1)[i - 1] == #[trigger] e2[i]);
    }
}

/// A key pushed onto entries that lack it is found at the end.
pub proof fn lemma_key_idx_push_absent(
    entries: Seq<(Seq<char>, SpecValue)>,
    key: Seq<char>,
    val: SpecValue,
)
    requires
        key_idx(entries, key) == -1,
    ensures
        key_idx(entries.push((key, val)), key) == entries.len(),
    decreases entries.len(),
{
    if entries.len() == 0 {
        assert(entries.push((key, val))[0].0 == key);
    } else {
        lemma_key_idx_push_absent(entries.skip(1), key, val);
        assert(entries.push((key, val)).skip(1) =~= entries.skip(1).push((key, val)));
    }
}

/// Navigation: resolve segments against a value, step by step. An array is
/// entered by a segment that reads as an in-range index; an object by a
/// segment that is one of its keys; nothing else is entered. No step, no
/// allocation, no mutation: absence is the answer `None`.
pub open spec fn spec_nav(v: SpecValue, segs: Seq<Seq<char>>) -> Option<SpecValue>
    decreases segs.len(),
{
    if segs.len() == 0 {
        Some(v)
    } else {
        match v {
            SpecValue::Array(items) => {
                if is_index(segs[0]) && index_val(segs[0]) < items.len() {
                    spec_nav(items[index_val(segs[0])], segs.skip(1))
                } else {
                    None
                }
            },
            SpecValue::Object(entries) => {
                let k = key_idx(entries, segs[0]);
                if k >= 0 {
                    spec_nav(entries[k].1, segs.skip(1))
                } else {
                    None
                }
            },
            _ => None,
        }
    }
}

/// The value with the node at an existing path replaced: `v` with the node
/// that `segs` addresses replaced by `x`. Where the path does not resolve,
/// the value is left as it is.
pub open spec fn spec_set(v: SpecValue, segs: Seq<Seq<char>>, x: SpecValue) -> SpecValue
    decreases segs.len(),
{
    if segs.len() == 0 {
        x
    } else {
        match v {
            SpecValue::Array(items) => {
                if is_index(segs[0]) && index_val(segs[0]) < items.len() {
                    let i = index_val(segs[0]);
                    SpecValue::Array(items.update(i, spec_set(items[i], segs.skip(1), x)))
                } else {
                    v
                }
            },
            SpecValue::Object(entries) => {
                let k = key_idx(entries, segs[0]);
                if k >= 0 {
                    SpecValue::Object(
                        entries.update(k, (entries[k].0, spec_set(entries[k].1, segs.skip(1), x))),
                    )
                } else {
                    v
                }
            },
            _ => v,
        }
    }
}

/// An array extended with nulls up to length `n`.
pub open spec fn null_pad(items: Seq<SpecValue>, n: int) -> Seq<SpecValue> {
    items + Seq::new((n - items.len()) as nat, |i: int| SpecValue::Null)
}

/// Auto-vivifying update: make the path exist and set it to `x`. Existing
/// structure is walked; missing structure is synthesized, its shape read
/// off each missing segment (an index segment makes an array, any other a
/// new object key). An array met by a segment that does not read as an
/// index refuses the whole update: the result is `None` and nothing else.
pub open spec fn spec_upsert(v: SpecValue, segs: Seq<Seq<char>>, x: SpecValue) -> Option<
    SpecValue,
>
    decreases segs.len(),
{
    if segs.len() == 0 {
        Some(x)
    } else {
        let s0 = segs[0];
        let rest = segs.skip(1);
        match v {
            SpecValue::Array(items) => {
                if !is_index(s0) {
                    None
                } else {
                    let i = index_val(s0);
                    let padded = if i < items.len() {
                        items
                    } else {
                        null_pad(items, i + 1)
                    };
                    match spec_upsert(padded[i], rest, x) {
                        Some(nv) => Some(SpecValue::Array(padded.update(i, nv))),
                        None => None,
                    }
                }
            },
            SpecValue::Object(entries) => {
                let k = key_idx(entries, s0);
                if k >= 0 {
                    match spec_upsert(entries[k].1, rest, x) {
                        Some(nv) => Some(
                            SpecValue::Object(entries.update(k, (entries[k].0, nv))),
                        ),
                        None => None,
                    }
                } else {
                    match spec_upsert(SpecValue::Null, rest, x) {
                        Some(nv) => Some(SpecValue::Object(entries.push((s0, nv)))),
                        None => None,
                    }
                }
            },
            _ => {
                if is_index(s0) {
                    let i = index_val(s0);
                    let padded = null_pad(Seq::empty(), i + 1);
                    match spec_upsert(SpecValue::Null, rest, x) {
                        Some(nv) => Some(SpecValue::Array(padded.update(i, nv))),
                        None => None,
                    }
                } else {
                    match spec_upsert(SpecValue::Null, rest, x) {
                        Some(nv) => Some(SpecValue::Object(seq![(s0, nv)])),
                        None => None,
                    }
                }
            },
        }
    }
}

/// Synthesis from nothing cannot fail: an update into a fresh `Null` node
/// always succeeds, whatever segments remain.
pub proof fn lemma_upsert_null(segs: Seq<Seq<char>>, x: SpecValue)
    ensures
        spec_upsert(SpecValue::Null, segs, x) is Some,
    decreases segs.len(),
{
    if segs.len() > 0 {
        lemma_upsert_null(segs.skip(1), x);
    }
}

/// Removal: take the node at the path out of its parent container and hand
/// it back beside the value that remains. With no segments the root itself
/// is taken and `Null` remains. Absence is `None`: nothing is removed.
pub open spec fn spec_remove(v: SpecValue, segs: Seq<Seq<char>>) -> Option<
    (SpecValue, SpecValue),
>
    decreases segs.len(),
{
    if segs.len() == 0 {
        Some((SpecValue::Null, v))
    } else if segs.len() == 1 {
        let s0 = segs[0];
        match v {
            SpecValue::Object(entries) => {
                let k = key_idx(entries, s0);
                if k >= 0 {
                    Some((SpecValue::Object(entries.remove(k)), entries[k].1))
                } else {
                    None
                }
            },
            SpecValue::Array(items) => {
                if is_index(s0) && index_val(s0) < items.len() {
                    let i = index_val(s0);
                    Some((SpecValue::Array(items.remove(i)), items[i]))
                } else {
                    None
                }
            },
            _ => None,
        }
    } else {
        let s0 = segs[0];
        let rest = segs.skip(1);
        match v {
            SpecValue::Array(items) => {
                if is_index(s0) && index_val(s0) < items.len() {
                    let i = index_val(s0);
                    match spec_remove(items[i], rest) {
                        Some(p) => Some((SpecValue::Array(items.update(i, p.0)), p.1)),
                        None => None,
                    }
                } else {
                    None
                }
            },
            SpecValue::Object(entries) => {
                let k = key_idx(entries, s0);
                if k >= 0 {
                    match spec_remove(entries[k].1, rest) {
                        Some(p) => Some(
                            (SpecValue::Object(entries.update(k, (entries[k].0, p.0))), p.1),
                        ),
                        None => None,
                    }
                } else {
                    None
                }
            },
            _ => None,
        }
    }
}

} // verus!
