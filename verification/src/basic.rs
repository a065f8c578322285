//! The operations: path-addressed read, auto-vivifying write, and delete
//! over a caller-owned `Value`.

use vstd::prelude::*;

use crate::error::Error;
use crate::model::key_idx;
use crate::model::lemma_key_idx;
use crate::model::spec_nav;
use crate::model::spec_remove;
use crate::model::spec_set;
use crate::model::spec_upsert;
use crate::path::parse_index;
use crate::path::seg_views;
use crate::path::spec_segments;
use crate::path::tokenize;
use crate::path::PathSeparator;
use crate::value::array_view;
use crate::value::lemma_array_view;
use crate::value::lemma_array_view_remove;
use crate::value::lemma_array_view_update;
use crate::value::lemma_object_view;
use crate::value::lemma_object_view_push;
use crate::value::lemma_object_view_remove;
use crate::value::lemma_object_view_update;
use crate::value::object_view;
use crate::value::SpecValue;
use crate::value::Value;

verus! {

/// The position of the first entry of `entries` whose key is `key`.
fn find_key(entries: &Vec<(String, Value)>, key: &String) -> (r: Option<usize>)
    ensures
        ({
            let k = key_idx(object_view(entries@), key@);
            &&& r is Some <==> k >= 0
            &&& r is Some ==> r.unwrap() == k
        }),
{
    proof {
        lemma_object_view(entries@);
        lemma_key_idx(object_view(entries@), key@);
    }
    let n = entries.len();
    let mut j: usize = 0;
    while j < n
        invariant
            n == entries@.len(),
            0 <= j <= n,
            forall|jj: int| 0 <= jj < j ==> (#[trigger] entries@[jj]).0@ != key@,
            object_view(entries@).len() == entries@.len(),
            forall|jj: int|
                0 <= jj < entries@.len() ==> #[trigger] object_view(entries@)[jj] == (
                entries@[jj].0@,
                entries@[jj].1@,
                ),
        decreases n - j,
    {
        if entries[j].0 == *key {
            proof {
                let ev = object_view(entries@);
                lemma_key_idx(ev, key@);
                let k = key_idx(ev, key@);
                assert(ev[j as int].0 == key@);
                assert(k != -1);
                assert(0 <= k < ev.len());
                assert(ev[k].0 == key@);
                if k < j {
                    assert(entries@[k].0@ != key@);
                    assert(ev[k] == (entries@[k].0@, entries@[k].1@));
                    assert(false);
                }
                if k > j {
                    assert(ev[j as int].0 != key@);
                    assert(false);
                }
            }
            return Some(j);
        }
        j += 1;
    }
    proof {
        lemma_key_idx(object_view(entries@), key@);
    }
    None
}

/// Resolve the segments from position `i` on against `v`, without mutation:
/// the addressed node, or `None` where a step cannot be taken.
fn nav_at<'a>(v: &'a Value, segs: &Vec<String>, i: usize) -> (r: Option<&'a Value>)
    requires
        i <= segs@.len(),
    ensures
        ({
            let target = spec_nav(v@, seg_views(segs@).skip(i as int));
            &&& r is Some <==> target is Some
            &&& r is Some ==> r.unwrap()@ == target.unwrap()
        }),
    decreases segs@.len() - i,
{
    proof {
        assert(seg_views(segs@).len() == segs@.len());
    }
    if i == segs.len() {
        proof {
            assert(seg_views(segs@).skip(i as int) =~= Seq::<Seq<char>>::empty());
        }
        return Some(v);
    }
    let ghost tail = seg_views(segs@).skip(i as int);
    proof {
        assert(tail[0] == segs@[i as int]@);
        assert(tail.skip(1) =~= seg_views(segs@).skip(i + 1));
    }
    let seg = &segs[i];
    match v {
        Value::Array(items) => {
            proof {
                lemma_array_view(items@);
                assert(v@ == SpecValue::Array(array_view(items@)));
            }
            match parse_index(seg.as_str()) {
                Some(idx) => {
                    if idx < items.len() {
                        proof {
                            assert(array_view(items@)[idx as int] == items@[idx as int]@);
                            assert(spec_nav(v@, tail) == spec_nav(
                                items@[idx as int]@,
                                tail.skip(1),
                            ));
                        }
                        nav_at(&items[idx], segs, i + 1)
                    } else {
                        proof {
                            assert(spec_nav(v@, tail) is None);
                        }
                        None
                    }
                },
                None => {
                    proof {
                        assert(spec_nav(v@, tail) is None);
                    }
                    None
                },
            }
        },
        Value::Object(entries) => {
            proof {
                lemma_object_view(entries@);
                lemma_key_idx(object_view(entries@), segs@[i as int]@);
                assert(v@ == SpecValue::Object(object_view(entries@)));
            }
            match find_key(entries, seg) {
                Some(j) => {
                    proof {
                        assert(object_view(entries@)[j as int].1 == entries@[j as int].1@);
                        assert(spec_nav(v@, tail) == spec_nav(
                            entries@[j as int].1@,
                            tail.skip(1),
                        ));
                    }
                    nav_at(&entries[j].1, segs, i + 1)
                },
                None => {
                    proof {
                        assert(spec_nav(v@, tail) is None);
                    }
                    None
                },
            }
        },
        _ => {
            proof {
                assert(spec_nav(v@, tail) is None);
            }
            None
        },
    }
}

/// Resolve the segments from position `i` on against `v`, for writing: an
/// exclusive reference to the addressed node, or `None` where a step cannot
/// be taken, in which case nothing is changed. The value as a whole ends up
/// as the old value with the addressed node replaced by whatever the caller
/// leaves behind the returned reference.
fn nav_mut_at<'a>(v: &'a mut Value, segs: &Vec<String>, i: usize) -> (r: Option<&'a mut Value>)
    requires
        i <= segs@.len(),
    ensures
        ({
            let tail = seg_views(segs@).skip(i as int);
            let target = spec_nav(old(v)@, tail);
            &&& r is Some <==> target is Some
            &&& target is None ==> final(v)@ == old(v)@
            &&& target is Some ==> (*r.unwrap())@ == target.unwrap() && final(v)@ == spec_set(
                old(v)@,
                tail,
                (*final(r.unwrap()))@,
            )
        }),
    decreases segs@.len() - i,
{
    proof {
        assert(seg_views(segs@).len() == segs@.len());
    }
    if i == segs.len() {
        proof {
            assert(seg_views(segs@).skip(i as int) =~= Seq::<Seq<char>>::empty());
        }
        return Some(v);
    }
    let ghost tail = seg_views(segs@).skip(i as int);
    proof {
        assert(tail[0] == segs@[i as int]@);
        assert(tail.skip(1) =~= seg_views(segs@).skip(i as int + 1));
    }
    let seg = &segs[i];
    match v {
        Value::Array(items) => {
            proof {
                lemma_array_view(items@);
            }
            match parse_index(seg.as_str()) {
                Some(idx) => {
                    if idx < items.len() {
                        let ghost items0 = items@;
                        proof {
                            assert(old(v)@ == SpecValue::Array(array_view(items0)));
                            assert(array_view(items0)[idx as int] == items0[idx as int]@);
                            assert(spec_nav(old(v)@, tail) == spec_nav(
                                items0[idx as int]@,
                                tail.skip(1),
                            ));
                            assert forall|e: Value|
                                #![trigger items0.update(idx as int, e)]
                                array_view(items0.update(idx as int, e)) == array_view(
                                    items0,
                                ).update(idx as int, e@) by {
                                lemma_array_view_update(items0, idx as int, e);
                            }
                            assert(array_view(items0).update(
                                idx as int,
                                array_view(items0)[idx as int],
                            ) =~= array_view(items0));
                        }
                        nav_mut_at(&mut items[idx], segs, i + 1)
                    } else {
                        None
                    }
                },
                None => None,
            }
        },
        Value::Object(entries) => {
            proof {
                lemma_object_view(entries@);
                lemma_key_idx(object_view(entries@), segs@[i as int]@);
            }
            match find_key(entries, seg) {
                Some(j) => {
                    let ghost entries0 = entries@;
                    proof {
                        assert(old(v)@ == SpecValue::Object(object_view(entries0)));
                        assert(object_view(entries0)[j as int] == (
                            entries0[j as int].0@,
                            entries0[j as int].1@,
                        ));
                        assert(spec_nav(old(v)@, tail) == spec_nav(
                            entries0[j as int].1@,
                            tail.skip(1),
                        ));
                        assert forall|e: (String, Value)|
                            #![trigger entries0.update(j as int, e)]
                            object_view(entries0.update(j as int, e)) == object_view(
                                entries0,
                            ).update(j as int, (e.0@, e.1@)) by {
                            lemma_object_view_update(entries0, j as int, e);
                        }
                        assert(object_view(entries0).update(
                            j as int,
                            object_view(entries0)[j as int],
                        ) =~= object_view(entries0));
                    }
                    nav_mut_at(&mut entries[j].1, segs, i + 1)
                },
                None => None,
            }
        },
        _ => None,
    }
}

/// A shared reference to the node of `json` that `path` addresses, split at
/// the configured separator, or `None` where the path resolves to nothing.
/// The empty path addresses `json` itself. Never an error: a missing key,
/// an out-of-range or unreadable index, or a scalar met before the last
/// segment are all plain absence.
pub fn get<'a>(json: &'a Value, path: &str, sep: &PathSeparator) -> (r: Option<&'a Value>)
    ensures
        ({
            let target = spec_nav(json@, spec_segments(path@, sep@));
            &&& r is Some <==> target is Some
            &&& r is Some ==> r.unwrap()@ == target.unwrap()
        }),
{
    let segs = tokenize(path, sep.get());
    proof {
        assert(seg_views(segs@).skip(0) =~= seg_views(segs@));
    }
    nav_at(json, &segs, 0)
}

/// An exclusive reference to the node of `json` that `path` addresses,
/// split at the configured separator, or `None` where the path resolves to
/// nothing, in which case `json` is left as it was. The empty path
/// addresses `json` itself. The value as a whole ends up as the old value
/// with the addressed node replaced by whatever the caller leaves behind
/// the returned reference.
pub fn get_mut<'a>(json: &'a mut Value, path: &str, sep: &PathSeparator) -> (r: Option<
    &'a mut Value,
>)
    ensures
        ({
            let target = spec_nav(old(json)@, spec_segments(path@, sep@));
            &&& r is Some <==> target is Some
            &&& target is None ==> final(json)@ == old(json)@
            &&& target is Some ==> (*r.unwrap())@ == target.unwrap() && final(json)@ == spec_set(
                old(json)@,
                spec_segments(path@, sep@),
                (*final(r.unwrap()))@,
            )
        }),
{
    let segs = tokenize(path, sep.get());
    proof {
        assert(seg_views(segs@).skip(0) =~= seg_views(segs@));
    }
    nav_mut_at(json, &segs, 0)
}

/// Walk the segments from position `i` against `v`, synthesizing whatever
/// is missing, and set the addressed node to `x`. `false` reports the one
/// impossible case: an array whose next segment does not read as an index.
/// On `false` nothing at all has been changed.
fn upsert_at(v: &mut Value, segs: &Vec<String>, i: usize, x: Value) -> (ok: bool)
    requires
        i <= segs@.len(),
    ensures
        ({
            let tail = seg_views(segs@).skip(i as int);
            let target = spec_upsert(old(v)@, tail, x@);
            &&& ok <==> target is Some
            &&& ok ==> final(v)@ == target.unwrap()
            &&& !ok ==> final(v)@ == old(v)@
        }),
    decreases segs@.len() - i,
{
    proof {
        assert(seg_views(segs@).len() == segs@.len());
    }
    if i == segs.len() {
        proof {
            assert(seg_views(segs@).skip(i as int) =~= Seq::<Seq<char>>::empty());
        }
        *v = x;
        return true;
    }
    let ghost tail = seg_views(segs@).skip(i as int);
    proof {
        assert(tail[0] == segs@[i as int]@);
        assert(tail.skip(1) =~= seg_views(segs@).skip(i as int + 1));
    }
    let seg = &segs[i];
    match v {
        Value::Array(items) => {
            proof {
                lemma_array_view(items@);
            }
            match parse_index(seg.as_str()) {
                None => false,
                Some(idx) => {
                    if idx < items.len() {
                        let ghost items0 = items@;
                        proof {
                            assert(old(v)@ == SpecValue::Array(array_view(items0)));
                            assert(array_view(items0)[idx as int] == items0[idx as int]@);
                            assert forall|e: Value|
                                #![trigger items0.update(idx as int, e)]
                                array_view(items0.update(idx as int, e)) == array_view(
                                    items0,
                                ).update(idx as int, e@) by {
                                lemma_array_view_update(items0, idx as int, e);
                            }
                            assert(array_view(items0).update(
                                idx as int,
                                array_view(items0)[idx as int],
                            ) =~= array_view(items0));
                        }
                        upsert_at(&mut items[idx], segs, i + 1, x)
                    } else {
                        let ghost items0 = items@;
                        while items.len() <= idx
                            invariant
                                items0.len() <= items@.len() <= idx as int + 1,
                                items@.subrange(0, items0.len() as int) =~= items0,
                                forall|k: int|
                                    items0.len() <= k < items@.len()
                                        ==> #[trigger] items@[k] == Value::Null,
                            decreases idx as int + 1 - items@.len(),
                        {
                            items.push(Value::Null);
                        }
                        let ghost padded = items@;
                        proof {
                            lemma_array_view(items0);
                            lemma_array_view(padded);
                            assert(old(v)@ == SpecValue::Array(array_view(items0)));
                            assert(array_view(padded) =~= crate::model::null_pad(
                                array_view(items0),
                                idx as int + 1,
                            ));
                            assert(padded[idx as int] == Value::Null);
                            crate::model::lemma_upsert_null(tail.skip(1), x@);
                            assert forall|e: Value|
                                #![trigger padded.update(idx as int, e)]
                                array_view(padded.update(idx as int, e)) == array_view(
                                    padded,
                                ).update(idx as int, e@) by {
                                lemma_array_view_update(padded, idx as int, e);
                            }
                        }
                        upsert_at(&mut items[idx], segs, i + 1, x)
                    }
                },
            }
        },
        Value::Object(entries) => {
            proof {
                lemma_object_view(entries@);
                lemma_key_idx(object_view(entries@), segs@[i as int]@);
            }
            match find_key(entries, seg) {
                Some(j) => {
                    let ghost entries0 = entries@;
                    proof {
                        assert(old(v)@ == SpecValue::Object(object_view(entries0)));
                        assert(object_view(entries0)[j as int] == (
                            entries0[j as int].0@,
                            entries0[j as int].1@,
                        ));
                        assert forall|e: (String, Value)|
                            #![trigger entries0.update(j as int, e)]
                            object_view(entries0.update(j as int, e)) == object_view(
                                entries0,
                            ).update(j as int, (e.0@, e.1@)) by {
                            lemma_object_view_update(entries0, j as int, e);
                        }
                        assert(object_view(entries0).update(
                            j as int,
                            object_view(entries0)[j as int],
                        ) =~= object_view(entries0));
                    }
                    upsert_at(&mut entries[j].1, segs, i + 1, x)
                },
                None => {
                    let ghost entries0 = entries@;
                    let key = seg.clone();
                    entries.push((key, Value::Null));
                    let j = entries.len() - 1;
                    let ghost pushed = entries@;
                    proof {
                        assert(old(v)@ == SpecValue::Object(object_view(entries0)));
                        lemma_object_view_push(entries0, (pushed[j as int].0, Value::Null));
                        assert(pushed =~= entries0.push((pushed[j as int].0, Value::Null)));
                        assert(pushed[j as int].0@ == tail[0]);
                        lemma_object_view(pushed);
                        crate::model::lemma_upsert_null(tail.skip(1), x@);
                        assert forall|e: (String, Value)|
                            #![trigger pushed.update(j as int, e)]
                            object_view(pushed.update(j as int, e)) == object_view(
                                pushed,
                            ).update(j as int, (e.0@, e.1@)) by {
                            lemma_object_view_update(pushed, j as int, e);
                        }
                        assert forall|q: SpecValue|
                            #![trigger object_view(pushed).update(j as int, (tail[0], q))]
                            object_view(pushed).update(j as int, (tail[0], q)) =~= object_view(
                                entries0,
                            ).push((tail[0], q)) by {
                            lemma_object_view(entries0);
                        }
                    }
                    upsert_at(&mut entries[j].1, segs, i + 1, x)
                },
            }
        },
        _ => {
            match parse_index(seg.as_str()) {
                Some(idx) => {
                    let mut arr: Vec<Value> = Vec::new();
                    while arr.len() <= idx
                        invariant
                            arr@.len() <= idx as int + 1,
                            forall|k: int|
                                0 <= k < arr@.len() ==> #[trigger] arr@[k] == Value::Null,
                        decreases idx as int + 1 - arr@.len(),
                    {
                        arr.push(Value::Null);
                    }
                    let ghost arr0 = arr@;
                    proof {
                        lemma_array_view(arr0);
                        assert(array_view(arr0) =~= crate::model::null_pad(
                            Seq::empty(),
                            idx as int + 1,
                        ));
                        crate::model::lemma_upsert_null(tail.skip(1), x@);
                        assert forall|e: Value|
                            #![trigger arr0.update(idx as int, e)]
                            array_view(arr0.update(idx as int, e)) == array_view(arr0).update(
                                idx as int,
                                e@,
                            ) by {
                            lemma_array_view_update(arr0, idx as int, e);
                        }
                    }
                    let ok = upsert_at(&mut arr[idx], segs, i + 1, x);
                    *v = Value::Array(arr);
                    ok
                },
                None => {
                    let mut nv = Value::Null;
                    proof {
                        crate::model::lemma_upsert_null(tail.skip(1), x@);
                    }
                    let ok = upsert_at(&mut nv, segs, i + 1, x);
                    let key = seg.clone();
                    let entry = (key, nv);
                    let ghost entry0 = entry;
                    let mut obj: Vec<(String, Value)> = Vec::new();
                    obj.push(entry);
                    proof {
                        lemma_object_view(obj@);
                        assert(object_view(obj@) =~= seq![(entry0.0@, entry0.1@)]);
                    }
                    *v = Value::Object(obj);
                    ok
                },
            }
        },
    }
}

/// Ensure that `path`, split at the configured separator, exists inside
/// `json` and set the node it addresses to `value`, synthesizing missing
/// containers along the way: a missing segment that reads as an index makes
/// an array, padded with nulls up to that index; any other missing segment
/// makes an object key; a scalar in the way is replaced by the container
/// the next segment calls for. The empty path replaces `json` wholesale.
/// The one error: an existing array met by a segment that does not read as
/// an index; then nothing is changed and the error carries the full path.
pub fn update_or_create(json: &mut Value, path: &str, value: Value, sep: &PathSeparator) -> (r:
    Result<(), Error>)
    ensures
        ({
            let target = spec_upsert(old(json)@, spec_segments(path@, sep@), value@);
            &&& r is Ok <==> target is Some
            &&& r is Ok ==> final(json)@ == target.unwrap()
            &&& r is Err ==> final(json)@ == old(json)@ && (r matches Err(
                Error::InvalidDataPath(p),
            ) && p@ == path@)
        }),
{
    let segs = tokenize(path, sep.get());
    proof {
        assert(seg_views(segs@).skip(0) =~= seg_views(segs@));
    }
    if upsert_at(json, &segs, 0, value) {
        Ok(())
    } else {
        Err(Error::InvalidDataPath(String::from_str(path)))
    }
}

/// Remove the node that the segments from position `i` on address inside
/// `v`, and hand it back. `None` where the path resolves to nothing; then
/// nothing is changed. In an array the later elements move down one place;
/// in an object the other entries keep their order.
fn remove_at(v: &mut Value, segs: &Vec<String>, i: usize) -> (r: Option<Value>)
    requires
        i < segs@.len(),
    ensures
        ({
            let tail = seg_views(segs@).skip(i as int);
            let target = spec_remove(old(v)@, tail);
            &&& r is Some <==> target is Some
            &&& r is Some ==> final(v)@ == target.unwrap().0 && r.unwrap()@
                == target.unwrap().1
            &&& r is None ==> final(v)@ == old(v)@
        }),
    decreases segs@.len() - i,
{
    proof {
        assert(seg_views(segs@).len() == segs@.len());
    }
    let ghost tail = seg_views(segs@).skip(i as int);
    proof {
        assert(tail[0] == segs@[i as int]@);
        assert(tail.skip(1) =~= seg_views(segs@).skip(i as int + 1));
    }
    let seg = &segs[i];
    if i == segs.len() - 1 {
        match v {
            Value::Object(entries) => {
                proof {
                    lemma_object_view(entries@);
                    lemma_key_idx(object_view(entries@), segs@[i as int]@);
                }
                match find_key(entries, seg) {
                    Some(j) => {
                        let ghost entries0 = entries@;
                        let pair = entries.remove(j);
                        proof {
                            lemma_object_view_remove(entries0, j as int);
                        }
                        Some(pair.1)
                    },
                    None => None,
                }
            },
            Value::Array(items) => {
                proof {
                    lemma_array_view(items@);
                }
                match parse_index(seg.as_str()) {
                    Some(idx) => {
                        if idx < items.len() {
                            let ghost items0 = items@;
                            let out = items.remove(idx);
                            proof {
                                lemma_array_view_remove(items0, idx as int);
                            }
                            Some(out)
                        } else {
                            None
                        }
                    },
                    None => None,
                }
            },
            _ => None,
        }
    } else {
        match v {
            Value::Array(items) => {
                proof {
                    lemma_array_view(items@);
                }
                match parse_index(seg.as_str()) {
                    Some(idx) => {
                        if idx < items.len() {
                            let ghost items0 = items@;
                            let rr = remove_at(&mut items[idx], segs, i + 1);
                            proof {
                                lemma_array_view(items@);
                                lemma_array_view_update(items0, idx as int, items@[idx as int]);
                                assert(items@ =~= items0.update(idx as int, items@[idx as int]));
                                if rr is None {
                                    assert(array_view(items0).update(
                                        idx as int,
                                        array_view(items0)[idx as int],
                                    ) =~= array_view(items0));
                                    assert(items@[idx as int]@ == items0[idx as int]@);
                                }
                            }
                            rr
                        } else {
                            None
                        }
                    },
                    None => None,
                }
            },
            Value::Object(entries) => {
                proof {
                    lemma_object_view(entries@);
                    lemma_key_idx(object_view(entries@), segs@[i as int]@);
                }
                match find_key(entries, seg) {
                    Some(j) => {
                        let ghost entries0 = entries@;
                        let rr = remove_at(&mut entries[j].1, segs, i + 1);
                        proof {
                            lemma_object_view(entries@);
                            lemma_object_view_update(entries0, j as int, entries@[j as int]);
                            assert(entries@ =~= entries0.update(j as int, entries@[j as int]));
                            assert(entries@[j as int].0 == entries0[j as int].0);
                            if rr is None {
                                assert(object_view(entries0).update(
                                    j as int,
                                    object_view(entries0)[j as int],
                                ) =~= object_view(entries0));
                                assert(entries@[j as int].1@ == entries0[j as int].1@);
                            }
                        }
                        rr
                    },
                    None => None,
                }
            },
            _ => None,
        }
    }
}

/// Remove and return the node of `json` that `path` addresses, split at
/// the configured separator, or `None` where the path resolves to nothing,
/// in which case `json` is left as it was. The empty path takes the whole
/// of `json`, leaving `Null` behind. Never an error: absence is the plain
/// answer `None`.
pub fn delete(json: &mut Value, path: &str, sep: &PathSeparator) -> (r: Option<Value>)
    ensures
        ({
            let target = spec_remove(old(json)@, spec_segments(path@, sep@));
            &&& r is Some <==> target is Some
            &&& r is Some ==> final(json)@ == target.unwrap().0 && r.unwrap()@
                == target.unwrap().1
            &&& r is None ==> final(json)@ == old(json)@
        }),
{
    let segs = tokenize(path, sep.get());
    if segs.len() == 0 {
        let mut out = Value::Null;
        core::mem::swap(json, &mut out);
        Some(out)
    } else {
        proof {
            assert(seg_views(segs@).skip(0) =~= seg_views(segs@));
        }
        remove_at(json, &segs, 0)
    }
}

} // verus!
