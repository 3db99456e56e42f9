//! The merge that folds each parsed source over the ones before it:
//! jsonic's deep merge, which never copies a prototype-reaching key.

use vstd::prelude::*;

use crate::text::chars_eq;
use crate::value::{entry_models, keys_unique, lemma_entry_models, lemma_models, models, Json, Value};

verus! {

/// `__proto__`, `constructor` and `prototype`: the keys the merge never
/// copies from an overlay.
pub open spec fn is_dangerous(key: Seq<char>) -> bool {
    ||| key == seq!['_', '_', 'p', 'r', 'o', 't', 'o', '_', '_']
    ||| key == seq!['c', 'o', 'n', 's', 't', 'r', 'u', 'c', 't', 'o', 'r']
    ||| key == seq!['p', 'r', 'o', 't', 'o', 't', 'y', 'p', 'e']
}

/// The position of the first entry keyed `key`, or `-1`.
pub open spec fn key_index(entries: Seq<(Seq<char>, Json)>, key: Seq<char>) -> int
    decreases entries.len(),
{
    if entries.len() == 0 {
        -1
    } else if entries[0].0 == key {
        0
    } else {
        let rest = key_index(entries.drop_first(), key);
        if rest < 0 {
            -1
        } else {
            rest + 1
        }
    }
}

/// jsonic's deep merge of `over` into `base`: objects merge by key and arrays by index,
/// anything the overlay does not mention stays as it was, an `undefined`
/// overlay leaves the base alone, a container overlay onto a base that is
/// not a container of its kind is merged into a fresh empty one, and any
/// other overlay replaces the base.
pub open spec fn deep(base: Json, over: Json) -> Json
    decreases over,
{
    match over {
        Json::Undefined => base,
        Json::Object(oe) => match base {
            Json::Object(be) => Json::Object(merge_entries(be, oe)),
            _ => Json::Object(merge_entries(Seq::empty(), oe)),
        },
        Json::Array(oi) => match base {
            Json::Array(bi) => Json::Array(merge_items(bi, oi)),
            _ => Json::Array(merge_items(Seq::empty(), oi)),
        },
        _ => over,
    }
}

/// Fold the overlay's entries into `base` in order: a dangerous key is
/// skipped, a key `base` already has is merged where it stands, and a new
/// key is merged onto `undefined` and appended.
pub open spec fn merge_entries(
    base: Seq<(Seq<char>, Json)>,
    over: Seq<(Seq<char>, Json)>,
) -> Seq<(Seq<char>, Json)>
    decreases over,
{
    if over.len() == 0 {
        base
    } else {
        let prev = merge_entries(base, over.drop_last());
        let key = over.last().0;
        if is_dangerous(key) {
            prev
        } else {
            let at = key_index(prev, key);
            if at >= 0 {
                prev.update(at, (key, deep(prev[at].1, over.last().1)))
            } else {
                prev.push((key, deep(Json::Undefined, over.last().1)))
            }
        }
    }
}

/// Fold the overlay's items into `base` by index; an index past the end
/// of `base` is merged onto `undefined` and appended.
pub open spec fn merge_items(base: Seq<Json>, over: Seq<Json>) -> Seq<Json>
    decreases over,
{
    if over.len() == 0 {
        base
    } else {
        let prev = merge_items(base, over.drop_last());
        let at = over.len() - 1;
        if at < prev.len() {
            prev.update(at, deep(prev[at], over.last()))
        } else {
            prev.push(deep(Json::Undefined, over.last()))
        }
    }
}

proof fn lemma_merge_items_len(base: Seq<Json>, over: Seq<Json>)
    ensures
        merge_items(base, over).len() == if base.len() < over.len() {
            over.len()
        } else {
            base.len()
        },
    decreases over.len(),
{
    if over.len() > 0 {
        lemma_merge_items_len(base, over.drop_last());
    }
}

pub(crate) proof fn lemma_key_index(entries: Seq<(Seq<char>, Json)>, key: Seq<char>)
    ensures
        -1 <= key_index(entries, key) < entries.len(),
        key_index(entries, key) >= 0 ==> entries[key_index(entries, key)].0 == key,
        key_index(entries, key) >= 0 ==> forall|j: int|
            0 <= j < key_index(entries, key) ==> entries[j].0 != key,
        key_index(entries, key) < 0 ==> forall|j: int|
            0 <= j < entries.len() ==> entries[j].0 != key,
    decreases entries.len(),
{
    if entries.len() > 0 && entries[0].0 != key {
        lemma_key_index(entries.drop_first(), key);
        assert forall|j: int| 1 <= j < entries.len() implies entries[j].0
            == entries.drop_first()[j - 1].0 by {}
    }
}

fn is_dangerous_key(key: &String) -> (r: bool)
    ensures
        r == is_dangerous(key@),
{
    let chars = crate::text::chars_of(key.as_str());
    let proto = vec!['_', '_', 'p', 'r', 'o', 't', 'o', '_', '_'];
    let construct = vec!['c', 'o', 'n', 's', 't', 'r', 'u', 'c', 't', 'o', 'r'];
    let prototype = vec!['p', 'r', 'o', 't', 'o', 't', 'y', 'p', 'e'];
    assert(proto@ =~= seq!['_', '_', 'p', 'r', 'o', 't', 'o', '_', '_']);
    assert(construct@ =~= seq!['c', 'o', 'n', 's', 't', 'r', 'u', 'c', 't', 'o', 'r']);
    assert(prototype@ =~= seq!['p', 'r', 'o', 't', 'o', 't', 'y', 'p', 'e']);
    chars_eq(&chars, &proto) || chars_eq(&chars, &construct) || chars_eq(&chars, &prototype)
}

/// The position of the first entry of `entries` keyed `key`.
pub(crate) fn find_key(entries: &Vec<(String, Value)>, key: &String) -> (r: Option<usize>)
    ensures
        match r {
            Some(i) => key_index(entry_models(entries@), key@) == i,
            None => key_index(entry_models(entries@), key@) == -1,
        },
{
    proof {
        lemma_entry_models(entries@);
        lemma_key_index(entry_models(entries@), key@);
    }
    let mut i: usize = 0;
    while i < entries.len()
        invariant
            i <= entries@.len(),
            entry_models(entries@).len() == entries@.len(),
            forall|j: int|
                0 <= j < entries@.len() ==> #[trigger] entry_models(entries@)[j] == (
                    entries@[j].0@,
                    entries@[j].1@,
                ),
            forall|j: int| 0 <= j < i ==> entries@[j].0@ != key@,
            -1 <= key_index(entry_models(entries@), key@) < entries@.len(),
            key_index(entry_models(entries@), key@) >= 0 ==> entry_models(entries@)[key_index(
                entry_models(entries@),
                key@,
            )].0 == key@,
            key_index(entry_models(entries@), key@) >= 0 ==> forall|j: int|
                0 <= j < key_index(entry_models(entries@), key@) ==> entry_models(entries@)[j].0
                    != key@,
            key_index(entry_models(entries@), key@) < 0 ==> forall|j: int|
                0 <= j < entries@.len() ==> entry_models(entries@)[j].0 != key@,
        decreases entries@.len() - i,
    {
        if entries[i].0 == *key {
            assert(entry_models(entries@)[i as int].0 == key@);
            return Some(i);
        }
        i = i + 1;
    }
    None
}


proof fn lemma_merge_entries_step(base: Seq<(Seq<char>, Json)>, over: Seq<(Seq<char>, Json)>, i: int)
    requires
        0 <= i < over.len(),
    ensures
        merge_entries(base, over.take(i + 1)) == ({
            let prev = merge_entries(base, over.take(i));
            let key = over[i].0;
            if is_dangerous(key) {
                prev
            } else {
                let at = key_index(prev, key);
                if at >= 0 {
                    prev.update(at, (key, deep(prev[at].1, over[i].1)))
                } else {
                    prev.push((key, deep(Json::Undefined, over[i].1)))
                }
            }
        }),
{
    assert(over.take(i + 1).drop_last() =~= over.take(i));
}

proof fn lemma_merge_items_step(base: Seq<Json>, over: Seq<Json>, i: int)
    requires
        0 <= i < over.len(),
    ensures
        merge_items(base, over.take(i + 1)) == ({
            let prev = merge_items(base, over.take(i));
            if i < prev.len() {
                prev.update(i, deep(prev[i], over[i]))
            } else {
                prev.push(deep(Json::Undefined, over[i]))
            }
        }),
{
    assert(over.take(i + 1).drop_last() =~= over.take(i));
}

/// Merge `over` into `base`: see [`deep`].
pub fn merge(base: Value, over: Value) -> (out: Value)
    ensures
        out@ == deep(base@, over@),
    decreases over@,
{
    match over {
        Value::Undefined => base,
        Value::Object(oe) => {
            let be = match base {
                Value::Object(be) => be,
                _ => {
                    let empty: Vec<(String, Value)> = Vec::new();
                    assert(entry_models(empty@) =~= Seq::empty());
                    empty
                },
            };
            proof {
                assert(decreases_to!(over@ => entry_models(oe@)));
            }
            let merged = merge_object(be, oe);
            Value::Object(merged)
        },
        Value::Array(oi) => {
            let bi = match base {
                Value::Array(bi) => bi,
                _ => {
                    let empty: Vec<Value> = Vec::new();
                    assert(models(empty@) =~= Seq::empty());
                    empty
                },
            };
            proof {
                assert(decreases_to!(over@ => models(oi@)));
            }
            let merged = merge_array(bi, oi);
            Value::Array(merged)
        },
        other => other,
    }
}

/// Fold the entries of `over` into `base`.
#[verifier::loop_isolation(false)]
fn merge_object(base: Vec<(String, Value)>, over: Vec<(String, Value)>) -> (out: Vec<(String, Value)>)
    ensures
        entry_models(out@) == merge_entries(entry_models(base@), entry_models(over@)),
    decreases entry_models(over@),
{
    let ghost om = entry_models(over@);
    let ghost bm = entry_models(base@);
    proof {
        lemma_entry_models(over@);
        assert(om.take(0) =~= Seq::<(Seq<char>, Json)>::empty());
    }
    let mut acc = base;
    let mut over = over;
    let n = over.len();
    let mut i: usize = 0;
    while i < n
        invariant
            n == over@.len(),
            om.len() == n,
            i <= n,
            forall|j: int| i <= j < n ==> (#[trigger] over@[j]).0@ == om[j].0 && over@[j].1@ == om[j].1,
            entry_models(acc@) == merge_entries(bm, om.take(i as int)),
        decreases n - i,
    {
        let mut slot: (String, Value) = (String::new(), Value::Undefined);
        over.set_and_swap(i, &mut slot);
        let (key, value) = slot;
        proof {
            lemma_merge_entries_step(bm, om, i as int);
            lemma_entry_models(acc@);
        }
        let ghost prev = entry_models(acc@);
        if is_dangerous_key(&key) {
        } else {
            match find_key(&acc, &key) {
                Some(at) => {
                    proof {
                        lemma_key_index(prev, key@);
                    }
                    let mut held: (String, Value) = (String::new(), Value::Undefined);
                    acc.set_and_swap(at, &mut held);
                    proof {
                        assert(decreases_to!(om => om[i as int]));
                        assert(decreases_to!(om[i as int] => om[i as int].1));
                    }
                    let merged = merge(held.1, value);
                    acc.set(at, (key, merged));
                    proof {
                        lemma_entry_models(acc@);
                        assert(entry_models(acc@) =~= prev.update(
                            at as int,
                            (om[i as int].0, deep(prev[at as int].1, om[i as int].1)),
                        ));
                    }
                },
                None => {
                    proof {
                        assert(decreases_to!(om => om[i as int]));
                        assert(decreases_to!(om[i as int] => om[i as int].1));
                    }
                    let merged = merge(Value::Undefined, value);
                    acc.push((key, merged));
                    proof {
                        lemma_entry_models(acc@);
                        assert(entry_models(acc@) =~= prev.push(
                            (om[i as int].0, deep(Json::Undefined, om[i as int].1)),
                        ));
                    }
                },
            }
        }
        i = i + 1;
    }
    assert(om.take(n as int) =~= om);
    acc
}

/// Fold the items of `over` into `base`, index by index.
#[verifier::loop_isolation(false)]
fn merge_array(base: Vec<Value>, over: Vec<Value>) -> (out: Vec<Value>)
    ensures
        models(out@) == merge_items(models(base@), models(over@)),
    decreases models(over@),
{
    let ghost om = models(over@);
    let ghost bm = models(base@);
    proof {
        lemma_models(over@);
        assert(om.take(0) =~= Seq::<Json>::empty());
    }
    let mut acc = base;
    let mut over = over;
    let n = over.len();
    let mut i: usize = 0;
    while i < n
        invariant
            n == over@.len(),
            om.len() == n,
            i <= n,
            forall|j: int| i <= j < n ==> (#[trigger] over@[j])@ == om[j],
            models(acc@) == merge_items(bm, om.take(i as int)),
        decreases n - i,
    {
        let mut slot: Value = Value::Undefined;
        over.set_and_swap(i, &mut slot);
        proof {
            lemma_merge_items_step(bm, om, i as int);
            lemma_models(acc@);
            assert(decreases_to!(om => om[i as int]));
        }
        let ghost prev = models(acc@);
        if i < acc.len() {
            let mut held: Value = Value::Undefined;
            acc.set_and_swap(i, &mut held);
            let merged = merge(held, slot);
            acc.set(i, merged);
            proof {
                lemma_models(acc@);
                assert(models(acc@) =~= prev.update(i as int, deep(prev[i as int], om[i as int])));
            }
        } else {
            let merged = merge(Value::Undefined, slot);
            acc.push(merged);
            proof {
                lemma_models(acc@);
                assert(models(acc@) =~= prev.push(deep(Json::Undefined, om[i as int])));
            }
        }
        i = i + 1;
    }
    assert(om.take(n as int) =~= om);
    acc
}


// ---------------------------------------------------------------------
// What the merge keeps
// ---------------------------------------------------------------------

/// Merging keeps a value well formed: every object's keys stay distinct
/// and every number stays normalized, at every depth.
pub proof fn lemma_deep_wf(base: Json, over: Json)
    requires
        base.wf(),
        over.wf(),
    ensures
        deep(base, over).wf(),
    decreases over,
{
    match over {
        Json::Object(oe) => {
            crate::value::lemma_all_entries_wf(oe);
            let be = match base {
                Json::Object(be) => be,
                _ => Seq::empty(),
            };
            if let Json::Object(b) = base {
                crate::value::lemma_all_entries_wf(b);
            }
            lemma_merge_entries_wf(be, oe);
            crate::value::lemma_all_entries_wf(merge_entries(be, oe));
        },
        Json::Array(oi) => {
            crate::value::lemma_all_wf(oi);
            let bi = match base {
                Json::Array(bi) => bi,
                _ => Seq::empty(),
            };
            if let Json::Array(b) = base {
                crate::value::lemma_all_wf(b);
            }
            lemma_merge_items_wf(bi, oi);
            crate::value::lemma_all_wf(merge_items(bi, oi));
        },
        _ => {},
    }
}

proof fn lemma_merge_entries_wf(base: Seq<(Seq<char>, Json)>, over: Seq<(Seq<char>, Json)>)
    requires
        keys_unique(base),
        forall|i: int| 0 <= i < base.len() ==> (#[trigger] base[i]).1.wf(),
        forall|i: int| 0 <= i < over.len() ==> (#[trigger] over[i]).1.wf(),
    ensures
        keys_unique(merge_entries(base, over)),
        forall|i: int|
            0 <= i < merge_entries(base, over).len() ==> (#[trigger] merge_entries(
                base,
                over,
            )[i]).1.wf(),
    decreases over,
{
    if over.len() > 0 {
        let rest = over.drop_last();
        assert forall|i: int| 0 <= i < rest.len() implies (#[trigger] rest[i]).1.wf() by {
            assert(rest[i] == over[i]);
        }
        lemma_merge_entries_wf(base, rest);
        let prev = merge_entries(base, rest);
        let key = over.last().0;
        assert(over.last() == over[over.len() - 1]);
        if !is_dangerous(key) {
            lemma_key_index(prev, key);
            let at = key_index(prev, key);
            if at >= 0 {
                assert(decreases_to!(over => over[over.len() - 1]));
                lemma_deep_wf(prev[at].1, over.last().1);
                let next = prev.update(at, (key, deep(prev[at].1, over.last().1)));
                assert forall|i: int, j: int| 0 <= i < j < next.len() implies #[trigger] next[i].0
                    != #[trigger] next[j].0 by {
                    assert(prev[i].0 != prev[j].0);
                }
            } else {
                lemma_deep_wf(Json::Undefined, over.last().1);
                let next = prev.push((key, deep(Json::Undefined, over.last().1)));
                assert forall|i: int, j: int| 0 <= i < j < next.len() implies #[trigger] next[i].0
                    != #[trigger] next[j].0 by {
                    if j < prev.len() {
                        assert(prev[i].0 != prev[j].0);
                    } else {
                        assert(prev[i].0 != key);
                    }
                }
                assert forall|i: int| 0 <= i < next.len() implies (#[trigger] next[i]).1.wf() by {
                    if i < prev.len() {
                        assert(next[i] == prev[i]);
                    }
                }
            }
        }
    }
}

proof fn lemma_merge_items_wf(base: Seq<Json>, over: Seq<Json>)
    requires
        forall|i: int| 0 <= i < base.len() ==> (#[trigger] base[i]).wf(),
        forall|i: int| 0 <= i < over.len() ==> (#[trigger] over[i]).wf(),
    ensures
        forall|i: int|
            0 <= i < merge_items(base, over).len() ==> (#[trigger] merge_items(base, over)[i]).wf(),
    decreases over,
{
    if over.len() > 0 {
        let rest = over.drop_last();
        assert forall|i: int| 0 <= i < rest.len() implies (#[trigger] rest[i]).wf() by {
            assert(rest[i] == over[i]);
        }
        lemma_merge_items_wf(base, rest);
        let prev = merge_items(base, rest);
        let at = over.len() - 1;
        assert(over.last() == over[at]);
        assert(decreases_to!(over => over[at]));
        if at < prev.len() {
            lemma_deep_wf(prev[at], over.last());
        } else {
            lemma_deep_wf(Json::Undefined, over.last());
            let next = prev.push(deep(Json::Undefined, over.last()));
            assert forall|i: int| 0 <= i < next.len() implies (#[trigger] next[i]).wf() by {
                if i < prev.len() {
                    assert(next[i] == prev[i]);
                }
            }
        }
    }
}


/// No object at any depth has a dangerous key.
pub open spec fn clean(v: Json) -> bool
    decreases v,
{
    match v {
        Json::Object(entries) => clean_entries(entries),
        Json::Array(items) => clean_items(items),
        _ => true,
    }
}

/// The entry is not keyed dangerously, and its value is clean.
pub open spec fn entry_clean(entry: (Seq<char>, Json)) -> bool
    decreases entry,
{
    !is_dangerous(entry.0) && clean(entry.1)
}

/// No entry is keyed dangerously, and every entry's value is clean.
pub open spec fn clean_entries(entries: Seq<(Seq<char>, Json)>) -> bool
    decreases entries,
{
    entries.len() == 0 || (clean_entries(entries.drop_last()) && entry_clean(entries.last()))
}

/// Every item is clean.
pub open spec fn clean_items(items: Seq<Json>) -> bool
    decreases items,
{
    items.len() == 0 || (clean_items(items.drop_last()) && clean(items.last()))
}

proof fn lemma_clean_entries(entries: Seq<(Seq<char>, Json)>)
    ensures
        clean_entries(entries) <==> forall|i: int|
            0 <= i < entries.len() ==> #[trigger] entry_clean(entries[i]),
    decreases entries.len(),
{
    if entries.len() > 0 {
        let rest = entries.drop_last();
        lemma_clean_entries(rest);
        if clean_entries(entries) {
            assert forall|i: int| 0 <= i < entries.len() implies #[trigger] entry_clean(entries[i]) by {
                if i < entries.len() - 1 {
                    assert(entries[i] == rest[i]);
                    assert(entry_clean(rest[i]));
                } else {
                    assert(entries[i] == entries.last());
                }
            }
        }
        if forall|i: int| 0 <= i < entries.len() ==> #[trigger] entry_clean(entries[i]) {
            assert forall|i: int| 0 <= i < rest.len() implies #[trigger] entry_clean(rest[i]) by {
                assert(rest[i] == entries[i]);
            }
            assert(entries.last() == entries[entries.len() - 1]);
            assert(entry_clean(entries[entries.len() - 1]));
        }
    }
}

proof fn lemma_clean_items(items: Seq<Json>)
    ensures
        clean_items(items) <==> forall|i: int| 0 <= i < items.len() ==> clean(#[trigger] items[i]),
    decreases items.len(),
{
    if items.len() > 0 {
        let rest = items.drop_last();
        lemma_clean_items(rest);
        if clean_items(items) {
            assert forall|i: int| 0 <= i < items.len() implies clean(#[trigger] items[i]) by {
                if i < items.len() - 1 {
                    assert(items[i] == rest[i]);
                }
            }
        }
        if forall|i: int| 0 <= i < items.len() ==> clean(#[trigger] items[i]) {
            assert forall|i: int| 0 <= i < rest.len() implies clean(#[trigger] rest[i]) by {
                assert(rest[i] == items[i]);
            }
            assert(items.last() == items[items.len() - 1]);
        }
    }
}

/// The dangerous keys never come from an overlay: merging anything at
/// all over a base with no dangerous key, at any depth, gives a value
/// with none either. In particular every merge over the `null` the
/// command starts from drops `__proto__`, `constructor` and `prototype`
/// at every level.
pub proof fn lemma_deep_clean(base: Json, over: Json)
    requires
        clean(base),
    ensures
        clean(deep(base, over)),
    decreases over,
{
    match over {
        Json::Object(oe) => {
            let be = match base {
                Json::Object(be) => be,
                _ => Seq::empty(),
            };
            lemma_clean_entries(be);
            lemma_merge_entries_clean(be, oe);
        },
        Json::Array(oi) => {
            let bi = match base {
                Json::Array(bi) => bi,
                _ => Seq::empty(),
            };
            lemma_clean_items(bi);
            lemma_merge_items_clean(bi, oi);
        },
        _ => {},
    }
}

proof fn lemma_merge_entries_clean(base: Seq<(Seq<char>, Json)>, over: Seq<(Seq<char>, Json)>)
    requires
        clean_entries(base),
    ensures
        clean_entries(merge_entries(base, over)),
    decreases over,
{
    if over.len() > 0 {
        let rest = over.drop_last();
        lemma_merge_entries_clean(base, rest);
        let prev = merge_entries(base, rest);
        let key = over.last().0;
        assert(over.last() == over[over.len() - 1]);
        if !is_dangerous(key) {
            lemma_clean_entries(prev);
            lemma_key_index(prev, key);
            let at = key_index(prev, key);
            let next = merge_entries(base, over);
            if at >= 0 {
                assert(decreases_to!(over => over[over.len() - 1]));
                assert(entry_clean(prev[at]));
                lemma_deep_clean(prev[at].1, over.last().1);
                assert forall|i: int| 0 <= i < next.len() implies #[trigger] entry_clean(next[i]) by {
                    if i != at {
                        assert(next[i] == prev[i]);
                    }
                }
            } else {
                lemma_deep_clean(Json::Undefined, over.last().1);
                assert forall|i: int| 0 <= i < next.len() implies #[trigger] entry_clean(next[i]) by {
                    if i < prev.len() {
                        assert(next[i] == prev[i]);
                    }
                }
            }
            lemma_clean_entries(next);
        }
    }
}

proof fn lemma_merge_items_clean(base: Seq<Json>, over: Seq<Json>)
    requires
        clean_items(base),
    ensures
        clean_items(merge_items(base, over)),
    decreases over,
{
    if over.len() > 0 {
        let rest = over.drop_last();
        lemma_merge_items_clean(base, rest);
        let prev = merge_items(base, rest);
        lemma_clean_items(prev);
        let at = over.len() - 1;
        assert(over.last() == over[at]);
        assert(decreases_to!(over => over[at]));
        let next = merge_items(base, over);
        if at < prev.len() {
            lemma_deep_clean(prev[at], over.last());
            assert forall|i: int| 0 <= i < next.len() implies clean(#[trigger] next[i]) by {
                if i != at {
                    assert(next[i] == prev[i]);
                }
            }
        } else {
            lemma_deep_clean(Json::Undefined, over.last());
            assert forall|i: int| 0 <= i < next.len() implies clean(#[trigger] next[i]) by {
                if i < prev.len() {
                    assert(next[i] == prev[i]);
                }
            }
        }
        lemma_clean_items(next);
    }
}

/// An `undefined` overlay leaves the base as it was: an empty source is
/// a no-op.
pub proof fn lemma_deep_undefined(base: Json)
    ensures
        deep(base, Json::Undefined) == base,
{
}

/// A scalar overlay replaces the base, whatever the base was.
pub proof fn lemma_deep_scalar(base: Json, over: Json)
    requires
        !(over is Undefined),
        !(over is Object),
        !(over is Array),
    ensures
        deep(base, over) == over,
{
}

/// Merging objects keeps every key of the base where it sat, so the
/// printed key order of what came first is kept; the overlay's new keys
/// follow.
pub proof fn lemma_merge_keeps_positions(base: Seq<(Seq<char>, Json)>, over: Seq<(Seq<char>, Json)>)
    ensures
        merge_entries(base, over).len() >= base.len(),
        forall|i: int| 0 <= i < base.len() ==> #[trigger] merge_entries(base, over)[i].0 == base[i].0,
    decreases over.len(),
{
    if over.len() > 0 {
        lemma_merge_keeps_positions(base, over.drop_last());
        let prev = merge_entries(base, over.drop_last());
        lemma_key_index(prev, over.last().0);
    }
}

/// Merging arrays goes by index: the result is as long as the longer of
/// the two.
pub proof fn lemma_merge_array_length(base: Seq<Json>, over: Seq<Json>)
    ensures
        merge_items(base, over).len() == if base.len() < over.len() {
            over.len()
        } else {
            base.len()
        },
{
    lemma_merge_items_len(base, over);
}


// ---------------------------------------------------------------------
// Merging the same overlay twice
// ---------------------------------------------------------------------

proof fn lemma_key_index_at(entries: Seq<(Seq<char>, Json)>, key: Seq<char>, p: int)
    requires
        0 <= p < entries.len(),
        entries[p].0 == key,
        forall|j: int| 0 <= j < p ==> entries[j].0 != key,
    ensures
        key_index(entries, key) == p,
{
    lemma_key_index(entries, key);
}

/// Every overlay entry that is not dangerous stands in `merged` at the
/// first position of its key, as its value merged over something.
pub open spec fn settled(merged: Seq<(Seq<char>, Json)>, over: Seq<(Seq<char>, Json)>) -> bool {
    forall|i: int|
        0 <= i < over.len() && !is_dangerous(#[trigger] over[i].0) ==> {
            let p = key_index(merged, over[i].0);
            &&& 0 <= p < merged.len()
            &&& exists|x: Json| merged[p].1 == deep(x, over[i].1)
        }
}

proof fn lemma_merge_entries_settled(base: Seq<(Seq<char>, Json)>, over: Seq<(Seq<char>, Json)>)
    requires
        keys_unique(over),
    ensures
        settled(merge_entries(base, over), over),
    decreases over.len(),
{
    if over.len() > 0 {
        let rest = over.drop_last();
        assert(keys_unique(rest)) by {
            assert forall|i: int, j: int| 0 <= i < j < rest.len() implies #[trigger] rest[i].0
                != #[trigger] rest[j].0 by {
                assert(over[i].0 != over[j].0);
            }
        }
        lemma_merge_entries_settled(base, rest);
        let prev = merge_entries(base, rest);
        let n = over.len() - 1;
        let key = over.last().0;
        let v = over.last().1;
        let merged = merge_entries(base, over);
        lemma_key_index(prev, key);
        let at = key_index(prev, key);
        assert forall|i: int|
            0 <= i < over.len() && !is_dangerous(#[trigger] over[i].0) implies {
                let p = key_index(merged, over[i].0);
                &&& 0 <= p < merged.len()
                &&& exists|x: Json| merged[p].1 == deep(x, over[i].1)
            } by {
            if i == n {
                if at >= 0 {
                    assert forall|j: int| 0 <= j < at implies merged[j].0 != key by {
                        assert(merged[j] == prev[j]);
                    }
                    lemma_key_index_at(merged, key, at);
                    assert(merged[at].1 == deep(prev[at].1, v));
                } else {
                    assert forall|j: int| 0 <= j < prev.len() implies merged[j].0 != key by {
                        assert(merged[j] == prev[j]);
                    }
                    lemma_key_index_at(merged, key, prev.len() as int);
                    assert(merged[prev.len() as int].1 == deep(Json::Undefined, v));
                }
            } else {
                let k = over[i].0;
                assert(rest[i] == over[i]);
                let p = key_index(prev, k);
                assert(0 <= p < prev.len());
                let x = choose|x: Json| prev[p].1 == #[trigger] deep(x, rest[i].1);
                if !is_dangerous(key) {
                    assert(key != k);
                    lemma_key_index(prev, k);
                    assert(prev[p].0 == k);
                    if at >= 0 {
                        assert(at != p);
                    }
                    assert(merged[p] == prev[p]);
                    assert forall|j: int| 0 <= j < p implies merged[j].0 != k by {
                        assert(merged[j].0 == prev[j].0);
                    }
                    lemma_key_index_at(merged, k, p);
                    assert(merged[p].1 == deep(x, over[i].1));
                } else {
                    assert(merged == prev);
                    assert(merged[p].1 == deep(x, over[i].1));
                }
            }
        }
    }
}

proof fn lemma_merge_items_shape(base: Seq<Json>, over: Seq<Json>)
    ensures
        merge_items(base, over).len() == if base.len() < over.len() {
            over.len()
        } else {
            base.len()
        },
        forall|i: int|
            0 <= i < merge_items(base, over).len() ==> #[trigger] merge_items(base, over)[i] == if i
                < over.len() {
                deep(if i < base.len() { base[i] } else { Json::Undefined }, over[i])
            } else {
                base[i]
            },
    decreases over.len(),
{
    lemma_merge_items_len(base, over);
    if over.len() > 0 {
        let rest = over.drop_last();
        lemma_merge_items_shape(base, rest);
        lemma_merge_items_len(base, rest);
        let prev = merge_items(base, rest);
        let merged = merge_items(base, over);
        let at = over.len() - 1;
        assert forall|i: int| 0 <= i < merged.len() implies #[trigger] merged[i] == if i
            < over.len() {
            deep(if i < base.len() { base[i] } else { Json::Undefined }, over[i])
        } else {
            base[i]
        } by {
            if i < at {
                assert(rest[i] == over[i]);
                assert(merged[i] == prev[i]);
            } else if i == at {
                assert(over.last() == over[at]);
            } else {
                assert(merged[i] == prev[i]);
            }
        }
    }
}

/// Merging the same overlay a second time changes nothing.
pub proof fn lemma_deep_twice(base: Json, over: Json)
    requires
        over.wf(),
    ensures
        deep(deep(base, over), over) == deep(base, over),
    decreases over, 0int,
{
    match over {
        Json::Object(oe) => {
            crate::value::lemma_all_entries_wf(oe);
            let be = match base {
                Json::Object(be) => be,
                _ => Seq::empty(),
            };
            let m = merge_entries(be, oe);
            lemma_merge_entries_settled(be, oe);
            assert(deep(base, over) == Json::Object(m));
            lemma_entries_second_pass(m, oe, oe.len() as int);
            assert(oe.take(oe.len() as int) =~= oe);
        },
        Json::Array(oi) => {
            crate::value::lemma_all_wf(oi);
            let bi = match base {
                Json::Array(bi) => bi,
                _ => Seq::empty(),
            };
            let m = merge_items(bi, oi);
            lemma_merge_items_shape(bi, oi);
            assert forall|i: int| 0 <= i < oi.len() implies #[trigger] item_settled(m, oi, i) by {
                let x = if i < bi.len() { bi[i] } else { Json::Undefined };
                assert(m[i] == deep(x, oi[i]));
            }
            lemma_items_second_pass(m, oi, oi.len() as int);
            assert(oi.take(oi.len() as int) =~= oi);
        },
        _ => {},
    }
}

proof fn lemma_entries_second_pass(merged: Seq<(Seq<char>, Json)>, over: Seq<(Seq<char>, Json)>, j: int)
    requires
        settled(merged, over),
        forall|i: int| 0 <= i < over.len() ==> (#[trigger] over[i]).1.wf(),
        0 <= j <= over.len(),
    ensures
        merge_entries(merged, over.take(j)) == merged,
    decreases over, j,
{
    if j == 0 {
        assert(over.take(0) =~= Seq::<(Seq<char>, Json)>::empty());
    } else {
        lemma_entries_second_pass(merged, over, j - 1);
        assert(over.take(j).drop_last() =~= over.take(j - 1));
        assert(over.take(j).last() == over[j - 1]);
        let k = over[j - 1].0;
        let v = over[j - 1].1;
        if !is_dangerous(k) {
            let p = key_index(merged, k);
            let x = choose|x: Json| merged[p].1 == #[trigger] deep(x, over[j - 1].1);
            assert(decreases_to!(over => over[j - 1]));
            lemma_deep_twice(x, v);
            lemma_key_index(merged, k);
            assert(merged.update(p, (k, deep(merged[p].1, v))) =~= merged);
        }
    }
}

/// The `i`th overlay item stands at index `i` of `merged`, merged over
/// something.
pub open spec fn item_settled(merged: Seq<Json>, over: Seq<Json>, i: int) -> bool {
    i < merged.len() && exists|x: Json| merged[i] == #[trigger] deep(x, over[i])
}

proof fn lemma_items_second_pass(merged: Seq<Json>, over: Seq<Json>, j: int)
    requires
        forall|i: int| 0 <= i < over.len() ==> #[trigger] item_settled(merged, over, i),
        forall|i: int| 0 <= i < over.len() ==> (#[trigger] over[i]).wf(),
        0 <= j <= over.len(),
    ensures
        merge_items(merged, over.take(j)) == merged,
    decreases over, j,
{
    if j == 0 {
        assert(over.take(0) =~= Seq::<Json>::empty());
    } else {
        lemma_items_second_pass(merged, over, j - 1);
        assert(over.take(j).drop_last() =~= over.take(j - 1));
        assert(over.take(j).last() == over[j - 1]);
        let v = over[j - 1];
        assert(item_settled(merged, over, j - 1));
        let x = choose|x: Json| merged[j - 1] == #[trigger] deep(x, over[j - 1]);
        assert(decreases_to!(over => over[j - 1]));
        lemma_deep_twice(x, v);
        assert(merged.update(j - 1, deep(merged[j - 1], v)) =~= merged);
    }
}

} // verus!
