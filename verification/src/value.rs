//! The values the command parses, merges and prints, and their model.

use vstd::prelude::*;

use crate::number::Num;

verus! {

/// A number as the contracts see it.
pub struct NumModel {
    pub negative: bool,
    pub digits: Seq<u8>,
    pub exponent: int,
}

/// A value as the contracts see it: the JavaScript values a relaxed-JSON
/// parse can produce, with an object as its entries in enumeration order.
pub enum Json {
    Undefined,
    Null,
    Bool(bool),
    Number(NumModel),
    Str(Seq<char>),
    Array(Seq<Json>),
    Object(Seq<(Seq<char>, Json)>),
}

/// A parsed value. `Undefined` is what an empty source parses to; a
/// `Str` is any string, quoted in the source or not; an `Object` keeps
/// its entries in the order the source wrote them.
#[derive(Debug)]
pub enum Value {
    Undefined,
    Null,
    Bool(bool),
    Number(Num),
    Str(String),
    Array(Vec<Value>),
    Object(Vec<(String, Value)>),
}

impl View for Num {
    type V = NumModel;

    open spec fn view(&self) -> NumModel {
        NumModel { negative: self.negative, digits: self.digits@, exponent: self.exponent as int }
    }
}

impl NumModel {
    pub open spec fn wf(self) -> bool {
        &&& forall|i: int| 0 <= i < self.digits.len() ==> #[trigger] self.digits[i] < 10
        &&& self.digits.len() > 0 ==> self.digits[0] != 0 && self.digits[self.digits.len() - 1]
            != 0
        &&& -crate::number::EXPONENT_LIMIT <= self.exponent <= crate::number::EXPONENT_LIMIT
        &&& self.digits.len() <= crate::number::EXPONENT_LIMIT
    }
}

impl Value {
    pub open spec fn model(self) -> Json
        decreases self,
    {
        match self {
            Value::Undefined => Json::Undefined,
            Value::Null => Json::Null,
            Value::Bool(b) => Json::Bool(b),
            Value::Number(n) => Json::Number(n@),
            Value::Str(s) => Json::Str(s@),
            Value::Array(items) => Json::Array(models(items@)),
            Value::Object(entries) => Json::Object(entry_models(entries@)),
        }
    }
}

/// The models of a run of values.
pub open spec fn models(items: Seq<Value>) -> Seq<Json>
    decreases items,
{
    if items.len() == 0 {
        Seq::empty()
    } else {
        models(items.drop_last()).push(items.last().model())
    }
}

/// The models of a run of object entries.
pub open spec fn entry_models(entries: Seq<(String, Value)>) -> Seq<(Seq<char>, Json)>
    decreases entries,
{
    if entries.len() == 0 {
        Seq::empty()
    } else {
        entry_models(entries.drop_last()).push(
            (entries.last().0@, entries.last().1.model()),
        )
    }
}

pub proof fn lemma_models(items: Seq<Value>)
    ensures
        models(items).len() == items.len(),
        forall|i: int| 0 <= i < items.len() ==> #[trigger] models(items)[i] == items[i].model(),
    decreases items.len(),
{
    if items.len() > 0 {
        lemma_models(items.drop_last());
    }
}

pub proof fn lemma_entry_models(entries: Seq<(String, Value)>)
    ensures
        entry_models(entries).len() == entries.len(),
        forall|i: int|
            0 <= i < entries.len() ==> #[trigger] entry_models(entries)[i] == (
                entries[i].0@,
                entries[i].1.model(),
            ),
    decreases entries.len(),
{
    if entries.len() > 0 {
        lemma_entry_models(entries.drop_last());
    }
}

impl View for Value {
    type V = Json;

    open spec fn view(&self) -> Json {
        self.model()
    }
}

/// No two entries share a key.
pub open spec fn keys_unique(entries: Seq<(Seq<char>, Json)>) -> bool {
    forall|i: int, j: int|
        0 <= i < j < entries.len() ==> #[trigger] entries[i].0 != #[trigger] entries[j].0
}

impl Json {
    /// Every number well formed and every object's keys distinct, at every
    /// depth.
    pub open spec fn wf(self) -> bool
        decreases self,
    {
        match self {
            Json::Number(n) => n.wf(),
            Json::Array(items) => all_wf(items),
            Json::Object(entries) => keys_unique(entries) && all_entries_wf(entries),
            _ => true,
        }
    }
}

/// Every item well formed.
pub open spec fn all_wf(items: Seq<Json>) -> bool
    decreases items,
{
    items.len() == 0 || (all_wf(items.drop_last()) && items.last().wf())
}

/// Every entry's value well formed.
pub open spec fn all_entries_wf(entries: Seq<(Seq<char>, Json)>) -> bool
    decreases entries,
{
    entries.len() == 0 || (all_entries_wf(entries.drop_last()) && entries.last().1.wf())
}

pub proof fn lemma_all_wf(items: Seq<Json>)
    ensures
        all_wf(items) <==> forall|i: int| 0 <= i < items.len() ==> #[trigger] items[i].wf(),
    decreases items.len(),
{
    if items.len() > 0 {
        lemma_all_wf(items.drop_last());
        if all_wf(items) {
            assert forall|i: int| 0 <= i < items.len() implies #[trigger] items[i].wf() by {
                if i < items.len() - 1 {
                    assert(items[i] == items.drop_last()[i]);
                }
            }
        }
        if forall|i: int| 0 <= i < items.len() ==> #[trigger] items[i].wf() {
            assert forall|i: int| 0 <= i < items.len() - 1 implies #[trigger] items.drop_last()[i].wf() by {
                assert(items[i] == items.drop_last()[i]);
            }
            assert(items.last().wf());
        }
    }
}

pub proof fn lemma_all_entries_wf(entries: Seq<(Seq<char>, Json)>)
    ensures
        all_entries_wf(entries) <==> forall|i: int|
            0 <= i < entries.len() ==> #[trigger] entries[i].1.wf(),
    decreases entries.len(),
{
    if entries.len() > 0 {
        lemma_all_entries_wf(entries.drop_last());
        if all_entries_wf(entries) {
            assert forall|i: int| 0 <= i < entries.len() implies #[trigger] entries[i].1.wf() by {
                if i < entries.len() - 1 {
                    assert(entries[i] == entries.drop_last()[i]);
                }
            }
        }
        if forall|i: int| 0 <= i < entries.len() ==> #[trigger] entries[i].1.wf() {
            assert forall|i: int| 0 <= i < entries.len() - 1 implies #[trigger] entries.drop_last()[i].1.wf() by {
                assert(entries[i] == entries.drop_last()[i]);
            }
            assert(entries.last().1.wf());
        }
    }
}

impl Value {
    /// A copy of the whole tree.
    #[verifier::loop_isolation(false)]
    pub fn copy(&self) -> (out: Value)
        ensures
            out@ == self@,
        decreases self,
    {
        match self {
            Value::Undefined => Value::Undefined,
            Value::Null => Value::Null,
            Value::Bool(b) => Value::Bool(*b),
            Value::Number(n) => Value::Number(n.copy()),
            Value::Str(s) => Value::Str(s.clone()),
            Value::Array(items) => {
                let mut out: Vec<Value> = Vec::new();
                let mut i: usize = 0;
                while i < items.len()
                    invariant
                        i <= items@.len(),
                        out@.len() == i,
                        forall|j: int| 0 <= j < i ==> #[trigger] out@[j]@ == items@[j]@,
                    decreases items@.len() - i,
                {
                    proof {
                        assert(decreases_to!(*self => (*self)->Array_0));
                        assert(decreases_to!(*items => items@));
                        assert(decreases_to!(items@ => items@[i as int]));
                    }
                    out.push(items[i].copy());
                    i = i + 1;
                }
                let r = Value::Array(out);
                proof {
                    lemma_models(out@);
                    lemma_models(items@);
                    assert forall|j: int| 0 <= j < out@.len() implies models(out@)[j] == models(
                        items@,
                    )[j] by {
                        assert(out@[j]@ == items@[j]@);
                    }
                    assert(models(out@) =~= models(items@));
                }
                r
            }
            Value::Object(entries) => {
                let mut out: Vec<(String, Value)> = Vec::new();
                let mut i: usize = 0;
                while i < entries.len()
                    invariant
                        i <= entries@.len(),
                        out@.len() == i,
                        forall|j: int|
                            0 <= j < i ==> (#[trigger] out@[j]).0@ == entries@[j].0@ && out@[j].1@
                                == entries@[j].1@,
                    decreases entries@.len() - i,
                {
                    let entry = &entries[i];
                    proof {
                        assert(decreases_to!(*self => (*self)->Object_0));
                        assert(decreases_to!(*entries => entries@));
                        assert(decreases_to!(entries@ => entries@[i as int]));
                        assert(decreases_to!(entries@[i as int] => entries@[i as int].1));
                    }
                    out.push((entry.0.clone(), entry.1.copy()));
                    i = i + 1;
                }
                let r = Value::Object(out);
                proof {
                    lemma_entry_models(out@);
                    lemma_entry_models(entries@);
                    assert forall|j: int| 0 <= j < out@.len() implies entry_models(out@)[j]
                        == entry_models(entries@)[j] by {
                        assert(out@[j].0@ == entries@[j].0@ && out@[j].1@ == entries@[j].1@);
                    }
                    assert(entry_models(out@) =~= entry_models(entries@));
                }
                r
            }
        }
    }
}

} // verus!
