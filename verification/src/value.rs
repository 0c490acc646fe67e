use vstd::prelude::*;

verus! {

broadcast use vstd::std_specs::vec::axiom_vec_index_decreases;

/// A value of the format: a scalar, a list of values, or an object whose
/// entries are sorted by key, each key occurring once. The parser and
/// `into_map` give objects in that order, and the writer requires it (see
/// `ordered::objects_ordered`).
#[derive(Debug, PartialEq)]
pub enum Value {
    Null,
    Bool(bool),
    Int(i64),
    /// A floating-point number, held as its decimal text.
    Float(String),
    Str(String),
    List(Vec<Value>),
    Object(Vec<(String, Value)>),
}

/// The mathematical model of a [`Value`]: strings as sequences of chars.
pub enum SpecValue {
    Null,
    Bool(bool),
    Int(i64),
    Float(Seq<char>),
    Str(Seq<char>),
    List(Seq<SpecValue>),
    Object(Seq<(Seq<char>, SpecValue)>),
}

pub open spec fn value_view(v: Value) -> SpecValue
    decreases v,
{
    match v {
        Value::Null => SpecValue::Null,
        Value::Bool(b) => SpecValue::Bool(b),
        Value::Int(i) => SpecValue::Int(i),
        Value::Float(t) => SpecValue::Float(t@),
        Value::Str(t) => SpecValue::Str(t@),
        Value::List(items) => SpecValue::List(
            Seq::new(
                items.len() as nat,
                |i: int|
                    if 0 <= i < items.len() {
                        value_view(items[i])
                    } else {
                        SpecValue::Null
                    },
            ),
        ),
        Value::Object(entries) => SpecValue::Object(
            Seq::new(
                entries.len() as nat,
                |i: int|
                    if 0 <= i < entries.len() {
                        (entries[i].0@, value_view(entries[i].1))
                    } else {
                        (Seq::empty(), SpecValue::Null)
                    },
            ),
        ),
    }
}

impl View for Value {
    type V = SpecValue;

    open spec fn view(&self) -> SpecValue {
        value_view(*self)
    }
}

/// The model of a sequence of (key, value) pairs.
pub open spec fn fields_view(fields: Seq<(String, Value)>) -> Seq<(Seq<char>, SpecValue)> {
    Seq::new(fields.len(), |i: int| (fields[i].0@, fields[i].1@))
}

/// The models of a sequence of values.
pub open spec fn values_view(values: Seq<Value>) -> Seq<SpecValue> {
    Seq::new(values.len(), |i: int| values[i]@)
}

/// The model of a list is the list of its items' models.
pub proof fn lemma_list_view(items: Vec<Value>)
    ensures
        Value::List(items)@ == SpecValue::List(values_view(items@)),
{
    assert(value_view(Value::List(items))->List_0 =~= values_view(items@));
}

/// The model of an object is the sequence of its entries' models.
pub proof fn lemma_object_view(entries: Vec<(String, Value)>)
    ensures
        Value::Object(entries)@ == SpecValue::Object(fields_view(entries@)),
{
    assert(value_view(Value::Object(entries))->Object_0 =~= fields_view(entries@));
}


impl Clone for Value {
    /// A copy of the value, equal to it in every part.
    fn clone(&self) -> (out: Self)
        ensures
            out@ == self@,
        decreases self,
    {
        match self {
            Value::Null => Value::Null,
            Value::Bool(b) => Value::Bool(*b),
            Value::Int(i) => Value::Int(*i),
            Value::Float(t) => Value::Float(t.clone()),
            Value::Str(t) => Value::Str(t.clone()),
            Value::List(items) => {
                let mut out: Vec<Value> = Vec::new();
                let mut i: usize = 0;
                while i < items.len()
                    invariant
                        0 <= i <= items.len(),
                        *self == Value::List(*items),
                        out.len() == i,
                        forall|j: int| 0 <= j < i ==> (#[trigger] out@[j])@ == items@[j]@,
                    decreases items.len() - i,
                {
                    proof {
                        let ghost v = *self;
                        assert(decreases_to!(v => v->List_0));
                        assert(decreases_to!(v->List_0 => v->List_0[i as int]));
                    }
                    let c = items[i].clone();
                    out.push(c);
                    i = i + 1;
                }
                proof {
                    lemma_list_view(out);
                    lemma_list_view(*items);
                    assert(values_view(out@) =~= values_view(items@));
                }
                Value::List(out)
            },
            Value::Object(entries) => {
                let mut out: Vec<(String, Value)> = Vec::new();
                let mut i: usize = 0;
                while i < entries.len()
                    invariant
                        0 <= i <= entries.len(),
                        *self == Value::Object(*entries),
                        out.len() == i,
                        forall|j: int| 0 <= j < i ==> (#[trigger] out@[j]).0@ == entries@[j].0@ && out@[j].1@ == entries@[j].1@,
                    decreases entries.len() - i,
                {
                    proof {
                        let ghost v = *self;
                        assert(decreases_to!(v => v->Object_0));
                        assert(decreases_to!(v->Object_0 => v->Object_0[i as int]));
                        assert(decreases_to!(v->Object_0[i as int] => v->Object_0[i as int].1));
                    }
                    let k = entries[i].0.clone();
                    let c = entries[i].1.clone();
                    out.push((k, c));
                    i = i + 1;
                }
                proof {
                    lemma_object_view(out);
                    lemma_object_view(*entries);
                    assert(fields_view(out@) =~= fields_view(entries@));
                }
                Value::Object(out)
            },
        }
    }
}

} // verus!
