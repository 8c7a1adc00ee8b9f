//! A fully evaluated Jsonnet value, as the parsers produce it and the
//! manifest functions render it.

use vstd::prelude::*;

verus! {

/// A fully evaluated value. A number is held as its decimal text; the
/// fields of an object are its visible fields, in order.
#[derive(Debug)]
pub enum Value {
    Null,
    Bool(bool),
    Number(String),
    String(String),
    Array(Vec<Value>),
    Object(Vec<(String, Value)>),
}

/// The mathematical model of a [`Value`].
pub enum ValueModel {
    Null,
    Bool(bool),
    Number(Seq<char>),
    String(Seq<char>),
    Array(Seq<ValueModel>),
    Object(Seq<(Seq<char>, ValueModel)>),
}

/// A field's model: its name and the model of its value.
pub open spec fn field_model(name: Seq<char>, value: ValueModel) -> (Seq<char>, ValueModel) {
    (name, value)
}

impl View for Value {
    type V = ValueModel;

    open spec fn view(&self) -> ValueModel
        decreases self,
    {
        match self {
            Value::Null => ValueModel::Null,
            Value::Bool(b) => ValueModel::Bool(*b),
            Value::Number(n) => ValueModel::Number(n@),
            Value::String(s) => ValueModel::String(s@),
            Value::Array(items) => ValueModel::Array(
                Seq::new(
                    items@.len(),
                    |i: int|
                        if 0 <= i < items@.len() {
                            items@[i].view()
                        } else {
                            ValueModel::Null
                        },
                ),
            ),
            Value::Object(fields) => {
                let values = Seq::new(
                    fields@.len(),
                    |i: int|
                        if 0 <= i < fields@.len() {
                            fields@[i].1.view()
                        } else {
                            ValueModel::Null
                        },
                );
                ValueModel::Object(Seq::new(fields@.len(), |i: int| field_model(fields@[i].0@, values[i])))
            },
        }
    }
}

/// The models of a sequence of values.
pub open spec fn view_items(items: Seq<Value>) -> Seq<ValueModel> {
    items.map_values(|v: Value| v@)
}

/// The models of a sequence of fields.
pub open spec fn view_fields(fields: Seq<(String, Value)>) -> Seq<(Seq<char>, ValueModel)> {
    fields.map_values(|f: (String, Value)| (f.0@, f.1@))
}

/// The model of an array is the models of its items.
pub proof fn lemma_view_array(items: Vec<Value>)
    ensures
        Value::Array(items)@ == ValueModel::Array(view_items(items@)),
{
    let m = Value::Array(items)@;
    if let ValueModel::Array(s) = m {
        let t = view_items(items@);
        assert(s.len() == t.len());
        assert forall|i: int| 0 <= i < s.len() implies s[i] == t[i] by {
            assert(s[i] == items@[i]@);
        }
        assert(s =~= t);
    }
}

/// The model of an object is the models of its fields.
pub proof fn lemma_view_object(fields: Vec<(String, Value)>)
    ensures
        Value::Object(fields)@ == ValueModel::Object(view_fields(fields@)),
{
    let v = Value::Object(fields);
    let m = v@;
    assert(m is Object);
    let s = m->Object_0;
    let t = view_fields(fields@);
    assert(s.len() == fields@.len());
    assert(t.len() == fields@.len());
    assert forall|i: int| 0 <= i < s.len() implies s[i] == t[i] by {
        assert(s[i] == (fields@[i].0@, fields@[i].1@));
        assert(t[i] == (fields@[i].0@, fields@[i].1@));
    }
    assert(s =~= t);
}

/// A copy of a value.
pub fn copy_value(v: &Value) -> (res: Value)
    ensures
        res@ == v@,
    decreases v, 1nat,
{
    match v {
        Value::Null => Value::Null,
        Value::Bool(b) => Value::Bool(*b),
        Value::Number(n) => Value::Number(n.clone()),
        Value::String(s) => Value::String(s.clone()),
        Value::Array(items) => copy_array(v, items),
        Value::Object(fields) => copy_object(v, fields),
    }
}

fn copy_array(v: &Value, items: &Vec<Value>) -> (res: Value)
    requires
        *v == Value::Array(*items),
    ensures
        res@ == v@,
    decreases v, 0nat,
{
    proof {
        lemma_view_array(*items);
    }
    let mut out: Vec<Value> = Vec::new();
    let mut i: usize = 0;
    while i < items.len()
        invariant
            0 <= i <= items@.len(),
            *v == Value::Array(*items),
            view_items(out@) == view_items(items@).subrange(0, i as int),
        decreases items@.len() - i,
    {
        proof {
            assert(decreases_to!(*v => (*v)->Array_0));
            assert(decreases_to!(*items => items@));
            assert(decreases_to!(items@ => items@[i as int]));
        }
        let c = copy_value(&items[i]);
        let ghost before = out@;
        out.push(c);
        proof {
            assert(view_items(items@)[i as int] == items@[i as int]@);
            assert(view_items(out@) =~= view_items(before).push(c@));
            assert(view_items(items@).subrange(0, i + 1) =~= view_items(items@).subrange(0, i as int).push(
                items@[i as int]@,
            ));
        }
        i += 1;
    }
    proof {
        assert(view_items(items@).subrange(0, i as int) =~= view_items(items@));
        lemma_view_array(out);
    }
    Value::Array(out)
}

fn copy_object(v: &Value, fields: &Vec<(String, Value)>) -> (res: Value)
    requires
        *v == Value::Object(*fields),
    ensures
        res@ == v@,
    decreases v, 0nat,
{
    proof {
        lemma_view_object(*fields);
    }
    let mut out: Vec<(String, Value)> = Vec::new();
    let mut i: usize = 0;
    while i < fields.len()
        invariant
            0 <= i <= fields@.len(),
            *v == Value::Object(*fields),
            view_fields(out@) == view_fields(fields@).subrange(0, i as int),
        decreases fields@.len() - i,
    {
        proof {
            assert(decreases_to!(*v => (*v)->Object_0));
            assert(decreases_to!(*fields => fields@));
            assert(decreases_to!(fields@ => fields@[i as int]));
            assert(decreases_to!(fields@[i as int] => fields@[i as int].1));
        }
        let c = copy_value(&fields[i].1);
        let name = fields[i].0.clone();
        let ghost before = out@;
        out.push((name, c));
        proof {
            assert(view_fields(fields@)[i as int] == (fields@[i as int].0@, fields@[i as int].1@));
            assert(view_fields(out@) =~= view_fields(before).push((name@, c@)));
            assert(view_fields(fields@).subrange(0, i + 1) =~= view_fields(fields@).subrange(0, i as int).push(
                (fields@[i as int].0@, fields@[i as int].1@),
            ));
        }
        i += 1;
    }
    proof {
        assert(view_fields(fields@).subrange(0, i as int) =~= view_fields(fields@));
        lemma_view_object(out);
    }
    Value::Object(out)
}

} // verus!
