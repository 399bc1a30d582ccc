//! The tree-shaped values held by the settings store.
//!
//! A stored value is an arbitrary JSON-shaped tree: scalars, arrays and
//! objects. The store treats values opaquely; only key-based traversal
//! interprets their structure. A numeric leaf keeps its decimal text, so
//! that the store never reinterprets a number it merely carries.

use vstd::prelude::*;

verus! {

broadcast use vstd::std_specs::vec::group_vec_axioms;

/// Mathematical model of a stored value, used by every contract that
/// speaks about what a value holds.
pub ghost enum ValueModel {
    Null,
    Bool(bool),
    Number(Seq<char>),
    Text(Seq<char>),
    Array(Seq<ValueModel>),
    Object(Seq<(Seq<char>, ValueModel)>),
}

/// A JSON-shaped tree of settings data.
#[derive(Debug)]
pub enum Value {
    Null,
    Bool(bool),
    Number(String),
    Text(String),
    Array(Vec<Value>),
    Object(Vec<(String, Value)>),
}

impl Value {
    /// The mathematical value of this tree.
    pub open spec fn model(self) -> ValueModel
        decreases self,
    {
        match self {
            Value::Null => ValueModel::Null,
            Value::Bool(b) => ValueModel::Bool(b),
            Value::Number(s) => ValueModel::Number(s@),
            Value::Text(s) => ValueModel::Text(s@),
            Value::Array(items) => ValueModel::Array(model_items(self->Array_0@)),
            Value::Object(members) => ValueModel::Object(model_members(self->Object_0@)),
        }
    }
}

/// The models of the elements of an array, in order.
pub open spec fn model_items(s: Seq<Value>) -> Seq<ValueModel>
    decreases s,
{
    if s.len() == 0 {
        Seq::empty()
    } else {
        seq![s[0].model()] + model_items(s.subrange(1, s.len() as int))
    }
}

/// The models of the members of an object, in order.
pub open spec fn model_members(s: Seq<(String, Value)>) -> Seq<(Seq<char>, ValueModel)>
    decreases s,
{
    if s.len() == 0 {
        Seq::empty()
    } else {
        seq![(s[0].0@, s[0].1.model())] + model_members(s.subrange(1, s.len() as int))
    }
}

/// `model_items` maps each element to its model.
pub broadcast proof fn lemma_model_items(s: Seq<Value>)
    ensures
        (#[trigger] model_items(s)).len() == s.len(),
        forall|i: int| 0 <= i < s.len() ==> model_items(s)[i] == s[i].model(),
    decreases s.len(),
{
    if s.len() > 0 {
        lemma_model_items(s.subrange(1, s.len() as int));
    }
}

/// `model_members` maps each member to its name and model.
pub broadcast proof fn lemma_model_members(s: Seq<(String, Value)>)
    ensures
        (#[trigger] model_members(s)).len() == s.len(),
        forall|i: int| 0 <= i < s.len() ==> model_members(s)[i] == (s[i].0@, s[i].1.model()),
    decreases s.len(),
{
    if s.len() > 0 {
        lemma_model_members(s.subrange(1, s.len() as int));
    }
}

impl View for Value {
    type V = ValueModel;

    open spec fn view(&self) -> ValueModel {
        self.model()
    }
}

impl DeepView for Value {
    type V = ValueModel;

    open spec fn deep_view(&self) -> ValueModel {
        self.model()
    }
}

impl Value {
    /// A deep copy whose model is exactly the model of the original.
    #[verifier::loop_isolation(false)]
    pub fn duplicate(&self) -> (r: Value)
        ensures
            r@ == self@,
        decreases *self,
    {
        broadcast use lemma_model_items, lemma_model_members;

        match self {
            Value::Null => Value::Null,
            Value::Bool(b) => Value::Bool(*b),
            Value::Number(s) => Value::Number(s.clone()),
            Value::Text(s) => Value::Text(s.clone()),
            Value::Array(items) => {
                let mut out: Vec<Value> = Vec::new();
                let mut i: usize = 0;
                while i < items.len()
                    invariant
                        i <= items@.len(),
                        out@.len() == i,
                        forall|j: int| 0 <= j < i ==> out@[j].model() == items@[j].model(),
                    decreases items@.len() - i,
                {
                    proof {
                        assert(decreases_to!(*self => self->Array_0));
                        assert(decreases_to!(self->Array_0 => self->Array_0@));
                        assert(decreases_to!(self->Array_0@ => self->Array_0@[i as int]));
                    }
                    let d = items[i].duplicate();
                    out.push(d);
                    i += 1;
                }
                let r = Value::Array(out);
                proof {
                    assert(model_items(out@) =~= model_items(items@));
                }
                r
            },
            Value::Object(members) => {
                let mut out: Vec<(String, Value)> = Vec::new();
                let mut i: usize = 0;
                while i < members.len()
                    invariant
                        i <= members@.len(),
                        out@.len() == i,
                        forall|j: int| 0 <= j < i ==> out@[j].0@ == members@[j].0@
                            && out@[j].1.model() == members@[j].1.model(),
                    decreases members@.len() - i,
                {
                    proof {
                        assert(decreases_to!(*self => self->Object_0));
                        assert(decreases_to!(self->Object_0 => self->Object_0@));
                        assert(decreases_to!(self->Object_0@ => self->Object_0@[i as int]));
                        assert(decreases_to!(
                            self->Object_0@[i as int] => self->Object_0@[i as int].1
                        ));
                    }
                    let name = members[i].0.clone();
                    let d = members[i].1.duplicate();
                    out.push((name, d));
                    i += 1;
                }
                let r = Value::Object(out);
                proof {
                    assert(model_members(out@) =~= model_members(members@));
                }
                r
            },
        }
    }
}

/// The member of an object named `name`: the first entry with that name,
/// which under unique member names is the only one.
pub open spec fn spec_member(
    members: Seq<(Seq<char>, ValueModel)>,
    name: Seq<char>,
) -> Option<ValueModel>
    decreases members.len(),
{
    if members.len() == 0 {
        None
    } else if members[0].0 == name {
        Some(members[0].1)
    } else {
        spec_member(members.drop_first(), name)
    }
}

/// Selecting a named member of a value: only objects have members.
pub open spec fn spec_get(v: ValueModel, name: Seq<char>) -> Option<ValueModel> {
    match v {
        ValueModel::Object(ms) => spec_member(ms, name),
        _ => None,
    }
}

/// Walking a value along a path of member names: the empty path selects
/// the value itself; a longer path selects within the named member, and is
/// absent as soon as one segment does not resolve.
pub open spec fn spec_lookup(v: ValueModel, segments: Seq<Seq<char>>) -> Option<ValueModel>
    decreases segments.len(),
{
    if segments.len() == 0 {
        Some(v)
    } else {
        match spec_get(v, segments[0]) {
            Some(child) => spec_lookup(child, segments.drop_first()),
            None => None,
        }
    }
}

/// The member of `v` named `name`, or nothing if `v` is not an object or
/// has no such member.
#[verifier::loop_isolation(false)]
pub fn get_member<'a>(v: &'a Value, name: &str) -> (r: Option<&'a Value>)
    ensures
        match r {
            Some(c) => spec_get(v@, name@) == Some(c@),
            None => spec_get(v@, name@) is None,
        },
{
    broadcast use lemma_model_members;

    match v {
        Value::Object(members) => {
            let ghost ms = v@->Object_0;
            proof {
                assert(ms.skip(0) =~= ms);
            }
            let mut i: usize = 0;
            while i < members.len()
                invariant
                    i <= members@.len(),
                    ms == model_members(members@),
                    forall|j: int| 0 <= j < i ==> members@[j].0@ != name@,
                    spec_member(ms, name@) == spec_member(ms.skip(i as int), name@),
                decreases members@.len() - i,
            {
                proof {
                    assert(ms.skip(i as int)[0] == ms[i as int]);
                }
                if crate::text::str_eq(members[i].0.as_str(), name) {
                    proof {
                        lemma_spec_member_head(ms.skip(i as int), name@);
                    }
                    return Some(&members[i].1);
                }
                proof {
                    lemma_spec_member_head(ms.skip(i as int), name@);
                    assert(ms.skip(i as int).drop_first() =~= ms.skip(i as int + 1));
                }
                i += 1;
            }
            proof {
                assert(ms.skip(i as int) =~= Seq::empty());
            }
            None
        },
        _ => None,
    }
}

proof fn lemma_spec_member_head(members: Seq<(Seq<char>, ValueModel)>, name: Seq<char>)
    requires
        members.len() > 0,
    ensures
        members[0].0 == name ==> spec_member(members, name) == Some(members[0].1),
        members[0].0 != name ==> spec_member(members, name) == spec_member(
            members.drop_first(),
            name,
        ),
{
}

} // verus!
