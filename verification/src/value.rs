//! JSON values of the restricted HAPS domain and their mathematical model.
use vstd::prelude::*;

verus! {

/// Largest integer magnitude admitted by the HAPS value domain: 2^53 - 1.
pub const MAX_SAFE_INT: i64 = 9_007_199_254_740_991;

/// An executable JSON value. Strings and keys are UTF-8 bytes.
#[derive(Debug, PartialEq, Eq)]
pub enum Value {
    Null,
    Bool(bool),
    Int(i64),
    Str(Vec<u8>),
    Array(Vec<Value>),
    Object(Vec<(Vec<u8>, Value)>),
}

/// The mathematical model of a JSON value: sequences in place of vectors.
pub enum JsonValue {
    Null,
    Bool(bool),
    Int(int),
    Str(Seq<u8>),
    Array(Seq<JsonValue>),
    Object(Seq<(Seq<u8>, JsonValue)>),
}

/// The model of an executable value.
pub open spec fn model(v: Value) -> JsonValue
    decreases v,
{
    match v {
        Value::Null => JsonValue::Null,
        Value::Bool(b) => JsonValue::Bool(b),
        Value::Int(n) => JsonValue::Int(n as int),
        Value::Str(s) => JsonValue::Str(s@),
        Value::Array(items) => JsonValue::Array(model_items(items@)),
        Value::Object(members) => JsonValue::Object(model_members(members@)),
    }
}

/// The models of a sequence of values, element by element.
pub open spec fn model_items(s: Seq<Value>) -> Seq<JsonValue>
    decreases s,
{
    if s.len() == 0 {
        Seq::empty()
    } else {
        model_items(s.subrange(0, s.len() - 1)).push(model(s[s.len() - 1]))
    }
}

/// The models of a sequence of object members, member by member.
pub open spec fn model_members(s: Seq<(Vec<u8>, Value)>) -> Seq<(Seq<u8>, JsonValue)>
    decreases s,
{
    if s.len() == 0 {
        Seq::empty()
    } else {
        model_members(s.subrange(0, s.len() - 1)).push(
            (s[s.len() - 1].0@, model(s[s.len() - 1].1)),
        )
    }
}

impl View for Value {
    type V = JsonValue;

    open spec fn view(&self) -> JsonValue {
        model(*self)
    }
}

/// Lengths and elements of [`model_items`].
pub proof fn lemma_model_items(s: Seq<Value>)
    ensures
        model_items(s).len() == s.len(),
        forall|i: int| 0 <= i < s.len() ==> #[trigger] model_items(s)[i] == model(s[i]),
    decreases s.len(),
{
    if s.len() > 0 {
        lemma_model_items(s.subrange(0, s.len() - 1));
    }
}

/// Lengths and elements of [`model_members`].
pub proof fn lemma_model_members(s: Seq<(Vec<u8>, Value)>)
    ensures
        model_members(s).len() == s.len(),
        forall|i: int|
            0 <= i < s.len() ==> #[trigger] model_members(s)[i] == (s[i].0@, model(s[i].1)),
    decreases s.len(),
{
    if s.len() > 0 {
        lemma_model_members(s.subrange(0, s.len() - 1));
    }
}

/// Inserting a member commutes with taking models.
pub proof fn lemma_model_members_insert(s: Seq<(Vec<u8>, Value)>, at: int, x: (Vec<u8>, Value))
    requires
        0 <= at <= s.len(),
    ensures
        model_members(s.insert(at, x)) == model_members(s).insert(at, (x.0@, model(x.1))),
{
    lemma_model_members(s);
    lemma_model_members(s.insert(at, x));
    assert(model_members(s.insert(at, x)) =~= model_members(s).insert(at, (x.0@, model(x.1))));
}

/// Appending an element commutes with taking models.
pub proof fn lemma_model_items_push(s: Seq<Value>, x: Value)
    ensures
        model_items(s.push(x)) == model_items(s).push(model(x)),
{
    assert(s.push(x).subrange(0, s.len() as int) =~= s);
}

/// Every integer in the value lies within `-MAX_SAFE_INT ..= MAX_SAFE_INT`.
pub open spec fn admissible(j: JsonValue) -> bool
    decreases j,
{
    match j {
        JsonValue::Int(n) => -MAX_SAFE_INT <= n <= MAX_SAFE_INT,
        JsonValue::Array(items) => all_admissible(items),
        JsonValue::Object(members) => members_admissible(members),
        _ => true,
    }
}

/// Every element of the sequence is admissible.
pub open spec fn all_admissible(s: Seq<JsonValue>) -> bool
    decreases s,
{
    s.len() > 0 ==> all_admissible(s.subrange(0, s.len() - 1)) && admissible(s[s.len() - 1])
}

/// The value of every member is admissible.
pub open spec fn members_admissible(s: Seq<(Seq<u8>, JsonValue)>) -> bool
    decreases s,
{
    s.len() > 0 ==> members_admissible(s.subrange(0, s.len() - 1)) && admissible(
        s[s.len() - 1].1,
    )
}

/// [`all_admissible`] holds exactly when each element is admissible.
pub proof fn lemma_all_admissible(s: Seq<JsonValue>)
    ensures
        all_admissible(s) <==> forall|i: int| 0 <= i < s.len() ==> admissible(#[trigger] s[i]),
    decreases s.len(),
{
    if s.len() > 0 {
        let t = s.subrange(0, s.len() - 1);
        lemma_all_admissible(t);
        assert forall|i: int| 0 <= i < t.len() implies t[i] == s[i] by {}
    }
}

/// [`members_admissible`] holds exactly when each member value is admissible.
pub proof fn lemma_members_admissible(s: Seq<(Seq<u8>, JsonValue)>)
    ensures
        members_admissible(s) <==> forall|i: int|
            0 <= i < s.len() ==> admissible(#[trigger] s[i].1),
    decreases s.len(),
{
    if s.len() > 0 {
        let t = s.subrange(0, s.len() - 1);
        lemma_members_admissible(t);
        assert forall|i: int| 0 <= i < t.len() implies t[i] == s[i] by {}
    }
}

/// Law: a value is admissible when it is an integer within
/// `-MAX_SAFE_INT ..= MAX_SAFE_INT`, when it is an array every element of
/// which is admissible, when it is an object every member value of which is
/// admissible, and when it is `null`, a boolean or a string: an out-of-range
/// integer at any depth makes it inadmissible.
pub proof fn law_admissible_structure(j: JsonValue)
    ensures
        match j {
            JsonValue::Int(n) => admissible(j) <==> -MAX_SAFE_INT <= n <= MAX_SAFE_INT,
            JsonValue::Array(items) => admissible(j) <==> forall|i: int|
                0 <= i < items.len() ==> admissible(#[trigger] items[i]),
            JsonValue::Object(ms) => admissible(j) <==> forall|i: int|
                0 <= i < ms.len() ==> admissible(#[trigger] ms[i].1),
            _ => admissible(j),
        },
{
    match j {
        JsonValue::Array(items) => lemma_all_admissible(items),
        JsonValue::Object(ms) => lemma_members_admissible(ms),
        _ => {},
    }
}

impl Value {
    /// Whether every integer in this value is within the admissible range.
    /// Strings, keys, key order and nesting are not examined.
    #[verifier::loop_isolation(false)]
    pub fn is_admissible(&self) -> (r: bool)
        ensures
            r == admissible(self@),
        decreases self,
    {
        match self {
            Value::Null | Value::Bool(_) | Value::Str(_) => true,
            Value::Int(n) => *n >= -MAX_SAFE_INT && *n <= MAX_SAFE_INT,
            Value::Array(items) => {
                proof {
                    lemma_model_items(items@);
                }
                let mut i: usize = 0;
                while i < items.len()
                    invariant
                        0 <= i <= items.len(),
                        model_items(items@).len() == items@.len(),
                        forall|k: int| 0 <= k < items@.len() ==> #[trigger] model_items(items@)[k] == model(items@[k]),
                        forall|k: int| 0 <= k < i ==> admissible(#[trigger] model_items(items@)[k]),
                    decreases items.len() - i,
                {
                    let v = &items[i];
                    assert(decreases_to!(*self => *items));
                    assert(decreases_to!(*items => items@));
                    assert(decreases_to!(items@ => items@[i as int]));
                    if !v.is_admissible() {
                        assert(!admissible(model_items(items@)[i as int]));
                        proof { lemma_all_admissible(model_items(items@)); }
                        return false;
                    }
                    i += 1;
                }
                proof {
                    lemma_all_admissible(model_items(items@));
                }
                true
            }
            Value::Object(members) => {
                proof {
                    lemma_model_members(members@);
                }
                let mut i: usize = 0;
                while i < members.len()
                    invariant
                        0 <= i <= members.len(),
                        model_members(members@).len() == members@.len(),
                        forall|k: int| 0 <= k < members@.len() ==> #[trigger] model_members(members@)[k] == (members@[k].0@, model(members@[k].1)),
                        forall|k: int| 0 <= k < i ==> admissible(#[trigger] model_members(members@)[k].1),
                    decreases members.len() - i,
                {
                    let v = &members[i].1;
                    assert(decreases_to!(*self => *members));
                    assert(decreases_to!(*members => members@));
                    assert(decreases_to!(members@ => members@[i as int]));
                    assert(decreases_to!(members@[i as int] => members@[i as int].1));
                    if !v.is_admissible() {
                        assert(!admissible(model_members(members@)[i as int].1));
                        proof { lemma_members_admissible(model_members(members@)); }
                        return false;
                    }
                    i += 1;
                }
                proof {
                    lemma_members_admissible(model_members(members@));
                }
                true
            }
        }
    }
}


/// A copy of a byte vector holds the same bytes.
fn clone_bytes(s: &Vec<u8>) -> (r: Vec<u8>)
    ensures
        r@ == s@,
{
    let r = s.clone();
    assert(r@ =~= s@);
    r
}

impl Clone for Value {
    /// A deep copy with the same model.
    #[verifier::loop_isolation(false)]
    fn clone(&self) -> (r: Self)
        ensures
            r@ == self@,
        decreases self,
    {
        match self {
            Value::Null => Value::Null,
            Value::Bool(b) => Value::Bool(*b),
            Value::Int(n) => Value::Int(*n),
            Value::Str(s) => Value::Str(clone_bytes(s)),
            Value::Array(items) => {
                let mut out: Vec<Value> = Vec::with_capacity(items.len());
                let mut i: usize = 0;
                while i < items.len()
                    invariant
                        i <= items.len(),
                        out@.len() == i,
                        forall|k: int| 0 <= k < i ==> #[trigger] model(out@[k]) == model(items@[k]),
                    decreases items.len() - i,
                {
                    assert(decreases_to!(*self => *items));
                    assert(decreases_to!(*items => items@));
                    assert(decreases_to!(items@ => items@[i as int]));
                    let v = items[i].clone();
                    out.push(v);
                    i += 1;
                }
                proof {
                    lemma_model_items(out@);
                    lemma_model_items(items@);
                    assert(model_items(out@) =~= model_items(items@));
                }
                Value::Array(out)
            }
            Value::Object(members) => {
                let mut out: Vec<(Vec<u8>, Value)> = Vec::with_capacity(members.len());
                let mut i: usize = 0;
                while i < members.len()
                    invariant
                        i <= members.len(),
                        out@.len() == i,
                        forall|k: int|
                            0 <= k < i ==> #[trigger] out@[k].0@ == members@[k].0@ && model(out@[k].1)
                                == model(members@[k].1),
                    decreases members.len() - i,
                {
                    assert(decreases_to!(*self => *members));
                    assert(decreases_to!(*members => members@));
                    assert(decreases_to!(members@ => members@[i as int]));
                    assert(decreases_to!(members@[i as int] => members@[i as int].1));
                    let key = clone_bytes(&members[i].0);
                    let v = members[i].1.clone();
                    out.push((key, v));
                    assert(out@[i as int].0@ == members@[i as int].0@);
                    i += 1;
                }
                proof {
                    lemma_model_members(out@);
                    lemma_model_members(members@);
                    assert(model_members(out@) =~= model_members(members@));
                }
                Value::Object(out)
            }
        }
    }
}

} // verus!
