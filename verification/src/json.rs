//! JSON values and the paths that address places inside them.
use vstd::prelude::*;

verus! {

/// A JSON number: an integer that fits a machine word, or the text of any
/// other number.
#[derive(Debug, PartialEq)]
pub enum Number {
    PosInt(u64),
    NegInt(i64),
    Float(String),
}

/// A JSON value. The entries of an object keep their order; in a [`valid`]
/// value their keys are distinct.
#[derive(Debug, PartialEq)]
pub enum Value {
    Null,
    Bool(bool),
    Number(Number),
    String(String),
    Array(Vec<Value>),
    Object(Vec<(String, Value)>),
}

/// One step of a path into a JSON value.
#[derive(Debug, PartialEq)]
pub enum PathSegment {
    Key(String),
    Index(usize),
}

/// What a path segment stands for.
#[verifier::ext_equal]
pub enum Segment {
    Key(Seq<char>),
    Index(int),
}

impl View for PathSegment {
    type V = Segment;

    open spec fn view(&self) -> Segment {
        match *self {
            PathSegment::Key(k) => Segment::Key(k@),
            PathSegment::Index(i) => Segment::Index(i as int),
        }
    }
}

/// What a path stands for, segment by segment.
pub open spec fn path_view(path: Seq<PathSegment>) -> Seq<Segment> {
    Seq::new(path.len(), |i: int| path[i]@)
}

impl PathSegment {
    /// A segment equal to this one.
    pub fn duplicate(&self) -> (r: PathSegment)
        ensures
            r@ == self@,
    {
        match self {
            PathSegment::Key(k) => PathSegment::Key(k.clone()),
            PathSegment::Index(i) => PathSegment::Index(*i),
        }
    }
}

/// A path equal to `path`.
pub fn duplicate_path(path: &[PathSegment]) -> (r: Vec<PathSegment>)
    ensures
        path_view(r@) == path_view(path@),
{
    let mut out: Vec<PathSegment> = Vec::new();
    let mut i: usize = 0;
    while i < path.len()
        invariant
            i <= path@.len(),
            out@.len() == i,
            forall|j: int| 0 <= j < i ==> out@[j]@ == path@[j]@,
        decreases path@.len() - i,
    {
        out.push(path[i].duplicate());
        i += 1;
    }
    assert(path_view(out@) =~= path_view(path@));
    out
}

/// What a JSON value stands for.
#[verifier::ext_equal]
pub enum Json {
    Null,
    Bool(bool),
    Number(NumberModel),
    String(Seq<char>),
    Array(Seq<Json>),
    Object(Seq<(Seq<char>, Json)>),
}

/// What a JSON number stands for.
#[verifier::ext_equal]
pub enum NumberModel {
    Int(int),
    Float(Seq<char>),
}

impl View for Number {
    type V = NumberModel;

    open spec fn view(&self) -> NumberModel {
        match *self {
            Number::PosInt(n) => NumberModel::Int(n as int),
            Number::NegInt(n) => NumberModel::Int(n as int),
            Number::Float(text) => NumberModel::Float(text@),
        }
    }
}

/// What a JSON value stands for.
pub open spec fn json_of(value: Value) -> Json
    decreases value,
{
    match value {
        Value::Null => Json::Null,
        Value::Bool(b) => Json::Bool(b),
        Value::Number(n) => Json::Number(n@),
        Value::String(text) => Json::String(text@),
        Value::Array(items) => Json::Array(
            Seq::new(
                items@.len(),
                |i: int|
                    if 0 <= i < items@.len() {
                        json_of(items@[i])
                    } else {
                        Json::Null
                    },
            ),
        ),
        Value::Object(entries) => Json::Object(
            Seq::new(
                entries@.len(),
                |i: int|
                    if 0 <= i < entries@.len() {
                        (entries@[i].0@, json_of(entries@[i].1))
                    } else {
                        (Seq::empty(), Json::Null)
                    },
            ),
        ),
    }
}

impl View for Value {
    type V = Json;

    open spec fn view(&self) -> Json {
        json_of(*self)
    }
}

/// What a list of JSON values stands for.
pub open spec fn items_of(items: Seq<Value>) -> Seq<Json> {
    Seq::new(items.len(), |i: int| items[i]@)
}

/// What the entries of an object stand for.
pub open spec fn entries_of(entries: Seq<(String, Value)>) -> Seq<(Seq<char>, Json)> {
    Seq::new(entries.len(), |i: int| (entries[i].0@, entries[i].1@))
}

/// What an array stands for is what its items stand for, in order.
pub proof fn array_view(items: Vec<Value>)
    ensures
        (Value::Array(items))@ == Json::Array(items_of(items@)),
{
    assert((Value::Array(items))@->Array_0 =~= items_of(items@));
}

/// What an object stands for is what its entries stand for, in order.
pub proof fn object_view(entries: Vec<(String, Value)>)
    ensures
        (Value::Object(entries))@ == Json::Object(entries_of(entries@)),
{
    assert((Value::Object(entries))@->Object_0 =~= entries_of(entries@));
}

/// Whether no two entries share a key.
pub open spec fn distinct_keys<T>(entries: Seq<(Seq<char>, T)>) -> bool {
    forall|i: int, j: int|
        0 <= i < j < entries.len() ==> (#[trigger] entries[i]).0 != (#[trigger] entries[j]).0
}

/// Whether every object in the value, at any depth, has distinct keys.
pub open spec fn valid(json: Json) -> bool
    decreases json,
{
    match json {
        Json::Array(items) => forall|i: int| 0 <= i < items.len() ==> valid(#[trigger] items[i]),
        Json::Object(entries) => {
            &&& distinct_keys(entries)
            &&& forall|i: int| 0 <= i < entries.len() ==> valid((#[trigger] entries[i]).1)
        },
        _ => true,
    }
}

/// A number equal to this one.
fn duplicate_number(n: &Number) -> (r: Number)
    ensures
        r@ == n@,
{
    match n {
        Number::PosInt(k) => Number::PosInt(*k),
        Number::NegInt(k) => Number::NegInt(*k),
        Number::Float(text) => Number::Float(text.clone()),
    }
}

/// A value equal to this one.
pub fn duplicate_value(value: &Value) -> (r: Value)
    ensures
        r@ == value@,
    decreases *value,
{
    match value {
        Value::Null => Value::Null,
        Value::Bool(b) => Value::Bool(*b),
        Value::Number(n) => Value::Number(duplicate_number(n)),
        Value::String(text) => Value::String(text.clone()),
        Value::Array(items) => {
            let mut out: Vec<Value> = Vec::new();
            let mut i: usize = 0;
            while i < items.len()
                invariant
                    i <= items@.len(),
                    out@.len() == i,
                    *value == Value::Array(*items),
                    forall|j: int| 0 <= j < i ==> (#[trigger] out@[j])@ == items@[j]@,
                decreases items@.len() - i,
            {
                assert(decreases_to!(*value => value->Array_0@[i as int]));
                out.push(duplicate_value(&items[i]));
                i += 1;
            }
            proof {
                array_view(out);
                array_view(*items);
                assert(items_of(out@) =~= items_of(items@));
            }
            Value::Array(out)
        },
        Value::Object(entries) => {
            let mut out: Vec<(String, Value)> = Vec::new();
            let mut i: usize = 0;
            while i < entries.len()
                invariant
                    i <= entries@.len(),
                    out@.len() == i,
                    *value == Value::Object(*entries),
                    forall|j: int|
                        0 <= j < i ==> (#[trigger] out@[j]).0@ == entries@[j].0@ && out@[j].1@
                            == entries@[j].1@,
                decreases entries@.len() - i,
            {
                assert(decreases_to!(*value => value->Object_0@[i as int].1));
                out.push((entries[i].0.clone(), duplicate_value(&entries[i].1)));
                i += 1;
            }
            proof {
                object_view(out);
                object_view(*entries);
                assert(entries_of(out@) =~= entries_of(entries@));
            }
            Value::Object(out)
        },
    }
}

/// A JSON string.
pub fn text_value(text: &str) -> (r: Value)
    ensures
        r@ == Json::String(text@),
{
    Value::String(text.to_owned())
}

/// A JSON integer.
pub fn int_value(n: i64) -> (r: Value)
    ensures
        r@ == Json::Number(NumberModel::Int(n as int)),
{
    if n >= 0 {
        Value::Number(Number::PosInt(n as u64))
    } else {
        Value::Number(Number::NegInt(n))
    }
}

/// The JSON object with one entry.
pub fn single_entry(key: &str, value: Value) -> (r: Value)
    ensures
        r@ == Json::Object(seq![(key@, value@)]),
        valid(value@) ==> valid(r@),
{
    let entries: Vec<(String, Value)> = vec![(key.to_owned(), value)];
    proof {
        object_view(entries);
        assert(entries_of(entries@) =~= seq![(key@, value@)]);
    }
    Value::Object(entries)
}

} // verus!
