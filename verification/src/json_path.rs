//! Reading and replacing values deep inside a JSON value.
use vstd::prelude::*;

use crate::json::{
    array_view, distinct_keys, entries_of, items_of, object_view, path_view, valid, Json,
    PathSegment, Segment, Value,
};
use crate::text::{decimal, same_text, unsigned_text};

verus! {

/// The position of the first entry under `key`; the length where there is
/// none.
pub open spec fn entry_index(entries: Seq<(Seq<char>, Json)>, key: Seq<char>) -> nat
    decreases entries.len(),
{
    if entries.len() == 0 || entries[0].0 == key {
        0
    } else {
        1 + entry_index(entries.drop_first(), key)
    }
}

/// The value at a path, if there is one.
pub open spec fn json_get(data: Json, path: Seq<Segment>) -> Option<Json>
    decreases path.len(),
{
    if path.len() == 0 {
        Some(data)
    } else {
        match (path[0], data) {
            (Segment::Key(key), Json::Object(entries)) => {
                let i = entry_index(entries, key) as int;
                if i < entries.len() {
                    json_get(entries[i].1, path.drop_first())
                } else {
                    None
                }
            },
            (Segment::Index(i), Json::Array(items)) => if 0 <= i < items.len() {
                json_get(items[i], path.drop_first())
            } else {
                None
            },
            _ => None,
        }
    }
}

/// The value with another value at a path; the same where the path leads
/// nowhere.
pub open spec fn json_set(data: Json, path: Seq<Segment>, value: Json) -> Json
    decreases path.len(),
{
    if path.len() == 0 {
        value
    } else {
        match (path[0], data) {
            (Segment::Key(key), Json::Object(entries)) => {
                let i = entry_index(entries, key) as int;
                if i < entries.len() {
                    Json::Object(
                        entries.update(
                            i,
                            (entries[i].0, json_set(entries[i].1, path.drop_first(), value)),
                        ),
                    )
                } else {
                    data
                }
            },
            (Segment::Index(i), Json::Array(items)) => if 0 <= i < items.len() {
                Json::Array(items.update(i, json_set(items[i], path.drop_first(), value)))
            } else {
                data
            },
            _ => data,
        }
    }
}

/// The position of the first entry under `key`; the length where there is
/// none.
pub fn find_key(entries: &Vec<(String, Value)>, key: &str) -> (r: usize)
    ensures
        r <= entries@.len(),
        r == entry_index(entries_of(entries@), key@),
{
    let ghost model = entries_of(entries@);
    let mut i: usize = 0;
    assert(model.skip(0) =~= model);
    while i < entries.len()
        invariant
            i <= entries@.len(),
            model == entries_of(entries@),
            entry_index(model, key@) == i + entry_index(model.skip(i as int), key@),
        decreases entries@.len() - i,
    {
        if same_text(entries[i].0.as_str(), key) {
            return i;
        }
        assert(model.skip(i as int).drop_first() =~= model.skip(i + 1));
        i += 1;
    }
    i
}

fn get_from<'a>(data: &'a Value, path: &[PathSegment], from: usize) -> (r: Option<&'a Value>)
    requires
        from <= path@.len(),
    ensures
        match (r, json_get(data@, path_view(path@).skip(from as int))) {
            (Some(value), Some(json)) => value@ == json,
            (None, None) => true,
            _ => false,
        },
    decreases path@.len() - from,
{
    let ghost rest = path_view(path@).skip(from as int);
    if from == path.len() {
        return Some(data);
    }
    assert(rest.drop_first() =~= path_view(path@).skip(from + 1));
    match (&path[from], data) {
        (PathSegment::Key(key), Value::Object(entries)) => {
            proof {
                object_view(*entries);
            }
            let i: usize = find_key(entries, key.as_str());
            if i < entries.len() {
                get_from(&entries[i].1, path, from + 1)
            } else {
                None
            }
        },
        (PathSegment::Index(i), Value::Array(items)) => {
            proof {
                array_view(*items);
            }
            if *i < items.len() {
                get_from(&items[*i], path, from + 1)
            } else {
                None
            }
        },
        _ => None,
    }
}

/// The value at a path, if there is one.
pub fn get_value_deep<'a>(data: &'a Value, path: &[PathSegment]) -> (r: Option<&'a Value>)
    ensures
        match (r, json_get(data@, path_view(path@))) {
            (Some(value), Some(json)) => value@ == json,
            (None, None) => true,
            _ => false,
        },
{
    assert(path_view(path@).skip(0) =~= path_view(path@));
    get_from(data, path, 0)
}

fn set_from(data: Value, path: &[PathSegment], from: usize, value: Value) -> (r: Value)
    requires
        from <= path@.len(),
    ensures
        r@ == json_set(data@, path_view(path@).skip(from as int), value@),
    decreases path@.len() - from,
{
    let ghost rest = path_view(path@).skip(from as int);
    if from == path.len() {
        return value;
    }
    assert(rest.drop_first() =~= path_view(path@).skip(from + 1));
    match (&path[from], data) {
        (PathSegment::Key(key), Value::Object(entries)) => {
            let mut entries = entries;
            let ghost before = entries_of(entries@);
            proof {
                object_view(entries);
            }
            let i: usize = find_key(&entries, key.as_str());
            if i < entries.len() {
                let (name, old_value) = entries.remove(i);
                let new_value = set_from(old_value, path, from + 1, value);
                entries.insert(i, (name, new_value));
                proof {
                    object_view(entries);
                    assert(entries_of(entries@) =~= before.update(
                        i as int,
                        (before[i as int].0, new_value@),
                    ));
                }
            }
            Value::Object(entries)
        },
        (PathSegment::Index(i), Value::Array(items)) => {
            let mut items = items;
            let ghost before = items_of(items@);
            proof {
                array_view(items);
            }
            if *i < items.len() {
                let old_value = items.remove(*i);
                let new_value = set_from(old_value, path, from + 1, value);
                items.insert(*i, new_value);
                proof {
                    array_view(items);
                    assert(items_of(items@) =~= before.update(*i as int, new_value@));
                }
            }
            Value::Array(items)
        },
        (_, data) => data,
    }
}

/// Puts another value at a path. Where the path leads nowhere, nothing
/// changes.
pub fn set_value_deep(data: &mut Value, path: &[PathSegment], value: Value)
    ensures
        final(data)@ == json_set(old(data)@, path_view(path@), value@),
        valid(old(data)@) && valid(value@) ==> valid(final(data)@),
{
    proof {
        if valid(data@) && valid(value@) {
            set_keeps_validity(data@, path_view(path@), value@);
        }
    }
    assert(path_view(path@).skip(0) =~= path_view(path@));
    let mut taken: Value = Value::Null;
    std::mem::swap(&mut taken, data);
    *data = set_from(taken, path, 0, value);
}

/// The text of one segment of a path.
pub open spec fn segment_text(segment: Segment) -> Seq<char> {
    match segment {
        Segment::Key(key) => key,
        Segment::Index(i) => decimal(i),
    }
}

/// The text of a path: its segments with dots between them.
pub open spec fn path_text(path: Seq<Segment>) -> Seq<char>
    decreases path.len(),
{
    if path.len() == 0 {
        Seq::empty()
    } else if path.len() == 1 {
        segment_text(path[0])
    } else {
        path_text(path.drop_last()) + "."@ + segment_text(path.last())
    }
}

/// The text of a path: its segments with dots between them.
pub fn segments_to_path(path: &[PathSegment]) -> (r: String)
    ensures
        r@ == path_text(path_view(path@)),
{
    let ghost all = path_view(path@);
    let mut out: String = String::new();
    let mut i: usize = 0;
    assert(all.take(0) =~= Seq::empty());
    while i < path.len()
        invariant
            i <= path@.len(),
            all == path_view(path@),
            out@ == path_text(all.take(i as int)),
        decreases path@.len() - i,
    {
        proof {
            assert(all.take(i + 1).drop_last() =~= all.take(i as int));
            assert(all.take(i + 1).last() == path@[i as int]@);
        }
        if i > 0 {
            out.append(".");
        }
        match &path[i] {
            PathSegment::Key(key) => out.append(key.as_str()),
            PathSegment::Index(n) => out.append(unsigned_text(*n as u64).as_str()),
        }
        assert(out@ =~= path_text(all.take(i + 1)));
        i += 1;
    }
    assert(all.take(all.len() as int) =~= all);
    out
}

proof fn entry_index_updated(entries: Seq<(Seq<char>, Json)>, i: int, value: Json, key: Seq<char>)
    requires
        0 <= i < entries.len(),
    ensures
        entry_index(entries.update(i, (entries[i].0, value)), key) == entry_index(entries, key),
    decreases entries.len(),
{
    let updated = entries.update(i, (entries[i].0, value));
    assert(updated[0].0 == entries[0].0);
    if entries[0].0 != key {
        if i > 0 {
            let rest = entries.drop_first();
            assert(updated.drop_first() =~= rest.update(i - 1, (rest[i - 1].0, value)));
            entry_index_updated(rest, i - 1, value, key);
        } else {
            assert(updated.drop_first() =~= entries.drop_first());
        }
    }
}

/// What was put at a path is found there.
pub proof fn get_after_set(data: Json, path: Seq<Segment>, value: Json)
    requires
        json_get(data, path) is Some,
    ensures
        json_get(json_set(data, path, value), path) == Some(value),
    decreases path.len(),
{
    if path.len() > 0 {
        let rest = path.drop_first();
        match (path[0], data) {
            (Segment::Key(key), Json::Object(entries)) => {
                let i = entry_index(entries, key) as int;
                get_after_set(entries[i].1, rest, value);
                entry_index_updated(entries, i, json_set(entries[i].1, rest, value), key);
            },
            (Segment::Index(i), Json::Array(items)) => {
                get_after_set(items[i], rest, value);
            },
            _ => {},
        }
    }
}

/// Where a path leads nowhere, putting a value there changes nothing.
pub proof fn set_nowhere(data: Json, path: Seq<Segment>, value: Json)
    requires
        json_get(data, path) is None,
    ensures
        json_set(data, path, value) == data,
    decreases path.len(),
{
    if path.len() > 0 {
        let rest = path.drop_first();
        match (path[0], data) {
            (Segment::Key(key), Json::Object(entries)) => {
                let i = entry_index(entries, key) as int;
                if i < entries.len() {
                    set_nowhere(entries[i].1, rest, value);
                    assert(entries.update(i, (entries[i].0, entries[i].1)) =~= entries);
                }
            },
            (Segment::Index(i), Json::Array(items)) => {
                if 0 <= i < items.len() {
                    set_nowhere(items[i], rest, value);
                    assert(items.update(i, items[i]) =~= items);
                }
            },
            _ => {},
        }
    }
}

/// Whether two paths part ways: at some place both go on, differently.
pub open spec fn parts_ways(a: Seq<Segment>, b: Seq<Segment>) -> bool
    decreases a.len(),
{
    a.len() > 0 && b.len() > 0 && (a[0] != b[0] || parts_ways(a.drop_first(), b.drop_first()))
}

/// Putting a value at a path leaves alone what stands on paths that part ways
/// with it.
pub proof fn set_leaves_others(data: Json, path: Seq<Segment>, value: Json, other: Seq<Segment>)
    requires
        parts_ways(path, other),
    ensures
        json_get(json_set(data, path, value), other) == json_get(data, other),
    decreases path.len(),
{
    let rest = path.drop_first();
    match (path[0], data) {
        (Segment::Key(key), Json::Object(entries)) => {
            let i = entry_index(entries, key) as int;
            if i < entries.len() {
                let new_value = json_set(entries[i].1, rest, value);
                match other[0] {
                    Segment::Key(k) => {
                        entry_index_updated(entries, i, new_value, k);
                        if k == key {
                            set_leaves_others(entries[i].1, rest, value, other.drop_first());
                        } else {
                            entry_index_key(entries, key);
                            entry_index_key(entries, k);
                        }
                    },
                    Segment::Index(_) => {},
                }
            }
        },
        (Segment::Index(i), Json::Array(items)) => {
            if 0 <= i < items.len() && other[0] == Segment::Index(i) {
                set_leaves_others(items[i], rest, value, other.drop_first());
            }
        },
        _ => {},
    }
}

/// The first entry under a key has that key; where there is none, no entry has
/// it.
pub proof fn entry_index_key(entries: Seq<(Seq<char>, Json)>, key: Seq<char>)
    ensures
        entry_index(entries, key) <= entries.len(),
        entry_index(entries, key) < entries.len() ==> entries[entry_index(entries, key) as int].0
            == key,
        forall|j: int| 0 <= j < entry_index(entries, key) ==> (#[trigger] entries[j]).0 != key,
    decreases entries.len(),
{
    if entries.len() > 0 && entries[0].0 != key {
        entry_index_key(entries.drop_first(), key);
        assert forall|j: int| 0 <= j < entry_index(entries, key) implies (#[trigger] entries[j]).0
            != key by {
            if j > 0 {
                assert(entries.drop_first()[j - 1].0 != key);
            }
        }
    }
}

/// Among distinct keys, each names its own entry and no other.
pub proof fn key_names_its_entry(entries: Seq<(Seq<char>, Json)>, i: int)
    requires
        distinct_keys(entries),
        0 <= i < entries.len(),
    ensures
        entry_index(entries, entries[i].0) == i,
    decreases entries.len(),
{
    if i > 0 {
        assert(entries[0].0 != entries[i].0);
        let rest = entries.drop_first();
        assert forall|a: int, b: int| 0 <= a < b < rest.len() implies (#[trigger] rest[a]).0 != (
        #[trigger] rest[b]).0 by {
            assert(entries[a + 1].0 != entries[b + 1].0);
        }
        key_names_its_entry(rest, i - 1);
    }
}

/// Putting a valid value into a valid one leaves it valid.
pub proof fn set_keeps_validity(data: Json, path: Seq<Segment>, value: Json)
    requires
        valid(data),
        valid(value),
    ensures
        valid(json_set(data, path, value)),
    decreases path.len(),
{
    if path.len() > 0 {
        let rest = path.drop_first();
        match (path[0], data) {
            (Segment::Key(key), Json::Object(entries)) => {
                let i = entry_index(entries, key) as int;
                if i < entries.len() {
                    assert(valid(entries[i].1));
                    set_keeps_validity(entries[i].1, rest, value);
                    let put = json_set(entries[i].1, rest, value);
                    let updated = entries.update(i, (entries[i].0, put));
                    assert forall|a: int, b: int| 0 <= a < b < updated.len() implies (
                    #[trigger] updated[a]).0 != (#[trigger] updated[b]).0 by {
                        assert(entries[a].0 != entries[b].0);
                    }
                    assert forall|j: int| 0 <= j < updated.len() implies valid(
                        (#[trigger] updated[j]).1,
                    ) by {
                        assert(valid(entries[j].1));
                    }
                    assert(valid(Json::Object(updated)));
                }
            },
            (Segment::Index(i), Json::Array(items)) => {
                if 0 <= i < items.len() {
                    assert(valid(items[i]));
                    set_keeps_validity(items[i], rest, value);
                    let updated = items.update(i, json_set(items[i], rest, value));
                    assert forall|j: int| 0 <= j < updated.len() implies valid(
                        #[trigger] updated[j],
                    ) by {
                        assert(valid(items[j]));
                    }
                    assert(valid(Json::Array(updated)));
                }
            },
            _ => {},
        }
    }
}

/// What stands in a valid value is valid.
pub proof fn found_in_valid_is_valid(data: Json, path: Seq<Segment>)
    requires
        valid(data),
    ensures
        json_get(data, path) matches Some(found) ==> valid(found),
    decreases path.len(),
{
    if path.len() > 0 {
        let rest = path.drop_first();
        match (path[0], data) {
            (Segment::Key(key), Json::Object(entries)) => {
                let i = entry_index(entries, key) as int;
                if i < entries.len() {
                    assert(valid(entries[i].1));
                    found_in_valid_is_valid(entries[i].1, rest);
                }
            },
            (Segment::Index(i), Json::Array(items)) => {
                if 0 <= i < items.len() {
                    assert(valid(items[i]));
                    found_in_valid_is_valid(items[i], rest);
                }
            },
            _ => {},
        }
    }
}

/// A path that starts with the key of an entry goes on in its value; one that
/// starts with a key of no entry leads nowhere.
pub proof fn key_leads_to_its_entry(
    entries: Seq<(Seq<char>, Json)>,
    key: Seq<char>,
    rest: Seq<Segment>,
    i: int,
)
    requires
        distinct_keys(entries),
    ensures
        0 <= i < entries.len() && entries[i].0 == key ==> json_get(
            Json::Object(entries),
            seq![Segment::Key(key)] + rest,
        ) == json_get(entries[i].1, rest),
        (forall|j: int| 0 <= j < entries.len() ==> (#[trigger] entries[j]).0 != key) ==> json_get(
            Json::Object(entries),
            seq![Segment::Key(key)] + rest,
        ) is None,
{
    let path = seq![Segment::Key(key)] + rest;
    assert(path.drop_first() =~= rest);
    if 0 <= i < entries.len() && entries[i].0 == key {
        key_names_its_entry(entries, i);
    }
    entry_index_key(entries, key);
}

/// A path that starts with the number of an element goes on in it; one that
/// starts with any other number leads nowhere.
pub proof fn index_leads_to_its_element(items: Seq<Json>, i: int, rest: Seq<Segment>)
    ensures
        0 <= i < items.len() ==> json_get(
            Json::Array(items),
            seq![Segment::Index(i)] + rest,
        ) == json_get(items[i], rest),
        !(0 <= i < items.len()) ==> json_get(
            Json::Array(items),
            seq![Segment::Index(i)] + rest,
        ) is None,
{
    let path = seq![Segment::Index(i)] + rest;
    assert(path.drop_first() =~= rest);
}

/// The empty path leads to the value itself; a key leads into objects alone,
/// and a number into arrays alone.
pub proof fn paths_lead_into_their_kind(data: Json, segment: Segment, rest: Seq<Segment>)
    ensures
        json_get(data, Seq::empty()) == Some(data),
        segment is Key && data !is Object ==> json_get(data, seq![segment] + rest) is None,
        segment is Index && data !is Array ==> json_get(data, seq![segment] + rest) is None,
{
}

/// One path after another: the second goes on from where the first leads.
pub proof fn path_after_path(data: Json, a: Seq<Segment>, b: Seq<Segment>)
    ensures
        json_get(data, a + b) == (match json_get(data, a) {
            Some(found) => json_get(found, b),
            None => None,
        }),
    decreases a.len(),
{
    if a.len() == 0 {
        assert(a + b =~= b);
    } else {
        let rest = a.drop_first();
        assert((a + b).drop_first() =~= rest + b);
        match (a[0], data) {
            (Segment::Key(key), Json::Object(entries)) => {
                let i = entry_index(entries, key) as int;
                if i < entries.len() {
                    path_after_path(entries[i].1, rest, b);
                }
            },
            (Segment::Index(i), Json::Array(items)) => {
                if 0 <= i < items.len() {
                    path_after_path(items[i], rest, b);
                }
            },
            _ => {},
        }
    }
}

/// Putting a value into an object keeps its keys and their order, and every
/// value but the one on the way.
pub proof fn set_keeps_the_other_entries(
    entries: Seq<(Seq<char>, Json)>,
    path: Seq<Segment>,
    value: Json,
)
    requires
        path.len() > 0,
    ensures
        json_set(Json::Object(entries), path, value) matches Json::Object(after)
            && after.len() == entries.len() && (forall|j: int|
            0 <= j < after.len() ==> (#[trigger] after[j]).0 == entries[j].0 && (after[j].1
                == entries[j].1 || path[0] == Segment::Key(entries[j].0))),
{
    match path[0] {
        Segment::Key(key) => {
            entry_index_key(entries, key);
        },
        Segment::Index(_) => {},
    }
}

/// Putting a value into an array keeps its length and every element but the one
/// on the way.
pub proof fn set_keeps_the_other_elements(items: Seq<Json>, path: Seq<Segment>, value: Json)
    requires
        path.len() > 0,
    ensures
        json_set(Json::Array(items), path, value) matches Json::Array(after) && after.len()
            == items.len() && (forall|j: int|
            0 <= j < after.len() ==> (#[trigger] after[j]) == items[j] || path[0]
                == Segment::Index(j)),
{
}

/// Where a path leads to a place, putting a value further on puts it into what
/// stands there.
pub proof fn set_after_path(data: Json, a: Seq<Segment>, b: Seq<Segment>, value: Json)
    requires
        json_get(data, a) is Some,
    ensures
        json_get(json_set(data, a + b, value), a) == Some(
            json_set(json_get(data, a)->0, b, value),
        ),
    decreases a.len(),
{
    if a.len() == 0 {
        assert(a + b =~= b);
    } else {
        let rest = a.drop_first();
        assert((a + b).drop_first() =~= rest + b);
        match (a[0], data) {
            (Segment::Key(key), Json::Object(entries)) => {
                let i = entry_index(entries, key) as int;
                set_after_path(entries[i].1, rest, b, value);
                entry_index_updated(entries, i, json_set(entries[i].1, rest + b, value), key);
            },
            (Segment::Index(i), Json::Array(items)) => {
                set_after_path(items[i], rest, b, value);
            },
            _ => {},
        }
    }
}

/// The text of two paths, one after the other, is their two texts with a dot
/// between them; a key stands for itself, and a number for its digits.
pub proof fn path_texts_join(a: Seq<Segment>, b: Seq<Segment>, key: Seq<char>, i: nat)
    ensures
        a.len() > 0 && b.len() > 0 ==> path_text(a + b) == path_text(a) + "."@ + path_text(b),
        path_text(seq![Segment::Key(key)]) == key,
        crate::text::number_of(path_text(seq![Segment::Index(i as int)])) == i,
        path_text(Seq::empty()) == Seq::<char>::empty(),
    decreases b.len(),
{
    crate::text::digits_stand_for_the_number(i);
    if a.len() > 0 && b.len() > 0 {
        assert((a + b).last() == b.last());
        assert((a + b).drop_last() =~= a + b.drop_last());
        if b.len() == 1 {
            assert(a + b.drop_last() =~= a);
        } else {
            path_texts_join(a, b.drop_last(), key, i);
            assert(path_text(a + b) =~= path_text(a) + "."@ + path_text(b));
        }
    }
}

} // verus!
