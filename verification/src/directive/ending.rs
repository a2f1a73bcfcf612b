//! Finding out beforehand whether the walk over a payload comes to an end.
use indexmap::IndexMap;
use vstd::prelude::*;

use super::collect::{
    additional_schema, additional_visits, child_visits, collect, find_entry, findings,
    has_property, item_visits, one_visit, property_visits, ref_visits, sorted_set_of, unwraps,
    value_type_matches_schema, walk, walk_all, walk_all_stable, walk_ends, walk_stable, wraps,
    Collected, Visit,
};
use super::marker::{named_schema_entry, unvisited, unvisited_drops};
use super::termination::visits_end;
use super::types::actions;
use crate::json::{array_view, entries_of, items_of, object_view, Json, Segment, Value};
use crate::schema::{find_schema, named_schema, schema_entries, AdditionalProperties, JsonSchema};
use crate::text::{is_among, same_text, texts};

verus! {

/// Whether the walk from a place comes to an end.
pub open spec fn ends(
    schemas: Seq<(Seq<char>, JsonSchema)>,
    path: Seq<Segment>,
    schema: JsonSchema,
    data: Json,
) -> bool {
    exists|depth: nat| walk(schemas, path, schema, data, depth) is Some
}

/// Whether a list of visits comes to an end.
pub open spec fn all_end(
    schemas: Seq<(Seq<char>, JsonSchema)>,
    path: Seq<Segment>,
    visits: Seq<Visit>,
) -> bool {
    exists|depth: nat| walk_all(schemas, path, visits, depth) is Some
}

/// Whether the visit comes to an end.
spec fn visit_ends(
    schemas: Seq<(Seq<char>, JsonSchema)>,
    path: Seq<Segment>,
    visit: Visit,
) -> bool {
    ends(schemas, path + visit.suffix, visit.schema, visit.data)
}

proof fn visits_end_each(
    schemas: Seq<(Seq<char>, JsonSchema)>,
    path: Seq<Segment>,
    visits: Seq<Visit>,
    depth: nat,
)
    requires
        walk_all(schemas, path, visits, depth) is Some,
    ensures
        forall|j: int| 0 <= j < visits.len() ==> visit_ends(schemas, path, #[trigger] visits[j]),
    decreases visits.len(),
{
    if visits.len() > 0 {
        let front = visits.drop_last();
        visits_end_each(schemas, path, front, depth);
        assert forall|j: int| 0 <= j < visits.len() implies visit_ends(
            schemas,
            path,
            #[trigger] visits[j],
        ) by {
            if j < front.len() {
                assert(visit_ends(schemas, path, front[j]));
            } else {
                let last = visits.last();
                assert(walk(schemas, path + last.suffix, last.schema, last.data, depth) is Some);
            }
        }
    }
}

/// A list of visits comes to an end where each of them does.
proof fn all_end_iff(
    schemas: Seq<(Seq<char>, JsonSchema)>,
    path: Seq<Segment>,
    visits: Seq<Visit>,
)
    ensures
        all_end(schemas, path, visits) <==> forall|j: int|
            0 <= j < visits.len() ==> visit_ends(schemas, path, #[trigger] visits[j]),
{
    if all_end(schemas, path, visits) {
        let depth = choose|depth: nat| walk_all(schemas, path, visits, depth) is Some;
        visits_end_each(schemas, path, visits, depth);
    }
    if forall|j: int| 0 <= j < visits.len() ==> visit_ends(schemas, path, #[trigger] visits[j]) {
        assert forall|j: int| 0 <= j < visits.len() implies exists|d: nat|
            walk(
                schemas,
                path + (#[trigger] visits[j]).suffix,
                visits[j].schema,
                visits[j].data,
                d,
            ) is Some by {
            assert(visit_ends(schemas, path, visits[j]));
        }
        let depth = visits_end(schemas, path, visits);
        assert(walk_all(schemas, path, visits, depth) is Some);
    }
}

/// A walk comes to an end where everything that the node leads to does.
proof fn ends_iff(
    schemas: Seq<(Seq<char>, JsonSchema)>,
    path: Seq<Segment>,
    schema: JsonSchema,
    data: Json,
)
    ensures
        ends(schemas, path, schema, data) <==> all_end(
            schemas,
            path,
            ref_visits(schemas, schema, data),
        ) && all_end(schemas, path, child_visits(schema, data)),
{
    let r = ref_visits(schemas, schema, data);
    let c = child_visits(schema, data);
    if ends(schemas, path, schema, data) {
        let depth = choose|depth: nat| walk(schemas, path, schema, data, depth) is Some;
        let below = (depth - 1) as nat;
        assert(walk_all(schemas, path, r, below) is Some);
        assert(walk_all(schemas, path, c, below) is Some);
    }
    if all_end(schemas, path, r) && all_end(schemas, path, c) {
        let d1 = choose|depth: nat| walk_all(schemas, path, r, depth) is Some;
        let d2 = choose|depth: nat| walk_all(schemas, path, c, depth) is Some;
        let d = if d1 >= d2 {
            d1
        } else {
            d2
        };
        walk_all_stable(schemas, path, r, d1, d);
        walk_all_stable(schemas, path, c, d2, d);
        assert(walk(schemas, path, schema, data, d + 1) is Some);
    }
}

/// Whether a walk from `from` cannot end before the one from `to` has, at one
/// and the same place.
spec fn waits_for(
    schemas: Seq<(Seq<char>, JsonSchema)>,
    path: Seq<Segment>,
    data: Json,
    from: JsonSchema,
    to: JsonSchema,
) -> bool {
    forall|depth: nat|
        (#[trigger] walk(schemas, path, from, data, depth)) is Some ==> walk(
            schemas,
            path,
            to,
            data,
            depth,
        ) is Some
}

/// Whether every one of the named schemas waits for the node.
spec fn chained(
    schemas: Seq<(Seq<char>, JsonSchema)>,
    path: Seq<Segment>,
    data: Json,
    names: Seq<Seq<char>>,
    schema: JsonSchema,
) -> bool {
    forall|name: Seq<char>| #[trigger]
        names.contains(name) ==> (named_schema(schemas, name) matches Some(s) ==> waits_for(
            schemas,
            path,
            data,
            s,
            schema,
        ))
}

/// A node waits for a schema that it leads to without going down in the
/// payload.
proof fn waits_for_next(
    schemas: Seq<(Seq<char>, JsonSchema)>,
    path: Seq<Segment>,
    data: Json,
    schema: JsonSchema,
    next: JsonSchema,
)
    requires
        ({
            let visit = Visit { suffix: Seq::empty(), schema: next, data };
            ref_visits(schemas, schema, data) == seq![visit] || child_visits(schema, data)
                == seq![visit]
        }),
    ensures
        forall|depth: nat|
            (#[trigger] walk(schemas, path, schema, data, depth)) is Some ==> depth > 0 && walk(
                schemas,
                path,
                next,
                data,
                (depth - 1) as nat,
            ) is Some,
        waits_for(schemas, path, data, schema, next),
{
    let visit = Visit { suffix: Seq::empty(), schema: next, data };
    assert(path + Seq::<Segment>::empty() =~= path);
    assert forall|depth: nat| (#[trigger] walk(schemas, path, schema, data, depth)) is Some implies
        depth > 0 && walk(schemas, path, next, data, (depth - 1) as nat) is Some && walk(
        schemas,
        path,
        next,
        data,
        depth,
    ) is Some by {
        let below = (depth - 1) as nat;
        one_visit(schemas, path, visit, below);
        walk_stable(schemas, path, next, data, below, depth);
    }
}

proof fn chained_next(
    schemas: Seq<(Seq<char>, JsonSchema)>,
    path: Seq<Segment>,
    data: Json,
    names: Seq<Seq<char>>,
    schema: JsonSchema,
    next: JsonSchema,
)
    requires
        chained(schemas, path, data, names, schema),
        waits_for(schemas, path, data, schema, next),
    ensures
        chained(schemas, path, data, names, next),
{
    assert forall|name: Seq<char>| #[trigger] names.contains(name) implies (named_schema(
        schemas,
        name,
    ) matches Some(s) ==> waits_for(schemas, path, data, s, next)) by {
        if named_schema(schemas, name) is Some {
            let s = named_schema(schemas, name)->0;
            assert(waits_for(schemas, path, data, s, schema));
            assert forall|depth: nat|
                (#[trigger] walk(schemas, path, s, data, depth)) is Some implies walk(
                schemas,
                path,
                next,
                data,
                depth,
            ) is Some by {
                assert(walk(schemas, path, schema, data, depth) is Some);
            }
        }
    }
}

/// What waits for itself never ends.
proof fn never_ends(
    schemas: Seq<(Seq<char>, JsonSchema)>,
    path: Seq<Segment>,
    data: Json,
    schema: JsonSchema,
    target: JsonSchema,
    depth: nat,
)
    requires
        waits_for(schemas, path, data, target, schema),
        ref_visits(schemas, schema, data) == seq![
            Visit { suffix: Seq::empty(), schema: target, data },
        ],
    ensures
        walk(schemas, path, target, data, depth) is None,
    decreases depth,
{
    if walk(schemas, path, target, data, depth) is Some {
        waits_for_next(schemas, path, data, schema, target);
        assert(walk(schemas, path, schema, data, depth) is Some);
        never_ends(schemas, path, data, schema, target, (depth - 1) as nat);
    }
}

fn with_name(names: &Vec<String>, name: &str) -> (r: Vec<String>)
    ensures
        texts(r@) == texts(names@).push(name@),
{
    let mut out: Vec<String> = Vec::new();
    let mut i: usize = 0;
    while i < names.len()
        invariant
            i <= names@.len(),
            out@.len() == i,
            forall|j: int| 0 <= j < i ==> (#[trigger] out@[j])@ == names@[j]@,
        decreases names@.len() - i,
    {
        out.push(names[i].clone());
        i += 1;
    }
    let ghost before = out@;
    out.push(name.to_owned());
    assert(texts(out@) =~= texts(names@).push(name@));
    out
}

/// Whether the walk from a place comes to an end. `names` are those of the
/// references that led here without going down in the payload: to meet one of
/// them again is to go in a circle.
fn node_ends(
    schemas: &IndexMap<String, JsonSchema>,
    schema: &JsonSchema,
    data: &Value,
    names: &Vec<String>,
    Ghost(path): Ghost<Seq<Segment>>,
) -> (r: bool)
    requires
        chained(schema_entries(*schemas), path, data@, texts(names@), *schema),
    ensures
        r == ends(schema_entries(*schemas), path, *schema, data@),
    decreases *data, unvisited(schema_entries(*schemas), texts(names@)), *schema, 2nat,
{
    let ghost table = schema_entries(*schemas);
    let ghost known = texts(names@);
    proof {
        ends_iff(table, path, *schema, data@);
        all_end_iff(table, path, ref_visits(table, *schema, data@));
    }
    if let Some(name) = &schema.schema_ref {
        if let Some(target) = find_schema(schemas, name.as_str()) {
            let ghost visit = Visit { suffix: Seq::empty(), schema: *target, data: data@ };
            let ghost visits = ref_visits(table, *schema, data@);
            proof {
                assert(visits =~= seq![visit]);
                assert(visits[0] == visit);
                assert(path + Seq::<Segment>::empty() =~= path);
            }
            if is_among(names, name.as_str()) {
                proof {
                    assert(waits_for(table, path, data@, *target, *schema));
                    assert forall|depth: nat| walk(table, path, *target, data@, depth) is None by {
                        never_ends(table, path, data@, *schema, *target, depth);
                    }
                    assert(!visit_ends(table, path, visits[0]));
                }
                return false;
            }
            let more = with_name(names, name.as_str());
            proof {
                let now = texts(more@);
                waits_for_next(table, path, data@, *schema, *target);
                chained_next(table, path, data@, known, *schema, *target);
                assert forall|t: Seq<char>| #[trigger] now.contains(t) implies (named_schema(
                    table,
                    t,
                ) matches Some(s) ==> waits_for(table, path, data@, s, *target)) by {
                    let i = choose|i: int| 0 <= i < now.len() && now[i] == t;
                    if i < known.len() {
                        assert(known[i] == t);
                        assert(known.contains(t));
                    }
                }
                assert forall|t: Seq<char>| #[trigger] known.contains(t) implies now.contains(t) by {
                    let i = choose|i: int| 0 <= i < known.len() && known[i] == t;
                    assert(now[i] == t);
                }
                assert(now[known.len() as int] == name@);
                let k = named_schema_entry(table, name@);
                unvisited_drops(table, known, now, k);
            }
            if !node_ends(schemas, target, data, &more, Ghost(path)) {
                assert(!visit_ends(table, path, visits[0]));
                return false;
            }
            assert(visit_ends(table, path, visits[0]));
        }
    }
    children_end(schemas, schema, data, names, Ghost(path))
}

/// Whether the visits that a node leads to by itself come to an end.
fn children_end(
    schemas: &IndexMap<String, JsonSchema>,
    schema: &JsonSchema,
    data: &Value,
    names: &Vec<String>,
    Ghost(path): Ghost<Seq<Segment>>,
) -> (r: bool)
    requires
        chained(schema_entries(*schemas), path, data@, texts(names@), *schema),
    ensures
        r == all_end(schema_entries(*schemas), path, child_visits(*schema, data@)),
    decreases *data, unvisited(schema_entries(*schemas), texts(names@)), *schema, 1nat,
{
    let ghost table = schema_entries(*schemas);
    let ghost visits = child_visits(*schema, data@);
    proof {
        all_end_iff(table, path, visits);
    }
    if schema.one_of.len() > 0 || schema.enum_values.len() > 0 {
        return true;
    }
    let schema_type: &String = match &schema.schema_type {
        Some(t) => t,
        None => {
            return true;
        },
    };
    let is_array: bool = same_text(schema_type.as_str(), "array");
    let fresh: Vec<String> = Vec::new();
    if !is_array {
        if let Value::Array(elements) = data {
            proof {
                array_view(*elements);
            }
            if elements.len() == 1 && value_type_matches_schema(
                &elements[0],
                schema_type.as_str(),
            ) {
                let ghost at = path + seq![Segment::Index(0)];
                proof {
                    assert(visits[0].data == elements@[0]@);
                    assert(decreases_to!(*data => data->Array_0@[0]));
                }
                let r = node_ends(schemas, schema, &elements[0], &fresh, Ghost(at));
                assert(r == visit_ends(table, path, visits[0]));
                return r;
            }
        }
    }
    let wrapping: bool = match data {
        Value::Array(_) => false,
        _ => match &schema.items {
            Some(items) => match &items.schema_type {
                Some(items_type) => is_array && value_type_matches_schema(
                    data,
                    items_type.as_str(),
                ),
                None => false,
            },
            None => false,
        },
    };
    if wrapping {
        if let Some(items) = &schema.items {
            let next: &JsonSchema = items;
            proof {
                let visit = Visit { suffix: Seq::empty(), schema: *next, data: data@ };
                assert(visits =~= seq![visit]);
                assert(path + Seq::<Segment>::empty() =~= path);
                waits_for_next(table, path, data@, *schema, *next);
                chained_next(table, path, data@, texts(names@), *schema, *next);
            }
            let r = node_ends(schemas, next, data, names, Ghost(path));
            assert(r == visit_ends(table, path, visits[0]));
            return r;
        }
        return true;
    }
    assert(!unwraps(*schema, data@) && !wraps(*schema, data@));
    proof {
        reveal_strlit("array");
        reveal_strlit("object");
        reveal_strlit("string");
        assert("array"@.len() != "string"@.len());
        assert("object"@[0] != "string"@[0]);
    }
    if is_array {
        assert(data@ !is Array ==> visits.len() == 0);
        elements_end(schemas, schema, data, Ghost(path))
    } else if same_text(schema_type.as_str(), "object") {
        assert(data@ !is Object ==> visits.len() == 0);
        entries_end(schemas, schema, data, Ghost(path))
    } else {
        assert(visits.len() == 0);
        true
    }
}

/// Whether the visits to the elements of an array come to an end.
fn elements_end(
    schemas: &IndexMap<String, JsonSchema>,
    schema: &JsonSchema,
    data: &Value,
    Ghost(path): Ghost<Seq<Segment>>,
) -> (r: bool)
    ensures
        r == (data@ matches Json::Array(elements) ==> all_end(
            schema_entries(*schemas),
            path,
            item_visits(*schema, elements),
        )),
    decreases *data, 0nat, *schema, 0nat,
{
    let ghost table = schema_entries(*schemas);
    let elements: &Vec<Value> = match data {
        Value::Array(elements) => {
            proof {
                array_view(*elements);
            }
            elements
        },
        _ => {
            return true;
        },
    };
    let ghost model = items_of(elements@);
    let ghost visits = item_visits(*schema, model);
    proof {
        all_end_iff(table, path, visits);
    }
    if let Some(items) = &schema.items {
        let next: &JsonSchema = items;
        let fresh: Vec<String> = Vec::new();
        let mut i: usize = 0;
        while i < elements.len()
            invariant
                i <= elements@.len(),
                *data == Value::Array(*elements),
                table == schema_entries(*schemas),
                schema.items == Some(*items),
                *next == **items,
                fresh@.len() == 0,
                model == items_of(elements@),
                visits == item_visits(*schema, model),
                data@ == Json::Array(model),
                all_end(table, path, visits) <==> forall|j: int|
                    0 <= j < visits.len() ==> visit_ends(table, path, #[trigger] visits[j]),
                forall|j: int| 0 <= j < i ==> visit_ends(table, path, #[trigger] visits[j]),
            decreases elements@.len() - i,
        {
            let ghost at = path + seq![Segment::Index(i as int)];
            assert(decreases_to!(*data => data->Array_0@[i as int]));
            let r = node_ends(schemas, next, &elements[i], &fresh, Ghost(at));
            assert(r == visit_ends(table, path, visits[i as int]));
            if !r {
                return false;
            }
            i += 1;
        }
    }
    true
}

/// Whether the visits to the entries of an object come to an end.
fn entries_end(
    schemas: &IndexMap<String, JsonSchema>,
    schema: &JsonSchema,
    data: &Value,
    Ghost(path): Ghost<Seq<Segment>>,
) -> (r: bool)
    ensures
        r == (data@ matches Json::Object(entries) ==> all_end(
            schema_entries(*schemas),
            path,
            property_visits(*schema, entries, schema.properties@.len() as int)
                + additional_visits(*schema, entries, entries.len() as int),
        )),
    decreases *data, 0nat, *schema, 0nat,
{
    let ghost table = schema_entries(*schemas);
    let entries: &Vec<(String, Value)> = match data {
        Value::Object(entries) => {
            proof {
                object_view(*entries);
            }
            entries
        },
        _ => {
            return true;
        },
    };
    let ghost model = entries_of(entries@);
    let ghost named = property_visits(*schema, model, schema.properties@.len() as int);
    let ghost others = additional_visits(*schema, model, entries@.len() as int);
    let ghost visits = named + others;
    proof {
        all_end_iff(table, path, visits);
    }
    let fresh: Vec<String> = Vec::new();
    let mut i: usize = 0;
    while i < schema.properties.len()
        invariant
            i <= schema.properties@.len(),
            *data == Value::Object(*entries),
            table == schema_entries(*schemas),
            fresh@.len() == 0,
            model == entries_of(entries@),
            data@ == Json::Object(model),
            named == property_visits(*schema, model, schema.properties@.len() as int),
            others == additional_visits(*schema, model, entries@.len() as int),
            visits == named + others,
            all_end(table, path, visits) <==> forall|j: int|
                0 <= j < visits.len() ==> visit_ends(table, path, #[trigger] visits[j]),
            forall|j: int|
                0 <= j < property_visits(*schema, model, i as int).len() ==> visit_ends(
                    table,
                    path,
                    #[trigger] property_visits(*schema, model, i as int)[j],
                ),
        decreases schema.properties@.len() - i,
    {
        let property: &JsonSchema = &schema.properties[i].1;
        let ghost so_far = property_visits(*schema, model, i as int);
        let ghost next = property_visits(*schema, model, i + 1);
        if let Some(value) = find_entry(entries, schema.properties[i].0.as_str()) {
            let ghost at = path + seq![Segment::Key(schema.properties@[i as int].0@)];
            proof {
                let k = choose|k: int| 0 <= k < entries@.len() && *value == (#[trigger] entries@[k]).1;
                assert(decreases_to!(*data => data->Object_0@[k].1));
            }
            let r = node_ends(schemas, property, value, &fresh, Ghost(at));
            assert(next.last() == Visit {
                suffix: seq![Segment::Key(schema.properties@[i as int].0@)],
                schema: *property,
                data: value@,
            });
            assert(r == visit_ends(table, path, next.last()));
            if !r {
                proof {
                    property_prefix(*schema, model, i + 1, schema.properties@.len() as int);
                    assert(visits[so_far.len() as int] == next.last());
                }
                return false;
            }
            assert forall|j: int| 0 <= j < next.len() implies visit_ends(
                table,
                path,
                #[trigger] next[j],
            ) by {
                if j < so_far.len() {
                    assert(next[j] == so_far[j]);
                } else {
                    assert(next[j] == next.last());
                }
            }
        }
        i += 1;
    }
    let additional: Option<&JsonSchema> = match &schema.additional_properties {
        Some(rule) => match &**rule {
            AdditionalProperties::Schema(s) => Some(s),
            AdditionalProperties::Bool(_) => None,
        },
        None => None,
    };
    if let Some(additional) = additional {
        let mut k: usize = 0;
        while k < entries.len()
            invariant
                k <= entries@.len(),
                *data == Value::Object(*entries),
                table == schema_entries(*schemas),
                fresh@.len() == 0,
                model == entries_of(entries@),
                additional_schema(*schema) == Some(*additional),
                others == additional_visits(*schema, model, entries@.len() as int),
                visits == named + others,
                data@ == Json::Object(model),
                named == property_visits(*schema, model, schema.properties@.len() as int),
                all_end(table, path, visits) <==> forall|j: int|
                    0 <= j < visits.len() ==> visit_ends(table, path, #[trigger] visits[j]),
                forall|j: int|
                    0 <= j < additional_visits(*schema, model, k as int).len() ==> visit_ends(
                        table,
                        path,
                        #[trigger] additional_visits(*schema, model, k as int)[j],
                    ),
            decreases entries@.len() - k,
        {
            let ghost so_far = additional_visits(*schema, model, k as int);
            let ghost next = additional_visits(*schema, model, k + 1);
            if !has_property(schema, entries[k].0.as_str()) {
                let ghost at = path + seq![Segment::Key(entries@[k as int].0@)];
                assert(decreases_to!(*data => data->Object_0@[k as int].1));
                let r = node_ends(schemas, additional, &entries[k].1, &fresh, Ghost(at));
                assert(next.last() == Visit {
                    suffix: seq![Segment::Key(entries@[k as int].0@)],
                    schema: *additional,
                    data: entries@[k as int].1@,
                });
                assert(r == visit_ends(table, path, next.last()));
                if !r {
                    proof {
                        additional_prefix(*schema, model, k + 1, entries@.len() as int);
                        assert(visits[(named.len() + so_far.len()) as int] == next.last());
                    }
                    return false;
                }
                assert forall|j: int| 0 <= j < next.len() implies visit_ends(
                    table,
                    path,
                    #[trigger] next[j],
                ) by {
                    if j < so_far.len() {
                        assert(next[j] == so_far[j]);
                    } else {
                        assert(next[j] == next.last());
                    }
                }
            }
            k += 1;
        }
    } else {
        assert(others.len() == 0);
    }
    proof {
        assert forall|j: int| 0 <= j < visits.len() implies visit_ends(
            table,
            path,
            #[trigger] visits[j],
        ) by {
            if j < named.len() {
                assert(visits[j] == named[j]);
            } else {
                assert(visits[j] == others[j - named.len()]);
            }
        }
    }
    true
}

proof fn property_prefix(schema: JsonSchema, entries: Seq<(Seq<char>, Json)>, m: int, n: int)
    requires
        0 <= m <= n <= schema.properties@.len(),
    ensures
        ({
            let a = property_visits(schema, entries, m);
            let b = property_visits(schema, entries, n);
            a.len() <= b.len() && a == b.take(a.len() as int)
        }),
    decreases n,
{
    let a = property_visits(schema, entries, m);
    let b = property_visits(schema, entries, n);
    if m < n {
        property_prefix(schema, entries, m, n - 1);
        let c = property_visits(schema, entries, n - 1);
        assert(b.take(a.len() as int) =~= c.take(a.len() as int));
    } else {
        assert(b.take(a.len() as int) =~= a);
    }
}

proof fn additional_prefix(schema: JsonSchema, entries: Seq<(Seq<char>, Json)>, m: int, n: int)
    requires
        0 <= m <= n <= entries.len(),
    ensures
        ({
            let a = additional_visits(schema, entries, m);
            let b = additional_visits(schema, entries, n);
            a.len() <= b.len() && a == b.take(a.len() as int)
        }),
    decreases n,
{
    let a = additional_visits(schema, entries, m);
    let b = additional_visits(schema, entries, n);
    if m < n {
        additional_prefix(schema, entries, m, n - 1);
        let c = additional_visits(schema, entries, n - 1);
        assert(b.take(a.len() as int) =~= c.take(a.len() as int));
    } else {
        assert(b.take(a.len() as int) =~= a);
    }
}

/// Whether the walk over the payload comes to an end: no references lead back
/// to themselves without going down in the payload.
pub fn comes_to_an_end(
    schemas: &IndexMap<String, JsonSchema>,
    schema: &JsonSchema,
    data: &Value,
) -> (r: bool)
    ensures
        r == walk_ends(schema_entries(*schemas), *schema, data@),
{
    let names: Vec<String> = Vec::new();
    node_ends(schemas, schema, data, &names, Ghost(Seq::empty()))
}

/// Collects the directives where the walk comes to an end, and nothing where
/// the schemas refer to each other in a circle.
pub fn try_collect<'a>(
    schemas: &'a IndexMap<String, JsonSchema>,
    schema: &'a JsonSchema,
    data: &Value,
) -> (r: Option<Collected<'a>>)
    ensures
        r is Some <==> walk_ends(schema_entries(*schemas), *schema, data@),
        r matches Some(found) ==> actions(found.directives@) == findings(
            schema_entries(*schemas),
            *schema,
            data@,
        ).actions && sorted_set_of(
            texts(found.unknown_directives@),
            findings(schema_entries(*schemas), *schema, data@).unknown,
        ),
{
    if comes_to_an_end(schemas, schema, data) {
        Some(collect(schemas, schema, data))
    } else {
        None
    }
}

} // verus!
