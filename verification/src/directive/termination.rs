//! When the walk over a payload comes to an end.
use vstd::prelude::*;

use super::collect::{
    additional_visits, child_visits, descends, entry_under, property_visits, ref_target, ref_visits,
    unwraps, walk, walk_all, walk_ends, walk_stable, walk_all_stable, wraps, Visit,
};
use super::marker::{item_schema, leads_to};
use crate::json::{Json, Segment};
use crate::schema::{named_schema, AdditionalProperties, JsonSchema};

verus! {

/// Whether every reference in the tree of the schema is to a name of a rank
/// under the bound.
pub open spec fn refs_below(
    schema: JsonSchema,
    rank: spec_fn(Seq<char>) -> nat,
    bound: nat,
) -> bool
    decreases schema,
{
    &&& schema.schema_ref matches Some(name) ==> rank(name@) < bound
    &&& forall|i: int|
        0 <= i < schema.properties@.len() ==> refs_below(
            *(#[trigger] schema.properties@[i]).1,
            rank,
            bound,
        )
    &&& schema.items matches Some(items) ==> refs_below(*items, rank, bound)
    &&& schema.additional_properties matches Some(rule) ==> match *rule {
        AdditionalProperties::Schema(s) => refs_below(*s, rank, bound),
        AdditionalProperties::Bool(_) => true,
    }
}

/// Whether every named schema refers only to names of a lower rank: no name
/// leads back to itself.
pub open spec fn acyclic(
    schemas: Seq<(Seq<char>, JsonSchema)>,
    rank: spec_fn(Seq<char>) -> nat,
) -> bool {
    forall|name: Seq<char>|
        (#[trigger] named_schema(schemas, name)) matches Some(s) ==> refs_below(
            s,
            rank,
            rank(name),
        )
}

proof fn refs_below_child(
    schema: JsonSchema,
    child: JsonSchema,
    rank: spec_fn(Seq<char>) -> nat,
    bound: nat,
)
    requires
        refs_below(schema, rank, bound),
        leads_to(schema, child),
    ensures
        refs_below(child, rank, bound),
{
}

/// Visits that end each for itself end together.
pub proof fn visits_end(
    schemas: Seq<(Seq<char>, JsonSchema)>,
    path: Seq<Segment>,
    visits: Seq<Visit>,
) -> (depth: nat)
    requires
        forall|j: int|
            0 <= j < visits.len() ==> exists|d: nat|
                walk(
                    schemas,
                    path + (#[trigger] visits[j]).suffix,
                    visits[j].schema,
                    visits[j].data,
                    d,
                ) is Some,
    ensures
        walk_all(schemas, path, visits, depth) is Some,
    decreases visits.len(),
{
    if visits.len() == 0 {
        0
    } else {
        let last = visits[visits.len() - 1];
        let front = visits.drop_last();
        assert forall|j: int| 0 <= j < front.len() implies exists|d: nat|
            walk(
                schemas,
                path + (#[trigger] front[j]).suffix,
                front[j].schema,
                front[j].data,
                d,
            ) is Some by {
            assert(front[j] == visits[j]);
        }
        let d1 = visits_end(schemas, path, front);
        let d2 = choose|d: nat|
            walk(schemas, path + last.suffix, last.schema, last.data, d) is Some;
        let d = if d1 >= d2 {
            d1
        } else {
            d2
        };
        walk_all_stable(schemas, path, front, d1, d);
        walk_stable(schemas, path + last.suffix, last.schema, last.data, d2, d);
        d
    }
}

proof fn entry_position(entries: Seq<(Seq<char>, Json)>, key: Seq<char>) -> (i: int)
    requires
        entry_under(entries, key) is Some,
    ensures
        0 <= i < entries.len(),
        entry_under(entries, key) == Some(entries[i].1),
    decreases entries.len(),
{
    if entries[0].0 == key {
        0
    } else {
        1 + entry_position(entries.drop_first(), key)
    }
}

proof fn property_visit_data(
    schema: JsonSchema,
    entries: Seq<(Seq<char>, Json)>,
    n: int,
    j: int,
) -> (i: int)
    requires
        descends(schema),
        0 <= n <= schema.properties@.len(),
        0 <= j < property_visits(schema, entries, n).len(),
    ensures
        0 <= i < entries.len(),
        property_visits(schema, entries, n)[j].data == entries[i].1,
        leads_to(schema, property_visits(schema, entries, n)[j].schema),
    decreases n,
{
    if n > 0 && j < property_visits(schema, entries, n - 1).len() {
        property_visit_data(schema, entries, n - 1, j)
    } else {
        assert(*schema.properties@[n - 1].1 == property_visits(schema, entries, n)[j].schema);
        entry_position(entries, schema.properties@[n - 1].0@)
    }
}

proof fn additional_visit_data(
    schema: JsonSchema,
    entries: Seq<(Seq<char>, Json)>,
    n: int,
    j: int,
) -> (i: int)
    requires
        descends(schema),
        0 <= n <= entries.len(),
        0 <= j < additional_visits(schema, entries, n).len(),
    ensures
        0 <= i < entries.len(),
        additional_visits(schema, entries, n)[j].data == entries[i].1,
        leads_to(schema, additional_visits(schema, entries, n)[j].schema),
    decreases n,
{
    if n > 0 && j < additional_visits(schema, entries, n - 1).len() {
        additional_visit_data(schema, entries, n - 1, j)
    } else {
        n - 1
    }
}

proof fn bounded_walk_ends(
    schemas: Seq<(Seq<char>, JsonSchema)>,
    rank: spec_fn(Seq<char>) -> nat,
    path: Seq<Segment>,
    schema: JsonSchema,
    data: Json,
    bound: nat,
) -> (depth: nat)
    requires
        acyclic(schemas, rank),
        refs_below(schema, rank, bound),
    ensures
        walk(schemas, path, schema, data, depth) is Some,
    decreases data, bound, schema,
{
    let r = ref_visits(schemas, schema, data);
    let c = child_visits(schema, data);
    assert forall|j: int| 0 <= j < r.len() implies exists|d: nat|
        walk(schemas, path + (#[trigger] r[j]).suffix, r[j].schema, r[j].data, d) is Some by {
        let target = ref_target(schemas, schema)->0;
        let name = schema.schema_ref->0@;
        assert(named_schema(schemas, name) == Some(target));
        let d = bounded_walk_ends(schemas, rank, path + r[j].suffix, target, data, rank(name));
        assert(walk(schemas, path + r[j].suffix, r[j].schema, r[j].data, d) is Some);
    }
    assert forall|j: int| 0 <= j < c.len() implies exists|d: nat|
        walk(schemas, path + (#[trigger] c[j]).suffix, c[j].schema, c[j].data, d) is Some by {
        let at = path + c[j].suffix;
        if unwraps(schema, data) {
            let element = data->Array_0[0];
            assert(decreases_to!(data => element));
            let d = bounded_walk_ends(schemas, rank, at, schema, element, bound);
            assert(walk(schemas, at, c[j].schema, c[j].data, d) is Some);
        } else if wraps(schema, data) {
            let d = bounded_walk_ends(schemas, rank, at, item_schema(schema), data, bound);
            assert(walk(schemas, at, c[j].schema, c[j].data, d) is Some);
        } else {
            match data {
                Json::Array(elements) => {
                    assert(decreases_to!(data => elements[j]));
                    let d = bounded_walk_ends(
                        schemas,
                        rank,
                        at,
                        item_schema(schema),
                        elements[j],
                        bound,
                    );
                    assert(walk(schemas, at, c[j].schema, c[j].data, d) is Some);
                },
                Json::Object(entries) => {
                    let n = schema.properties@.len() as int;
                    let named = property_visits(schema, entries, n);
                    let i = if j < named.len() {
                        property_visit_data(schema, entries, n, j)
                    } else {
                        additional_visit_data(
                            schema,
                            entries,
                            entries.len() as int,
                            j - named.len(),
                        )
                    };
                    refs_below_child(schema, c[j].schema, rank, bound);
                    assert(decreases_to!(data => entries[i].1));
                    let d = bounded_walk_ends(schemas, rank, at, c[j].schema, c[j].data, bound);
                    assert(walk(schemas, at, c[j].schema, c[j].data, d) is Some);
                },
                _ => {},
            }
        }
    }
    let d1 = visits_end(schemas, path, r);
    let d2 = visits_end(schemas, path, c);
    let d = if d1 >= d2 {
        d1
    } else {
        d2
    };
    walk_all_stable(schemas, path, r, d1, d);
    walk_all_stable(schemas, path, c, d2, d);
    assert(walk(schemas, path, schema, data, d + 1) is Some);
    d + 1
}

/// Over named schemas that do not refer to each other in a circle, the walk
/// over any payload comes to an end.
pub proof fn acyclic_walk_ends(
    schemas: Seq<(Seq<char>, JsonSchema)>,
    rank: spec_fn(Seq<char>) -> nat,
    schema: JsonSchema,
    bound: nat,
    data: Json,
)
    requires
        acyclic(schemas, rank),
        refs_below(schema, rank, bound),
    ensures
        walk_ends(schemas, schema, data),
{
    let depth = bounded_walk_ends(schemas, rank, Seq::empty(), schema, data, bound);
}

} // verus!
