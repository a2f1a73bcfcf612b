//! Looking for directive markers in a schema, whatever the payload.
use indexmap::IndexMap;
use vstd::prelude::*;

use super::collect::{additional_schema, descends, ref_target};
use crate::schema::{find_schema, named_schema, schema_entries, AdditionalProperties, JsonSchema};
use crate::text::{is_among, same_text, texts};

verus! {

/// Whether the node itself is marked `x-wecom-octet-stream`.
pub open spec fn is_octet_stream(schema: JsonSchema) -> bool {
    schema.directives.octet_stream is Some
}

/// The schema of an array's items.
pub open spec fn item_schema(schema: JsonSchema) -> JsonSchema {
    *schema.items->0
}

/// Whether the walk over a payload can go from a node to a node below it.
pub open spec fn leads_to(schema: JsonSchema, child: JsonSchema) -> bool {
    &&& descends(schema)
    &&& {
        ||| exists|i: int|
            0 <= i < schema.properties@.len() && *(#[trigger] schema.properties@[i]).1 == child
        ||| schema.items is Some && item_schema(schema) == child
        ||| additional_schema(schema) == Some(child)
    }
}

/// Whether a marked node can be reached from the node in at most `steps`
/// steps, through references and into the schemas below.
pub open spec fn reaches_marker(
    schemas: Seq<(Seq<char>, JsonSchema)>,
    schema: JsonSchema,
    steps: nat,
) -> bool
    decreases steps,
{
    ||| is_octet_stream(schema)
    ||| steps > 0 && ref_target(schemas, schema) is Some && reaches_marker(
        schemas,
        ref_target(schemas, schema)->0,
        (steps - 1) as nat,
    )
    ||| steps > 0 && exists|child: JsonSchema| #[trigger]
        leads_to(schema, child) && reaches_marker(schemas, child, (steps - 1) as nat)
}

/// Whether a marked node can be reached from the node at all.
pub open spec fn has_octet_stream(
    schemas: Seq<(Seq<char>, JsonSchema)>,
    schema: JsonSchema,
) -> bool {
    exists|steps: nat| reaches_marker(schemas, schema, steps)
}

/// No node in the tree of the schema is marked, and every reference out of
/// the tree is to one of the names.
spec fn clean(schema: JsonSchema, names: Seq<Seq<char>>) -> bool
    decreases schema,
{
    &&& !is_octet_stream(schema)
    &&& schema.schema_ref matches Some(name) ==> names.contains(name@)
    &&& descends(schema) ==> {
        &&& forall|i: int|
            0 <= i < schema.properties@.len() ==> clean(
                *(#[trigger] schema.properties@[i]).1,
                names,
            )
        &&& schema.items matches Some(items) ==> clean(*items, names)
        &&& schema.additional_properties matches Some(rule) ==> match *rule {
            AdditionalProperties::Schema(s) => clean(*s, names),
            AdditionalProperties::Bool(_) => true,
        }
    }
}

/// How many of the entries have a name that is not among the given ones.
pub open spec fn unvisited(entries: Seq<(Seq<char>, JsonSchema)>, names: Seq<Seq<char>>) -> nat
    decreases entries.len(),
{
    if entries.len() == 0 {
        0
    } else {
        unvisited(entries.drop_last(), names) + if names.contains(entries.last().0) {
            0nat
        } else {
            1nat
        }
    }
}

/// Whether every one of `a` is among `b`.
pub open spec fn included(a: Seq<Seq<char>>, b: Seq<Seq<char>>) -> bool {
    forall|name: Seq<char>| #[trigger] a.contains(name) ==> b.contains(name)
}

proof fn clean_grows(schema: JsonSchema, a: Seq<Seq<char>>, b: Seq<Seq<char>>)
    requires
        clean(schema, a),
        included(a, b),
    ensures
        clean(schema, b),
    decreases schema,
{
    if schema.schema_ref is Some {
        assert(a.contains(schema.schema_ref->0@));
    }
    if descends(schema) {
        assert forall|i: int| 0 <= i < schema.properties@.len() implies clean(
            *(#[trigger] schema.properties@[i]).1,
            b,
        ) by {
            clean_grows(*schema.properties@[i].1, a, b);
        }
        if schema.items is Some {
            clean_grows(item_schema(schema), a, b);
        }
        if additional_schema(schema) is Some {
            clean_grows(additional_schema(schema)->0, a, b);
        }
    }
}

/// Every name of `names` that the table holds stands for a clean schema.
spec fn closed_under(schemas: Seq<(Seq<char>, JsonSchema)>, names: Seq<Seq<char>>) -> bool {
    forall|name: Seq<char>| #[trigger]
        names.contains(name) ==> (named_schema(schemas, name) matches Some(s) ==> clean(s, names))
}

/// From a clean schema, with clean schemas behind every reference, no marker
/// is reached.
proof fn clean_reaches_none(
    schemas: Seq<(Seq<char>, JsonSchema)>,
    schema: JsonSchema,
    names: Seq<Seq<char>>,
    steps: nat,
)
    requires
        clean(schema, names),
        closed_under(schemas, names),
    ensures
        !reaches_marker(schemas, schema, steps),
    decreases steps,
{
    if steps > 0 {
        let fewer = (steps - 1) as nat;
        if ref_target(schemas, schema) is Some {
            assert(names.contains(schema.schema_ref->0@));
            clean_reaches_none(schemas, ref_target(schemas, schema)->0, names, fewer);
        }
        assert forall|child: JsonSchema| #[trigger] leads_to(schema, child) implies !reaches_marker(
            schemas,
            child,
            fewer,
        ) by {
            clean_reaches_none(schemas, child, names, fewer);
        }
    }
}

proof fn unvisited_shrinks(
    entries: Seq<(Seq<char>, JsonSchema)>,
    a: Seq<Seq<char>>,
    b: Seq<Seq<char>>,
)
    requires
        included(a, b),
    ensures
        unvisited(entries, b) <= unvisited(entries, a),
    decreases entries.len(),
{
    if entries.len() > 0 {
        unvisited_shrinks(entries.drop_last(), a, b);
        if a.contains(entries.last().0) {
            assert(b.contains(entries.last().0));
        }
    }
}

/// The name of an entry, once visited, counts no more.
pub proof fn unvisited_drops(
    entries: Seq<(Seq<char>, JsonSchema)>,
    a: Seq<Seq<char>>,
    b: Seq<Seq<char>>,
    i: int,
)
    requires
        included(a, b),
        0 <= i < entries.len(),
        !a.contains(entries[i].0),
        b.contains(entries[i].0),
    ensures
        unvisited(entries, b) < unvisited(entries, a),
    decreases entries.len(),
{
    if i == entries.len() - 1 {
        unvisited_shrinks(entries.drop_last(), a, b);
    } else {
        unvisited_drops(entries.drop_last(), a, b, i);
        if a.contains(entries.last().0) {
            assert(b.contains(entries.last().0));
        }
    }
}

/// A named schema comes from an entry.
pub proof fn named_schema_entry(entries: Seq<(Seq<char>, JsonSchema)>, name: Seq<char>) -> (i: int)
    requires
        named_schema(entries, name) is Some,
    ensures
        0 <= i < entries.len(),
        entries[i].0 == name,
        entries[i].1 == named_schema(entries, name)->0,
    decreases entries.len(),
{
    if entries[0].0 == name {
        0
    } else {
        let j = named_schema_entry(entries.drop_first(), name);
        j + 1
    }
}

/// What a search that found nothing has shown: the tree that it went through
/// is clean, and so is every schema whose name it visited on the way.
spec fn searched(
    schemas: Seq<(Seq<char>, JsonSchema)>,
    before: Seq<Seq<char>>,
    after: Seq<Seq<char>>,
) -> bool {
    forall|name: Seq<char>| #[trigger]
        after.contains(name) && !before.contains(name) ==> (named_schema(schemas, name) matches Some(
            s,
        ) ==> clean(s, after))
}

/// Two searches, one after the other.
proof fn searched_on(
    schemas: Seq<(Seq<char>, JsonSchema)>,
    a: Seq<Seq<char>>,
    b: Seq<Seq<char>>,
    c: Seq<Seq<char>>,
)
    requires
        included(a, b),
        included(b, c),
        searched(schemas, a, b),
        searched(schemas, b, c),
    ensures
        included(a, c),
        searched(schemas, a, c),
{
    assert forall|name: Seq<char>| #[trigger] c.contains(name) && !a.contains(
        name,
    ) implies (named_schema(schemas, name) matches Some(s) ==> clean(s, c)) by {
        if named_schema(schemas, name) is Some && b.contains(name) {
            clean_grows(named_schema(schemas, name)->0, b, c);
        }
    }
}

/// Searches the schema for a marked node, and the schemas that it refers to
/// and that were not visited before.
fn has_marker(
    schemas: &IndexMap<String, JsonSchema>,
    schema: &JsonSchema,
    visited: &mut Vec<String>,
) -> (r: bool)
    ensures
        r ==> has_octet_stream(schema_entries(*schemas), *schema),
        included(texts(old(visited)@), texts(final(visited)@)),
        !r ==> clean(*schema, texts(final(visited)@)),
        !r ==> searched(
            schema_entries(*schemas),
            texts(old(visited)@),
            texts(final(visited)@),
        ),
    decreases unvisited(schema_entries(*schemas), texts(old(visited)@)), *schema,
{
    let ghost table = schema_entries(*schemas);
    let ghost start = texts(visited@);
    if schema.directives.octet_stream.is_some() {
        assert(reaches_marker(table, *schema, 0));
        return true;
    }
    if let Some(name) = &schema.schema_ref {
        if !is_among(visited, name.as_str()) {
            visited.push(name.clone());
            let ghost entered = texts(visited@);
            proof {
                assert(entered =~= start.push(name@));
                assert(entered[start.len() as int] == name@);
                assert forall|t: Seq<char>| #[trigger] start.contains(t) implies entered.contains(
                    t,
                ) by {
                    let i = choose|i: int| 0 <= i < start.len() && start[i] == t;
                    assert(entered[i] == t);
                }
            }
            if let Some(target) = find_schema(schemas, name.as_str()) {
                proof {
                    let i = named_schema_entry(table, name@);
                    unvisited_drops(table, start, entered, i);
                }
                if has_marker(schemas, target, visited) {
                    proof {
                        let steps = choose|steps: nat| reaches_marker(table, *target, steps);
                        assert(reaches_marker(table, *schema, steps + 1));
                    }
                    return true;
                }
            }
            proof {
                let now = texts(visited@);
                assert forall|t: Seq<char>| #[trigger] now.contains(t) && !start.contains(
                    t,
                ) implies (named_schema(table, t) matches Some(s) ==> clean(s, now)) by {
                    if entered.contains(t) {
                        let i = choose|i: int| 0 <= i < entered.len() && entered[i] == t;
                        assert(i == start.len()) by {
                            if i < start.len() {
                                assert(start[i] == t);
                            }
                        }
                        assert(t == name@);
                    }
                }
                assert(entered.contains(name@));
            }
        }
    }
    if schema.one_of.len() > 0 || schema.enum_values.len() > 0 {
        return false;
    }
    if schema.schema_type.is_none() {
        return false;
    }
    let ghost after_ref = texts(visited@);
    let mut i: usize = 0;
    while i < schema.properties.len()
        invariant
            i <= schema.properties@.len(),
            table == schema_entries(*schemas),
            start == texts(old(visited)@),
            descends(*schema),
            included(start, texts(visited@)),
            included(after_ref, texts(visited@)),
            searched(table, start, texts(visited@)),
            forall|j: int|
                0 <= j < i ==> clean(*(#[trigger] schema.properties@[j]).1, texts(visited@)),
        decreases schema.properties@.len() - i,
    {
        let ghost before = texts(visited@);
        proof {
            unvisited_shrinks(table, start, before);
        }
        let child: &JsonSchema = &schema.properties[i].1;
        if has_marker(schemas, child, visited) {
            proof {
                child_marker(table, *schema, *child);
            }
            return true;
        }
        proof {
            let now = texts(visited@);
            searched_on(table, start, before, now);
            assert forall|j: int| 0 <= j < i + 1 implies clean(
                *(#[trigger] schema.properties@[j]).1,
                now,
            ) by {
                if j < i {
                    clean_grows(*schema.properties@[j].1, before, now);
                }
            }
        }
        i += 1;
    }
    let ghost after_properties = texts(visited@);
    if let Some(items) = &schema.items {
        let child: &JsonSchema = items;
        proof {
            unvisited_shrinks(table, start, after_properties);
        }
        if has_marker(schemas, child, visited) {
            proof {
                child_marker(table, *schema, *child);
            }
            return true;
        }
        proof {
            searched_on(table, start, after_properties, texts(visited@));
        }
    }
    let ghost after_items = texts(visited@);
    if let Some(rule) = &schema.additional_properties {
        match &**rule {
            AdditionalProperties::Schema(s) => {
                let child: &JsonSchema = s;
                proof {
                    unvisited_shrinks(table, start, after_items);
                }
                if has_marker(schemas, child, visited) {
                    proof {
                        child_marker(table, *schema, *child);
                    }
                    return true;
                }
                proof {
                    searched_on(table, start, after_items, texts(visited@));
                }
            },
            AdditionalProperties::Bool(_) => {},
        }
    }
    proof {
        let now = texts(visited@);
        assert forall|j: int| 0 <= j < schema.properties@.len() implies clean(
            *(#[trigger] schema.properties@[j]).1,
            now,
        ) by {
            clean_grows(*schema.properties@[j].1, after_properties, now);
        }
        if schema.items is Some {
            clean_grows(item_schema(*schema), after_items, now);
        }
    }
    false
}

proof fn child_marker(
    schemas: Seq<(Seq<char>, JsonSchema)>,
    schema: JsonSchema,
    child: JsonSchema,
)
    requires
        leads_to(schema, child),
        has_octet_stream(schemas, child),
    ensures
        has_octet_stream(schemas, schema),
{
    let steps = choose|steps: nat| reaches_marker(schemas, child, steps);
    assert(reaches_marker(schemas, schema, steps + 1));
}

/// Whether the schema declares an `x-wecom-octet-stream` field anywhere that
/// a walk could come to.
pub fn check_has_octet_stream(
    schemas: &IndexMap<String, JsonSchema>,
    schema: &JsonSchema,
) -> (r: bool)
    ensures
        r == has_octet_stream(schema_entries(*schemas), *schema),
{
    let mut visited: Vec<String> = Vec::new();
    let found: bool = has_marker(schemas, schema, &mut visited);
    proof {
        let table = schema_entries(*schemas);
        let names = texts(visited@);
        if !found {
            assert(closed_under(table, names));
            assert forall|steps: nat| !reaches_marker(table, *schema, steps) by {
                clean_reaches_none(table, *schema, names, steps);
            }
        }
    }
    found
}

/// A marked node is found, and one behind a reference, whatever else the node
/// says. Below a node with a type and without alternatives or an enumeration,
/// it is found under every property, among the items and among what the
/// properties do not name.
pub proof fn marker_is_found(
    schemas: Seq<(Seq<char>, JsonSchema)>,
    schema: JsonSchema,
    i: int,
)
    ensures
        schema.directives.octet_stream is Some ==> has_octet_stream(schemas, schema),
        schema.schema_ref matches Some(name) ==> (named_schema(schemas, name@) matches Some(target)
            ==> (has_octet_stream(schemas, target) ==> has_octet_stream(schemas, schema))),
        schema.one_of@.len() == 0 && schema.enum_values@.len() == 0 && schema.schema_type is Some
            ==> {
            &&& 0 <= i < schema.properties@.len() && has_octet_stream(
                schemas,
                *schema.properties@[i].1,
            ) ==> has_octet_stream(schemas, schema)
            &&& schema.items matches Some(items) ==> (has_octet_stream(schemas, *items)
                ==> has_octet_stream(schemas, schema))
            &&& schema.additional_properties matches Some(rule) ==> (
            *rule matches AdditionalProperties::Schema(other) ==> (has_octet_stream(schemas, *other)
                ==> has_octet_stream(schemas, schema)))
        },
{
    if schema.directives.octet_stream is Some {
        assert(reaches_marker(schemas, schema, 0));
    }
    if ref_target(schemas, schema) is Some {
        let target = ref_target(schemas, schema)->0;
        if has_octet_stream(schemas, target) {
            let steps = choose|steps: nat| reaches_marker(schemas, target, steps);
            assert(reaches_marker(schemas, schema, steps + 1));
        }
    }
    if descends(schema) {
        if 0 <= i < schema.properties@.len() {
            let child = *schema.properties@[i].1;
            assert(leads_to(schema, child));
            if has_octet_stream(schemas, child) {
                child_marker(schemas, schema, child);
            }
        }
        if schema.items is Some {
            let child = *schema.items->0;
            assert(leads_to(schema, child));
            if has_octet_stream(schemas, child) {
                child_marker(schemas, schema, child);
            }
        }
        if additional_schema(schema) is Some {
            let child = additional_schema(schema)->0;
            assert(leads_to(schema, child));
            if has_octet_stream(schemas, child) {
                child_marker(schemas, schema, child);
            }
        }
    }
}

/// Without a marked node there is nothing to find: a node that is not marked,
/// and refers to none, is searched below alone, and not even there where it
/// has alternatives, an enumeration or no type.
pub proof fn unmarked_leaf_is_not_found(
    schemas: Seq<(Seq<char>, JsonSchema)>,
    schema: JsonSchema,
)
    requires
        schema.directives.octet_stream is None,
        schema.schema_ref is None,
        ({
            ||| schema.one_of@.len() > 0
            ||| schema.enum_values@.len() > 0
            ||| schema.schema_type is None
            ||| schema.properties@.len() == 0 && schema.items is None
                && schema.additional_properties is None
        }),
    ensures
        !has_octet_stream(schemas, schema),
{
    assert forall|steps: nat| !reaches_marker(schemas, schema, steps) by {
        assert forall|child: JsonSchema| !leads_to(schema, child) by {}
    }
}

/// What is found is marked itself, or found behind its reference, or found
/// below it: under a property, among the items or among what the properties do
/// not name.
pub proof fn found_marker_is_somewhere(
    schemas: Seq<(Seq<char>, JsonSchema)>,
    schema: JsonSchema,
)
    requires
        has_octet_stream(schemas, schema),
    ensures
        ({
            ||| schema.directives.octet_stream is Some
            ||| schema.schema_ref matches Some(name) && (named_schema(
                schemas,
                name@,
            ) matches Some(target) && has_octet_stream(schemas, target))
            ||| exists|i: int|
                0 <= i < schema.properties@.len() && has_octet_stream(
                    schemas,
                    *(#[trigger] schema.properties@[i]).1,
                )
            ||| schema.items matches Some(items) && has_octet_stream(schemas, *items)
            ||| schema.additional_properties matches Some(rule) && (
            *rule matches AdditionalProperties::Schema(other) && has_octet_stream(schemas, *other))
        }),
{
    let steps = choose|steps: nat| reaches_marker(schemas, schema, steps);
    if !is_octet_stream(schema) {
        let fewer = (steps - 1) as nat;
        if ref_target(schemas, schema) is Some && reaches_marker(
            schemas,
            ref_target(schemas, schema)->0,
            fewer,
        ) {
            assert(has_octet_stream(schemas, ref_target(schemas, schema)->0));
        } else {
            let child = choose|child: JsonSchema| #[trigger]
                leads_to(schema, child) && reaches_marker(schemas, child, fewer);
            assert(has_octet_stream(schemas, child));
            if exists|i: int|
                0 <= i < schema.properties@.len() && *(#[trigger] schema.properties@[i]).1
                    == child {
                let i = choose|i: int|
                    0 <= i < schema.properties@.len() && *(#[trigger] schema.properties@[i]).1
                        == child;
                assert(has_octet_stream(schemas, *schema.properties@[i].1));
            }
        }
    }
}

} // verus!
