//! The marker search and the walk agree: a schema is taken for a multipart
//! one exactly where some payload has a file to send.
use vstd::prelude::*;

use super::collect::{
    additional_schema, additional_visits, child_visits, descends, entry_under, findings,
    item_visits, names_property, own_actions, property_visits, ref_target, ref_visits, unwraps,
    walk, walk_all, walk_ends, wraps, Visit,
};
use super::marker::{has_octet_stream, is_octet_stream, item_schema, leads_to, reaches_marker};
use super::types::Action;
use crate::json::{Json, Segment};
use crate::schema::JsonSchema;

verus! {

/// Whether one of the actions sends a file in a multipart form.
pub open spec fn sends_file(actions: Seq<Action>) -> bool {
    exists|i: int| 0 <= i < actions.len() && (#[trigger] actions[i]) is UploadMultipart
}

proof fn sends_file_concat(a: Seq<Action>, b: Seq<Action>)
    ensures
        sends_file(a + b) <==> sends_file(a) || sends_file(b),
{
    if sends_file(a) {
        let i = choose|i: int| 0 <= i < a.len() && (#[trigger] a[i]) is UploadMultipart;
        assert((a + b)[i] is UploadMultipart);
    }
    if sends_file(b) {
        let i = choose|i: int| 0 <= i < b.len() && (#[trigger] b[i]) is UploadMultipart;
        assert((a + b)[a.len() + i] is UploadMultipart);
    }
    if sends_file(a + b) {
        let i = choose|i: int| 0 <= i < (a + b).len() && (#[trigger] (a + b)[i]) is UploadMultipart;
        if i < a.len() {
            assert(a[i] is UploadMultipart);
        } else {
            assert(b[i - a.len()] is UploadMultipart);
        }
    }
}

/// Without a marker in reach of the node, none is in reach of where the walk
/// goes from it.
proof fn visits_unmarked(schemas: Seq<(Seq<char>, JsonSchema)>, schema: JsonSchema, next: JsonSchema)
    requires
        !has_octet_stream(schemas, schema),
        next == schema || ref_target(schemas, schema) == Some(next) || leads_to(schema, next),
    ensures
        !has_octet_stream(schemas, next),
{
    if has_octet_stream(schemas, next) && next != schema {
        let steps = choose|steps: nat| reaches_marker(schemas, next, steps);
        assert(reaches_marker(schemas, schema, steps + 1));
    }
}

proof fn property_visits_schemas(
    schema: JsonSchema,
    entries: Seq<(Seq<char>, Json)>,
    n: int,
    j: int,
)
    requires
        descends(schema),
        0 <= n <= schema.properties@.len(),
        0 <= j < property_visits(schema, entries, n).len(),
    ensures
        leads_to(schema, property_visits(schema, entries, n)[j].schema),
    decreases n,
{
    if n > 0 {
        if j < property_visits(schema, entries, n - 1).len() {
            property_visits_schemas(schema, entries, n - 1, j);
        } else {
            let child = property_visits(schema, entries, n)[j].schema;
            assert(*schema.properties@[n - 1].1 == child);
        }
    }
}

proof fn additional_visits_schemas(
    schema: JsonSchema,
    entries: Seq<(Seq<char>, Json)>,
    n: int,
    j: int,
)
    requires
        descends(schema),
        0 <= j < additional_visits(schema, entries, n).len(),
    ensures
        leads_to(schema, additional_visits(schema, entries, n)[j].schema),
    decreases n,
{
    if n > 0 && j < additional_visits(schema, entries, n - 1).len() {
        additional_visits_schemas(schema, entries, n - 1, j);
    }
}

/// The walk goes from a node to the node itself or to one below it.
proof fn child_visits_schemas(schema: JsonSchema, data: Json, j: int)
    requires
        0 <= j < child_visits(schema, data).len(),
    ensures
        child_visits(schema, data)[j].schema == schema || leads_to(
            schema,
            child_visits(schema, data)[j].schema,
        ),
{
    match data {
        Json::Object(entries) => {
            let n = schema.properties@.len() as int;
            let named = property_visits(schema, entries, n);
            if !unwraps(schema, data) && !wraps(schema, data) && schema.schema_type->0@ == "object"@
                && schema.schema_type->0@ != "array"@ && schema.schema_type->0@ != "string"@ {
                if j < named.len() {
                    property_visits_schemas(schema, entries, n, j);
                } else {
                    additional_visits_schemas(
                        schema,
                        entries,
                        entries.len() as int,
                        j - named.len(),
                    );
                }
            }
        },
        _ => {},
    }
}

proof fn unmarked_walk(
    schemas: Seq<(Seq<char>, JsonSchema)>,
    path: Seq<Segment>,
    schema: JsonSchema,
    data: Json,
    depth: nat,
)
    requires
        walk(schemas, path, schema, data, depth) is Some,
        !has_octet_stream(schemas, schema),
    ensures
        !sends_file(walk(schemas, path, schema, data, depth)->0.actions),
    decreases depth, 0nat,
{
    let below = (depth - 1) as nat;
    let r = ref_visits(schemas, schema, data);
    let c = child_visits(schema, data);
    assert forall|j: int| 0 <= j < r.len() implies !has_octet_stream(
        schemas,
        (#[trigger] r[j]).schema,
    ) by {
        visits_unmarked(schemas, schema, r[j].schema);
    }
    assert forall|j: int| 0 <= j < c.len() implies !has_octet_stream(
        schemas,
        (#[trigger] c[j]).schema,
    ) by {
        child_visits_schemas(schema, data, j);
        visits_unmarked(schemas, schema, c[j].schema);
    }
    unmarked_walk_all(schemas, path, r, below);
    unmarked_walk_all(schemas, path, c, below);
    let ra = walk_all(schemas, path, r, below)->0.actions;
    let ca = walk_all(schemas, path, c, below)->0.actions;
    let own = own_actions(path, schema, data);
    assert(!is_octet_stream(schema)) by {
        if is_octet_stream(schema) {
            assert(reaches_marker(schemas, schema, 0));
        }
    }
    sends_file_concat(ra, ca);
    sends_file_concat(ra + ca, own);
}

proof fn unmarked_walk_all(
    schemas: Seq<(Seq<char>, JsonSchema)>,
    path: Seq<Segment>,
    visits: Seq<Visit>,
    depth: nat,
)
    requires
        walk_all(schemas, path, visits, depth) is Some,
        forall|j: int|
            0 <= j < visits.len() ==> !has_octet_stream(schemas, (#[trigger] visits[j]).schema),
    ensures
        !sends_file(walk_all(schemas, path, visits, depth)->0.actions),
    decreases depth, visits.len() + 1,
{
    if visits.len() > 0 {
        let last = visits.last();
        assert forall|j: int| 0 <= j < visits.drop_last().len() implies !has_octet_stream(
            schemas,
            (#[trigger] visits.drop_last()[j]).schema,
        ) by {
            assert(visits.drop_last()[j] == visits[j]);
        }
        unmarked_walk_all(schemas, path, visits.drop_last(), depth);
        assert(!has_octet_stream(schemas, visits[visits.len() - 1].schema));
        unmarked_walk(schemas, path + last.suffix, last.schema, last.data, depth);
        sends_file_concat(
            walk_all(schemas, path, visits.drop_last(), depth)->0.actions,
            walk(schemas, path + last.suffix, last.schema, last.data, depth)->0.actions,
        );
    }
}

/// Where the search finds no marker, no payload has a file to send: what is
/// sent without a multipart form never leaves a file behind.
pub proof fn unmarked_schema_sends_no_file(
    schemas: Seq<(Seq<char>, JsonSchema)>,
    schema: JsonSchema,
    data: Json,
)
    requires
        walk_ends(schemas, schema, data),
        !has_octet_stream(schemas, schema),
    ensures
        !sends_file(findings(schemas, schema, data).actions),
{
    let depth = choose|depth: nat| walk(schemas, Seq::empty(), schema, data, depth) is Some;
    unmarked_walk(schemas, Seq::empty(), schema, data, depth);
}

/// Whether the keywords of a node stand where they have a meaning: a marker on
/// a string that is walked, properties on an object, items on an array.
pub open spec fn regular(schema: JsonSchema) -> bool {
    &&& is_octet_stream(schema) ==> descends(schema) && schema.schema_type->0@ == "string"@
    &&& descends(schema) && schema.properties@.len() > 0 ==> schema.schema_type->0@ == "object"@
    &&& descends(schema) && additional_schema(schema) is Some ==> schema.schema_type->0@
        == "object"@
    &&& descends(schema) && schema.items is Some ==> schema.schema_type->0@ == "array"@
}

/// Whether every node within so many steps is regular.
pub open spec fn regular_within(
    schemas: Seq<(Seq<char>, JsonSchema)>,
    schema: JsonSchema,
    steps: nat,
) -> bool
    decreases steps,
{
    &&& regular(schema)
    &&& steps > 0 && ref_target(schemas, schema) is Some ==> regular_within(
        schemas,
        ref_target(schemas, schema)->0,
        (steps - 1) as nat,
    )
    &&& steps > 0 ==> forall|child: JsonSchema| #[trigger]
        leads_to(schema, child) ==> regular_within(schemas, child, (steps - 1) as nat)
}

/// Whether a payload at the node always comes out with a file to send.
spec fn always_sends(schemas: Seq<(Seq<char>, JsonSchema)>, schema: JsonSchema, data: Json) -> bool {
    forall|path: Seq<Segment>, depth: nat| #[trigger]
        walk(schemas, path, schema, data, depth) is Some ==> sends_file(
            walk(schemas, path, schema, data, depth)->0.actions,
        )
}

/// What one visit of a list finds, the list finds.
proof fn visit_found(
    schemas: Seq<(Seq<char>, JsonSchema)>,
    path: Seq<Segment>,
    visits: Seq<Visit>,
    j: int,
    depth: nat,
)
    requires
        0 <= j < visits.len(),
        walk_all(schemas, path, visits, depth) is Some,
        always_sends(schemas, visits[j].schema, visits[j].data),
    ensures
        sends_file(walk_all(schemas, path, visits, depth)->0.actions),
    decreases visits.len(),
{
    let last = visits.last();
    let before = walk_all(schemas, path, visits.drop_last(), depth)->0.actions;
    let found = walk(schemas, path + last.suffix, last.schema, last.data, depth)->0.actions;
    sends_file_concat(before, found);
    if j < visits.len() - 1 {
        visit_found(schemas, path, visits.drop_last(), j, depth);
    }
}

/// A node sends what one of its own visits sends.
proof fn child_visit_sends(
    schemas: Seq<(Seq<char>, JsonSchema)>,
    schema: JsonSchema,
    data: Json,
    j: int,
)
    requires
        0 <= j < child_visits(schema, data).len(),
        always_sends(
            schemas,
            child_visits(schema, data)[j].schema,
            child_visits(schema, data)[j].data,
        ),
    ensures
        always_sends(schemas, schema, data),
{
    assert forall|path: Seq<Segment>, depth: nat| #[trigger]
        walk(schemas, path, schema, data, depth) is Some implies sends_file(
        walk(schemas, path, schema, data, depth)->0.actions,
    ) by {
        let below = (depth - 1) as nat;
        let c = child_visits(schema, data);
        visit_found(schemas, path, c, j, below);
        let ra = walk_all(schemas, path, ref_visits(schemas, schema, data), below)->0.actions;
        let ca = walk_all(schemas, path, c, below)->0.actions;
        sends_file_concat(ra, ca);
        sends_file_concat(ra + ca, own_actions(path, schema, data));
    }
}

/// A node sends what the schema that it refers to sends.
proof fn ref_visit_sends(
    schemas: Seq<(Seq<char>, JsonSchema)>,
    schema: JsonSchema,
    data: Json,
)
    requires
        ref_target(schemas, schema) is Some,
        always_sends(schemas, ref_target(schemas, schema)->0, data),
    ensures
        always_sends(schemas, schema, data),
{
    assert forall|path: Seq<Segment>, depth: nat| #[trigger]
        walk(schemas, path, schema, data, depth) is Some implies sends_file(
        walk(schemas, path, schema, data, depth)->0.actions,
    ) by {
        let below = (depth - 1) as nat;
        let r = ref_visits(schemas, schema, data);
        visit_found(schemas, path, r, 0, below);
        let ra = walk_all(schemas, path, r, below)->0.actions;
        let ca = walk_all(schemas, path, child_visits(schema, data), below)->0.actions;
        sends_file_concat(ra, ca);
        sends_file_concat(ra + ca, own_actions(path, schema, data));
    }
}

/// A marked string sends a file for any text.
proof fn marked_string_sends(schemas: Seq<(Seq<char>, JsonSchema)>, schema: JsonSchema)
    requires
        is_octet_stream(schema),
        regular(schema),
    ensures
        always_sends(schemas, schema, Json::String(Seq::empty())),
{
    let data = Json::String(Seq::empty());
    assert forall|path: Seq<Segment>, depth: nat| #[trigger]
        walk(schemas, path, schema, data, depth) is Some implies sends_file(
        walk(schemas, path, schema, data, depth)->0.actions,
    ) by {
        reveal_strlit("string");
        reveal_strlit("array");
        assert("string"@.len() == 6 && "array"@.len() == 5);
        let below = (depth - 1) as nat;
        let ra = walk_all(schemas, path, ref_visits(schemas, schema, data), below)->0.actions;
        let ca = walk_all(schemas, path, child_visits(schema, data), below)->0.actions;
        let own = own_actions(path, schema, data);
        assert(own.last() is UploadMultipart);
        assert(own[own.len() - 1] is UploadMultipart);
        sends_file_concat(ra, ca);
        sends_file_concat(ra + ca, own);
    }
}

/// A property that the object holds is visited.
proof fn property_visited(
    schema: JsonSchema,
    entries: Seq<(Seq<char>, Json)>,
    n: int,
    i: int,
) -> (j: int)
    requires
        0 <= i < n <= schema.properties@.len(),
        entry_under(entries, schema.properties@[i].0@) is Some,
    ensures
        0 <= j < property_visits(schema, entries, n).len(),
        property_visits(schema, entries, n)[j].schema == *schema.properties@[i].1,
        property_visits(schema, entries, n)[j].data == entry_under(
            entries,
            schema.properties@[i].0@,
        )->0,
    decreases n,
{
    if i == n - 1 {
        property_visits(schema, entries, n).len() - 1
    } else {
        property_visited(schema, entries, n - 1, i)
    }
}

/// The length of the longest of the first `n` property names.
spec fn longest_name(schema: JsonSchema, n: int) -> nat
    decreases n,
{
    if n <= 0 {
        0
    } else if schema.properties@[n - 1].0@.len() > longest_name(schema, n - 1) {
        schema.properties@[n - 1].0@.len()
    } else {
        longest_name(schema, n - 1)
    }
}

proof fn longest_name_bounds(schema: JsonSchema, n: int, i: int)
    requires
        0 <= i < n,
    ensures
        schema.properties@[i].0@.len() <= longest_name(schema, n),
    decreases n,
{
    if i < n - 1 {
        longest_name_bounds(schema, n - 1, i);
    }
}

/// A name that no property has.
proof fn unused_name(schema: JsonSchema) -> (name: Seq<char>)
    ensures
        !names_property(schema, name),
{
    let n = schema.properties@.len() as int;
    let name = Seq::new(longest_name(schema, n) + 1, |i: int| 'x');
    assert forall|i: int| 0 <= i < n implies (#[trigger] schema.properties@[i]).0@ != name by {
        longest_name_bounds(schema, n, i);
    }
    name
}

/// From every marker in reach, a payload can be made that sends a file.
proof fn marker_has_payload(
    schemas: Seq<(Seq<char>, JsonSchema)>,
    schema: JsonSchema,
    steps: nat,
) -> (data: Json)
    requires
        reaches_marker(schemas, schema, steps),
        regular_within(schemas, schema, steps),
    ensures
        always_sends(schemas, schema, data),
    decreases steps,
{
    let fewer = (steps - 1) as nat;
    if is_octet_stream(schema) {
        marked_string_sends(schemas, schema);
        Json::String(Seq::empty())
    } else if ref_target(schemas, schema) is Some && reaches_marker(
        schemas,
        ref_target(schemas, schema)->0,
        fewer,
    ) {
        let data = marker_has_payload(schemas, ref_target(schemas, schema)->0, fewer);
        ref_visit_sends(schemas, schema, data);
        data
    } else {
        reveal_strlit("string");
        reveal_strlit("array");
        reveal_strlit("object");
        assert("string"@[0] == 's' && "object"@[0] == 'o' && "array"@[0] == 'a');
        let child = choose|child: JsonSchema| #[trigger]
            leads_to(schema, child) && reaches_marker(schemas, child, fewer);
        assert(leads_to(schema, child));
        let inner = marker_has_payload(schemas, child, fewer);
        if schema.items is Some && item_schema(schema) == child {
            let elements = seq![inner];
            let data = Json::Array(elements);
            assert(item_visits(schema, elements)[0].data == inner);
            child_visit_sends(schemas, schema, data, 0);
            data
        } else if additional_schema(schema) == Some(child) {
            let name = unused_name(schema);
            let entries = seq![(name, inner)];
            let data = Json::Object(entries);
            let named = property_visits(schema, entries, schema.properties@.len() as int);
            let others = additional_visits(schema, entries, 1);
            assert(additional_visits(schema, entries, 0).len() == 0);
            assert(others.len() == 1);
            assert((named + others)[named.len() as int] == others[0]);
            child_visit_sends(schemas, schema, data, named.len() as int);
            data
        } else {
            let i = choose|i: int|
                0 <= i < schema.properties@.len() && *(#[trigger] schema.properties@[i]).1 == child;
            let key = schema.properties@[i].0@;
            let entries = seq![(key, inner)];
            let data = Json::Object(entries);
            assert(entry_under(entries, key) == Some(inner));
            let n = schema.properties@.len() as int;
            let j = property_visited(schema, entries, n, i);
            let named = property_visits(schema, entries, n);
            let others = additional_visits(schema, entries, 1);
            assert((named + others)[j] == named[j]);
            child_visit_sends(schemas, schema, data, j);
            data
        }
    }
}

/// Where the search finds a marker, some payload has a file to send: what is
/// taken for a multipart request can be one. This is for schemas whose
/// keywords all stand where they have a meaning and whose walk always ends.
pub proof fn marked_schema_sends_some_file(
    schemas: Seq<(Seq<char>, JsonSchema)>,
    schema: JsonSchema,
)
    requires
        has_octet_stream(schemas, schema),
        forall|steps: nat| regular_within(schemas, schema, steps),
        forall|data: Json| walk_ends(schemas, schema, data),
    ensures
        exists|data: Json| sends_file(findings(schemas, schema, data).actions),
{
    let steps = choose|steps: nat| reaches_marker(schemas, schema, steps);
    assert(regular_within(schemas, schema, steps));
    let data = marker_has_payload(schemas, schema, steps);
    assert(walk_ends(schemas, schema, data));
    let depth = choose|depth: nat| walk(schemas, Seq::empty(), schema, data, depth) is Some;
    assert(walk(schemas, Seq::empty(), schema, data, depth) is Some);
    assert(sends_file(findings(schemas, schema, data).actions));
}

} // verus!
