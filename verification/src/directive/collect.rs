//! Collecting directives: a walk over a schema and a payload side by side.
use indexmap::IndexMap;
use vstd::prelude::*;

use super::types::{actions, actions_push, Action, Directive};
use crate::json::{
    array_view, duplicate_path, entries_of, items_of, object_view, path_view, Json, PathSegment,
    Segment, Value,
};
use crate::schema::{
    find_schema, named_schema, schema_entries, AdditionalProperties, JsonSchema,
};
use crate::text::{
    has_prefix, precedes, same_text, starts_with, text_less, text_less_irreflexive, text_less_total,
    text_less_transitive, texts,
};

verus! {

/// Whether a value is of the named schema type.
pub open spec fn type_matches(value: Json, schema_type: Seq<char>) -> bool {
    match value {
        Json::String(_) => schema_type == "string"@,
        Json::Array(_) => schema_type == "array"@,
        Json::Object(_) => schema_type == "object"@,
        Json::Number(_) => schema_type == "number"@ || schema_type == "integer"@,
        Json::Bool(_) => schema_type == "boolean"@,
        Json::Null => false,
    }
}

/// Whether a value is of the named schema type.
pub fn value_type_matches_schema(value: &Value, schema_type: &str) -> (r: bool)
    ensures
        r == type_matches(value@, schema_type@),
{
    match value {
        Value::String(_) => same_text(schema_type, "string"),
        Value::Array(_) => same_text(schema_type, "array"),
        Value::Object(_) => same_text(schema_type, "object"),
        Value::Number(_) => same_text(schema_type, "number") || same_text(schema_type, "integer"),
        Value::Bool(_) => same_text(schema_type, "boolean"),
        Value::Null => false,
    }
}

/// A place that the walk goes on to: the path from the present place, the
/// schema that holds there, and the value there.
pub struct Visit {
    pub suffix: Seq<Segment>,
    pub schema: JsonSchema,
    pub data: Json,
}

/// What a walk finds: the actions, in order, and the names of the
/// `x-wecom-*` keywords that are no known directive.
#[verifier::ext_equal]
pub struct Findings {
    pub actions: Seq<Action>,
    pub unknown: Seq<Seq<char>>,
}

/// Nothing found.
pub open spec fn no_findings() -> Findings {
    Findings { actions: Seq::empty(), unknown: Seq::empty() }
}

/// First `a`, after that `b`.
pub open spec fn join(a: Findings, b: Findings) -> Findings {
    Findings { actions: a.actions + b.actions, unknown: a.unknown + b.unknown }
}

/// The unknown `x-wecom-*` keywords among the first `n` extra keywords.
pub open spec fn unknown_names(extra: Seq<(String, Value)>, n: int) -> Seq<Seq<char>>
    decreases n,
{
    if n <= 0 {
        Seq::empty()
    } else if starts_with(extra[n - 1].0@, "x-wecom-"@) {
        unknown_names(extra, n - 1).push(extra[n - 1].0@)
    } else {
        unknown_names(extra, n - 1)
    }
}

/// Whether the walk looks below the node: a node with alternatives, with an
/// enumeration or without a type ends it.
pub open spec fn descends(schema: JsonSchema) -> bool {
    schema.one_of@.len() == 0 && schema.enum_values@.len() == 0 && schema.schema_type is Some
}

/// Whether a one-element array stands for its element: the schema is for
/// another type than array and the element is of that type.
pub open spec fn unwraps(schema: JsonSchema, data: Json) -> bool {
    &&& schema.schema_type->0@ != "array"@
    &&& data matches Json::Array(items)
    &&& items.len() == 1
    &&& type_matches(items[0], schema.schema_type->0@)
}

/// Whether a value stands for the array that holds just it: the schema is for
/// an array and the value is of the items' type.
pub open spec fn wraps(schema: JsonSchema, data: Json) -> bool {
    &&& schema.schema_type->0@ == "array"@
    &&& data !is Array
    &&& schema.items is Some
    &&& schema.items->0.schema_type is Some
    &&& type_matches(data, schema.items->0.schema_type->0@)
}

/// The schema that the node refers to, where the table holds it.
pub open spec fn ref_target(
    schemas: Seq<(Seq<char>, JsonSchema)>,
    schema: JsonSchema,
) -> Option<JsonSchema> {
    match schema.schema_ref {
        Some(name) => named_schema(schemas, name@),
        None => None,
    }
}

/// The visit that a reference leads to: the same place under another schema.
pub open spec fn ref_visits(
    schemas: Seq<(Seq<char>, JsonSchema)>,
    schema: JsonSchema,
    data: Json,
) -> Seq<Visit> {
    match ref_target(schemas, schema) {
        Some(target) => seq![Visit { suffix: Seq::empty(), schema: target, data }],
        None => Seq::empty(),
    }
}

/// Whether one of the properties has the name.
pub open spec fn names_property(schema: JsonSchema, key: Seq<char>) -> bool {
    exists|i: int| 0 <= i < schema.properties@.len() && (#[trigger] schema.properties@[i]).0@ == key
}

/// The first of the entries under `key`.
pub open spec fn entry_under(entries: Seq<(Seq<char>, Json)>, key: Seq<char>) -> Option<Json>
    decreases entries.len(),
{
    if entries.len() == 0 {
        None
    } else if entries[0].0 == key {
        Some(entries[0].1)
    } else {
        entry_under(entries.drop_first(), key)
    }
}

/// The visits to the first `n` properties: those that the object holds.
pub open spec fn property_visits(
    schema: JsonSchema,
    entries: Seq<(Seq<char>, Json)>,
    n: int,
) -> Seq<Visit>
    decreases n,
{
    if n <= 0 {
        Seq::empty()
    } else {
        let (key, property) = schema.properties@[n - 1];
        match entry_under(entries, key@) {
            Some(value) => property_visits(schema, entries, n - 1).push(
                Visit { suffix: seq![Segment::Key(key@)], schema: *property, data: value },
            ),
            None => property_visits(schema, entries, n - 1),
        }
    }
}

/// The schema for properties that the node does not name.
pub open spec fn additional_schema(schema: JsonSchema) -> Option<JsonSchema> {
    match schema.additional_properties {
        Some(rule) => match *rule {
            AdditionalProperties::Schema(s) => Some(*s),
            AdditionalProperties::Bool(_) => None,
        },
        None => None,
    }
}

/// The visits to the first `n` entries that no property names.
pub open spec fn additional_visits(
    schema: JsonSchema,
    entries: Seq<(Seq<char>, Json)>,
    n: int,
) -> Seq<Visit>
    decreases n,
{
    if n <= 0 || additional_schema(schema) is None {
        Seq::empty()
    } else {
        let (key, value) = entries[n - 1];
        if names_property(schema, key) {
            additional_visits(schema, entries, n - 1)
        } else {
            additional_visits(schema, entries, n - 1).push(
                Visit {
                    suffix: seq![Segment::Key(key)],
                    schema: additional_schema(schema)->0,
                    data: value,
                },
            )
        }
    }
}

/// The visits to the elements of an array.
pub open spec fn item_visits(schema: JsonSchema, elements: Seq<Json>) -> Seq<Visit> {
    match schema.items {
        Some(items) => Seq::new(
            elements.len(),
            |i: int| Visit { suffix: seq![Segment::Index(i)], schema: *items, data: elements[i] },
        ),
        None => Seq::empty(),
    }
}

/// The visits that a node leads to by itself.
pub open spec fn child_visits(schema: JsonSchema, data: Json) -> Seq<Visit> {
    if !descends(schema) {
        Seq::empty()
    } else if unwraps(schema, data) {
        seq![Visit { suffix: seq![Segment::Index(0)], schema, data: data->Array_0[0] }]
    } else if wraps(schema, data) {
        seq![Visit { suffix: Seq::empty(), schema: *schema.items->0, data }]
    } else if schema.schema_type->0@ == "string"@ {
        Seq::empty()
    } else if schema.schema_type->0@ == "array"@ {
        match data {
            Json::Array(elements) => item_visits(schema, elements),
            _ => Seq::empty(),
        }
    } else if schema.schema_type->0@ == "object"@ {
        match data {
            Json::Object(entries) => property_visits(
                schema,
                entries,
                schema.properties@.len() as int,
            ) + additional_visits(schema, entries, entries.len() as int),
            _ => Seq::empty(),
        }
    } else {
        Seq::empty()
    }
}

/// The actions that a string node asks for: saving whatever stands there, and
/// uploading where a string stands there.
pub open spec fn string_actions(path: Seq<Segment>, schema: JsonSchema, data: Json) -> Seq<Action> {
    let save = match schema.directives.file_save {
        Some(options) => seq![Action::Save { path, options }],
        None => Seq::empty(),
    };
    match data {
        Json::String(text) => {
            let media = match schema.directives.upload_media {
                Some(options) => seq![
                    Action::UploadMedia {
                        path,
                        file_path: text,
                        with_file_path: options.with_file_path,
                    },
                ],
                None => Seq::empty(),
            };
            let multipart = if schema.directives.octet_stream is Some {
                seq![Action::UploadMultipart { path, file_path: text }]
            } else {
                Seq::empty()
            };
            save + media + multipart
        },
        _ => save,
    }
}

/// The actions that the node itself asks for.
pub open spec fn own_actions(path: Seq<Segment>, schema: JsonSchema, data: Json) -> Seq<Action> {
    if descends(schema) && !unwraps(schema, data) && !wraps(schema, data)
        && schema.schema_type->0@ == "string"@ {
        string_actions(path, schema, data)
    } else {
        Seq::empty()
    }
}

/// What the walk finds at a place, if it gets to the end of every branch
/// within `depth` nested visits.
pub open spec fn walk(
    schemas: Seq<(Seq<char>, JsonSchema)>,
    path: Seq<Segment>,
    schema: JsonSchema,
    data: Json,
    depth: nat,
) -> Option<Findings>
    decreases depth, 0nat,
{
    if depth == 0 {
        None
    } else {
        let below = (depth - 1) as nat;
        match (
            walk_all(schemas, path, ref_visits(schemas, schema, data), below),
            walk_all(schemas, path, child_visits(schema, data), below),
        ) {
            (Some(referred), Some(children)) => Some(
                Findings {
                    actions: referred.actions + children.actions + own_actions(path, schema, data),
                    unknown: unknown_names(schema.extra@, schema.extra@.len() as int)
                        + referred.unknown + children.unknown,
                },
            ),
            _ => None,
        }
    }
}

/// What the walk finds on a list of visits from `path`.
pub open spec fn walk_all(
    schemas: Seq<(Seq<char>, JsonSchema)>,
    path: Seq<Segment>,
    visits: Seq<Visit>,
    depth: nat,
) -> Option<Findings>
    decreases depth, visits.len() + 1,
{
    if visits.len() == 0 {
        Some(no_findings())
    } else {
        let last = visits.last();
        match (
            walk_all(schemas, path, visits.drop_last(), depth),
            walk(schemas, path + last.suffix, last.schema, last.data, depth),
        ) {
            (Some(before), Some(found)) => Some(join(before, found)),
            _ => None,
        }
    }
}

/// Whether the walk over the payload comes to an end. It does unless the
/// schemas refer to each other in a circle at one and the same place of the
/// payload.
pub open spec fn walk_ends(
    schemas: Seq<(Seq<char>, JsonSchema)>,
    schema: JsonSchema,
    data: Json,
) -> bool {
    exists|depth: nat| walk(schemas, Seq::empty(), schema, data, depth) is Some
}

/// What the walk over the payload finds.
pub open spec fn findings(
    schemas: Seq<(Seq<char>, JsonSchema)>,
    schema: JsonSchema,
    data: Json,
) -> Findings {
    let depth = choose|depth: nat| walk(schemas, Seq::empty(), schema, data, depth) is Some;
    walk(schemas, Seq::empty(), schema, data, depth)->0
}

/// More depth than enough changes nothing.
pub proof fn walk_stable(
    schemas: Seq<(Seq<char>, JsonSchema)>,
    path: Seq<Segment>,
    schema: JsonSchema,
    data: Json,
    d1: nat,
    d2: nat,
)
    requires
        d1 <= d2,
        walk(schemas, path, schema, data, d1) is Some,
    ensures
        walk(schemas, path, schema, data, d2) == walk(schemas, path, schema, data, d1),
    decreases d1, 0nat,
{
    let b1 = (d1 - 1) as nat;
    let b2 = (d2 - 1) as nat;
    walk_all_stable(schemas, path, ref_visits(schemas, schema, data), b1, b2);
    walk_all_stable(schemas, path, child_visits(schema, data), b1, b2);
}

pub proof fn walk_all_stable(
    schemas: Seq<(Seq<char>, JsonSchema)>,
    path: Seq<Segment>,
    visits: Seq<Visit>,
    d1: nat,
    d2: nat,
)
    requires
        d1 <= d2,
        walk_all(schemas, path, visits, d1) is Some,
    ensures
        walk_all(schemas, path, visits, d2) == walk_all(schemas, path, visits, d1),
    decreases d1, visits.len() + 1,
{
    if visits.len() > 0 {
        let last = visits.last();
        walk_all_stable(schemas, path, visits.drop_last(), d1, d2);
        walk_stable(schemas, path + last.suffix, last.schema, last.data, d1, d2);
    }
}

/// What a walk finds does not depend on the depth that it was given.
pub proof fn findings_at_any_depth(
    schemas: Seq<(Seq<char>, JsonSchema)>,
    schema: JsonSchema,
    data: Json,
    depth: nat,
)
    requires
        walk(schemas, Seq::empty(), schema, data, depth) is Some,
    ensures
        walk_ends(schemas, schema, data),
        findings(schemas, schema, data) == walk(schemas, Seq::empty(), schema, data, depth)->0,
{
    let chosen = choose|d: nat| walk(schemas, Seq::empty(), schema, data, d) is Some;
    if chosen <= depth {
        walk_stable(schemas, Seq::empty(), schema, data, chosen, depth);
    } else {
        walk_stable(schemas, Seq::empty(), schema, data, depth, chosen);
    }
}

/// Two lists of visits, one after the other.
proof fn walk_all_append(
    schemas: Seq<(Seq<char>, JsonSchema)>,
    path: Seq<Segment>,
    a: Seq<Visit>,
    b: Seq<Visit>,
    depth: nat,
)
    ensures
        walk_all(schemas, path, a + b, depth) is Some <==> walk_all(schemas, path, a, depth) is Some
            && walk_all(schemas, path, b, depth) is Some,
        walk_all(schemas, path, a + b, depth) is Some ==> walk_all(schemas, path, a + b, depth)->0
            == join(
            walk_all(schemas, path, a, depth)->0,
            walk_all(schemas, path, b, depth)->0,
        ),
    decreases b.len(),
{
    if b.len() == 0 {
        assert(a + b =~= a);
        if walk_all(schemas, path, a, depth) is Some {
            let f = walk_all(schemas, path, a, depth)->0;
            assert(join(f, no_findings()) =~= f);
        }
    } else {
        walk_all_append(schemas, path, a, b.drop_last(), depth);
        assert((a + b).drop_last() =~= a + b.drop_last());
        assert((a + b).last() == b.last());
        if walk_all(schemas, path, a + b.drop_last(), depth) is Some && walk(
            schemas,
            path + b.last().suffix,
            b.last().schema,
            b.last().data,
            depth,
        ) is Some {
            let x = walk_all(schemas, path, a, depth)->0;
            let y = walk_all(schemas, path, b.drop_last(), depth)->0;
            let z = walk(
                schemas,
                path + b.last().suffix,
                b.last().schema,
                b.last().data,
                depth,
            )->0;
            assert(join(join(x, y), z) =~= join(x, join(y, z)));
        }
    }
}

proof fn property_walk_prefix(
    schemas: Seq<(Seq<char>, JsonSchema)>,
    path: Seq<Segment>,
    schema: JsonSchema,
    entries: Seq<(Seq<char>, Json)>,
    n: int,
    m: int,
    depth: nat,
)
    requires
        0 <= n <= m,
        walk_all(schemas, path, property_visits(schema, entries, m), depth) is Some,
    ensures
        walk_all(schemas, path, property_visits(schema, entries, n), depth) is Some,
    decreases m - n,
{
    if n < m {
        let visits = property_visits(schema, entries, m);
        let before = property_visits(schema, entries, m - 1);
        if entry_under(entries, schema.properties@[m - 1].0@) is Some {
            assert(visits.drop_last() =~= before);
        }
        property_walk_prefix(schemas, path, schema, entries, n, m - 1, depth);
    }
}

proof fn additional_walk_prefix(
    schemas: Seq<(Seq<char>, JsonSchema)>,
    path: Seq<Segment>,
    schema: JsonSchema,
    entries: Seq<(Seq<char>, Json)>,
    n: int,
    m: int,
    depth: nat,
)
    requires
        0 <= n <= m,
        walk_all(schemas, path, additional_visits(schema, entries, m), depth) is Some,
    ensures
        walk_all(schemas, path, additional_visits(schema, entries, n), depth) is Some,
    decreases m - n,
{
    if n < m {
        let visits = additional_visits(schema, entries, m);
        let before = additional_visits(schema, entries, m - 1);
        if additional_schema(schema) is Some && !names_property(schema, entries[m - 1].0) {
            assert(visits.drop_last() =~= before);
        }
        additional_walk_prefix(schemas, path, schema, entries, n, m - 1, depth);
    }
}

proof fn walk_all_prefix(
    schemas: Seq<(Seq<char>, JsonSchema)>,
    path: Seq<Segment>,
    visits: Seq<Visit>,
    n: int,
    depth: nat,
)
    requires
        0 <= n <= visits.len(),
        walk_all(schemas, path, visits, depth) is Some,
    ensures
        walk_all(schemas, path, visits.take(n), depth) is Some,
{
    assert(visits =~= visits.take(n) + visits.skip(n));
    walk_all_append(schemas, path, visits.take(n), visits.skip(n), depth);
}

/// The walk's state: the table of named schemas and what was found so far.
struct WalkCtx<'a> {
    schemas: &'a IndexMap<String, JsonSchema>,
    directives: Vec<Directive<'a>>,
    unknown_directives: Vec<String>,
}

impl<'a> WalkCtx<'a> {
    spec fn table(self) -> Seq<(Seq<char>, JsonSchema)> {
        schema_entries(*self.schemas)
    }

    spec fn found(self) -> Findings {
        Findings { actions: actions(self.directives@), unknown: texts(self.unknown_directives@) }
    }

    fn new(schemas: &'a IndexMap<String, JsonSchema>) -> (r: Self)
        ensures
            r.schemas == schemas,
            r.found() == no_findings(),
    {
        let r = WalkCtx { schemas, directives: Vec::new(), unknown_directives: Vec::new() };
        assert(r.found() =~= no_findings());
        r
    }

    /// The path to the entry under `key`.
    fn child_key(path: &[PathSegment], key: &str) -> (r: Vec<PathSegment>)
        ensures
            path_view(r@) == path_view(path@) + seq![Segment::Key(key@)],
    {
        let mut p = duplicate_path(path);
        let ghost before = p@;
        p.push(PathSegment::Key(key.to_owned()));
        assert(path_view(p@) =~= path_view(before).push(Segment::Key(key@)));
        p
    }

    /// The path to the element at `index`.
    fn child_index(path: &[PathSegment], index: usize) -> (r: Vec<PathSegment>)
        ensures
            path_view(r@) == path_view(path@) + seq![Segment::Index(index as int)],
    {
        let mut p = duplicate_path(path);
        let ghost before = p@;
        p.push(PathSegment::Index(index));
        assert(path_view(p@) =~= path_view(before).push(Segment::Index(index as int)));
        p
    }

    fn push(&mut self, directive: Directive<'a>)
        ensures
            final(self).schemas == old(self).schemas,
            final(self).found() == join(
                old(self).found(),
                (Findings { actions: seq![directive@], unknown: Seq::empty() }),
            ),
    {
        proof {
            actions_push(self.directives@, directive);
        }
        self.directives.push(directive);
        assert(self.found() =~= join(
            old(self).found(),
            Findings { actions: seq![directive@], unknown: Seq::empty() },
        ));
    }
}

/// The first of the entries under `key`.
pub(super) fn find_entry<'b>(entries: &'b Vec<(String, Value)>, key: &str) -> (r: Option<&'b Value>)
    ensures
        match r {
            Some(value) => entry_under(entries_of(entries@), key@) == Some(value@) && exists|
                i: int,
            |
                0 <= i < entries@.len() && *value == (#[trigger] entries@[i]).1,
            None => entry_under(entries_of(entries@), key@) is None,
        },
{
    let mut i: usize = 0;
    let ghost model = entries_of(entries@);
    assert(model.skip(0) =~= model);
    while i < entries.len()
        invariant
            i <= entries@.len(),
            model == entries_of(entries@),
            entry_under(model, key@) == entry_under(model.skip(i as int), key@),
        decreases entries@.len() - i,
    {
        if same_text(entries[i].0.as_str(), key) {
            return Some(&entries[i].1);
        }
        assert(model.skip(i as int).drop_first() =~= model.skip(i + 1));
        i += 1;
    }
    None
}

/// Whether one of the properties has the name.
pub(super) fn has_property(schema: &JsonSchema, key: &str) -> (r: bool)
    ensures
        r == names_property(*schema, key@),
{
    let mut i: usize = 0;
    while i < schema.properties.len()
        invariant
            i <= schema.properties@.len(),
            forall|j: int| 0 <= j < i ==> (#[trigger] schema.properties@[j]).0@ != key@,
        decreases schema.properties@.len() - i,
    {
        if same_text(schema.properties[i].0.as_str(), key) {
            return true;
        }
        i += 1;
    }
    false
}

/// Walks one place of the payload.
fn walk_node<'a>(
    ctx: &mut WalkCtx<'a>,
    path: &[PathSegment],
    schema: &'a JsonSchema,
    data: &Value,
    Ghost(depth): Ghost<nat>,
)
    requires
        walk(old(ctx).table(), path_view(path@), *schema, data@, depth) is Some,
    ensures
        final(ctx).schemas == old(ctx).schemas,
        final(ctx).found() == join(
            old(ctx).found(),
            walk(old(ctx).table(), path_view(path@), *schema, data@, depth)->0,
        ),
    decreases depth, 0nat,
{
    let ghost table = ctx.table();
    let ghost at = path_view(path@);
    let ghost below = (depth - 1) as nat;
    let ghost start = ctx.found();
    collect_unknown(ctx, schema);
    let ghost unknown = Findings {
        actions: Seq::empty(),
        unknown: unknown_names(schema.extra@, schema.extra@.len() as int),
    };
    let ghost referred = walk_all(table, at, ref_visits(table, *schema, data@), below)->0;
    let ghost children = walk_all(table, at, child_visits(*schema, data@), below)->0;
    let ghost own = Findings { actions: own_actions(at, *schema, data@), unknown: Seq::empty() };
    proof {
        let whole = walk(table, at, *schema, data@, depth)->0;
        assert(join(join(join(join(start, unknown), referred), children), own) =~= join(
            start,
            whole,
        ));
    }
    let target: Option<&'a JsonSchema> = match &schema.schema_ref {
        Some(name) => find_schema(ctx.schemas, name.as_str()),
        None => None,
    };
    match target {
        Some(target) => {
            proof {
                one_visit(table, at, Visit { suffix: Seq::empty(), schema: *target, data: data@ }, below);
                assert(at + Seq::<Segment>::empty() =~= at);
            }
            walk_node(ctx, path, target, data, Ghost(below));
        },
        None => {
            assert(join(ctx.found(), no_findings()) =~= ctx.found());
        },
    }
    assert(ctx.found() == join(join(start, unknown), referred));
    walk_children(ctx, path, schema, data, Ghost(below));
}

/// Walks what the node leads to by itself, and does what it asks for itself.
fn walk_children<'a>(
    ctx: &mut WalkCtx<'a>,
    path: &[PathSegment],
    schema: &'a JsonSchema,
    data: &Value,
    Ghost(below): Ghost<nat>,
)
    requires
        walk_all(old(ctx).table(), path_view(path@), child_visits(*schema, data@), below) is Some,
    ensures
        final(ctx).schemas == old(ctx).schemas,
        final(ctx).found() == join(
            join(
                old(ctx).found(),
                walk_all(
                    old(ctx).table(),
                    path_view(path@),
                    child_visits(*schema, data@),
                    below,
                )->0,
            ),
            (Findings {
                actions: own_actions(path_view(path@), *schema, data@),
                unknown: Seq::empty(),
            }),
        ),
    decreases below, 2nat,
{
    let ghost table = ctx.table();
    let ghost at = path_view(path@);
    let ghost start = ctx.found();
    let ghost found = walk_all(table, at, child_visits(*schema, data@), below)->0;
    proof {
        assert(join(start, no_findings()) =~= start);
        assert(join(join(start, found), no_findings()) =~= join(start, found));
    }
    if schema.one_of.len() > 0 || schema.enum_values.len() > 0 {
        return;
    }
    let schema_type: &String = match &schema.schema_type {
        Some(t) => t,
        None => {
            return;
        },
    };
    let is_array: bool = same_text(schema_type.as_str(), "array");
    if !is_array {
        match data {
            Value::Array(elements) => {
                proof {
                    array_view(*elements);
                }
                if elements.len() == 1 && value_type_matches_schema(
                    &elements[0],
                    schema_type.as_str(),
                ) {
                    let element_path = WalkCtx::child_index(path, 0);
                    proof {
                        let suffix = seq![Segment::Index(0)];
                        one_visit(
                            table,
                            at,
                            Visit { suffix, schema: *schema, data: elements@[0]@ },
                            below,
                        );
                    }
                    walk_node(ctx, &element_path, schema, &elements[0], Ghost(below));
                    return;
                }
            },
            _ => {},
        }
    }
    let wrapping: bool = match data {
        Value::Array(_) => false,
        _ => match &schema.items {
            Some(items) => match &items.schema_type {
                Some(items_type) => is_array && value_type_matches_schema(
                    data,
                    items_type.as_str(),
                ),
                None => false,
            },
            None => false,
        },
    };
    if wrapping {
        match &schema.items {
            Some(items) => {
                let item_schema: &'a JsonSchema = items;
                proof {
                    one_visit(
                        table,
                        at,
                        Visit { suffix: Seq::empty(), schema: *item_schema, data: data@ },
                        below,
                    );
                    assert(at + Seq::<Segment>::empty() =~= at);
                }
                walk_node(ctx, path, item_schema, data, Ghost(below));
            },
            None => {},
        }
        return;
    }
    assert(!unwraps(*schema, data@) && !wraps(*schema, data@));
    if same_text(schema_type.as_str(), "string") {
        walk_string(ctx, path, schema, data);
    } else if is_array {
        walk_array(ctx, path, schema, data, Ghost(below));
    } else if same_text(schema_type.as_str(), "object") {
        walk_object(ctx, path, schema, data, Ghost(below));
    }
}

/// Notes the unknown `x-wecom-*` keywords of a node.
fn collect_unknown<'a>(ctx: &mut WalkCtx<'a>, schema: &JsonSchema)
    ensures
        final(ctx).schemas == old(ctx).schemas,
        final(ctx).found() == join(
            old(ctx).found(),
            (Findings {
                actions: Seq::empty(),
                unknown: unknown_names(schema.extra@, schema.extra@.len() as int),
            }),
        ),
{
    let ghost start = ctx.found();
    let mut i: usize = 0;
    assert(join(start, no_findings()) =~= start);
    while i < schema.extra.len()
        invariant
            i <= schema.extra@.len(),
            ctx.schemas == old(ctx).schemas,
            ctx.found() == join(
                start,
                (Findings { actions: Seq::empty(), unknown: unknown_names(schema.extra@, i as int) }),
            ),
        decreases schema.extra@.len() - i,
    {
        if has_prefix(schema.extra[i].0.as_str(), "x-wecom-") {
            let ghost before = ctx.found();
            let ghost names = ctx.unknown_directives@;
            ctx.unknown_directives.push(schema.extra[i].0.clone());
            proof {
                assert(texts(ctx.unknown_directives@) =~= texts(names).push(schema.extra@[i as int].0@));
                assert(ctx.found() =~= join(
                    start,
                    Findings { actions: Seq::empty(), unknown: unknown_names(schema.extra@, i + 1) },
                ));
            }
        }
        i += 1;
    }
}

/// Does what a string node asks for.
fn walk_string<'a>(
    ctx: &mut WalkCtx<'a>,
    path: &[PathSegment],
    schema: &'a JsonSchema,
    data: &Value,
)
    ensures
        final(ctx).schemas == old(ctx).schemas,
        final(ctx).found() == join(
            old(ctx).found(),
            (Findings {
                actions: string_actions(path_view(path@), *schema, data@),
                unknown: Seq::empty(),
            }),
        ),
{
    let ghost start = ctx.found();
    let ghost at = path_view(path@);
    if let Some(options) = &schema.directives.file_save {
        ctx.push(Directive::Save { path: duplicate_path(path), options });
    }
    match data {
        Value::String(text) => {
            if let Some(options) = &schema.directives.upload_media {
                ctx.push(
                    Directive::UploadMedia {
                        path: duplicate_path(path),
                        file_path: text.clone(),
                        with_file_path: options.with_file_path(),
                    },
                );
            }
            if schema.directives.octet_stream.is_some() {
                ctx.push(
                    Directive::UploadMultipart {
                        path: duplicate_path(path),
                        file_path: text.clone(),
                    },
                );
            }
        },
        _ => {},
    }
    assert(ctx.found() =~= join(
        start,
        Findings { actions: string_actions(at, *schema, data@), unknown: Seq::empty() },
    ));
}

/// Walks the elements of an array.
fn walk_array<'a>(
    ctx: &mut WalkCtx<'a>,
    path: &[PathSegment],
    schema: &'a JsonSchema,
    data: &Value,
    Ghost(below): Ghost<nat>,
)
    requires
        data@ matches Json::Array(elements) ==> walk_all(
            old(ctx).table(),
            path_view(path@),
            item_visits(*schema, elements),
            below,
        ) is Some,
    ensures
        final(ctx).schemas == old(ctx).schemas,
        data@ matches Json::Array(elements) ==> final(ctx).found() == join(
            old(ctx).found(),
            walk_all(
                old(ctx).table(),
                path_view(path@),
                item_visits(*schema, elements),
                below,
            )->0,
        ),
        data@ !is Array ==> final(ctx).found() == old(ctx).found(),
    decreases below, 1nat,
{
    let ghost table = ctx.table();
    let ghost at = path_view(path@);
    let ghost start = ctx.found();
    let elements: &Vec<Value> = match data {
        Value::Array(elements) => {
            proof {
                array_view(*elements);
            }
            elements
        },
        _ => {
            return;
        },
    };
    assert(join(start, no_findings()) =~= start);
    if let Some(items) = &schema.items {
        let item_schema: &'a JsonSchema = items;
        let ghost model = items_of(elements@);
        let ghost visits = item_visits(*schema, model);
        let mut i: usize = 0;
        assert(visits.take(0) =~= Seq::empty());
        while i < elements.len()
            invariant
                i <= elements@.len(),
                at == path_view(path@),
                schema.items == Some(*items),
                *item_schema == **items,
                model == items_of(elements@),
                visits == item_visits(*schema, model),
                walk_all(table, at, visits, below) is Some,
                ctx.schemas == old(ctx).schemas,
                ctx.table() == table,
                ctx.found() == join(start, walk_all(table, at, visits.take(i as int), below)->0),
            decreases elements@.len() - i,
        {
            let item_path = WalkCtx::child_index(path, i);
            proof {
                walk_all_prefix(table, at, visits, i + 1, below);
                assert(visits.take(i + 1).drop_last() =~= visits.take(i as int));
                assert(visits.take(i + 1).last() == visits[i as int]);
            }
            let ghost before = walk_all(table, at, visits.take(i as int), below)->0;
            walk_node(ctx, &item_path, item_schema, &elements[i], Ghost(below));
            proof {
                let found = walk(table, path_view(item_path@), *item_schema, elements@[i as int]@, below)->0;
                assert(join(join(start, before), found) =~= join(start, join(before, found)));
            }
            i += 1;
        }
        assert(visits.take(elements@.len() as int) =~= visits);
    }
}

/// Walks the entries of an object: first those that properties name, in the
/// properties' order, after that the others, in their own.
fn walk_object<'a>(
    ctx: &mut WalkCtx<'a>,
    path: &[PathSegment],
    schema: &'a JsonSchema,
    data: &Value,
    Ghost(below): Ghost<nat>,
)
    requires
        data@ matches Json::Object(entries) ==> walk_all(
            old(ctx).table(),
            path_view(path@),
            property_visits(*schema, entries, schema.properties@.len() as int)
                + additional_visits(*schema, entries, entries.len() as int),
            below,
        ) is Some,
    ensures
        final(ctx).schemas == old(ctx).schemas,
        data@ matches Json::Object(entries) ==> final(ctx).found() == join(
            old(ctx).found(),
            walk_all(
                old(ctx).table(),
                path_view(path@),
                property_visits(*schema, entries, schema.properties@.len() as int)
                    + additional_visits(*schema, entries, entries.len() as int),
                below,
            )->0,
        ),
        data@ !is Object ==> final(ctx).found() == old(ctx).found(),
    decreases below, 1nat,
{
    let ghost table = ctx.table();
    let ghost at = path_view(path@);
    let ghost start = ctx.found();
    let entries: &Vec<(String, Value)> = match data {
        Value::Object(entries) => {
            proof {
                object_view(*entries);
            }
            entries
        },
        _ => {
            return;
        },
    };
    let ghost model = entries_of(entries@);
    let ghost named = property_visits(*schema, model, schema.properties@.len() as int);
    let ghost others = additional_visits(*schema, model, entries@.len() as int);
    proof {
        walk_all_append(table, at, named, others, below);
        assert(join(start, no_findings()) =~= start);
    }
    let mut i: usize = 0;
    while i < schema.properties.len()
        invariant
            i <= schema.properties@.len(),
            model == entries_of(entries@),
            at == path_view(path@),
            named == property_visits(*schema, model, schema.properties@.len() as int),
            walk_all(table, at, named, below) is Some,
            ctx.schemas == old(ctx).schemas,
            ctx.table() == table,
            ctx.found() == join(
                start,
                walk_all(table, at, property_visits(*schema, model, i as int), below)->0,
            ),
        decreases schema.properties@.len() - i,
    {
        let property: &'a JsonSchema = &schema.properties[i].1;
        let ghost so_far = property_visits(*schema, model, i as int);
        let ghost before = walk_all(table, at, so_far, below)->0;
        if let Some(value) = find_entry(entries, schema.properties[i].0.as_str()) {
            let field_path = WalkCtx::child_key(path, schema.properties[i].0.as_str());
            proof {
                let next = property_visits(*schema, model, i + 1);
                property_walk_prefix(
                    table,
                    at,
                    *schema,
                    model,
                    i + 1,
                    schema.properties@.len() as int,
                    below,
                );
                assert(next.drop_last() =~= so_far);
                assert(next.last().suffix == seq![Segment::Key(schema.properties@[i as int].0@)]);
            }
            walk_node(ctx, &field_path, property, value, Ghost(below));
            proof {
                let found = walk(table, path_view(field_path@), *property, value@, below)->0;
                assert(join(join(start, before), found) =~= join(start, join(before, found)));
            }
        }
        i += 1;
    }
    let ghost middle = ctx.found();
    let ghost first = walk_all(table, at, named, below)->0;
    assert(join(middle, no_findings()) =~= middle);
    let additional: Option<&'a JsonSchema> = match &schema.additional_properties {
        Some(rule) => match &**rule {
            AdditionalProperties::Schema(s) => Some(s),
            AdditionalProperties::Bool(_) => None,
        },
        None => None,
    };
    if let Some(additional) = additional {
        let mut k: usize = 0;
        while k < entries.len()
            invariant
                k <= entries@.len(),
                model == entries_of(entries@),
                at == path_view(path@),
                additional_schema(*schema) == Some(*additional),
                others == additional_visits(*schema, model, entries@.len() as int),
                walk_all(table, at, others, below) is Some,
                ctx.schemas == old(ctx).schemas,
                ctx.table() == table,
                ctx.found() == join(
                    middle,
                    walk_all(table, at, additional_visits(*schema, model, k as int), below)->0,
                ),
            decreases entries@.len() - k,
        {
            let ghost so_far = additional_visits(*schema, model, k as int);
            let ghost before = walk_all(table, at, so_far, below)->0;
            if !has_property(schema, entries[k].0.as_str()) {
                let field_path = WalkCtx::child_key(path, entries[k].0.as_str());
                proof {
                    let next = additional_visits(*schema, model, k + 1);
                    additional_walk_prefix(
                        table,
                        at,
                        *schema,
                        model,
                        k + 1,
                        entries@.len() as int,
                        below,
                    );
                    assert(next.drop_last() =~= so_far);
                    assert(next.last().suffix == seq![Segment::Key(entries@[k as int].0@)]);
                }
                walk_node(ctx, &field_path, additional, &entries[k].1, Ghost(below));
                proof {
                    let found = walk(
                        table,
                        path_view(field_path@),
                        *additional,
                        entries@[k as int].1@,
                        below,
                    )->0;
                    assert(join(join(middle, before), found) =~= join(
                        middle,
                        join(before, found),
                    ));
                }
            }
            k += 1;
        }
    }
    proof {
        let second = walk_all(table, at, others, below)->0;
        assert(join(join(start, first), second) =~= join(start, join(first, second)));
    }
}

/// A list of one visit.
pub proof fn one_visit(
    schemas: Seq<(Seq<char>, JsonSchema)>,
    path: Seq<Segment>,
    visit: Visit,
    depth: nat,
)
    ensures
        walk_all(schemas, path, seq![visit], depth) == walk(
            schemas,
            path + visit.suffix,
            visit.schema,
            visit.data,
            depth,
        ),
{
    let visits = seq![visit];
    assert(visits.drop_last() =~= Seq::empty());
    assert(walk_all(schemas, path, visits.drop_last(), depth) == Some(no_findings()));
    assert(visits.last() == visit);
    let found = walk(schemas, path + visit.suffix, visit.schema, visit.data, depth);
    if found is Some {
        assert(join(no_findings(), found->0) =~= found->0);
    }
}

/// Whether the texts stand in strict lexicographic order.
pub open spec fn strictly_sorted(names: Seq<Seq<char>>) -> bool {
    forall|i: int, j: int| 0 <= i < j < names.len() ==> text_less(#[trigger] names[i], #[trigger] names[j])
}

/// Whether `sorted` lists the members of `names` in strict lexicographic
/// order: each of them once, and nothing else.
pub open spec fn sorted_set_of(sorted: Seq<Seq<char>>, names: Seq<Seq<char>>) -> bool {
    &&& strictly_sorted(sorted)
    &&& forall|name: Seq<char>| #[trigger] sorted.contains(name) <==> names.contains(name)
}

/// The names in lexicographic order, each once.
fn sort_unique(names: &Vec<String>) -> (r: Vec<String>)
    ensures
        sorted_set_of(texts(r@), texts(names@)),
{
    let mut out: Vec<String> = Vec::new();
    let mut i: usize = 0;
    assert(texts(names@).take(0) =~= Seq::empty());
    while i < names.len()
        invariant
            i <= names@.len(),
            sorted_set_of(texts(out@), texts(names@).take(i as int)),
        decreases names@.len() - i,
    {
        let ghost so_far = texts(names@).take(i as int);
        let ghost name = names@[i as int]@;
        let ghost before = texts(out@);
        let mut k: usize = 0;
        while k < out.len() && precedes(out[k].as_str(), names[i].as_str())
            invariant
                i < names@.len(),
                k <= out@.len(),
                before == texts(out@),
                forall|j: int| 0 <= j < k ==> text_less(#[trigger] texts(out@)[j], names@[i as int]@),
            decreases out@.len() - k,
        {
            k += 1;
        }
        assert(texts(names@).take(i + 1) =~= so_far.push(name));
        if k < out.len() && same_text(out[k].as_str(), names[i].as_str()) {
            assert(before.contains(name)) by {
                assert(before[k as int] == name);
            }
            assert forall|t: Seq<char>| #[trigger] before.contains(t) <==> so_far.push(name).contains(
                t,
            ) by {
                push_member(so_far, name, t);
            }
        } else {
            out.insert(k, names[i].clone());
            proof {
                let after = texts(out@);
                assert(after =~= before.insert(k as int, name));
                assert forall|a: int, b: int| 0 <= a < b < after.len() implies text_less(
                    #[trigger] after[a],
                    #[trigger] after[b],
                ) by {
                    if a == k {
                        text_less_total(name, before[k as int]);
                        if b - 1 > k {
                            text_less_transitive(name, before[k as int], before[b - 1]);
                        }
                    }
                }
                assert forall|t: Seq<char>| #[trigger] after.contains(t) <==> so_far.push(
                    name,
                ).contains(t) by {
                    push_member(so_far, name, t);
                    insert_member(before, k as int, name, t);
                }
            }
        }
        i += 1;
    }
    assert(texts(names@).take(names@.len() as int) =~= texts(names@));
    out
}

proof fn push_member(s: Seq<Seq<char>>, x: Seq<char>, t: Seq<char>)
    ensures
        s.push(x).contains(t) <==> s.contains(t) || t == x,
{
    if s.contains(t) {
        let i = choose|i: int| 0 <= i < s.len() && s[i] == t;
        assert(s.push(x)[i] == t);
    }
    assert(s.push(x)[s.len() as int] == x);
    if s.push(x).contains(t) {
        let i = choose|i: int| 0 <= i < s.push(x).len() && s.push(x)[i] == t;
        if i < s.len() {
            assert(s[i] == t);
        }
    }
}

proof fn insert_member(s: Seq<Seq<char>>, k: int, x: Seq<char>, t: Seq<char>)
    requires
        0 <= k <= s.len(),
    ensures
        s.insert(k, x).contains(t) <==> s.contains(t) || t == x,
{
    let after = s.insert(k, x);
    assert(after[k] == x);
    if s.contains(t) {
        let i = choose|i: int| 0 <= i < s.len() && s[i] == t;
        if i < k {
            assert(after[i] == t);
        } else {
            assert(after[i + 1] == t);
        }
    }
    if after.contains(t) {
        let i = choose|i: int| 0 <= i < after.len() && after[i] == t;
        if i < k {
            assert(s[i] == t);
        } else if i > k {
            assert(s[i - 1] == t);
        }
    }
}

/// What was collected from a payload.
pub struct Collected<'a> {
    /// The directives, in the order in which the walk met them.
    pub directives: Vec<Directive<'a>>,
    /// The unknown `x-wecom-*` keywords, sorted, each once.
    pub unknown_directives: Vec<String>,
}

/// Walks schema and payload side by side and collects the directives, and the
/// `x-wecom-*` keywords to report as unknown.
pub fn collect<'a>(
    schemas: &'a IndexMap<String, JsonSchema>,
    schema: &'a JsonSchema,
    data: &Value,
) -> (r: Collected<'a>)
    requires
        walk_ends(schema_entries(*schemas), *schema, data@),
    ensures
        actions(r.directives@) == findings(schema_entries(*schemas), *schema, data@).actions,
        sorted_set_of(
            texts(r.unknown_directives@),
            findings(schema_entries(*schemas), *schema, data@).unknown,
        ),
{
    let ghost table = schema_entries(*schemas);
    let ghost depth = choose|depth: nat|
        walk(table, Seq::empty(), *schema, data@, depth) is Some;
    let mut ctx = WalkCtx::new(schemas);
    let root: Vec<PathSegment> = Vec::new();
    assert(path_view(root@) =~= Seq::empty());
    walk_node(&mut ctx, &root, schema, data, Ghost(depth));
    proof {
        let found = findings(table, *schema, data@);
        assert(join(no_findings(), found) =~= found);
    }
    let unknown_directives = sort_unique(&ctx.unknown_directives);
    Collected { directives: ctx.directives, unknown_directives }
}

/// Walks schema and payload side by side and collects the directives.
pub fn collect_directives<'a>(
    schemas: &'a IndexMap<String, JsonSchema>,
    schema: &'a JsonSchema,
    data: &Value,
) -> (r: Vec<Directive<'a>>)
    requires
        walk_ends(schema_entries(*schemas), *schema, data@),
    ensures
        actions(r@) == findings(schema_entries(*schemas), *schema, data@).actions,
{
    collect(schemas, schema, data).directives
}

/// The names to report are settled by which names there are: each stands once,
/// a smaller one before a greater one, so there is but one way to list them.
pub proof fn sorted_names_are_settled(
    a: Seq<Seq<char>>,
    b: Seq<Seq<char>>,
    names: Seq<Seq<char>>,
)
    requires
        sorted_set_of(a, names),
        sorted_set_of(b, names),
    ensures
        a == b,
        forall|i: int, j: int|
            0 <= i < j < a.len() ==> text_less(#[trigger] a[i], #[trigger] a[j]),
{
    assert forall|name: Seq<char>| #[trigger] a.contains(name) <==> b.contains(name) by {
        assert(a.contains(name) <==> names.contains(name));
        assert(b.contains(name) <==> names.contains(name));
    }
    sorted_alike(a, b);
}

proof fn sorted_alike(a: Seq<Seq<char>>, b: Seq<Seq<char>>)
    requires
        strictly_sorted(a),
        strictly_sorted(b),
        forall|name: Seq<char>| #[trigger] a.contains(name) <==> b.contains(name),
    ensures
        a == b,
    decreases a.len(),
{
    if a.len() == 0 {
        if b.len() > 0 {
            assert(b.contains(b[0]));
            assert(a.contains(b[0]));
        }
        assert(a =~= b);
    } else {
        assert(a.contains(a[0]));
        let j = choose|j: int| 0 <= j < b.len() && b[j] == a[0];
        assert(b.contains(b[0]));
        assert(a.contains(b[0]));
        let i = choose|i: int| 0 <= i < a.len() && a[i] == b[0];
        assert(a[0] == b[0]) by {
            if a[0] != b[0] {
                assert(text_less(b[0], b[j]));
                assert(text_less(a[0], a[i]));
                text_less_transitive(a[0], b[0], a[0]);
                text_less_irreflexive(a[0]);
            }
        }
        let c = a.drop_first();
        let d = b.drop_first();
        assert forall|name: Seq<char>| #[trigger] c.contains(name) <==> d.contains(name) by {
            rest_holds_the_rest(a, name);
            rest_holds_the_rest(b, name);
            assert(a.contains(name) <==> b.contains(name));
        }
        assert(strictly_sorted(c)) by {
            assert forall|x: int, y: int| 0 <= x < y < c.len() implies text_less(
                #[trigger] c[x],
                #[trigger] c[y],
            ) by {
                assert(text_less(a[x + 1], a[y + 1]));
            }
        }
        assert(strictly_sorted(d)) by {
            assert forall|x: int, y: int| 0 <= x < y < d.len() implies text_less(
                #[trigger] d[x],
                #[trigger] d[y],
            ) by {
                assert(text_less(b[x + 1], b[y + 1]));
            }
        }
        sorted_alike(c, d);
        assert(a =~= seq![a[0]] + c);
        assert(b =~= seq![b[0]] + d);
    }
}

proof fn rest_holds_the_rest(a: Seq<Seq<char>>, name: Seq<char>)
    requires
        strictly_sorted(a),
        a.len() > 0,
    ensures
        a.drop_first().contains(name) <==> a.contains(name) && name != a[0],
{
    let rest = a.drop_first();
    if rest.contains(name) {
        let k = choose|k: int| 0 <= k < rest.len() && rest[k] == name;
        assert(a[k + 1] == name);
        assert(text_less(a[0], a[k + 1]));
        if name == a[0] {
            text_less_irreflexive(name);
        }
    }
    if a.contains(name) && name != a[0] {
        let k = choose|k: int| 0 <= k < a.len() && a[k] == name;
        assert(rest[k - 1] == name);
    }
}

} // verus!
