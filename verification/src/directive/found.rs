//! What the walk over a payload finds, told by the payload and the schema.
use vstd::prelude::*;

use super::collect::{
    additional_schema, additional_visits, child_visits, entry_under, findings,
    findings_at_any_depth, item_visits, names_property, no_findings, one_visit, own_actions,
    property_visits, ref_visits, type_matches, unknown_names, walk, walk_all, walk_ends, wraps,
    Findings, Visit,
};
use super::media_upload::path_of_action;
use super::types::Action;
use crate::json::{distinct_keys, valid, Json, Segment, Value};
use crate::json_path::{entry_index, entry_index_key, json_get, key_names_its_entry, path_after_path};
use crate::schema::{named_schema, properties_of, AdditionalProperties, JsonSchema};
use crate::text::starts_with;

verus! {

/// The action with a longer path: `prefix` goes before it.
pub open spec fn moved(prefix: Seq<Segment>, action: Action) -> Action {
    match action {
        Action::UploadMedia { path, file_path, with_file_path } => Action::UploadMedia {
            path: prefix + path,
            file_path,
            with_file_path,
        },
        Action::UploadMultipart { path, file_path } => Action::UploadMultipart {
            path: prefix + path,
            file_path,
        },
        Action::Save { path, options } => Action::Save { path: prefix + path, options },
    }
}

/// The actions with longer paths.
pub open spec fn moved_all(prefix: Seq<Segment>, actions: Seq<Action>) -> Seq<Action> {
    Seq::new(actions.len(), |i: int| moved(prefix, actions[i]))
}

/// Whether the path of the action starts with the segment.
pub open spec fn starts_at(action: Action, segment: Segment) -> bool {
    path_of_action(action).len() > 0 && path_of_action(action)[0] == segment
}

/// Those of the actions whose paths start with the segment, in their order.
pub open spec fn below(actions: Seq<Action>, segment: Segment) -> Seq<Action> {
    actions.filter(|action: Action| starts_at(action, segment))
}

spec fn moved_findings(prefix: Seq<Segment>, found: Findings) -> Findings {
    Findings { actions: moved_all(prefix, found.actions), unknown: found.unknown }
}

proof fn moved_all_join(prefix: Seq<Segment>, a: Seq<Action>, b: Seq<Action>)
    ensures
        moved_all(prefix, a + b) == moved_all(prefix, a) + moved_all(prefix, b),
{
    assert(moved_all(prefix, a + b) =~= moved_all(prefix, a) + moved_all(prefix, b));
}

proof fn own_actions_move(
    prefix: Seq<Segment>,
    path: Seq<Segment>,
    schema: JsonSchema,
    data: Json,
)
    ensures
        own_actions(prefix + path, schema, data) == moved_all(
            prefix,
            own_actions(path, schema, data),
        ),
{
    assert(own_actions(prefix + path, schema, data) =~= moved_all(
        prefix,
        own_actions(path, schema, data),
    ));
}

/// A walk further down finds the same, with longer paths.
proof fn walk_moves(
    schemas: Seq<(Seq<char>, JsonSchema)>,
    prefix: Seq<Segment>,
    path: Seq<Segment>,
    schema: JsonSchema,
    data: Json,
    depth: nat,
)
    ensures
        walk(schemas, prefix + path, schema, data, depth) == (match walk(
            schemas,
            path,
            schema,
            data,
            depth,
        ) {
            Some(found) => Some(moved_findings(prefix, found)),
            None => None,
        }),
    decreases depth, 0nat,
{
    if depth > 0 {
        let below = (depth - 1) as nat;
        walk_all_moves(schemas, prefix, path, ref_visits(schemas, schema, data), below);
        walk_all_moves(schemas, prefix, path, child_visits(schema, data), below);
        own_actions_move(prefix, path, schema, data);
        let r = walk_all(schemas, path, ref_visits(schemas, schema, data), below);
        let c = walk_all(schemas, path, child_visits(schema, data), below);
        if r is Some && c is Some {
            let own = own_actions(path, schema, data);
            moved_all_join(prefix, r->0.actions + c->0.actions, own);
            moved_all_join(prefix, r->0.actions, c->0.actions);
        }
    }
}

proof fn walk_all_moves(
    schemas: Seq<(Seq<char>, JsonSchema)>,
    prefix: Seq<Segment>,
    path: Seq<Segment>,
    visits: Seq<Visit>,
    depth: nat,
)
    ensures
        walk_all(schemas, prefix + path, visits, depth) == (match walk_all(
            schemas,
            path,
            visits,
            depth,
        ) {
            Some(found) => Some(moved_findings(prefix, found)),
            None => None,
        }),
    decreases depth, visits.len() + 1,
{
    if visits.len() == 0 {
        assert(moved_findings(prefix, no_findings()) =~= no_findings());
    } else {
        let last = visits.last();
        walk_all_moves(schemas, prefix, path, visits.drop_last(), depth);
        walk_moves(schemas, prefix, path + last.suffix, last.schema, last.data, depth);
        assert(prefix + (path + last.suffix) =~= prefix + path + last.suffix);
        let a = walk_all(schemas, path, visits.drop_last(), depth);
        let b = walk(schemas, path + last.suffix, last.schema, last.data, depth);
        if a is Some && b is Some {
            moved_all_join(prefix, a->0.actions, b->0.actions);
        }
    }
}

/// Every visit of a list that ends, ends itself.
proof fn visit_of_all_ends(
    schemas: Seq<(Seq<char>, JsonSchema)>,
    path: Seq<Segment>,
    visits: Seq<Visit>,
    depth: nat,
    j: int,
)
    requires
        walk_all(schemas, path, visits, depth) is Some,
        0 <= j < visits.len(),
    ensures
        walk(schemas, path + visits[j].suffix, visits[j].schema, visits[j].data, depth) is Some,
    decreases visits.len(),
{
    if j < visits.len() - 1 {
        visit_of_all_ends(schemas, path, visits.drop_last(), depth, j);
    }
}

proof fn filter_of_all(actions: Seq<Action>, segment: Segment)
    requires
        forall|i: int| 0 <= i < actions.len() ==> starts_at(#[trigger] actions[i], segment),
    ensures
        below(actions, segment) == actions,
    decreases actions.len(),
{
    reveal(Seq::filter);
    if actions.len() > 0 {
        let front = actions.drop_last();
        assert forall|i: int| 0 <= i < front.len() implies starts_at(
            #[trigger] front[i],
            segment,
        ) by {
            assert(front[i] == actions[i]);
        }
        filter_of_all(front, segment);
        assert(starts_at(actions[actions.len() - 1], segment));
        assert(front.push(actions.last()) =~= actions);
    } else {
        assert(below(actions, segment) =~= actions);
    }
}

proof fn filter_of_none(actions: Seq<Action>, segment: Segment)
    requires
        forall|i: int| 0 <= i < actions.len() ==> !starts_at(#[trigger] actions[i], segment),
    ensures
        below(actions, segment) == Seq::<Action>::empty(),
    decreases actions.len(),
{
    reveal(Seq::filter);
    if actions.len() > 0 {
        let front = actions.drop_last();
        assert forall|i: int| 0 <= i < front.len() implies !starts_at(
            #[trigger] front[i],
            segment,
        ) by {
            assert(front[i] == actions[i]);
        }
        filter_of_none(front, segment);
        assert(!starts_at(actions[actions.len() - 1], segment));
    } else {
        assert(below(actions, segment) =~= Seq::empty());
    }
}

proof fn below_join(a: Seq<Action>, b: Seq<Action>, segment: Segment)
    ensures
        below(a + b, segment) == below(a, segment) + below(b, segment),
{
    Seq::filter_distributes_over_add(a, b, |action: Action| starts_at(action, segment));
}

/// Whether each visit goes one step down, no two of them the same.
spec fn one_step_each(visits: Seq<Visit>) -> bool {
    &&& forall|j: int| 0 <= j < visits.len() ==> (#[trigger] visits[j]).suffix.len() == 1
    &&& forall|i: int, j: int|
        0 <= i < j < visits.len() ==> (#[trigger] visits[i]).suffix[0] != (
        #[trigger] visits[j]).suffix[0]
}

/// What is found on visits that go one step down each: below each step what its
/// visit finds, and nothing anywhere else.
#[verifier::spinoff_prover]
#[verifier::rlimit(60)]
proof fn found_below_each(
    schemas: Seq<(Seq<char>, JsonSchema)>,
    visits: Seq<Visit>,
    depth: nat,
    segment: Segment,
)
    requires
        walk_all(schemas, Seq::empty(), visits, depth) is Some,
        one_step_each(visits),
    ensures
        forall|j: int|
            0 <= j < visits.len() && (#[trigger] visits[j]).suffix[0] == segment ==> below(
                walk_all(schemas, Seq::empty(), visits, depth)->0.actions,
                segment,
            ) == moved_all(
                seq![segment],
                walk(schemas, Seq::empty(), visits[j].schema, visits[j].data, depth)->0.actions,
            ) && walk(schemas, Seq::empty(), visits[j].schema, visits[j].data, depth) is Some,
        (forall|j: int| 0 <= j < visits.len() ==> (#[trigger] visits[j]).suffix[0] != segment)
            ==> below(walk_all(schemas, Seq::empty(), visits, depth)->0.actions, segment)
            == Seq::<Action>::empty(),
        forall|k: int|
            0 <= k < walk_all(schemas, Seq::empty(), visits, depth)->0.actions.len() ==> exists|
                j: int,
            |
                0 <= j < visits.len() && starts_at(
                    #[trigger] walk_all(schemas, Seq::empty(), visits, depth)->0.actions[k],
                    (#[trigger] visits[j]).suffix[0],
                ),
    decreases visits.len(),
{
    let all = walk_all(schemas, Seq::empty(), visits, depth)->0.actions;
    if visits.len() == 0 {
        filter_of_none(all, segment);
    } else {
        let n = visits.len() - 1;
        let front = visits.drop_last();
        let last = visits[n];
        assert(one_step_each(front)) by {
            assert forall|j: int| 0 <= j < front.len() implies (#[trigger] front[j]).suffix.len()
                == 1 by {
                assert(front[j] == visits[j]);
            }
            assert forall|i: int, j: int| 0 <= i < j < front.len() implies (
            #[trigger] front[i]).suffix[0] != (#[trigger] front[j]).suffix[0] by {
                assert(visits[i].suffix[0] != visits[j].suffix[0]);
            }
        }
        found_below_each(schemas, front, depth, segment);
        let before = walk_all(schemas, Seq::empty(), front, depth)->0.actions;
        let step = last.suffix[0];
        assert(last.suffix =~= seq![step]);
        assert(Seq::<Segment>::empty() + last.suffix =~= seq![step]);
        assert(seq![step] + Seq::<Segment>::empty() =~= seq![step]);
        walk_moves(schemas, seq![step], Seq::empty(), last.schema, last.data, depth);
        let own = walk(schemas, Seq::empty(), last.schema, last.data, depth)->0.actions;
        let here = moved_all(seq![step], own);
        assert(all == before + here);
        below_join(before, here, segment);
        assert forall|i: int| 0 <= i < here.len() implies starts_at(#[trigger] here[i], step) by {}
        if step == segment {
            filter_of_all(here, segment);
            assert forall|j: int| 0 <= j < front.len() implies (#[trigger] front[j]).suffix[0]
                != segment by {
                assert(visits[j].suffix[0] != visits[n].suffix[0]);
            }
            assert(below(before, segment) + here =~= here);
            assert forall|j: int| 0 <= j < visits.len() && (#[trigger] visits[j]).suffix[0]
                == segment implies j == n by {
                if j < n {
                    assert(front[j] == visits[j]);
                }
            }
        } else {
            assert forall|i: int| 0 <= i < here.len() implies !starts_at(
                #[trigger] here[i],
                segment,
            ) by {
                assert(starts_at(here[i], step));
            }
            filter_of_none(here, segment);
            assert(below(before, segment) + Seq::<Action>::empty() =~= below(before, segment));
            assert forall|j: int| 0 <= j < visits.len() && (#[trigger] visits[j]).suffix[0]
                == segment implies below(all, segment) == moved_all(
                seq![segment],
                walk(schemas, Seq::empty(), visits[j].schema, visits[j].data, depth)->0.actions,
            ) && walk(schemas, Seq::empty(), visits[j].schema, visits[j].data, depth) is Some by {
                assert(front[j] == visits[j]);
            }
            if forall|j: int| 0 <= j < visits.len() ==> (#[trigger] visits[j]).suffix[0] != segment {
                assert forall|j: int| 0 <= j < front.len() implies (#[trigger] front[j]).suffix[0]
                    != segment by {
                    assert(front[j] == visits[j]);
                }
            }
        }
        assert forall|k: int| 0 <= k < all.len() implies exists|j: int|
            0 <= j < visits.len() && starts_at(
                #[trigger] all[k],
                (#[trigger] visits[j]).suffix[0],
            ) by {
            if k < before.len() {
                assert(all[k] == before[k]);
                let j = choose|j: int|
                    0 <= j < front.len() && starts_at(before[k], (#[trigger] front[j]).suffix[0]);
                assert(visits[j].suffix[0] == front[j].suffix[0]);
            } else {
                assert(all[k] == here[k - before.len()]);
                assert(starts_at(all[k], visits[n].suffix[0]));
            }
        }
    }
}

proof fn entry_under_is_first(entries: Seq<(Seq<char>, Json)>, key: Seq<char>)
    ensures
        entry_under(entries, key) == (if entry_index(entries, key) < entries.len() {
            Some(entries[entry_index(entries, key) as int].1)
        } else {
            None
        }),
    decreases entries.len(),
{
    if entries.len() > 0 && entries[0].0 != key {
        entry_under_is_first(entries.drop_first(), key);
    }
}

/// The property that a visit is for.
proof fn property_of_visit(schema: JsonSchema, entries: Seq<(Seq<char>, Json)>, n: int, j: int) -> (i:
    int)
    requires
        0 <= n <= schema.properties@.len(),
        0 <= j < property_visits(schema, entries, n).len(),
    ensures
        0 <= i < n,
        ({
            let visit = property_visits(schema, entries, n)[j];
            &&& visit.suffix == seq![Segment::Key(schema.properties@[i].0@)]
            &&& visit.schema == *schema.properties@[i].1
            &&& entry_under(entries, schema.properties@[i].0@) == Some(visit.data)
        }),
    decreases n,
{
    let before = property_visits(schema, entries, n - 1);
    if j < before.len() {
        let i = property_of_visit(schema, entries, n - 1, j);
        assert(property_visits(schema, entries, n)[j] == before[j]);
        i
    } else {
        n - 1
    }
}

/// The visit to a property that the object holds.
proof fn visit_of_property(schema: JsonSchema, entries: Seq<(Seq<char>, Json)>, n: int, i: int) -> (j:
    int)
    requires
        0 <= i < n <= schema.properties@.len(),
        entry_under(entries, schema.properties@[i].0@) is Some,
    ensures
        0 <= j < property_visits(schema, entries, n).len(),
        ({
            let visit = property_visits(schema, entries, n)[j];
            &&& visit.suffix == seq![Segment::Key(schema.properties@[i].0@)]
            &&& visit.schema == *schema.properties@[i].1
            &&& entry_under(entries, schema.properties@[i].0@) == Some(visit.data)
        }),
    decreases n,
{
    let before = property_visits(schema, entries, n - 1);
    if i == n - 1 {
        before.len() as int
    } else {
        let j = visit_of_property(schema, entries, n - 1, i);
        assert(property_visits(schema, entries, n)[j] == before[j]);
        j
    }
}

proof fn property_visits_differ(schema: JsonSchema, entries: Seq<(Seq<char>, Json)>, n: int)
    requires
        0 <= n <= schema.properties@.len(),
        distinct_keys(properties_of(schema.properties@)),
    ensures
        one_step_each(property_visits(schema, entries, n)),
    decreases n,
{
    if n > 0 {
        property_visits_differ(schema, entries, n - 1);
        let before = property_visits(schema, entries, n - 1);
        let visits = property_visits(schema, entries, n);
        let named = properties_of(schema.properties@);
        assert forall|a: int, b: int| 0 <= a < b < visits.len() implies (
        #[trigger] visits[a]).suffix[0] != (#[trigger] visits[b]).suffix[0] by {
            assert(visits[a] == before[a]);
            if b < before.len() {
                assert(visits[b] == before[b]);
            } else {
                let i = property_of_visit(schema, entries, n - 1, a);
                assert(named[i].0 != named[n - 1].0);
            }
        }
        assert forall|a: int| 0 <= a < visits.len() implies (#[trigger] visits[a]).suffix.len()
            == 1 by {
            if a < before.len() {
                assert(visits[a] == before[a]);
            }
        }
    }
}

/// The entry that a visit beside the properties is for.
proof fn entry_of_visit(schema: JsonSchema, entries: Seq<(Seq<char>, Json)>, n: int, j: int) -> (k:
    int)
    requires
        0 <= n <= entries.len(),
        0 <= j < additional_visits(schema, entries, n).len(),
    ensures
        0 <= k < n,
        !names_property(schema, entries[k].0),
        ({
            let visit = additional_visits(schema, entries, n)[j];
            &&& visit.suffix == seq![Segment::Key(entries[k].0)]
            &&& additional_schema(schema) == Some(visit.schema)
            &&& visit.data == entries[k].1
        }),
    decreases n,
{
    let before = additional_visits(schema, entries, n - 1);
    if j < before.len() {
        let k = entry_of_visit(schema, entries, n - 1, j);
        assert(additional_visits(schema, entries, n)[j] == before[j]);
        k
    } else {
        n - 1
    }
}

/// The visit to an entry that no property names.
proof fn visit_of_entry(schema: JsonSchema, entries: Seq<(Seq<char>, Json)>, n: int, k: int) -> (j:
    int)
    requires
        0 <= k < n <= entries.len(),
        additional_schema(schema) is Some,
        !names_property(schema, entries[k].0),
    ensures
        0 <= j < additional_visits(schema, entries, n).len(),
        ({
            let visit = additional_visits(schema, entries, n)[j];
            &&& visit.suffix == seq![Segment::Key(entries[k].0)]
            &&& additional_schema(schema) == Some(visit.schema)
            &&& visit.data == entries[k].1
        }),
    decreases n,
{
    let before = additional_visits(schema, entries, n - 1);
    if k == n - 1 {
        before.len() as int
    } else {
        let j = visit_of_entry(schema, entries, n - 1, k);
        assert(additional_visits(schema, entries, n)[j] == before[j]);
        j
    }
}

proof fn additional_visits_differ(schema: JsonSchema, entries: Seq<(Seq<char>, Json)>, n: int)
    requires
        0 <= n <= entries.len(),
        distinct_keys(entries),
    ensures
        one_step_each(additional_visits(schema, entries, n)),
    decreases n,
{
    if n > 0 {
        additional_visits_differ(schema, entries, n - 1);
        let before = additional_visits(schema, entries, n - 1);
        let visits = additional_visits(schema, entries, n);
        assert forall|a: int, b: int| 0 <= a < b < visits.len() implies (
        #[trigger] visits[a]).suffix[0] != (#[trigger] visits[b]).suffix[0] by {
            assert(visits[a] == before[a]);
            if b < before.len() {
                assert(visits[b] == before[b]);
            } else {
                let k = entry_of_visit(schema, entries, n - 1, a);
                assert(entries[k].0 != entries[n - 1].0);
            }
        }
        assert forall|a: int| 0 <= a < visits.len() implies (#[trigger] visits[a]).suffix.len()
            == 1 by {
            if a < before.len() {
                assert(visits[a] == before[a]);
            }
        }
    }
}

proof fn object_visits_differ(schema: JsonSchema, entries: Seq<(Seq<char>, Json)>)
    requires
        distinct_keys(properties_of(schema.properties@)),
        distinct_keys(entries),
    ensures
        one_step_each(
            property_visits(schema, entries, schema.properties@.len() as int) + additional_visits(
                schema,
                entries,
                entries.len() as int,
            ),
        ),
{
    let a = property_visits(schema, entries, schema.properties@.len() as int);
    let b = additional_visits(schema, entries, entries.len() as int);
    let all = a + b;
    property_visits_differ(schema, entries, schema.properties@.len() as int);
    additional_visits_differ(schema, entries, entries.len() as int);
    assert forall|j: int| 0 <= j < all.len() implies (#[trigger] all[j]).suffix.len() == 1 by {
        if j < a.len() {
            assert(all[j] == a[j]);
        } else {
            assert(all[j] == b[j - a.len()]);
        }
    }
    assert forall|i: int, j: int| 0 <= i < j < all.len() implies (#[trigger] all[i]).suffix[0] != (
    #[trigger] all[j]).suffix[0] by {
        if j < a.len() {
            assert(a[i].suffix[0] != a[j].suffix[0]);
        } else if i >= a.len() {
            assert(b[i - a.len()].suffix[0] != b[j - a.len()].suffix[0]);
        } else {
            let p = property_of_visit(schema, entries, schema.properties@.len() as int, i);
            let k = entry_of_visit(schema, entries, entries.len() as int, j - a.len());
            assert(all[i] == a[i] && all[j] == b[j - a.len()]);
            if schema.properties@[p].0@ == entries[k].0 {
                assert(names_property(schema, entries[k].0));
            }
        }
    }
}

/// Whether the node is of the type, without alternatives, enumeration or
/// reference.
pub open spec fn plain_node(schema: JsonSchema, name: Seq<char>) -> bool {
    &&& schema.one_of@.len() == 0
    &&& schema.enum_values@.len() == 0
    &&& schema.schema_ref is None
    &&& schema.schema_type matches Some(t) && t@ == name
}

proof fn type_names_differ()
    ensures
        "string"@ != "array"@,
        "string"@ != "object"@,
        "array"@ != "object"@,
        "number"@ != "string"@,
        "number"@ != "array"@,
        "number"@ != "object"@,
        "integer"@ != "string"@,
        "integer"@ != "array"@,
        "integer"@ != "object"@,
        "boolean"@ != "string"@,
        "boolean"@ != "array"@,
        "boolean"@ != "object"@,
{
    reveal_strlit("string");
    reveal_strlit("array");
    reveal_strlit("object");
    reveal_strlit("number");
    reveal_strlit("integer");
    reveal_strlit("boolean");
    assert("string"@[0] == 's' && "array"@[0] == 'a' && "object"@[0] == 'o');
    assert("number"@[0] == 'n' && "integer"@[0] == 'i' && "boolean"@[0] == 'b');
}

/// What a node without a reference finds: what its own visits find, and after
/// it what it asks for itself.
proof fn found_by_node(
    schemas: Seq<(Seq<char>, JsonSchema)>,
    schema: JsonSchema,
    data: Json,
) -> (depth: nat)
    requires
        walk_ends(schemas, schema, data),
        schema.schema_ref is None,
    ensures
        walk_all(schemas, Seq::empty(), child_visits(schema, data), depth) is Some,
        findings(schemas, schema, data).actions == walk_all(
            schemas,
            Seq::empty(),
            child_visits(schema, data),
            depth,
        )->0.actions + own_actions(Seq::empty(), schema, data),
        findings(schemas, schema, data).unknown == unknown_names(
            schema.extra@,
            schema.extra@.len() as int,
        ) + walk_all(schemas, Seq::empty(), child_visits(schema, data), depth)->0.unknown,
{
    let d = choose|d: nat| walk(schemas, Seq::empty(), schema, data, d) is Some;
    let depth = (d - 1) as nat;
    let c = walk_all(schemas, Seq::empty(), child_visits(schema, data), depth)->0;
    let own = own_actions(Seq::empty(), schema, data);
    let names = unknown_names(schema.extra@, schema.extra@.len() as int);
    assert(Seq::<Action>::empty() + c.actions + own =~= c.actions + own);
    assert(names + Seq::<Seq<char>>::empty() + c.unknown =~= names + c.unknown);
    depth
}

proof fn sub_walk_is_findings(
    schemas: Seq<(Seq<char>, JsonSchema)>,
    schema: JsonSchema,
    data: Json,
    depth: nat,
)
    requires
        walk(schemas, Seq::empty(), schema, data, depth) is Some,
    ensures
        walk_ends(schemas, schema, data),
        findings(schemas, schema, data) == walk(schemas, Seq::empty(), schema, data, depth)->0,
{
    findings_at_any_depth(schemas, schema, data, depth);
}

/// A property of an object is searched: below its key stands exactly what the
/// property's schema finds in the value there, in the same order.
pub proof fn property_is_searched(
    schemas: Seq<(Seq<char>, JsonSchema)>,
    schema: JsonSchema,
    entries: Seq<(Seq<char>, Json)>,
    i: int,
    k: int,
)
    requires
        walk_ends(schemas, schema, Json::Object(entries)),
        plain_node(schema, "object"@),
        distinct_keys(properties_of(schema.properties@)),
        distinct_keys(entries),
        0 <= i < schema.properties@.len(),
        0 <= k < entries.len(),
        schema.properties@[i].0@ == entries[k].0,
    ensures
        walk_ends(schemas, *schema.properties@[i].1, entries[k].1),
        below(
            findings(schemas, schema, Json::Object(entries)).actions,
            Segment::Key(entries[k].0),
        ) == moved_all(
            seq![Segment::Key(entries[k].0)],
            findings(schemas, *schema.properties@[i].1, entries[k].1).actions,
        ),
{
    type_names_differ();
    let data = Json::Object(entries);
    let depth = found_by_node(schemas, schema, data);
    let a = property_visits(schema, entries, schema.properties@.len() as int);
    let b = additional_visits(schema, entries, entries.len() as int);
    let visits = a + b;
    assert(child_visits(schema, data) == visits);
    object_visits_differ(schema, entries);
    key_names_its_entry(entries, k);
    entry_under_is_first(entries, entries[k].0);
    let j = visit_of_property(schema, entries, schema.properties@.len() as int, i);
    assert(visits[j] == a[j]);
    let segment = Segment::Key(entries[k].0);
    found_below_each(schemas, visits, depth, segment);
    assert(visits[j].suffix[0] == segment);
    let sub = *schema.properties@[i].1;
    sub_walk_is_findings(schemas, sub, entries[k].1, depth);
    let all = walk_all(schemas, Seq::empty(), visits, depth)->0.actions;
    assert(findings(schemas, schema, data).actions =~= all);
}

/// An entry that no property names is searched by the rule for such entries: by
/// its schema, where there is one, and not at all where there is none.
pub proof fn unnamed_entry_is_searched(
    schemas: Seq<(Seq<char>, JsonSchema)>,
    schema: JsonSchema,
    entries: Seq<(Seq<char>, Json)>,
    k: int,
)
    requires
        walk_ends(schemas, schema, Json::Object(entries)),
        plain_node(schema, "object"@),
        distinct_keys(properties_of(schema.properties@)),
        distinct_keys(entries),
        0 <= k < entries.len(),
        forall|i: int|
            0 <= i < schema.properties@.len() ==> (#[trigger] schema.properties@[i]).0@
                != entries[k].0,
    ensures
        schema.additional_properties matches Some(rule) ==> (
        *rule matches AdditionalProperties::Schema(other) ==> walk_ends(
            schemas,
            *other,
            entries[k].1,
        ) && below(
            findings(schemas, schema, Json::Object(entries)).actions,
            Segment::Key(entries[k].0),
        ) == moved_all(
            seq![Segment::Key(entries[k].0)],
            findings(schemas, *other, entries[k].1).actions,
        )),
        (schema.additional_properties is None || (schema.additional_properties matches Some(rule)
            && *rule is Bool)) ==> below(
            findings(schemas, schema, Json::Object(entries)).actions,
            Segment::Key(entries[k].0),
        ) == Seq::<Action>::empty(),
{
    type_names_differ();
    let data = Json::Object(entries);
    let depth = found_by_node(schemas, schema, data);
    let a = property_visits(schema, entries, schema.properties@.len() as int);
    let b = additional_visits(schema, entries, entries.len() as int);
    let visits = a + b;
    assert(child_visits(schema, data) == visits);
    object_visits_differ(schema, entries);
    let segment = Segment::Key(entries[k].0);
    found_below_each(schemas, visits, depth, segment);
    let all = walk_all(schemas, Seq::empty(), visits, depth)->0.actions;
    assert(findings(schemas, schema, data).actions =~= all);
    if additional_schema(schema) is Some {
        let j = visit_of_entry(schema, entries, entries.len() as int, k);
        assert(visits[a.len() + j] == b[j]);
        assert(visits[a.len() + j].suffix[0] == segment);
        sub_walk_is_findings(schemas, additional_schema(schema)->0, entries[k].1, depth);
    } else {
        assert forall|j: int| 0 <= j < visits.len() implies (#[trigger] visits[j]).suffix[0]
            != segment by {
            if j < a.len() {
                let i = property_of_visit(schema, entries, schema.properties@.len() as int, j);
                assert(visits[j] == a[j]);
            } else {
                let l = entry_of_visit(schema, entries, entries.len() as int, j - a.len());
                assert(false);
            }
        }
    }
}

/// Everything that is found in an object is found below one of its keys.
pub proof fn object_holds_what_is_found(
    schemas: Seq<(Seq<char>, JsonSchema)>,
    schema: JsonSchema,
    entries: Seq<(Seq<char>, Json)>,
    n: int,
)
    requires
        walk_ends(schemas, schema, Json::Object(entries)),
        plain_node(schema, "object"@),
        distinct_keys(properties_of(schema.properties@)),
        distinct_keys(entries),
        0 <= n < findings(schemas, schema, Json::Object(entries)).actions.len(),
    ensures
        exists|k: int|
            0 <= k < entries.len() && starts_at(
                findings(schemas, schema, Json::Object(entries)).actions[n],
                Segment::Key((#[trigger] entries[k]).0),
            ),
{
    type_names_differ();
    let data = Json::Object(entries);
    let depth = found_by_node(schemas, schema, data);
    let a = property_visits(schema, entries, schema.properties@.len() as int);
    let b = additional_visits(schema, entries, entries.len() as int);
    let visits = a + b;
    assert(child_visits(schema, data) == visits);
    object_visits_differ(schema, entries);
    found_below_each(schemas, visits, depth, Segment::Index(0));
    let all = walk_all(schemas, Seq::empty(), visits, depth)->0.actions;
    assert(findings(schemas, schema, data).actions =~= all);
    let j = choose|j: int|
        0 <= j < visits.len() && starts_at(all[n], (#[trigger] visits[j]).suffix[0]);
    if j < a.len() {
        let i = property_of_visit(schema, entries, schema.properties@.len() as int, j);
        assert(visits[j] == a[j]);
        let key = schema.properties@[i].0@;
        entry_under_is_first(entries, key);
        entry_index_key(entries, key);
        let k = entry_index(entries, key) as int;
        assert(starts_at(all[n], Segment::Key(entries[k].0)));
    } else {
        let k = entry_of_visit(schema, entries, entries.len() as int, j - a.len());
        assert(visits[j] == b[j - a.len()]);
        assert(starts_at(all[n], Segment::Key(entries[k].0)));
    }
}

/// What is found on earlier visits comes before what is found on later ones.
proof fn found_in_order(
    schemas: Seq<(Seq<char>, JsonSchema)>,
    visits: Seq<Visit>,
    depth: nat,
    a: int,
    b: int,
    x: int,
    y: int,
)
    requires
        walk_all(schemas, Seq::empty(), visits, depth) is Some,
        one_step_each(visits),
        0 <= a < b < visits.len(),
        ({
            let all = walk_all(schemas, Seq::empty(), visits, depth)->0.actions;
            &&& 0 <= x < all.len()
            &&& 0 <= y < all.len()
            &&& starts_at(all[x], visits[a].suffix[0])
            &&& starts_at(all[y], visits[b].suffix[0])
        }),
    ensures
        x < y,
    decreases visits.len(),
{
    let none = Seq::<Segment>::empty();
    let all = walk_all(schemas, none, visits, depth)->0.actions;
    let n = visits.len() - 1;
    let front = visits.drop_last();
    let last = visits[n];
    let before = walk_all(schemas, none, front, depth)->0.actions;
    let step = last.suffix[0];
    assert(one_step_each(front)) by {
        assert forall|j: int| 0 <= j < front.len() implies (#[trigger] front[j]).suffix.len()
            == 1 by {
            assert(front[j] == visits[j]);
        }
        assert forall|i: int, j: int| 0 <= i < j < front.len() implies (
        #[trigger] front[i]).suffix[0] != (#[trigger] front[j]).suffix[0] by {
            assert(visits[i].suffix[0] != visits[j].suffix[0]);
        }
    }
    assert(last.suffix =~= seq![step]);
    assert(none + last.suffix =~= seq![step]);
    assert(seq![step] + none =~= seq![step]);
    walk_moves(schemas, seq![step], none, last.schema, last.data, depth);
    let own = walk(schemas, none, last.schema, last.data, depth)->0.actions;
    let here = moved_all(seq![step], own);
    assert(all == before + here);
    assert(visits[a].suffix[0] != visits[b].suffix[0]);
    assert(x < before.len()) by {
        if x >= before.len() {
            assert(all[x] == here[x - before.len()]);
            assert(starts_at(all[x], step));
            if a < n {
                assert(visits[a].suffix[0] != visits[n].suffix[0]);
            }
        }
    }
    assert(all[x] == before[x]);
    if y < before.len() {
        assert(all[y] == before[y]);
        if b < n {
            assert(front[a] == visits[a] && front[b] == visits[b]);
            found_in_order(schemas, front, depth, a, b, x, y);
        } else {
            found_below_each(schemas, front, depth, step);
            let j = choose|j: int|
                0 <= j < front.len() && starts_at(before[y], (#[trigger] front[j]).suffix[0]);
            assert(visits[j].suffix[0] != visits[n].suffix[0]);
        }
    }
}

proof fn property_visits_grow(
    schema: JsonSchema,
    entries: Seq<(Seq<char>, Json)>,
    i: int,
    n: int,
)
    requires
        0 <= i < n <= schema.properties@.len(),
        entry_under(entries, schema.properties@[i].0@) is Some,
    ensures
        ({
            let j = property_visits(schema, entries, i).len() as int;
            &&& j < property_visits(schema, entries, n).len()
            &&& property_visits(schema, entries, n)[j].suffix == seq![
                Segment::Key(schema.properties@[i].0@),
            ]
        }),
    decreases n,
{
    if i < n - 1 {
        property_visits_grow(schema, entries, i, n - 1);
    }
}

proof fn additional_visits_grow(
    schema: JsonSchema,
    entries: Seq<(Seq<char>, Json)>,
    k: int,
    n: int,
)
    requires
        0 <= k < n <= entries.len(),
        additional_schema(schema) is Some,
        !names_property(schema, entries[k].0),
    ensures
        ({
            let j = additional_visits(schema, entries, k).len() as int;
            &&& j < additional_visits(schema, entries, n).len()
            &&& additional_visits(schema, entries, n)[j].suffix == seq![Segment::Key(entries[k].0)]
        }),
    decreases n,
{
    if k < n - 1 {
        additional_visits_grow(schema, entries, k, n - 1);
    }
}

/// What is found under the properties of an object comes in the order of the
/// schema, and before what is found under other entries.
pub proof fn properties_come_in_order(
    schemas: Seq<(Seq<char>, JsonSchema)>,
    schema: JsonSchema,
    entries: Seq<(Seq<char>, Json)>,
    i: int,
    key: Seq<char>,
    x: int,
    y: int,
)
    requires
        walk_ends(schemas, schema, Json::Object(entries)),
        plain_node(schema, "object"@),
        distinct_keys(properties_of(schema.properties@)),
        distinct_keys(entries),
        0 <= i < schema.properties@.len(),
        forall|j: int|
            0 <= j <= i ==> (#[trigger] schema.properties@[j]).0@ != key,
        ({
            let found = findings(schemas, schema, Json::Object(entries)).actions;
            &&& 0 <= x < found.len()
            &&& 0 <= y < found.len()
            &&& starts_at(found[x], Segment::Key(schema.properties@[i].0@))
            &&& starts_at(found[y], Segment::Key(key))
        }),
    ensures
        x < y,
{
    type_names_differ();
    let data = Json::Object(entries);
    let depth = found_by_node(schemas, schema, data);
    let n = schema.properties@.len() as int;
    let a = property_visits(schema, entries, n);
    let b = additional_visits(schema, entries, entries.len() as int);
    let visits = a + b;
    assert(child_visits(schema, data) == visits);
    object_visits_differ(schema, entries);
    let all = walk_all(schemas, Seq::empty(), visits, depth)->0.actions;
    assert(findings(schemas, schema, data).actions =~= all);
    found_below_each(schemas, visits, depth, Segment::Index(0));
    let p = choose|p: int|
        0 <= p < visits.len() && starts_at(all[x], (#[trigger] visits[p]).suffix[0]);
    let q = choose|q: int|
        0 <= q < visits.len() && starts_at(all[y], (#[trigger] visits[q]).suffix[0]);
    if p < a.len() {
        let pi = property_of_visit(schema, entries, n, p);
        assert(visits[p] == a[p]);
    } else {
        let pk = entry_of_visit(schema, entries, entries.len() as int, p - a.len());
        assert(visits[p] == b[p - a.len()]);
        assert(schema.properties@[i].0@ == entries[pk].0);
        assert(names_property(schema, entries[pk].0));
    }
    assert(p < a.len());
    let pi = property_of_visit(schema, entries, n, p);
    let named = properties_of(schema.properties@);
    assert(pi == i) by {
        if pi < i {
            assert(named[pi].0 != named[i].0);
        } else if i < pi {
            assert(named[i].0 != named[pi].0);
        }
    }
    property_visits_grow(schema, entries, i, n);
    let at = property_visits(schema, entries, i).len() as int;
    assert(visits[at] == a[at]);
    assert(p == at) by {
        if p < at {
            assert(visits[p].suffix[0] != visits[at].suffix[0]);
        } else if at < p {
            assert(visits[at].suffix[0] != visits[p].suffix[0]);
        }
    }
    if q < a.len() {
        let qi = property_of_visit(schema, entries, n, q);
        assert(visits[q] == a[q]);
        assert(qi > i) by {
            if qi <= i {
                assert(schema.properties@[qi].0@ != key);
            }
        }
        property_visits_grow(schema, entries, qi, n);
        property_visits_grow(schema, entries, i, qi);
        let to = property_visits(schema, entries, qi).len() as int;
        assert(visits[to] == a[to]);
        assert(q == to) by {
            if q < to {
                assert(visits[q].suffix[0] != visits[to].suffix[0]);
            } else if to < q {
                assert(visits[to].suffix[0] != visits[q].suffix[0]);
            }
        }
    }
    assert(p < q);
    found_in_order(schemas, visits, depth, p, q, x, y);
}

/// What is found under entries that no property names comes in the order of the
/// payload.
pub proof fn unnamed_entries_come_in_order(
    schemas: Seq<(Seq<char>, JsonSchema)>,
    schema: JsonSchema,
    entries: Seq<(Seq<char>, Json)>,
    k: int,
    l: int,
    x: int,
    y: int,
)
    requires
        walk_ends(schemas, schema, Json::Object(entries)),
        plain_node(schema, "object"@),
        distinct_keys(properties_of(schema.properties@)),
        distinct_keys(entries),
        0 <= k < l < entries.len(),
        forall|j: int|
            0 <= j < schema.properties@.len() ==> (#[trigger] schema.properties@[j]).0@
                != entries[k].0 && schema.properties@[j].0@ != entries[l].0,
        ({
            let found = findings(schemas, schema, Json::Object(entries)).actions;
            &&& 0 <= x < found.len()
            &&& 0 <= y < found.len()
            &&& starts_at(found[x], Segment::Key(entries[k].0))
            &&& starts_at(found[y], Segment::Key(entries[l].0))
        }),
    ensures
        x < y,
{
    type_names_differ();
    let data = Json::Object(entries);
    let depth = found_by_node(schemas, schema, data);
    let n = schema.properties@.len() as int;
    let m = entries.len() as int;
    let a = property_visits(schema, entries, n);
    let b = additional_visits(schema, entries, m);
    let visits = a + b;
    assert(child_visits(schema, data) == visits);
    object_visits_differ(schema, entries);
    let all = walk_all(schemas, Seq::empty(), visits, depth)->0.actions;
    assert(findings(schemas, schema, data).actions =~= all);
    found_below_each(schemas, visits, depth, Segment::Index(0));
    let p = choose|p: int|
        0 <= p < visits.len() && starts_at(all[x], (#[trigger] visits[p]).suffix[0]);
    if p < a.len() {
        let pi = property_of_visit(schema, entries, n, p);
        assert(visits[p] == a[p]);
        assert(schema.properties@[pi].0@ != entries[k].0);
    }
    let e = entry_of_visit(schema, entries, m, p - a.len());
    assert(additional_schema(schema) is Some);
    assert(!names_property(schema, entries[k].0));
    assert(!names_property(schema, entries[l].0));
    additional_visits_grow(schema, entries, k, m);
    additional_visits_grow(schema, entries, l, m);
    additional_visits_grow(schema, entries, k, l);
    let at = additional_visits(schema, entries, k).len() as int;
    let to = additional_visits(schema, entries, l).len() as int;
    assert(visits[a.len() + at] == b[at]);
    assert(visits[a.len() + to] == b[to]);
    found_in_order(schemas, visits, depth, a.len() + at, a.len() + to, x, y);
}

/// What is found in an array comes in the order of its elements.
pub proof fn elements_come_in_order(
    schemas: Seq<(Seq<char>, JsonSchema)>,
    schema: JsonSchema,
    elements: Seq<Json>,
    i: int,
    j: int,
    x: int,
    y: int,
)
    requires
        walk_ends(schemas, schema, Json::Array(elements)),
        plain_node(schema, "array"@),
        0 <= i < j < elements.len(),
        ({
            let found = findings(schemas, schema, Json::Array(elements)).actions;
            &&& 0 <= x < found.len()
            &&& 0 <= y < found.len()
            &&& starts_at(found[x], Segment::Index(i))
            &&& starts_at(found[y], Segment::Index(j))
        }),
    ensures
        x < y,
{
    type_names_differ();
    array_holds_what_is_found(schemas, schema, elements, x);
    let data = Json::Array(elements);
    let depth = found_by_node(schemas, schema, data);
    let visits = item_visits(schema, elements);
    assert(child_visits(schema, data) == visits);
    assert(one_step_each(visits));
    let all = walk_all(schemas, Seq::empty(), visits, depth)->0.actions;
    assert(findings(schemas, schema, data).actions =~= all);
    assert(visits[i].suffix[0] == Segment::Index(i));
    assert(visits[j].suffix[0] == Segment::Index(j));
    found_in_order(schemas, visits, depth, i, j, x, y);
}

/// Every element of an array is searched: below its number stands exactly what
/// the items' schema finds in it.
pub proof fn element_is_searched(
    schemas: Seq<(Seq<char>, JsonSchema)>,
    schema: JsonSchema,
    elements: Seq<Json>,
    i: int,
)
    requires
        walk_ends(schemas, schema, Json::Array(elements)),
        plain_node(schema, "array"@),
        schema.items is Some,
        0 <= i < elements.len(),
    ensures
        walk_ends(schemas, *schema.items->0, elements[i]),
        below(findings(schemas, schema, Json::Array(elements)).actions, Segment::Index(i))
            == moved_all(
            seq![Segment::Index(i)],
            findings(schemas, *schema.items->0, elements[i]).actions,
        ),
{
    type_names_differ();
    let data = Json::Array(elements);
    let depth = found_by_node(schemas, schema, data);
    let visits = item_visits(schema, elements);
    assert(child_visits(schema, data) == visits);
    assert(one_step_each(visits));
    found_below_each(schemas, visits, depth, Segment::Index(i));
    assert(visits[i].suffix[0] == Segment::Index(i));
    let sub = *schema.items->0;
    sub_walk_is_findings(schemas, sub, elements[i], depth);
    let all = walk_all(schemas, Seq::empty(), visits, depth)->0.actions;
    assert(findings(schemas, schema, data).actions =~= all);
}

/// Everything that is found in an array is found below the number of one of its
/// elements; without a schema for the items nothing is.
pub proof fn array_holds_what_is_found(
    schemas: Seq<(Seq<char>, JsonSchema)>,
    schema: JsonSchema,
    elements: Seq<Json>,
    n: int,
)
    requires
        walk_ends(schemas, schema, Json::Array(elements)),
        plain_node(schema, "array"@),
        0 <= n < findings(schemas, schema, Json::Array(elements)).actions.len(),
    ensures
        schema.items is Some,
        exists|i: int|
            0 <= i < elements.len() && #[trigger] starts_at(
                findings(schemas, schema, Json::Array(elements)).actions[n],
                Segment::Index(i),
            ),
{
    type_names_differ();
    let data = Json::Array(elements);
    let depth = found_by_node(schemas, schema, data);
    let visits = item_visits(schema, elements);
    assert(child_visits(schema, data) == visits);
    assert(one_step_each(visits));
    found_below_each(schemas, visits, depth, Segment::Index(0));
    let all = walk_all(schemas, Seq::empty(), visits, depth)->0.actions;
    assert(findings(schemas, schema, data).actions =~= all);
    let j = choose|j: int|
        0 <= j < visits.len() && starts_at(all[n], (#[trigger] visits[j]).suffix[0]);
    assert(starts_at(all[n], Segment::Index(j)));
}

/// A text where a string is wanted is saved, uploaded and sent as the node is
/// marked, in this order and each once: the file is the one that the text names.
pub proof fn marked_text_is_found(
    schemas: Seq<(Seq<char>, JsonSchema)>,
    schema: JsonSchema,
    text: Seq<char>,
)
    requires
        walk_ends(schemas, schema, Json::String(text)),
        plain_node(schema, "string"@),
    ensures
        ({
            let found = findings(schemas, schema, Json::String(text)).actions;
            let here = Seq::<Segment>::empty();
            let marks = schema.directives;
            let s: int = if marks.file_save is Some {
                1
            } else {
                0
            };
            let m: int = if marks.upload_media is Some {
                1
            } else {
                0
            };
            let o: int = if marks.octet_stream is Some {
                1
            } else {
                0
            };
            &&& found.len() == s + m + o
            &&& marks.file_save matches Some(options) ==> found[0] == (Action::Save {
                path: here,
                options,
            })
            &&& marks.upload_media matches Some(options) ==> found[s] == (Action::UploadMedia {
                path: here,
                file_path: text,
                with_file_path: options.with_file_path,
            })
            &&& marks.octet_stream is Some ==> found[s + m] == (Action::UploadMultipart {
                path: here,
                file_path: text,
            })
        }),
{
    type_names_differ();
    let data = Json::String(text);
    let depth = found_by_node(schemas, schema, data);
    assert(child_visits(schema, data) =~= Seq::empty());
    assert(findings(schemas, schema, data).actions =~= own_actions(Seq::empty(), schema, data));
}

/// What is no text is saved where a string is wanted and marked for saving, and
/// never uploaded; an array of one text aside, which stands for the text.
pub proof fn marked_value_is_saved(
    schemas: Seq<(Seq<char>, JsonSchema)>,
    schema: JsonSchema,
    data: Json,
)
    requires
        walk_ends(schemas, schema, data),
        plain_node(schema, "string"@),
        data !is String,
        data matches Json::Array(items) ==> items.len() != 1 || items[0] !is String,
    ensures
        schema.directives.file_save is None ==> findings(schemas, schema, data).actions.len() == 0,
        schema.directives.file_save matches Some(options) ==> findings(
            schemas,
            schema,
            data,
        ).actions =~= seq![Action::Save { path: Seq::empty(), options }],
{
    type_names_differ();
    let depth = found_by_node(schemas, schema, data);
    assert(child_visits(schema, data) =~= Seq::empty());
    assert(findings(schemas, schema, data).actions =~= own_actions(Seq::empty(), schema, data));
}

/// Whether the value is of the type that the name stands for.
pub open spec fn is_of_type(value: Json, name: Seq<char>) -> bool {
    ||| value is String && name == "string"@
    ||| value is Array && name == "array"@
    ||| value is Object && name == "object"@
    ||| value is Bool && name == "boolean"@
    ||| value is Number && (name == "number"@ || name == "integer"@)
}

/// An array of one value stands for the value, where a value of its type is
/// wanted; a value stands for the array of it, where an array is wanted whose
/// items are of its type.
pub proof fn one_value_and_its_array(
    schemas: Seq<(Seq<char>, JsonSchema)>,
    schema: JsonSchema,
    name: Seq<char>,
    value: Json,
)
    requires
        plain_node(schema, name),
    ensures
        name != "array"@ && is_of_type(value, name) && walk_ends(
            schemas,
            schema,
            Json::Array(seq![value]),
        ) ==> walk_ends(schemas, schema, value) && findings(
            schemas,
            schema,
            Json::Array(seq![value]),
        ).actions == moved_all(
            seq![Segment::Index(0)],
            findings(schemas, schema, value).actions,
        ),
        name == "array"@ && value !is Array && walk_ends(schemas, schema, value) && (
        schema.items matches Some(items) && (items.schema_type matches Some(t) && is_of_type(
            value,
            t@,
        ))) ==> walk_ends(schemas, *schema.items->0, value) && findings(
            schemas,
            schema,
            value,
        ).actions == findings(schemas, *schema.items->0, value).actions,
{
    type_names_differ();
    assert(is_of_type(value, name) <==> type_matches(value, name));
    let none = Seq::<Segment>::empty();
    let array = Json::Array(seq![value]);
    if name != "array"@ && is_of_type(value, name) && walk_ends(schemas, schema, array) {
        let depth = found_by_node(schemas, schema, array);
        assert(seq![value][0] == value);
        let step = seq![Segment::Index(0)];
        assert(child_visits(schema, array) =~= seq![Visit { suffix: step, schema, data: value }]);
        one_visit(schemas, none, Visit { suffix: step, schema, data: value }, depth);
        assert(none + step =~= step);
        assert(step + none =~= step);
        walk_moves(schemas, step, none, schema, value, depth);
        sub_walk_is_findings(schemas, schema, value, depth);
        assert(findings(schemas, schema, array).actions =~= moved_all(
            step,
            findings(schemas, schema, value).actions,
        ));
    }
    if name == "array"@ && value !is Array && walk_ends(schemas, schema, value) && (
    schema.items matches Some(items) && (items.schema_type matches Some(t) && is_of_type(
        value,
        t@,
    ))) {
        let items = *schema.items->0;
        let depth = found_by_node(schemas, schema, value);
        let visit = Visit { suffix: none, schema: items, data: value };
        assert(type_matches(value, items.schema_type->0@));
        assert(child_visits(schema, value) =~= seq![visit]);
        one_visit(schemas, none, visit, depth);
        assert(none + none =~= none);
        sub_walk_is_findings(schemas, items, value, depth);
        assert(findings(schemas, schema, value).actions =~= findings(
            schemas,
            items,
            value,
        ).actions);
    }
}

/// Whether an array of one value stands for the value: another type than that of
/// arrays is wanted, and the value is of it.
pub open spec fn stands_for_its_value(schema: JsonSchema, data: Json) -> bool {
    &&& schema.one_of@.len() == 0
    &&& schema.enum_values@.len() == 0
    &&& schema.schema_type matches Some(t) && t@ != "array"@ && (data matches Json::Array(items)
        && items.len() == 1 && is_of_type(items[0], t@))
}

/// Nothing is found at a node with alternatives, with an enumeration or without
/// a type, nor where the value is not of the type that is wanted, nor where the
/// type is neither that of a string nor that of what holds other values. An
/// array of one value, and a value in place of the array of it, are left to
/// `one_value_and_its_array`.
pub proof fn search_stops(
    schemas: Seq<(Seq<char>, JsonSchema)>,
    schema: JsonSchema,
    data: Json,
)
    requires
        walk_ends(schemas, schema, data),
        schema.schema_ref is None,
        !stands_for_its_value(schema, data),
        ({
            ||| schema.one_of@.len() > 0
            ||| schema.enum_values@.len() > 0
            ||| schema.schema_type is None
            ||| schema.schema_type matches Some(t) && t@ != "string"@ && t@ != "array"@ && t@
                != "object"@
            ||| schema.schema_type matches Some(t) && t@ == "object"@ && data !is Object
            ||| schema.schema_type matches Some(t) && t@ == "array"@ && data !is Array && (
            schema.items matches Some(items) ==> (items.schema_type matches Some(own)
                ==> !is_of_type(data, own@)))
        }),
    ensures
        findings(schemas, schema, data).actions.len() == 0,
{
    type_names_differ();
    assert forall|value: Json, name: Seq<char>| is_of_type(value, name) <==> #[trigger] type_matches(
        value,
        name,
    ) by {}
    let depth = found_by_node(schemas, schema, data);
    assert(child_visits(schema, data) =~= Seq::empty());
    assert(own_actions(Seq::empty(), schema, data) =~= Seq::empty());
    assert(findings(schemas, schema, data).actions =~= Seq::empty());
}

/// The node with its reference taken out.
pub open spec fn without_ref(schema: JsonSchema) -> JsonSchema {
    JsonSchema { schema_ref: None, ..schema }
}

/// A reference is followed first: what the named schema finds in the value
/// comes before what the node finds without it. A name that stands for nothing
/// finds nothing. An array that stands for its value is left to
/// `reference_of_one_value`.
pub proof fn reference_is_followed(
    schemas: Seq<(Seq<char>, JsonSchema)>,
    schema: JsonSchema,
    data: Json,
)
    requires
        walk_ends(schemas, schema, data),
        schema.schema_ref is Some,
        !stands_for_its_value(schema, data),
    ensures
        walk_ends(schemas, without_ref(schema), data),
        named_schema(schemas, schema.schema_ref->0@) is None ==> findings(
            schemas,
            schema,
            data,
        ).actions == findings(schemas, without_ref(schema), data).actions,
        named_schema(schemas, schema.schema_ref->0@) matches Some(target) ==> walk_ends(
            schemas,
            target,
            data,
        ) && findings(schemas, schema, data).actions == findings(schemas, target, data).actions
            + findings(schemas, without_ref(schema), data).actions,
{
    type_names_differ();
    assert forall|value: Json, name: Seq<char>| is_of_type(value, name) <==> #[trigger] type_matches(
        value,
        name,
    ) by {}
    let none = Seq::<Segment>::empty();
    let d = choose|d: nat| walk(schemas, none, schema, data, d) is Some;
    let below = (d - 1) as nat;
    let bare = without_ref(schema);
    assert(child_visits(bare, data) == child_visits(schema, data)) by {
        if let Json::Object(entries) = data {
            bare_properties(schema, entries, schema.properties@.len() as int);
            bare_additional(schema, entries, entries.len() as int);
        }
    }
    assert(own_actions(none, bare, data) == own_actions(none, schema, data));
    assert(ref_visits(schemas, bare, data) =~= Seq::empty());
    assert(walk(schemas, none, bare, data, d) is Some);
    sub_walk_is_findings(schemas, bare, data, d);
    let c = walk_all(schemas, none, child_visits(schema, data), below)->0;
    let own = own_actions(none, schema, data);
    assert(Seq::<Action>::empty() + c.actions + own =~= c.actions + own);
    if let Some(target) = named_schema(schemas, schema.schema_ref->0@) {
        let visit = Visit { suffix: none, schema: target, data };
        one_visit(schemas, none, visit, below);
        assert(none + none =~= none);
        sub_walk_is_findings(schemas, target, data, below);
        let r = walk(schemas, none, target, data, below)->0;
        assert(r.actions + c.actions + own =~= r.actions + (c.actions + own));
    }
}

/// Where an array of one value stands for the value, the reference is followed
/// for the array first and for the value again; a name that stands for nothing
/// finds nothing here either.
pub proof fn reference_of_one_value(
    schemas: Seq<(Seq<char>, JsonSchema)>,
    schema: JsonSchema,
    value: Json,
)
    requires
        walk_ends(schemas, schema, Json::Array(seq![value])),
        schema.schema_ref is Some,
        stands_for_its_value(schema, Json::Array(seq![value])),
    ensures
        ({
            let array = Json::Array(seq![value]);
            let again = moved_all(
                seq![Segment::Index(0)],
                findings(schemas, schema, value).actions,
            );
            &&& walk_ends(schemas, schema, value)
            &&& named_schema(schemas, schema.schema_ref->0@) is None ==> findings(
                schemas,
                schema,
                array,
            ).actions == again
            &&& named_schema(schemas, schema.schema_ref->0@) matches Some(target) ==> walk_ends(
                schemas,
                target,
                array,
            ) && findings(schemas, schema, array).actions == findings(
                schemas,
                target,
                array,
            ).actions + again
        }),
{
    type_names_differ();
    assert forall|value: Json, name: Seq<char>| is_of_type(value, name) <==> #[trigger] type_matches(
        value,
        name,
    ) by {}
    let none = Seq::<Segment>::empty();
    let array = Json::Array(seq![value]);
    let d = choose|d: nat| walk(schemas, none, schema, array, d) is Some;
    let below = (d - 1) as nat;
    assert(seq![value][0] == value);
    let step = seq![Segment::Index(0)];
    let visit = Visit { suffix: step, schema, data: value };
    assert(child_visits(schema, array) =~= seq![visit]);
    one_visit(schemas, none, visit, below);
    assert(none + step =~= step);
    assert(step + none =~= step);
    walk_moves(schemas, step, none, schema, value, below);
    sub_walk_is_findings(schemas, schema, value, below);
    let again = moved_all(step, findings(schemas, schema, value).actions);
    if let Some(target) = named_schema(schemas, schema.schema_ref->0@) {
        let referred = Visit { suffix: none, schema: target, data: array };
        one_visit(schemas, none, referred, below);
        assert(none + none =~= none);
        sub_walk_is_findings(schemas, target, array, below);
        assert(findings(schemas, schema, array).actions =~= findings(schemas, target, array).actions
            + again);
    } else {
        assert(findings(schemas, schema, array).actions =~= again);
    }
}

proof fn bare_properties(schema: JsonSchema, entries: Seq<(Seq<char>, Json)>, n: int)
    ensures
        property_visits(without_ref(schema), entries, n) == property_visits(schema, entries, n),
    decreases n,
{
    if n > 0 {
        bare_properties(schema, entries, n - 1);
    }
}

proof fn bare_additional(schema: JsonSchema, entries: Seq<(Seq<char>, Json)>, n: int)
    ensures
        additional_visits(without_ref(schema), entries, n) == additional_visits(schema, entries, n),
    decreases n,
{
    if n > 0 {
        bare_additional(schema, entries, n - 1);
        assert(without_ref(schema).properties == schema.properties);
        assert(names_property(without_ref(schema), entries[n - 1].0) == names_property(
            schema,
            entries[n - 1].0,
        ));
    }
}

/// Whether the action speaks of what stands at its path: a file that is
/// uploaded or sent is the one that the text there names, and what is saved
/// stands there.
pub open spec fn is_about(action: Action, data: Json) -> bool {
    match action {
        Action::UploadMedia { path, file_path, .. } => json_get(data, path) == Some(
            Json::String(file_path),
        ),
        Action::UploadMultipart { path, file_path } => json_get(data, path) == Some(
            Json::String(file_path),
        ),
        Action::Save { path, .. } => json_get(data, path) is Some,
    }
}

proof fn visits_lead_to_values(schema: JsonSchema, data: Json, j: int)
    requires
        valid(data),
        0 <= j < child_visits(schema, data).len(),
    ensures
        json_get(data, child_visits(schema, data)[j].suffix) == Some(
            child_visits(schema, data)[j].data,
        ),
        valid(child_visits(schema, data)[j].data),
{
    let visit = child_visits(schema, data)[j];
    let none = Seq::<Segment>::empty();
    match data {
        Json::Object(entries) => {
            if !wraps(schema, data) {
                let a = property_visits(schema, entries, schema.properties@.len() as int);
                let b = additional_visits(schema, entries, entries.len() as int);
                if j < a.len() {
                    assert(visit == a[j]);
                    let i = property_of_visit(schema, entries, schema.properties@.len() as int, j);
                    let key = schema.properties@[i].0@;
                    entry_under_is_first(entries, key);
                    assert(visit.suffix.drop_first() =~= none);
                    assert(json_get(visit.data, none) == Some(visit.data));
                    assert(valid(entries[entry_index(entries, key) as int].1));
                } else {
                    assert(visit == b[j - a.len()]);
                    let k = entry_of_visit(schema, entries, entries.len() as int, j - a.len());
                    key_names_its_entry(entries, k);
                    assert(visit.suffix.drop_first() =~= none);
                    assert(json_get(visit.data, none) == Some(visit.data));
                    assert(valid(entries[k].1));
                }
            }
        },
        Json::Array(items) => {
            if visit.suffix.len() > 0 {
                assert(visit.suffix.drop_first() =~= none);
                assert(json_get(visit.data, none) == Some(visit.data));
                assert(visit.suffix[0] is Index);
                let i = visit.suffix[0]->Index_0;
                assert(0 <= i < items.len() && visit.data == items[i]);
                assert(valid(items[i]));
            }
        },
        _ => {},
    }
}

proof fn walk_is_about(
    schemas: Seq<(Seq<char>, JsonSchema)>,
    schema: JsonSchema,
    data: Json,
    depth: nat,
)
    requires
        valid(data),
        walk(schemas, Seq::empty(), schema, data, depth) is Some,
    ensures
        forall|k: int|
            0 <= k < walk(schemas, Seq::empty(), schema, data, depth)->0.actions.len() ==> is_about(
                #[trigger] walk(schemas, Seq::empty(), schema, data, depth)->0.actions[k],
                data,
            ),
    decreases depth, 0nat,
{
    let none = Seq::<Segment>::empty();
    let below = (depth - 1) as nat;
    let refs = ref_visits(schemas, schema, data);
    let children = child_visits(schema, data);
    assert forall|j: int| 0 <= j < children.len() implies json_get(
        data,
        (#[trigger] children[j]).suffix,
    ) == Some(children[j].data) && valid(children[j].data) by {
        visits_lead_to_values(schema, data, j);
    }
    all_are_about(schemas, refs, data, below);
    all_are_about(schemas, children, data, below);
    let r = walk_all(schemas, none, refs, below)->0.actions;
    let c = walk_all(schemas, none, children, below)->0.actions;
    let own = own_actions(none, schema, data);
    let all = walk(schemas, none, schema, data, depth)->0.actions;
    assert(all == r + c + own);
    assert(json_get(data, none) == Some(data));
    assert forall|k: int| 0 <= k < all.len() implies is_about(#[trigger] all[k], data) by {
        if k < r.len() {
            assert(all[k] == r[k]);
        } else if k < r.len() + c.len() {
            assert(all[k] == c[k - r.len()]);
        } else {
            assert(all[k] == own[k - r.len() - c.len()]);
        }
    }
}

proof fn all_are_about(
    schemas: Seq<(Seq<char>, JsonSchema)>,
    visits: Seq<Visit>,
    data: Json,
    depth: nat,
)
    requires
        walk_all(schemas, Seq::empty(), visits, depth) is Some,
        forall|j: int|
            0 <= j < visits.len() ==> json_get(data, (#[trigger] visits[j]).suffix) == Some(
                visits[j].data,
            ) && valid(visits[j].data),
    ensures
        forall|k: int|
            0 <= k < walk_all(schemas, Seq::empty(), visits, depth)->0.actions.len() ==> is_about(
                #[trigger] walk_all(schemas, Seq::empty(), visits, depth)->0.actions[k],
                data,
            ),
    decreases depth, visits.len() + 1,
{
    let none = Seq::<Segment>::empty();
    if visits.len() > 0 {
        let n = visits.len() - 1;
        let last = visits[n];
        let front = visits.drop_last();
        assert forall|j: int| 0 <= j < front.len() implies json_get(
            data,
            (#[trigger] front[j]).suffix,
        ) == Some(front[j].data) && valid(front[j].data) by {
            assert(front[j] == visits[j]);
        }
        all_are_about(schemas, front, data, depth);
        assert(none + last.suffix =~= last.suffix);
        assert(last.suffix + none =~= last.suffix);
        walk_moves(schemas, last.suffix, none, last.schema, last.data, depth);
        walk_is_about(schemas, last.schema, last.data, depth);
        let before = walk_all(schemas, none, front, depth)->0.actions;
        let own = walk(schemas, none, last.schema, last.data, depth)->0.actions;
        let here = moved_all(last.suffix, own);
        let all = walk_all(schemas, none, visits, depth)->0.actions;
        assert(all == before + here);
        assert forall|k: int| 0 <= k < all.len() implies is_about(#[trigger] all[k], data) by {
            if k < before.len() {
                assert(all[k] == before[k]);
            } else {
                let i = k - before.len();
                assert(all[k] == moved(last.suffix, own[i]));
                path_after_path(data, last.suffix, path_of_action(own[i]));
                assert(is_about(own[i], last.data));
            }
        }
    }
}

/// Everything that is found speaks of what stands in the payload at its path: a
/// file that is uploaded or sent is the one that the text there names, and what
/// is saved stands there.
pub proof fn found_is_about_the_payload(
    schemas: Seq<(Seq<char>, JsonSchema)>,
    schema: JsonSchema,
    data: Json,
    i: int,
)
    requires
        walk_ends(schemas, schema, data),
        valid(data),
        0 <= i < findings(schemas, schema, data).actions.len(),
    ensures
        match findings(schemas, schema, data).actions[i] {
            Action::UploadMedia { path, file_path, .. } => json_get(data, path) == Some(
                Json::String(file_path),
            ),
            Action::UploadMultipart { path, file_path } => json_get(data, path) == Some(
                Json::String(file_path),
            ),
            Action::Save { path, .. } => json_get(data, path) is Some,
        },
{
    let d = choose|d: nat| walk(schemas, Seq::empty(), schema, data, d) is Some;
    walk_is_about(schemas, schema, data, d);
    assert(is_about(walk(schemas, Seq::empty(), schema, data, d)->0.actions[i], data));
}

proof fn unknown_names_are(extra: Seq<(String, Value)>, n: int, name: Seq<char>)
    requires
        0 <= n <= extra.len(),
    ensures
        unknown_names(extra, n).contains(name) <==> starts_with(name, "x-wecom-"@) && exists|
            i: int,
        |
            0 <= i < n && (#[trigger] extra[i]).0@ == name,
    decreases n,
{
    if n > 0 {
        unknown_names_are(extra, n - 1, name);
        let before = unknown_names(extra, n - 1);
        let after = unknown_names(extra, n);
        if before.contains(name) {
            let k = choose|k: int| 0 <= k < before.len() && before[k] == name;
            assert(after[k] == name);
        }
        if starts_with(extra[n - 1].0@, "x-wecom-"@) {
            assert(after[before.len() as int] == extra[n - 1].0@);
        }
        if after.contains(name) && !before.contains(name) {
            let k = choose|k: int| 0 <= k < after.len() && after[k] == name;
            if k < before.len() {
                assert(before[k] == name);
            }
            assert(extra[n - 1].0@ == name);
        }
    }
}

/// Of a text where a string is wanted, exactly the `x-wecom-*` keywords of the
/// node that no directive takes are told.
pub proof fn unknown_keywords_are_told(
    schemas: Seq<(Seq<char>, JsonSchema)>,
    schema: JsonSchema,
    text: Seq<char>,
    name: Seq<char>,
)
    requires
        walk_ends(schemas, schema, Json::String(text)),
        plain_node(schema, "string"@),
    ensures
        findings(schemas, schema, Json::String(text)).unknown.contains(name) <==> starts_with(
            name,
            "x-wecom-"@,
        ) && exists|i: int|
            0 <= i < schema.extra@.len() && (#[trigger] schema.extra@[i]).0@ == name,
{
    type_names_differ();
    let data = Json::String(text);
    let depth = found_by_node(schemas, schema, data);
    unknown_names_are(schema.extra@, schema.extra@.len() as int, name);
    assert(findings(schemas, schema, data).unknown =~= unknown_names(
        schema.extra@,
        schema.extra@.len() as int,
    ));
}

proof fn unknown_is_marked(
    schemas: Seq<(Seq<char>, JsonSchema)>,
    path: Seq<Segment>,
    schema: JsonSchema,
    data: Json,
    depth: nat,
    name: Seq<char>,
)
    requires
        walk(schemas, path, schema, data, depth) matches Some(found) && found.unknown.contains(name),
    ensures
        starts_with(name, "x-wecom-"@),
    decreases depth, 0nat,
{
    let below = (depth - 1) as nat;
    let refs = ref_visits(schemas, schema, data);
    let children = child_visits(schema, data);
    let own = unknown_names(schema.extra@, schema.extra@.len() as int);
    let r = walk_all(schemas, path, refs, below)->0.unknown;
    let c = walk_all(schemas, path, children, below)->0.unknown;
    let all = walk(schemas, path, schema, data, depth)->0.unknown;
    assert(all == own + r + c);
    let k = choose|k: int| 0 <= k < all.len() && all[k] == name;
    if k < own.len() {
        assert(own[k] == name);
        unknown_names_are(schema.extra@, schema.extra@.len() as int, name);
    } else if k < own.len() + r.len() {
        assert(r[k - own.len()] == name);
        all_unknown_are_marked(schemas, path, refs, below, name);
    } else {
        assert(c[k - own.len() - r.len()] == name);
        all_unknown_are_marked(schemas, path, children, below, name);
    }
}

proof fn all_unknown_are_marked(
    schemas: Seq<(Seq<char>, JsonSchema)>,
    path: Seq<Segment>,
    visits: Seq<Visit>,
    depth: nat,
    name: Seq<char>,
)
    requires
        walk_all(schemas, path, visits, depth) matches Some(found) && found.unknown.contains(name),
    ensures
        starts_with(name, "x-wecom-"@),
    decreases depth, visits.len() + 1,
{
    if visits.len() > 0 {
        let last = visits.last();
        let front = visits.drop_last();
        let before = walk_all(schemas, path, front, depth)->0.unknown;
        let here = walk(schemas, path + last.suffix, last.schema, last.data, depth)->0.unknown;
        let all = walk_all(schemas, path, visits, depth)->0.unknown;
        assert(all == before + here);
        let k = choose|k: int| 0 <= k < all.len() && all[k] == name;
        if k < before.len() {
            assert(before[k] == name);
            all_unknown_are_marked(schemas, path, front, depth, name);
        } else {
            assert(here[k - before.len()] == name);
            unknown_is_marked(schemas, path + last.suffix, last.schema, last.data, depth, name);
        }
    }
}

/// Nothing is told as unknown but what starts with `x-wecom-`.
pub proof fn only_marked_keywords_are_told(
    schemas: Seq<(Seq<char>, JsonSchema)>,
    schema: JsonSchema,
    data: Json,
    name: Seq<char>,
)
    requires
        walk_ends(schemas, schema, data),
        findings(schemas, schema, data).unknown.contains(name),
    ensures
        starts_with(name, "x-wecom-"@),
{
    let d = choose|d: nat| walk(schemas, Seq::empty(), schema, data, d) is Some;
    unknown_is_marked(schemas, Seq::empty(), schema, data, d, name);
}

proof fn unknown_of_visit(
    schemas: Seq<(Seq<char>, JsonSchema)>,
    visits: Seq<Visit>,
    depth: nat,
    j: int,
    name: Seq<char>,
)
    requires
        walk_all(schemas, Seq::empty(), visits, depth) is Some,
        0 <= j < visits.len(),
        walk(schemas, Seq::empty(), visits[j].schema, visits[j].data, depth) matches Some(found)
            && found.unknown.contains(name),
    ensures
        walk_all(schemas, Seq::empty(), visits, depth)->0.unknown.contains(name),
    decreases visits.len(),
{
    let none = Seq::<Segment>::empty();
    let n = visits.len() - 1;
    let last = visits[n];
    let front = visits.drop_last();
    let all = walk_all(schemas, none, visits, depth)->0.unknown;
    let before = walk_all(schemas, none, front, depth)->0.unknown;
    assert(none + last.suffix =~= last.suffix + none);
    walk_moves(schemas, last.suffix, none, last.schema, last.data, depth);
    let here = walk(schemas, none, last.schema, last.data, depth)->0.unknown;
    assert(all == before + here);
    if j < n {
        assert(front[j] == visits[j]);
        unknown_of_visit(schemas, front, depth, j, name);
        let k = choose|k: int| 0 <= k < before.len() && before[k] == name;
        assert(all[k] == name);
    } else {
        let k = choose|k: int| 0 <= k < here.len() && here[k] == name;
        assert(all[before.len() + k] == name);
    }
}

proof fn risen_from_visit(
    schemas: Seq<(Seq<char>, JsonSchema)>,
    visits: Seq<Visit>,
    depth: nat,
    j: int,
    name: Seq<char>,
)
    requires
        walk_all(schemas, Seq::empty(), visits, depth) is Some,
        0 <= j < visits.len(),
    ensures
        findings(schemas, visits[j].schema, visits[j].data).unknown.contains(name) ==> walk_all(
            schemas,
            Seq::empty(),
            visits,
            depth,
        )->0.unknown.contains(name),
{
    let none = Seq::<Segment>::empty();
    let visit = visits[j];
    visit_of_all_ends(schemas, none, visits, depth, j);
    assert(none + visit.suffix =~= visit.suffix + none);
    walk_moves(schemas, visit.suffix, none, visit.schema, visit.data, depth);
    sub_walk_is_findings(schemas, visit.schema, visit.data, depth);
    if findings(schemas, visit.schema, visit.data).unknown.contains(name) {
        unknown_of_visit(schemas, visits, depth, j, name);
    }
}

proof fn visit_that_tells(
    schemas: Seq<(Seq<char>, JsonSchema)>,
    visits: Seq<Visit>,
    depth: nat,
    name: Seq<char>,
) -> (j: int)
    requires
        walk_all(schemas, Seq::empty(), visits, depth) matches Some(found)
            && found.unknown.contains(name),
    ensures
        0 <= j < visits.len(),
        findings(schemas, visits[j].schema, visits[j].data).unknown.contains(name),
    decreases visits.len(),
{
    let none = Seq::<Segment>::empty();
    let n = visits.len() - 1;
    let last = visits[n];
    let front = visits.drop_last();
    let all = walk_all(schemas, none, visits, depth)->0.unknown;
    let before = walk_all(schemas, none, front, depth)->0.unknown;
    assert(none + last.suffix =~= last.suffix + none);
    walk_moves(schemas, last.suffix, none, last.schema, last.data, depth);
    let here = walk(schemas, none, last.schema, last.data, depth)->0.unknown;
    assert(all == before + here);
    let k = choose|k: int| 0 <= k < all.len() && all[k] == name;
    if k < before.len() {
        assert(before[k] == name);
        let j = visit_that_tells(schemas, front, depth, name);
        assert(front[j] == visits[j]);
        j
    } else {
        assert(here[k - before.len()] == name);
        sub_walk_is_findings(schemas, last.schema, last.data, depth);
        n
    }
}

/// Whether the schema for an entry tells the keyword: that of the property of
/// its name, or else the one for entries that no property names.
pub open spec fn entry_tells(
    schemas: Seq<(Seq<char>, JsonSchema)>,
    schema: JsonSchema,
    key: Seq<char>,
    value: Json,
    name: Seq<char>,
) -> bool {
    ||| exists|i: int|
        0 <= i < schema.properties@.len() && (#[trigger] schema.properties@[i]).0@ == key
            && findings(schemas, *schema.properties@[i].1, value).unknown.contains(name)
    ||| {
        &&& forall|i: int|
            0 <= i < schema.properties@.len() ==> (#[trigger] schema.properties@[i]).0@ != key
        &&& schema.additional_properties matches Some(rule) && (
        *rule matches AdditionalProperties::Schema(other) && findings(
            schemas,
            *other,
            value,
        ).unknown.contains(name))
    }
}

/// An object tells the unknown keywords of its own node and those that its
/// entries tell, and no others.
pub proof fn object_tells_what_its_entries_tell(
    schemas: Seq<(Seq<char>, JsonSchema)>,
    schema: JsonSchema,
    entries: Seq<(Seq<char>, Json)>,
    name: Seq<char>,
)
    requires
        walk_ends(schemas, schema, Json::Object(entries)),
        plain_node(schema, "object"@),
        distinct_keys(entries),
    ensures
        findings(schemas, schema, Json::Object(entries)).unknown.contains(name) <==> {
            ||| starts_with(name, "x-wecom-"@) && exists|i: int|
                0 <= i < schema.extra@.len() && (#[trigger] schema.extra@[i]).0@ == name
            ||| exists|k: int|
                0 <= k < entries.len() && entry_tells(
                    schemas,
                    schema,
                    (#[trigger] entries[k]).0,
                    entries[k].1,
                    name,
                )
        },
{
    type_names_differ();
    let data = Json::Object(entries);
    let depth = found_by_node(schemas, schema, data);
    let n = schema.properties@.len() as int;
    let m = entries.len() as int;
    let a = property_visits(schema, entries, n);
    let b = additional_visits(schema, entries, m);
    let visits = a + b;
    assert(child_visits(schema, data) == visits);
    let own = unknown_names(schema.extra@, schema.extra@.len() as int);
    let c = walk_all(schemas, Seq::empty(), visits, depth)->0.unknown;
    let whole = findings(schemas, schema, data).unknown;
    assert(whole == own + c);
    unknown_names_are(schema.extra@, schema.extra@.len() as int, name);
    contains_of_join(own, c, name);
    if c.contains(name) {
        let j = visit_that_tells(schemas, visits, depth, name);
        if j < a.len() {
            let i = property_of_visit(schema, entries, n, j);
            assert(visits[j] == a[j]);
            let key = schema.properties@[i].0@;
            entry_under_is_first(entries, key);
            entry_index_key(entries, key);
            let k = entry_index(entries, key) as int;
            assert(schema.properties@[i].0@ == entries[k].0);
            assert(entry_tells(schemas, schema, entries[k].0, entries[k].1, name));
        } else {
            let k = entry_of_visit(schema, entries, m, j - a.len());
            assert(visits[j] == b[j - a.len()]);
            assert forall|i: int| 0 <= i < schema.properties@.len() implies (
            #[trigger] schema.properties@[i]).0@ != entries[k].0 by {}
            assert(entry_tells(schemas, schema, entries[k].0, entries[k].1, name));
        }
    }
    if exists|k: int|
        0 <= k < entries.len() && entry_tells(
            schemas,
            schema,
            (#[trigger] entries[k]).0,
            entries[k].1,
            name,
        ) {
        let k = choose|k: int|
            0 <= k < entries.len() && entry_tells(
                schemas,
                schema,
                (#[trigger] entries[k]).0,
                entries[k].1,
                name,
            );
        let key = entries[k].0;
        if names_property(schema, key) {
            let i = choose|i: int|
                0 <= i < schema.properties@.len() && (#[trigger] schema.properties@[i]).0@ == key
                    && findings(
                    schemas,
                    *schema.properties@[i].1,
                    entries[k].1,
                ).unknown.contains(name);
            key_names_its_entry(entries, k);
            entry_under_is_first(entries, key);
            let j = visit_of_property(schema, entries, n, i);
            assert(visits[j] == a[j]);
            risen_from_visit(schemas, visits, depth, j, name);
        } else {
            let j = visit_of_entry(schema, entries, m, k);
            assert(visits[a.len() + j] == b[j]);
            risen_from_visit(schemas, visits, depth, a.len() + j, name);
        }
    }
}

proof fn contains_of_join(a: Seq<Seq<char>>, b: Seq<Seq<char>>, name: Seq<char>)
    ensures
        (a + b).contains(name) <==> a.contains(name) || b.contains(name),
{
    if a.contains(name) {
        let k = choose|k: int| 0 <= k < a.len() && a[k] == name;
        assert((a + b)[k] == name);
    }
    if b.contains(name) {
        let k = choose|k: int| 0 <= k < b.len() && b[k] == name;
        assert((a + b)[a.len() + k] == name);
    }
    if (a + b).contains(name) {
        let k = choose|k: int| 0 <= k < (a + b).len() && (a + b)[k] == name;
        if k < a.len() {
            assert(a[k] == name);
        } else {
            assert(b[k - a.len()] == name);
        }
    }
}

/// An array tells the unknown keywords of its own node and those that the
/// schema of its items tells of an element, and no others.
pub proof fn array_tells_what_its_elements_tell(
    schemas: Seq<(Seq<char>, JsonSchema)>,
    schema: JsonSchema,
    elements: Seq<Json>,
    name: Seq<char>,
)
    requires
        walk_ends(schemas, schema, Json::Array(elements)),
        plain_node(schema, "array"@),
        schema.items is Some,
    ensures
        findings(schemas, schema, Json::Array(elements)).unknown.contains(name) <==> {
            ||| starts_with(name, "x-wecom-"@) && exists|i: int|
                0 <= i < schema.extra@.len() && (#[trigger] schema.extra@[i]).0@ == name
            ||| exists|k: int|
                0 <= k < elements.len() && findings(
                    schemas,
                    *schema.items->0,
                    #[trigger] elements[k],
                ).unknown.contains(name)
        },
{
    type_names_differ();
    let data = Json::Array(elements);
    let depth = found_by_node(schemas, schema, data);
    let visits = item_visits(schema, elements);
    assert(child_visits(schema, data) == visits);
    let own = unknown_names(schema.extra@, schema.extra@.len() as int);
    let c = walk_all(schemas, Seq::empty(), visits, depth)->0.unknown;
    assert(findings(schemas, schema, data).unknown == own + c);
    unknown_names_are(schema.extra@, schema.extra@.len() as int, name);
    contains_of_join(own, c, name);
    if c.contains(name) {
        let j = visit_that_tells(schemas, visits, depth, name);
        assert(findings(schemas, *schema.items->0, elements[j]).unknown.contains(name));
    }
    if exists|k: int|
        0 <= k < elements.len() && findings(
            schemas,
            *schema.items->0,
            #[trigger] elements[k],
        ).unknown.contains(name) {
        let k = choose|k: int|
            0 <= k < elements.len() && findings(
                schemas,
                *schema.items->0,
                #[trigger] elements[k],
            ).unknown.contains(name);
        risen_from_visit(schemas, visits, depth, k, name);
    }
}

/// A node with a reference tells besides what the schema that it refers to
/// tells of the same value.
pub proof fn reference_tells_too(
    schemas: Seq<(Seq<char>, JsonSchema)>,
    schema: JsonSchema,
    data: Json,
    name: Seq<char>,
)
    requires
        walk_ends(schemas, schema, data),
        schema.schema_ref is Some,
        !stands_for_its_value(schema, data),
    ensures
        walk_ends(schemas, without_ref(schema), data),
        findings(schemas, schema, data).unknown.contains(name) <==> {
            ||| findings(schemas, without_ref(schema), data).unknown.contains(name)
            ||| named_schema(schemas, schema.schema_ref->0@) matches Some(target) && findings(
                schemas,
                target,
                data,
            ).unknown.contains(name)
        },
{
    reference_is_followed(schemas, schema, data);
    assert forall|value: Json, t: Seq<char>| is_of_type(value, t) <==> #[trigger] type_matches(
        value,
        t,
    ) by {
        type_names_differ();
    }
    let none = Seq::<Segment>::empty();
    let d = choose|d: nat| walk(schemas, none, schema, data, d) is Some;
    let below = (d - 1) as nat;
    let bare = without_ref(schema);
    assert(child_visits(bare, data) == child_visits(schema, data)) by {
        if let Json::Object(entries) = data {
            bare_properties(schema, entries, schema.properties@.len() as int);
            bare_additional(schema, entries, entries.len() as int);
        }
    }
    assert(ref_visits(schemas, bare, data) =~= Seq::empty());
    assert(walk(schemas, none, bare, data, d) is Some);
    sub_walk_is_findings(schemas, bare, data, d);
    let own = unknown_names(schema.extra@, schema.extra@.len() as int);
    let c = walk_all(schemas, none, child_visits(schema, data), below)->0.unknown;
    let r = walk_all(schemas, none, ref_visits(schemas, schema, data), below)->0.unknown;
    assert(findings(schemas, schema, data).unknown == own + r + c);
    assert(findings(schemas, bare, data).unknown =~= own + c);
    contains_of_join(own + r, c, name);
    contains_of_join(own, r, name);
    contains_of_join(own, c, name);
    if let Some(target) = named_schema(schemas, schema.schema_ref->0@) {
        let visit = Visit { suffix: none, schema: target, data };
        one_visit(schemas, none, visit, below);
        assert(none + none =~= none);
        sub_walk_is_findings(schemas, target, data, below);
    }
}

} // verus!
