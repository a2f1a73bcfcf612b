//! JSON Schema nodes with the `x-wecom-*` directives.
use std::sync::Arc;

use vstd::prelude::*;

use crate::json::{distinct_keys, entries_of, valid, Value};

verus! {

/// Options of `x-wecom-file-save`.
#[derive(Debug)]
pub struct FileSaveOptions {
    pub file_name: Option<String>,
    pub content_encoding: Option<String>,
}

/// Options of `x-wecom-file-upload`.
#[derive(Debug)]
pub struct UploadMediaOptions {
    pub with_file_path: bool,
}

impl UploadMediaOptions {
    /// Whether the replacement value also carries the file's path.
    pub fn with_file_path(&self) -> (r: bool)
        ensures
            r == self.with_file_path,
    {
        self.with_file_path
    }
}

impl Default for UploadMediaOptions {
    fn default() -> (r: Self)
        ensures
            !r.with_file_path,
    {
        UploadMediaOptions { with_file_path: false }
    }
}

/// The value of a directive that is only ever switched on.
#[derive(Debug, Clone, Copy, PartialEq, Eq, Structural)]
pub struct WecomBoolValue;

impl Default for WecomBoolValue {
    fn default() -> (r: Self)
        ensures
            r == WecomBoolValue,
    {
        WecomBoolValue
    }
}

/// The `x-wecom-*` directives of one schema node.
#[derive(Debug)]
pub struct JsonSchemaWecomDirectives {
    pub upload_media: Option<UploadMediaOptions>,
    pub octet_stream: Option<WecomBoolValue>,
    pub file_save: Option<FileSaveOptions>,
}

impl Default for JsonSchemaWecomDirectives {
    fn default() -> (r: Self)
        ensures
            r.upload_media is None,
            r.octet_stream is None,
            r.file_save is None,
    {
        JsonSchemaWecomDirectives { upload_media: None, octet_stream: None, file_save: None }
    }
}

/// The schema's rule on properties that it does not name.
#[derive(Debug)]
pub enum AdditionalProperties {
    Bool(bool),
    Schema(Arc<JsonSchema>),
}

/// One node of a schema. The keys of `properties` keep their order; `extra`
/// holds the keywords that no other field takes. In a [`valid_schema`] the keys
/// of both are distinct. The properties are a list: through a map that Verus
/// cannot look into, no recursion over a schema could be shown to end.
#[derive(Debug)]
pub struct JsonSchema {
    pub schema_ref: Option<String>,
    pub schema_type: Option<String>,
    pub one_of: Vec<JsonSchema>,
    pub enum_values: Vec<Value>,
    pub properties: Vec<(String, Arc<JsonSchema>)>,
    pub items: Option<Arc<JsonSchema>>,
    pub additional_properties: Option<Box<AdditionalProperties>>,
    pub directives: JsonSchemaWecomDirectives,
    pub extra: Vec<(String, Value)>,
}

/// The properties of a schema by their names.
pub open spec fn properties_of(properties: Seq<(String, Arc<JsonSchema>)>) -> Seq<
    (Seq<char>, JsonSchema),
> {
    Seq::new(properties.len(), |i: int| (properties[i].0@, *properties[i].1))
}

/// Whether the properties and the further keywords of the schema, and of every
/// schema in it, have distinct names, and the values in it are valid.
pub open spec fn valid_schema(schema: JsonSchema) -> bool
    decreases schema,
{
    &&& distinct_keys(properties_of(schema.properties@))
    &&& distinct_keys(entries_of(schema.extra@))
    &&& forall|i: int| 0 <= i < schema.extra@.len() ==> valid((#[trigger] schema.extra@[i]).1@)
    &&& forall|i: int|
        0 <= i < schema.enum_values@.len() ==> valid((#[trigger] schema.enum_values@[i])@)
    &&& forall|i: int| 0 <= i < schema.one_of@.len() ==> valid_schema(#[trigger] schema.one_of@[i])
    &&& forall|i: int|
        0 <= i < schema.properties@.len() ==> valid_schema(*(#[trigger] schema.properties@[i]).1)
    &&& schema.items matches Some(items) ==> valid_schema(*items)
    &&& schema.additional_properties matches Some(rule) ==> match *rule {
        AdditionalProperties::Schema(s) => valid_schema(*s),
        AdditionalProperties::Bool(_) => true,
    }
}

impl Default for JsonSchema {
    fn default() -> (r: Self)
        ensures
            valid_schema(r),
            r.schema_ref is None,
            r.schema_type is None,
            r.one_of@.len() == 0,
            r.enum_values@.len() == 0,
            r.properties@.len() == 0,
            r.items is None,
            r.additional_properties is None,
            r.directives.upload_media is None,
            r.directives.octet_stream is None,
            r.directives.file_save is None,
            r.extra@.len() == 0,
    {
        JsonSchema {
            schema_ref: None,
            schema_type: None,
            one_of: Vec::new(),
            enum_values: Vec::new(),
            properties: Vec::new(),
            items: None,
            additional_properties: None,
            directives: JsonSchemaWecomDirectives::default(),
            extra: Vec::new(),
        }
    }
}

/// What a table of named schemas holds, in insertion order.
pub uninterp spec fn schema_entries(
    table: indexmap::IndexMap<String, JsonSchema>,
) -> Seq<(Seq<char>, JsonSchema)>;

#[verifier::external_type_specification]
#[verifier::external_body]
#[verifier::reject_recursive_types(K)]
#[verifier::reject_recursive_types(V)]
#[verifier::reject_recursive_types(S)]
pub struct ExIndexMap<K, V, S>(indexmap::IndexMap<K, V, S>);

/// The schema under `name`, where the entries hold one.
pub open spec fn named_schema(
    entries: Seq<(Seq<char>, JsonSchema)>,
    name: Seq<char>,
) -> Option<JsonSchema>
    decreases entries.len(),
{
    if entries.len() == 0 {
        None
    } else if entries[0].0 == name {
        Some(entries[0].1)
    } else {
        named_schema(entries.drop_first(), name)
    }
}

/// `IndexMap::get`: the value stored under the key, if the map holds the key.
/// No two entries of an `IndexMap` share a key, so the first entry with the
/// key is the only one.
#[verifier::external_body]
pub(crate) fn find_schema<'a>(
    table: &'a indexmap::IndexMap<String, JsonSchema>,
    name: &str,
) -> (r: Option<&'a JsonSchema>)
    ensures
        r is Some <==> named_schema(schema_entries(*table), name@) is Some,
        r is Some ==> *r->0 == named_schema(schema_entries(*table), name@)->0,
{
    table.get(name)
}

} // verus!
