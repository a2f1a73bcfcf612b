//! Saving values of a response to files of their own.
use base64::Engine;
use vstd::prelude::*;
use vstd::utf8::encode_utf8;

use super::types::{Action, Directive};
use crate::error::{Error, Payload};
use crate::fs::sanitize::{sanitize_filename, sanitized};
use crate::json::{
    distinct_keys, entries_of, object_view, path_view, valid, Json, PathSegment, Segment, Value,
};
use crate::json_path::{
    entry_index, entry_index_key, find_key, get_after_set, get_value_deep, json_get, json_set,
    key_names_its_entry, set_nowhere, set_value_deep,
};
use crate::schema::FileSaveOptions;
use crate::text::{optional_str, optional_text, same_text};

verus! {

/// What decoding a text in the standard base64 alphabet, with padding, gives:
/// the bytes, or the description of what is wrong with the text.
pub uninterp spec fn base64_decoding(text: Seq<char>) -> Result<Seq<u8>, Seq<char>>;

/// `base64::engine::general_purpose::STANDARD.decode`, with its error as text.
#[verifier::external_body]
fn decode_base64(text: &str) -> (r: Result<Vec<u8>, String>)
    ensures
        r is Ok <==> base64_decoding(text@) is Ok,
        r matches Ok(bytes) ==> bytes@ == base64_decoding(text@)->Ok_0,
        r matches Err(reason) ==> reason@ == base64_decoding(text@)->Err_0,
{
    base64::engine::general_purpose::STANDARD.decode(text).map_err(|e| format!("{e:#}"))
}

/// What is made of the outcome of a decoding: the bytes, or the error for it.
pub fn decoded_or_error(outcome: Result<Vec<u8>, String>) -> (r: Result<Vec<u8>, Error>)
    ensures
        match outcome {
            Ok(bytes) => r matches Ok(b) && b@ == bytes@,
            Err(reason) => r matches Err(e) && (e matches Error::Wrapped(Payload::Other(message))
                && message@ == "Decode base64 failed: "@ + reason@),
        },
{
    match outcome {
        Ok(bytes) => Ok(bytes),
        Err(reason) => {
            let mut message: String = "Decode base64 failed: ".to_owned();
            message.append(reason.as_str());
            Err(Error::Wrapped(Payload::Other(message)))
        },
    }
}

/// Whether the encoding is base64; every other one leaves the text as it is.
pub open spec fn is_base64(encoding: Option<Seq<char>>) -> bool {
    encoding == Some("base64"@)
}

/// The bytes of a file's content: what the base64 stands for, or the text
/// itself where it is not marked as base64.
pub fn decode_content(content_str: &str, content_encoding: Option<&str>) -> (r: Result<
    Vec<u8>,
    Error,
>)
    ensures
        !is_base64(optional_str(content_encoding)) ==> (r matches Ok(bytes) && bytes@
            == encode_utf8(content_str@)),
        is_base64(optional_str(content_encoding)) ==> match base64_decoding(content_str@) {
            Ok(decoded) => r matches Ok(bytes) && bytes@ == decoded,
            Err(reason) => r matches Err(e) && (e matches Error::Wrapped(Payload::Other(message))
                && message@ == "Decode base64 failed: "@ + reason),
        },
{
    let base64: bool = match content_encoding {
        Some(encoding) => same_text(encoding, "base64"),
        None => false,
    };
    if !base64 {
        return Ok(content_str.as_bytes_vec());
    }
    decoded_or_error(decode_base64(content_str))
}

/// A field of an object that holds a text or nothing.
#[verifier::ext_equal]
pub enum TextField {
    Absent,
    Text(Seq<char>),
    Wrong,
}

/// The text in a field: `null` is as good as absent, and anything but a text
/// is wrong.
pub open spec fn text_field(entries: Seq<(Seq<char>, Json)>, key: Seq<char>) -> TextField {
    let i = entry_index(entries, key) as int;
    if i >= entries.len() {
        TextField::Absent
    } else {
        match entries[i].1 {
            Json::Null => TextField::Absent,
            Json::String(text) => TextField::Text(text),
            _ => TextField::Wrong,
        }
    }
}

/// What a value asks to be saved.
#[verifier::ext_equal]
pub enum SaveRequest {
    /// A content, and what of the schema's settings it overrides.
    File {
        content: Seq<char>,
        content_encoding: Option<Seq<char>>,
        file_name: Option<Seq<char>>,
    },
    /// An object that does not describe a file.
    InvalidObject,
    /// Neither a text nor an object.
    InvalidType,
}

/// The text of a field that is not wrong.
pub open spec fn field_text(field: TextField) -> Option<Seq<char>> {
    match field {
        TextField::Text(text) => Some(text),
        _ => None,
    }
}

/// What a value asks to be saved: a text is the content itself, an object
/// gives the content and overrides settings.
pub open spec fn save_request(value: Json) -> SaveRequest {
    match value {
        Json::Object(entries) => {
            let name = text_field(entries, "file_name"@);
            let content = text_field(entries, "content"@);
            let encoding = text_field(entries, "content_encoding"@);
            if content is Text && name !is Wrong && encoding !is Wrong {
                SaveRequest::File {
                    content: content->Text_0,
                    content_encoding: field_text(encoding),
                    file_name: field_text(name),
                }
            } else {
                SaveRequest::InvalidObject
            }
        },
        Json::String(text) => SaveRequest::File {
            content: text,
            content_encoding: None,
            file_name: None,
        },
        _ => SaveRequest::InvalidType,
    }
}

/// What to do for a save directive.
#[derive(Debug)]
pub enum SavePlan {
    /// Nothing: there is no value, or the directive is another one.
    Nothing,
    /// Nothing but a report of an object that does not describe a file.
    InvalidObject,
    /// Nothing but a report of a value of a wrong type.
    InvalidType,
    /// Save the content, decoded as the encoding says, under the safe name; a
    /// file without a name gets a random one.
    File { content: String, content_encoding: Option<String>, file_name: Option<String> },
}

/// What a plan stands for.
#[verifier::ext_equal]
pub enum Plan {
    Nothing,
    InvalidObject,
    InvalidType,
    File {
        content: Seq<char>,
        content_encoding: Option<Seq<char>>,
        file_name: Option<Seq<char>>,
    },
}

impl View for SavePlan {
    type V = Plan;

    open spec fn view(&self) -> Plan {
        match *self {
            SavePlan::Nothing => Plan::Nothing,
            SavePlan::InvalidObject => Plan::InvalidObject,
            SavePlan::InvalidType => Plan::InvalidType,
            SavePlan::File { content, content_encoding, file_name } => Plan::File {
                content: content@,
                content_encoding: optional_text(content_encoding),
                file_name: optional_text(file_name),
            },
        }
    }
}

/// What is given, or else what stands in for it.
pub open spec fn first_of(given: Option<Seq<char>>, fallback: Option<Seq<char>>) -> Option<
    Seq<char>,
> {
    match given {
        Some(text) => Some(text),
        None => fallback,
    }
}

/// What to do for an action on a response: where a value asks to be saved, its
/// own settings go before the schema's, and the name is made safe.
pub open spec fn plan_for(data: Json, action: Action, windows: bool) -> Plan {
    match action {
        Action::Save { path, options } => match json_get(data, path) {
            Some(value) => match save_request(value) {
                SaveRequest::File { content, content_encoding, file_name } => Plan::File {
                    content,
                    content_encoding: first_of(
                        content_encoding,
                        optional_text(options.content_encoding),
                    ),
                    file_name: match first_of(file_name, optional_text(options.file_name)) {
                        Some(name) => Some(sanitized(name, windows)),
                        None => None,
                    },
                },
                SaveRequest::InvalidObject => Plan::InvalidObject,
                SaveRequest::InvalidType => Plan::InvalidType,
            },
            None => Plan::Nothing,
        },
        _ => Plan::Nothing,
    }
}

/// A text field as it was read.
enum ReadField<'a> {
    Absent,
    Text(&'a String),
    Wrong,
}

/// What a field that was read stands for.
spec fn read_view(field: ReadField<'_>) -> TextField {
    match field {
        ReadField::Absent => TextField::Absent,
        ReadField::Text(text) => TextField::Text(text@),
        ReadField::Wrong => TextField::Wrong,
    }
}

fn read_field<'a>(entries: &'a Vec<(String, Value)>, key: &str) -> (r: ReadField<'a>)
    ensures
        read_view(r) == text_field(entries_of(entries@), key@),
{
    let i: usize = find_key(entries, key);
    if i < entries.len() {
        match &entries[i].1 {
            Value::Null => ReadField::Absent,
            Value::String(text) => ReadField::Text(text),
            _ => ReadField::Wrong,
        }
    } else {
        ReadField::Absent
    }
}

/// The owned text of a field, or else a copy of what stands in for it.
fn text_or(field: &ReadField<'_>, fallback: &Option<String>) -> (r: Option<String>)
    ensures
        optional_text(r) == first_of(field_text(read_view(*field)), optional_text(*fallback)),
{
    match field {
        ReadField::Text(text) => Some((*text).clone()),
        _ => match fallback {
            Some(text) => Some(text.clone()),
            None => None,
        },
    }
}

/// The safe name for a name.
fn safe_optional(name: Option<String>, windows: bool) -> (r: Option<String>)
    ensures
        optional_text(r) == (match optional_text(name) {
            Some(text) => Some(sanitized(text, windows)),
            None => None::<Seq<char>>,
        }),
{
    match name {
        Some(text) => Some(sanitize_filename(text.as_str(), windows)),
        None => None,
    }
}

/// Decides what to save for a directive on a response.
pub fn plan_file_save(data: &Value, directive: &Directive<'_>, windows: bool) -> (r: SavePlan)
    ensures
        r@ == plan_for(data@, directive@, windows),
{
    let (path, options): (&Vec<PathSegment>, &FileSaveOptions) = match directive {
        Directive::Save { path, options } => (path, options),
        _ => {
            return SavePlan::Nothing;
        },
    };
    let value: &Value = match get_value_deep(data, path) {
        Some(value) => value,
        None => {
            return SavePlan::Nothing;
        },
    };
    match value {
        Value::Object(entries) => {
            proof {
                object_view(*entries);
            }
            let name = read_field(entries, "file_name");
            let content = read_field(entries, "content");
            let encoding = read_field(entries, "content_encoding");
            match (&name, &content, &encoding) {
                (ReadField::Wrong, _, _) => SavePlan::InvalidObject,
                (_, _, ReadField::Wrong) => SavePlan::InvalidObject,
                (_, ReadField::Text(text), _) => SavePlan::File {
                    content: (*text).clone(),
                    content_encoding: text_or(&encoding, &options.content_encoding),
                    file_name: safe_optional(text_or(&name, &options.file_name), windows),
                },
                _ => SavePlan::InvalidObject,
            }
        },
        Value::String(text) => SavePlan::File {
            content: text.clone(),
            content_encoding: text_or(&ReadField::Absent, &options.content_encoding),
            file_name: safe_optional(text_or(&ReadField::Absent, &options.file_name), windows),
        },
        _ => SavePlan::InvalidType,
    }
}

/// Puts the path of the saved file in the place of the value.
pub fn record_saved_file(data: &mut Value, path: &[PathSegment], output_path: &str)
    ensures
        final(data)@ == json_set(old(data)@, path_view(path@), Json::String(output_path@)),
        valid(old(data)@) ==> valid(final(data)@),
        json_get(old(data)@, path_view(path@)) is Some ==> json_get(
            final(data)@,
            path_view(path@),
        ) == Some(Json::String(output_path@)),
        json_get(old(data)@, path_view(path@)) is None ==> final(data)@ == old(data)@,
{
    proof {
        let saved = Json::String(output_path@);
        if json_get(data@, path_view(path@)) is Some {
            get_after_set(data@, path_view(path@), saved);
        } else {
            set_nowhere(data@, path_view(path@), saved);
        }
    }
    set_value_deep(data, path, Value::String(output_path.to_owned()))
}

/// What a payload says itself goes before what the schema says.
pub proof fn payload_overrides_schema(
    data: Json,
    action: Action,
    windows: bool,
    name: Seq<char>,
    encoding: Seq<char>,
)
    requires
        action is Save,
        json_get(data, action->Save_path) is Some,
        save_request(json_get(data, action->Save_path)->0) is File,
        save_request(json_get(data, action->Save_path)->0)->file_name == Some(name),
        save_request(json_get(data, action->Save_path)->0)->content_encoding == Some(encoding),
    ensures
        plan_for(data, action, windows) is File,
        plan_for(data, action, windows)->file_name == Some(sanitized(name, windows)),
        plan_for(data, action, windows)->content_encoding == Some(encoding),
{
}

/// Whether the entries hold the value under the key.
pub open spec fn holds(entries: Seq<(Seq<char>, Json)>, key: Seq<char>, value: Json) -> bool {
    exists|i: int|
        0 <= i < entries.len() && (#[trigger] entries[i]).0 == key && entries[i].1 == value
}

/// Whether nothing stands under the key, or `null`.
pub open spec fn leaves_open(entries: Seq<(Seq<char>, Json)>, key: Seq<char>) -> bool {
    forall|i: int|
        0 <= i < entries.len() && (#[trigger] entries[i]).0 == key ==> entries[i].1 is Null
}

proof fn field_by_entry(entries: Seq<(Seq<char>, Json)>, key: Seq<char>)
    requires
        distinct_keys(entries),
    ensures
        forall|text: Seq<char>| #[trigger]
            holds(entries, key, Json::String(text)) <==> text_field(entries, key)
                == TextField::Text(text),
        leaves_open(entries, key) <==> text_field(entries, key) is Absent,
{
    entry_index_key(entries, key);
    let k = entry_index(entries, key) as int;
    assert forall|i: int| 0 <= i < entries.len() && (#[trigger] entries[i]).0 == key implies i
        == k by {
        key_names_its_entry(entries, i);
    }
    if k < entries.len() {
        assert(entries[k].0 == key);
    }
}

/// A text is saved as it stands, as the schema says it is encoded and under the
/// schema's name.
pub proof fn text_is_saved_by_the_schema(
    data: Json,
    path: Seq<Segment>,
    options: FileSaveOptions,
    text: Seq<char>,
    windows: bool,
)
    requires
        json_get(data, path) == Some(Json::String(text)),
    ensures
        plan_for(data, Action::Save { path, options }, windows) matches Plan::File {
            content,
            content_encoding,
            file_name,
        } && content == text && content_encoding == optional_text(options.content_encoding) && (
        options.file_name matches Some(name) ==> file_name == Some(sanitized(name@, windows))) && (
        options.file_name is None ==> file_name is None),
{
}

/// An object that describes a file is saved with the content that it gives. Its
/// encoding goes before the schema's, and so does its name; where it gives none,
/// or `null`, the schema's holds. The one does not depend on the other.
pub proof fn object_is_saved_field_by_field(
    data: Json,
    path: Seq<Segment>,
    options: FileSaveOptions,
    entries: Seq<(Seq<char>, Json)>,
    text: Seq<char>,
    encoding: Option<Seq<char>>,
    name: Option<Seq<char>>,
    windows: bool,
)
    requires
        json_get(data, path) == Some(Json::Object(entries)),
        distinct_keys(entries),
        holds(entries, "content"@, Json::String(text)),
        encoding is None ==> leaves_open(entries, "content_encoding"@),
        encoding is Some ==> holds(entries, "content_encoding"@, Json::String(encoding->0)),
        name is None ==> leaves_open(entries, "file_name"@),
        name is Some ==> holds(entries, "file_name"@, Json::String(name->0)),
    ensures
        plan_for(data, Action::Save { path, options }, windows) matches Plan::File {
            content,
            content_encoding,
            file_name,
        } && {
            &&& content == text
            &&& encoding is Some ==> content_encoding == encoding
            &&& encoding is None ==> content_encoding == optional_text(options.content_encoding)
            &&& name is Some ==> file_name == Some(sanitized(name->0, windows))
            &&& name is None && options.file_name is Some ==> file_name == Some(
                sanitized(options.file_name->0@, windows),
            )
            &&& name is None && options.file_name is None ==> file_name is None
        },
{
    field_by_entry(entries, "content"@);
    field_by_entry(entries, "content_encoding"@);
    field_by_entry(entries, "file_name"@);
    if encoding is Some {
        assert(holds(entries, "content_encoding"@, Json::String(encoding->0)));
    }
    if name is Some {
        assert(holds(entries, "file_name"@, Json::String(name->0)));
    }
}

/// An object without a text as its content, or with anything but a text where
/// its encoding or its name stands, is reported and not saved.
pub proof fn object_without_a_file_is_reported(
    data: Json,
    path: Seq<Segment>,
    options: FileSaveOptions,
    entries: Seq<(Seq<char>, Json)>,
    windows: bool,
)
    requires
        json_get(data, path) == Some(Json::Object(entries)),
        distinct_keys(entries),
        ({
            ||| forall|text: Seq<char>| !holds(entries, "content"@, Json::String(text))
            ||| !leaves_open(entries, "content_encoding"@) && forall|text: Seq<char>|
                !holds(entries, "content_encoding"@, Json::String(text))
            ||| !leaves_open(entries, "file_name"@) && forall|text: Seq<char>|
                !holds(entries, "file_name"@, Json::String(text))
        }),
    ensures
        plan_for(data, Action::Save { path, options }, windows) is InvalidObject,
{
    field_by_entry(entries, "content"@);
    field_by_entry(entries, "content_encoding"@);
    field_by_entry(entries, "file_name"@);
    let fields = (
        text_field(entries, "content"@),
        text_field(entries, "content_encoding"@),
        text_field(entries, "file_name"@),
    );
    if fields.0 is Text {
        assert(holds(entries, "content"@, Json::String(fields.0->Text_0)));
    }
    if fields.1 is Text {
        assert(holds(entries, "content_encoding"@, Json::String(fields.1->Text_0)));
    }
    if fields.2 is Text {
        assert(holds(entries, "file_name"@, Json::String(fields.2->Text_0)));
    }
}

/// Where nothing stands, nothing is saved; numbers, arrays and the like are
/// reported; and no other directive saves anything.
pub proof fn nothing_else_is_saved(data: Json, action: Action, windows: bool)
    ensures
        action !is Save ==> plan_for(data, action, windows) is Nothing,
        action is Save && json_get(data, action->Save_path) is None ==> plan_for(
            data,
            action,
            windows,
        ) is Nothing,
        action is Save && (json_get(data, action->Save_path) matches Some(value) && value !is String
            && value !is Object) ==> plan_for(data, action, windows) is InvalidType,
{
}

/// Base64 is the one encoding that is decoded.
pub proof fn only_base64_is_decoded(encoding: Option<Seq<char>>)
    ensures
        is_base64(encoding) <==> (encoding matches Some(name) && name =~= seq![
            'b',
            'a',
            's',
            'e',
            '6',
            '4',
        ]),
{
    reveal_strlit("base64");
    assert("base64"@ =~= seq!['b', 'a', 's', 'e', '6', '4']);
}

} // verus!
