//! Uploading media.
use vstd::prelude::*;

use crate::directive::octet_stream::{FormPart, PartModel};
use crate::error::{Error, Payload};
use crate::json::{entries_of, object_view, valid, Json, Segment, Value};
use crate::json_path::{entry_index, entry_index_key, find_key, json_get};
use crate::text::starts_with;

verus! {

/// The server's answer to an upload.
#[derive(Debug)]
pub struct UploadMediaResponse {
    /// The id of the media.
    pub media_id: String,
    /// Whatever else the server says.
    pub extra: Vec<(String, Value)>,
}

/// Whether the parts are those of the form for an upload: the file, and its
/// type.
pub open spec fn upload_parts(form: Seq<FormPart>, file_path: Seq<char>) -> bool {
    &&& form.len() == 2
    &&& form[0]@ == PartModel::File { name: "media"@, file_path }
    &&& form[1]@ == PartModel::Text { name: "type"@, value: "file"@ }
}

/// The form for an upload.
pub fn upload_form(file_path: &str) -> (r: Vec<FormPart>)
    ensures
        upload_parts(r@, file_path@),
{
    vec![
        FormPart::File { name: "media".to_owned(), file_path: file_path.to_owned() },
        FormPart::Text { name: "type".to_owned(), value: "file".to_owned() },
    ]
}

/// Where the id of the media stands in an answer: the entries of the object,
/// and the position of the id among them, if it is a text.
pub open spec fn media_id_at(answer: Json) -> Option<(Seq<(Seq<char>, Json)>, int)> {
    match answer {
        Json::Object(entries) => {
            let i = entry_index(entries, "media_id"@) as int;
            if i < entries.len() && entries[i].1 is String {
                Some((entries, i))
            } else {
                None
            }
        },
        _ => None,
    }
}

/// The message for an answer without the id of the media.
pub open spec fn no_media_id(reason: Seq<char>) -> Seq<char> {
    "Failed to deserialize 'upload_media' response: "@ + reason
}

proof fn removal_keeps_validity(entries: Seq<(Seq<char>, Json)>, i: int)
    requires
        valid(Json::Object(entries)),
        0 <= i < entries.len(),
    ensures
        valid(Json::Object(entries.remove(i))),
{
    let rest = entries.remove(i);
    assert forall|a: int, b: int| 0 <= a < b < rest.len() implies (#[trigger] rest[a]).0 != (
    #[trigger] rest[b]).0 by {
        let c = if a < i {
            a
        } else {
            a + 1
        };
        let d = if b < i {
            b
        } else {
            b + 1
        };
        assert(entries[c].0 != entries[d].0);
    }
    assert forall|a: int| 0 <= a < rest.len() implies valid((#[trigger] rest[a]).1) by {
        let c = if a < i {
            a
        } else {
            a + 1
        };
        assert(valid(entries[c].1));
    }
}

/// Reads the server's answer: it is an object with the id of the media as a
/// text, and everything else in it is kept. `reason` says what is wrong with an
/// answer that is not.
pub fn upload_response(answer: Value, reason: &str) -> (r: Result<UploadMediaResponse, Error>)
    ensures
        match media_id_at(answer@) {
            Some((entries, i)) => {
                r matches Ok(response) && entries[i].1 == Json::String(response.media_id@)
                    && entries_of(response.extra@) == entries.remove(i) && (valid(answer@)
                    ==> valid(Json::Object(entries_of(response.extra@))))
            },
            None => {
                r matches Err(Error::Wrapped(Payload::Parse { message, endpoint, body })) && message@
                    == no_media_id(reason@) && endpoint@ == "utils://upload_media"@ && body
                    == answer
            },
        },
{
    let answer = match answer {
        Value::Object(mut entries) => {
            proof {
                object_view(entries);
            }
            let ghost model = entries_of(entries@);
            let i: usize = find_key(&entries, "media_id");
            if i < entries.len() {
                if let Value::String(_) = &entries[i].1 {
                    let (_, value) = entries.remove(i);
                    assert(entries_of(entries@) =~= model.remove(i as int));
                    proof {
                        if valid(Json::Object(model)) {
                            removal_keeps_validity(model, i as int);
                        }
                    }
                    if let Value::String(media_id) = value {
                        return Ok(UploadMediaResponse { media_id, extra: entries });
                    }
                }
            }
            Value::Object(entries)
        },
        other => other,
    };
    let mut message: String = "Failed to deserialize 'upload_media' response: ".to_owned();
    message.append(reason);
    Err(
        Error::Wrapped(
            Payload::Parse { message, endpoint: "utils://upload_media".to_owned(), body: answer },
        ),
    )
}

/// The id of the media is the text under `media_id`, wherever it stands in the
/// answer; an answer without it, or with something else there, has none, and
/// neither has one that is no object.
pub proof fn id_is_the_text_under_its_key(answer: Json)
    requires
        valid(answer),
    ensures
        ({
            let id = json_get(answer, seq![Segment::Key("media_id"@)]);
            &&& id matches Some(Json::String(text)) ==> (media_id_at(answer) matches Some(
                (entries, i),
            ) && answer == Json::Object(entries) && 0 <= i < entries.len() && entries[i] == (
            "media_id"@,
            Json::String(text),
            ))
            &&& !(id matches Some(value) && value is String) ==> media_id_at(answer) is None
        }),
{
    let path = seq![Segment::Key("media_id"@)];
    assert(path.drop_first() =~= Seq::empty());
    if let Json::Object(entries) = answer {
        entry_index_key(entries, "media_id"@);
        let i = entry_index(entries, "media_id"@) as int;
        if i < entries.len() {
            assert(json_get(entries[i].1, Seq::empty()) == Some(entries[i].1));
        }
    }
}

/// The message for an answer without the id says what is wrong, at its end.
pub proof fn missing_id_is_explained(reason: Seq<char>)
    ensures
        starts_with(no_media_id(reason), "Failed to deserialize 'upload_media' response: "@),
        no_media_id(reason).skip(
            "Failed to deserialize 'upload_media' response: "@.len() as int,
        ) == reason,
{
    let head = "Failed to deserialize 'upload_media' response: "@;
    assert(no_media_id(reason).take(head.len() as int) =~= head);
    assert(no_media_id(reason).skip(head.len() as int) =~= reason);
}

/// The form for an upload has two parts: the file as `media`, and its type.
pub proof fn form_holds_the_file(form: Seq<FormPart>, file_path: Seq<char>)
    requires
        upload_parts(form, file_path),
    ensures
        form.len() == 2,
        form[0]@ matches PartModel::File { name, file_path: path } && name == "media"@ && path
            == file_path,
        form[1]@ matches PartModel::Text { name, value } && name == "type"@ && value == "file"@,
{
}

} // verus!
