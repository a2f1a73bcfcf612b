//! Uploading local files and putting their media ids into the payload.
use vstd::prelude::*;

use super::types::{actions, Action, Directive};
use crate::error::{Error, Payload};
use crate::fs::{check_file_size_limit, over_limit};
use crate::json::{entries_of, object_view, text_value, valid, Json, Segment, Value};
use crate::json_path::{
    get_after_set, json_get, json_set, parts_ways, set_leaves_others, set_nowhere, set_value_deep,
};
use crate::text::{is_among, same_text, texts};

verus! {

/// The files that the first `n` actions upload, each once, in the order in
/// which they first come.
pub open spec fn upload_paths(actions: Seq<Action>, n: int) -> Seq<Seq<char>>
    decreases n,
{
    if n <= 0 {
        Seq::empty()
    } else {
        let before = upload_paths(actions, n - 1);
        match actions[n - 1] {
            Action::UploadMedia { file_path, .. } => if before.contains(file_path) {
                before
            } else {
                before.push(file_path)
            },
            _ => before,
        }
    }
}

/// The files to upload, each once: one file may be named by several
/// directives.
pub fn unique_upload_paths(directives: &[Directive<'_>]) -> (r: Vec<String>)
    ensures
        texts(r@) == upload_paths(actions(directives@), directives@.len() as int),
{
    let ghost all = actions(directives@);
    let mut paths: Vec<String> = Vec::new();
    let mut i: usize = 0;
    assert(texts(paths@) =~= Seq::empty());
    while i < directives.len()
        invariant
            i <= directives@.len(),
            all == actions(directives@),
            texts(paths@) == upload_paths(all, i as int),
        decreases directives@.len() - i,
    {
        assert(all[i as int] == directives@[i as int]@);
        match &directives[i] {
            Directive::UploadMedia { file_path, .. } => {
                if !is_among(&paths, file_path.as_str()) {
                    let ghost before = paths@;
                    paths.push(file_path.clone());
                    assert(texts(paths@) =~= texts(before).push(file_path@));
                }
            },
            _ => {},
        }
        i += 1;
    }
    paths
}

/// No file is uploaded twice, every file that a directive names is uploaded and
/// no other, and a file that is named later comes later.
pub proof fn every_file_uploaded_once(actions: Seq<Action>, n: int)
    requires
        0 <= n <= actions.len(),
    ensures
        upload_paths(actions, n).no_duplicates(),
        forall|i: int|
            0 <= i < n && (#[trigger] actions[i]) is UploadMedia ==> upload_paths(
                actions,
                n,
            ).contains(actions[i]->UploadMedia_file_path),
        forall|k: int|
            0 <= k < upload_paths(actions, n).len() ==> exists|i: int|
                0 <= i < n && (#[trigger] actions[i]) is UploadMedia
                    && actions[i]->UploadMedia_file_path == #[trigger] upload_paths(actions, n)[k],
        n > 0 ==> upload_paths(actions, n - 1).len() <= upload_paths(actions, n).len() && upload_paths(
            actions,
            n,
        ).take(upload_paths(actions, n - 1).len() as int) == upload_paths(actions, n - 1),
    decreases n,
{
    if n > 0 {
        every_file_uploaded_once(actions, n - 1);
        let before = upload_paths(actions, n - 1);
        let after = upload_paths(actions, n);
        assert(after.take(before.len() as int) =~= before);
        assert forall|k: int| 0 <= k < after.len() implies exists|i: int|
            0 <= i < n && (#[trigger] actions[i]) is UploadMedia
                && actions[i]->UploadMedia_file_path == #[trigger] after[k] by {
            if k < before.len() {
                assert(before[k] == after[k]);
                let i = choose|i: int|
                    0 <= i < n - 1 && (#[trigger] actions[i]) is UploadMedia
                        && actions[i]->UploadMedia_file_path == before[k];
                assert(actions[i]->UploadMedia_file_path == after[k]);
            } else {
                assert(actions[n - 1]->UploadMedia_file_path == after[k]);
            }
        }
        assert forall|i: int| 0 <= i < n && (#[trigger] actions[i])
            is UploadMedia implies after.contains(actions[i]->UploadMedia_file_path) by {
            let path = actions[i]->UploadMedia_file_path;
            if i < n - 1 {
                assert(before.contains(path));
                let k = choose|k: int| 0 <= k < before.len() && before[k] == path;
                assert(after[k] == path);
            } else if !before.contains(path) {
                assert(after[before.len() as int] == path);
            }
        }
    }
}

/// Checks the sizes of all files before the first is uploaded: `files` holds
/// the name of each in messages and its size.
pub fn check_upload_sizes(files: &[(String, u64)], max_size: u64, limit_mb: &str) -> (r: Result<
    (),
    Error,
>)
    ensures
        r is Ok <==> forall|i: int| 0 <= i < files@.len() ==> (#[trigger] files@[i]).1 <= max_size,
        r matches Err(e) ==> exists|i: int|
            0 <= i < files@.len() && (#[trigger] files@[i]).1 > max_size && (forall|j: int|
                0 <= j < i ==> (#[trigger] files@[j]).1 <= max_size) && (e matches Error::Wrapped(
                Payload::Validation(message),
            ) && message@ == over_limit(files@[i].0@, limit_mb@)),
{
    let mut i: usize = 0;
    while i < files.len()
        invariant
            i <= files@.len(),
            forall|j: int| 0 <= j < i ==> (#[trigger] files@[j]).1 <= max_size,
        decreases files@.len() - i,
    {
        match check_file_size_limit(files[i].0.as_str(), files[i].1, max_size, limit_mb) {
            Ok(()) => {},
            Err(e) => {
                assert(files@[i as int].1 > max_size);
                return Err(e);
            },
        }
        i += 1;
    }
    Ok(())
}

/// The media id of an uploaded file.
pub open spec fn media_id_of(uploaded: Seq<(String, String)>, path: Seq<char>) -> Option<Seq<char>>
    decreases uploaded.len(),
{
    if uploaded.len() == 0 {
        None
    } else if uploaded[0].0@ == path {
        Some(uploaded[0].1@)
    } else {
        media_id_of(uploaded.drop_first(), path)
    }
}

/// What takes the place of a file's path in the payload: the media id, or with
/// the path beside it where that is asked for.
pub open spec fn replacement(
    media_id: Seq<char>,
    file_path: Seq<char>,
    with_file_path: bool,
) -> Json {
    if with_file_path {
        Json::Object(
            seq![
                ("media_id"@, Json::String(media_id)),
                ("file_path"@, Json::String(file_path)),
            ],
        )
    } else {
        Json::String(media_id)
    }
}

/// The payload after the first `n` actions have put media ids in it.
pub open spec fn with_media(
    data: Json,
    actions: Seq<Action>,
    uploaded: Seq<(String, String)>,
    n: int,
) -> Json
    decreases n,
{
    if n <= 0 {
        data
    } else {
        let before = with_media(data, actions, uploaded, n - 1);
        match actions[n - 1] {
            Action::UploadMedia { path, file_path, with_file_path } => match media_id_of(
                uploaded,
                file_path,
            ) {
                Some(id) => json_set(before, path, replacement(id, file_path, with_file_path)),
                None => before,
            },
            _ => before,
        }
    }
}

fn find_media_id<'a>(uploaded: &'a [(String, String)], path: &str) -> (r: Option<&'a String>)
    ensures
        match (r, media_id_of(uploaded@, path@)) {
            (Some(id), Some(text)) => id@ == text,
            (None, None) => true,
            _ => false,
        },
{
    let mut i: usize = 0;
    assert(uploaded@.skip(0) =~= uploaded@);
    while i < uploaded.len()
        invariant
            i <= uploaded@.len(),
            media_id_of(uploaded@, path@) == media_id_of(uploaded@.skip(i as int), path@),
        decreases uploaded@.len() - i,
    {
        if same_text(uploaded[i].0.as_str(), path) {
            return Some(&uploaded[i].1);
        }
        assert(uploaded@.skip(i as int).drop_first() =~= uploaded@.skip(i + 1));
        i += 1;
    }
    None
}

fn replacement_value(media_id: &str, file_path: &str, with_file_path: bool) -> (r: Value)
    ensures
        r@ == replacement(media_id@, file_path@, with_file_path),
        valid(r@),
{
    proof {
        reveal_with_fuel(valid, 2);
        reveal_strlit("media_id");
        reveal_strlit("file_path");
        assert("media_id"@.len() != "file_path"@.len());
    }
    if with_file_path {
        let entries: Vec<(String, Value)> = vec![
            ("media_id".to_owned(), text_value(media_id)),
            ("file_path".to_owned(), text_value(file_path)),
        ];
        proof {
            object_view(entries);
            assert(entries_of(entries@) =~= seq![
                ("media_id"@, Json::String(media_id@)),
                ("file_path"@, Json::String(file_path@)),
            ]);
        }
        Value::Object(entries)
    } else {
        text_value(media_id)
    }
}

/// Puts the media ids of the uploaded files into the payload. `uploaded` holds
/// the path of each file and its media id.
pub fn apply_media_ids(
    data: &mut Value,
    directives: &[Directive<'_>],
    uploaded: &[(String, String)],
)
    ensures
        final(data)@ == with_media(
            old(data)@,
            actions(directives@),
            uploaded@,
            directives@.len() as int,
        ),
        valid(old(data)@) ==> valid(final(data)@),
{
    let ghost all = actions(directives@);
    let ghost start = data@;
    let mut i: usize = 0;
    while i < directives.len()
        invariant
            i <= directives@.len(),
            all == actions(directives@),
            data@ == with_media(start, all, uploaded@, i as int),
            valid(start) ==> valid(data@),
        decreases directives@.len() - i,
    {
        assert(all[i as int] == directives@[i as int]@);
        match &directives[i] {
            Directive::UploadMedia { path, file_path, with_file_path } => {
                if let Some(id) = find_media_id(uploaded, file_path.as_str()) {
                    let value = replacement_value(
                        id.as_str(),
                        file_path.as_str(),
                        *with_file_path,
                    );
                    set_value_deep(data, path, value);
                }
            },
            _ => {},
        }
        i += 1;
    }
}

/// Whether the action uploads a file of the list, so that an id is put at its
/// path.
pub open spec fn puts_an_id(action: Action, uploaded: Seq<(String, String)>) -> bool {
    action matches Action::UploadMedia { file_path, .. } && exists|k: int|
        0 <= k < uploaded.len() && (#[trigger] uploaded[k]).0@ == file_path
}

/// The path of an action.
pub open spec fn path_of_action(action: Action) -> Seq<Segment> {
    match action {
        Action::UploadMedia { path, .. } => path,
        Action::UploadMultipart { path, .. } => path,
        Action::Save { path, .. } => path,
    }
}

proof fn media_id_is_listed(uploaded: Seq<(String, String)>, path: Seq<char>)
    ensures
        media_id_of(uploaded, path) is Some <==> exists|k: int|
            0 <= k < uploaded.len() && (#[trigger] uploaded[k]).0@ == path,
        media_id_of(uploaded, path) matches Some(id) ==> exists|k: int|
            0 <= k < uploaded.len() && (#[trigger] uploaded[k]).0@ == path && uploaded[k].1@ == id,
    decreases uploaded.len(),
{
    if uploaded.len() > 0 {
        let rest = uploaded.drop_first();
        media_id_is_listed(rest, path);
        if uploaded[0].0@ != path {
            if exists|k: int| 0 <= k < uploaded.len() && (#[trigger] uploaded[k]).0@ == path {
                let k = choose|k: int| 0 <= k < uploaded.len() && (#[trigger] uploaded[k]).0@ == path;
                assert(rest[k - 1].0@ == path);
            }
            if media_id_of(rest, path) is Some {
                let k = choose|k: int|
                    0 <= k < rest.len() && (#[trigger] rest[k]).0@ == path && rest[k].1@
                        == media_id_of(rest, path)->0;
                assert(uploaded[k + 1].0@ == path && uploaded[k + 1].1@ == rest[k].1@);
            }
        } else {
            assert(uploaded[0].0@ == path);
        }
    }
}

/// Values on paths that part ways with every path where an id is put are left
/// alone, at every depth.
pub proof fn media_ids_leave_others(
    data: Json,
    actions: Seq<Action>,
    uploaded: Seq<(String, String)>,
    n: int,
    other: Seq<Segment>,
)
    requires
        0 <= n <= actions.len(),
        forall|j: int|
            0 <= j < n && puts_an_id(#[trigger] actions[j], uploaded) ==> parts_ways(
                path_of_action(actions[j]),
                other,
            ),
    ensures
        json_get(with_media(data, actions, uploaded, n), other) == json_get(data, other),
    decreases n,
{
    if n > 0 {
        media_ids_leave_others(data, actions, uploaded, n - 1, other);
        let before = with_media(data, actions, uploaded, n - 1);
        if let Action::UploadMedia { path, file_path, with_file_path } = actions[n - 1] {
            media_id_is_listed(uploaded, file_path);
            if let Some(id) = media_id_of(uploaded, file_path) {
                assert(puts_an_id(actions[n - 1], uploaded));
                set_leaves_others(before, path, replacement(id, file_path, with_file_path), other);
            }
        }
    }
}

/// After the ids are put in, the value at the path of every uploaded file, of
/// any length, is the file's media id, or the object of the media id and the
/// file's path where that is asked for; as long as the path leads somewhere and
/// parts ways with the others.
pub proof fn media_id_stands_at_its_path(
    data: Json,
    actions: Seq<Action>,
    uploaded: Seq<(String, String)>,
    i: int,
    k: int,
)
    requires
        0 <= i < actions.len(),
        actions[i] is UploadMedia,
        0 <= k < uploaded.len(),
        uploaded[k].0@ == actions[i]->UploadMedia_file_path,
        forall|l: int|
            0 <= l < uploaded.len() && l != k ==> (#[trigger] uploaded[l]).0@ != uploaded[k].0@,
        json_get(data, actions[i]->UploadMedia_path) is Some,
        forall|j: int|
            0 <= j < actions.len() && j != i && puts_an_id(#[trigger] actions[j], uploaded)
                ==> parts_ways(path_of_action(actions[j]), actions[i]->UploadMedia_path),
    ensures
        ({
            let after = with_media(data, actions, uploaded, actions.len() as int);
            let found = json_get(after, actions[i]->UploadMedia_path);
            let id = uploaded[k].1@;
            &&& !actions[i]->with_file_path ==> found == Some(Json::String(id))
            &&& actions[i]->with_file_path ==> found == Some(
                Json::Object(
                    seq![
                        ("media_id"@, Json::String(id)),
                        ("file_path"@, Json::String(actions[i]->UploadMedia_file_path)),
                    ],
                ),
            )
        }),
{
    let path = actions[i]->UploadMedia_path;
    let file_path = actions[i]->UploadMedia_file_path;
    media_id_is_listed(uploaded, file_path);
    let id = uploaded[k].1@;
    assert(media_id_of(uploaded, file_path) == Some(id)) by {
        assert(uploaded[k].0@ == file_path);
    }
    media_ids_leave_others(data, actions, uploaded, i, path);
    let before = with_media(data, actions, uploaded, i);
    let value = replacement(id, file_path, actions[i]->with_file_path);
    get_after_set(before, path, value);
    let here = with_media(data, actions, uploaded, i + 1);
    assert(json_get(here, path) == Some(value));
    later_ids_leave_it(data, actions, uploaded, i, actions.len() as int);
}

proof fn later_ids_leave_it(
    data: Json,
    actions: Seq<Action>,
    uploaded: Seq<(String, String)>,
    i: int,
    n: int,
)
    requires
        0 <= i < n <= actions.len(),
        forall|j: int|
            i < j < n && puts_an_id(#[trigger] actions[j], uploaded)
                ==> parts_ways(path_of_action(actions[j]), path_of_action(actions[i])),
    ensures
        json_get(with_media(data, actions, uploaded, n), path_of_action(actions[i])) == json_get(
            with_media(data, actions, uploaded, i + 1),
            path_of_action(actions[i]),
        ),
    decreases n,
{
    if n > i + 1 {
        later_ids_leave_it(data, actions, uploaded, i, n - 1);
        let before = with_media(data, actions, uploaded, n - 1);
        if let Action::UploadMedia { path, file_path, with_file_path } = actions[n - 1] {
            media_id_is_listed(uploaded, file_path);
            if let Some(id) = media_id_of(uploaded, file_path) {
                assert(puts_an_id(actions[n - 1], uploaded));
                set_leaves_others(
                    before,
                    path,
                    replacement(id, file_path, with_file_path),
                    path_of_action(actions[i]),
                );
            }
        }
    }
}

proof fn first_listed_id_counts(uploaded: Seq<(String, String)>, path: Seq<char>, k: int)
    requires
        0 <= k < uploaded.len(),
        uploaded[k].0@ == path,
        forall|l: int| 0 <= l < k ==> (#[trigger] uploaded[l]).0@ != path,
    ensures
        media_id_of(uploaded, path) == Some(uploaded[k].1@),
    decreases uploaded.len(),
{
    if k > 0 {
        assert(uploaded[0].0@ != path);
        let rest = uploaded.drop_first();
        assert forall|l: int| 0 <= l < k - 1 implies (#[trigger] rest[l]).0@ != path by {
            assert(rest[l] == uploaded[l + 1]);
        }
        first_listed_id_counts(rest, path, k - 1);
    }
}

/// Where several ids are put at one place, the last one stands there; and where
/// a file is listed twice, its first id counts.
pub proof fn last_id_at_a_place_stands(
    data: Json,
    actions: Seq<Action>,
    uploaded: Seq<(String, String)>,
    i: int,
    k: int,
)
    requires
        0 <= i < actions.len(),
        actions[i] is UploadMedia,
        0 <= k < uploaded.len(),
        uploaded[k].0@ == actions[i]->UploadMedia_file_path,
        forall|l: int| 0 <= l < k ==> (#[trigger] uploaded[l]).0@ != uploaded[k].0@,
        json_get(with_media(data, actions, uploaded, i), actions[i]->UploadMedia_path) is Some,
        forall|j: int|
            i < j < actions.len() && puts_an_id(#[trigger] actions[j], uploaded) ==> parts_ways(
                path_of_action(actions[j]),
                actions[i]->UploadMedia_path,
            ),
    ensures
        ({
            let after = with_media(data, actions, uploaded, actions.len() as int);
            let found = json_get(after, actions[i]->UploadMedia_path);
            let id = uploaded[k].1@;
            &&& !actions[i]->with_file_path ==> found == Some(Json::String(id))
            &&& actions[i]->with_file_path ==> found == Some(
                Json::Object(
                    seq![
                        ("media_id"@, Json::String(id)),
                        ("file_path"@, Json::String(actions[i]->UploadMedia_file_path)),
                    ],
                ),
            )
        }),
{
    let path = actions[i]->UploadMedia_path;
    let file_path = actions[i]->UploadMedia_file_path;
    first_listed_id_counts(uploaded, file_path, k);
    let before = with_media(data, actions, uploaded, i);
    let value = replacement(uploaded[k].1@, file_path, actions[i]->with_file_path);
    get_after_set(before, path, value);
    assert(json_get(with_media(data, actions, uploaded, i + 1), path) == Some(value));
    later_ids_leave_it(data, actions, uploaded, i, actions.len() as int);
}

/// Where no file of the list is asked for, the payload stays as it is; and so it
/// does where the paths lead nowhere.
pub proof fn nothing_to_put_changes_nothing(
    data: Json,
    actions: Seq<Action>,
    uploaded: Seq<(String, String)>,
    n: int,
)
    requires
        0 <= n <= actions.len(),
        forall|j: int|
            0 <= j < n && puts_an_id(#[trigger] actions[j], uploaded) ==> json_get(
                data,
                path_of_action(actions[j]),
            ) is None,
    ensures
        with_media(data, actions, uploaded, n) == data,
    decreases n,
{
    if n > 0 {
        nothing_to_put_changes_nothing(data, actions, uploaded, n - 1);
        if let Action::UploadMedia { path, file_path, with_file_path } = actions[n - 1] {
            media_id_is_listed(uploaded, file_path);
            if let Some(id) = media_id_of(uploaded, file_path) {
                assert(puts_an_id(actions[n - 1], uploaded));
                set_nowhere(data, path, replacement(id, file_path, with_file_path));
            }
        }
    }
}

} // verus!
