//! Sending files in a multipart form.
use vstd::prelude::*;

use super::types::{actions, Action, Directive};
use crate::json_path::{path_text, segments_to_path};
use crate::text::same_text;

verus! {

/// The file for each form field that the first `n` actions send one in; a
/// later action for a field takes the place of an earlier one.
pub open spec fn file_fields(actions: Seq<Action>, n: int) -> Map<Seq<char>, Seq<char>>
    decreases n,
{
    if n <= 0 {
        Map::empty()
    } else {
        match actions[n - 1] {
            Action::UploadMultipart { path, file_path } => file_fields(actions, n - 1).insert(
                path_text(path),
                file_path,
            ),
            _ => file_fields(actions, n - 1),
        }
    }
}

/// What a table of fields and files stands for: no field occurs twice.
pub open spec fn is_table(pairs: Seq<(String, String)>, table: Map<Seq<char>, Seq<char>>) -> bool {
    &&& forall|i: int, j: int|
        0 <= i < j < pairs.len() ==> (#[trigger] pairs[i]).0@ != (#[trigger] pairs[j]).0@
    &&& forall|i: int|
        0 <= i < pairs.len() ==> table.contains_key((#[trigger] pairs[i]).0@)
            && table[pairs[i].0@] == pairs[i].1@
    &&& forall|key: Seq<char>| #[trigger]
        table.contains_key(key) ==> exists|i: int|
            0 <= i < pairs.len() && (#[trigger] pairs[i]).0@ == key
}

/// The position of a field in a table.
fn find_field(pairs: &Vec<(String, String)>, name: &str) -> (r: Option<usize>)
    ensures
        r matches Some(i) ==> i < pairs@.len() && pairs@[i as int].0@ == name@ && forall|j: int|
            0 <= j < i ==> (#[trigger] pairs@[j]).0@ != name@,
        r is None ==> forall|i: int| 0 <= i < pairs@.len() ==> (#[trigger] pairs@[i]).0@ != name@,
{
    let mut i: usize = 0;
    while i < pairs.len()
        invariant
            i <= pairs@.len(),
            forall|j: int| 0 <= j < i ==> (#[trigger] pairs@[j]).0@ != name@,
        decreases pairs@.len() - i,
    {
        if same_text(pairs[i].0.as_str(), name) {
            return Some(i);
        }
        i += 1;
    }
    None
}

/// The form fields that carry a file, each with its file.
pub fn multipart_file_fields(directives: &[Directive<'_>]) -> (r: Vec<(String, String)>)
    ensures
        is_table(r@, file_fields(actions(directives@), directives@.len() as int)),
{
    let ghost all = actions(directives@);
    let mut pairs: Vec<(String, String)> = Vec::new();
    let mut i: usize = 0;
    while i < directives.len()
        invariant
            i <= directives@.len(),
            all == actions(directives@),
            is_table(pairs@, file_fields(all, i as int)),
        decreases directives@.len() - i,
    {
        let ghost before = pairs@;
        let ghost table = file_fields(all, i as int);
        assert(all[i as int] == directives@[i as int]@);
        match &directives[i] {
            Directive::UploadMultipart { path, file_path } => {
                let name = segments_to_path(path);
                let ghost key = name@;
                let ghost next = table.insert(key, file_path@);
                let found = find_field(&pairs, name.as_str());
                match found {
                    Some(k) => {
                        let _ = pairs.remove(k);
                        pairs.insert(k, (name, file_path.clone()));
                        proof {
                            assert(pairs@.len() == before.len());
                            assert forall|j: int| 0 <= j < before.len() && j != k implies (
                            #[trigger] pairs@[j]) == before[j] by {}
                            table_replaced(before, pairs@, table, k as int, key, file_path@);
                        }
                    },
                    None => {
                        pairs.push((name, file_path.clone()));
                        proof {
                            assert(pairs@.drop_last() =~= before);
                            table_extended(before, pairs@, table, key, file_path@);
                        }
                    },
                }
                assert(file_fields(all, i + 1) == next);
            },
            _ => {
                assert(file_fields(all, i + 1) == table);
            },
        }
        i += 1;
    }
    pairs
}

proof fn table_replaced(
    before: Seq<(String, String)>,
    after: Seq<(String, String)>,
    table: Map<Seq<char>, Seq<char>>,
    k: int,
    key: Seq<char>,
    value: Seq<char>,
)
    requires
        is_table(before, table),
        0 <= k < before.len() == after.len(),
        before[k].0@ == key,
        after[k].0@ == key,
        after[k].1@ == value,
        forall|j: int| 0 <= j < before.len() && j != k ==> (#[trigger] after[j]) == before[j],
    ensures
        is_table(after, table.insert(key, value)),
{
    let next = table.insert(key, value);
    assert forall|i: int, j: int| 0 <= i < j < after.len() implies (#[trigger] after[i]).0@ != (
    #[trigger] after[j]).0@ by {
        assert(before[i].0@ != before[j].0@);
    }
    assert forall|i: int| 0 <= i < after.len() implies next.contains_key(
        (#[trigger] after[i]).0@,
    ) && next[after[i].0@] == after[i].1@ by {
        if i != k {
            assert(table.contains_key(before[i].0@));
            if i < k {
                assert(before[i].0@ != before[k].0@);
            } else {
                assert(before[k].0@ != before[i].0@);
            }
        }
    }
    assert forall|n: Seq<char>| #[trigger] next.contains_key(n) implies exists|i: int|
        0 <= i < after.len() && (#[trigger] after[i]).0@ == n by {
        if n == key {
            assert(after[k].0@ == n);
        } else {
            assert(table.contains_key(n));
            let i = choose|i: int| 0 <= i < before.len() && (#[trigger] before[i]).0@ == n;
            assert(after[i] == before[i]);
        }
    }
}

proof fn table_extended(
    before: Seq<(String, String)>,
    after: Seq<(String, String)>,
    table: Map<Seq<char>, Seq<char>>,
    key: Seq<char>,
    value: Seq<char>,
)
    requires
        is_table(before, table),
        after.len() == before.len() + 1,
        after.drop_last() == before,
        after.last().0@ == key,
        after.last().1@ == value,
        forall|i: int| 0 <= i < before.len() ==> (#[trigger] before[i]).0@ != key,
    ensures
        is_table(after, table.insert(key, value)),
{
    let next = table.insert(key, value);
    assert forall|i: int| 0 <= i < before.len() implies (#[trigger] after[i]) == before[i] by {
        assert(after.drop_last()[i] == after[i]);
    }
    assert forall|i: int, j: int| 0 <= i < j < after.len() implies (#[trigger] after[i]).0@ != (
    #[trigger] after[j]).0@ by {
        assert(after[i] == before[i]);
        if j < before.len() {
            assert(before[i].0@ != before[j].0@);
        } else {
            assert(before[i].0@ != key);
        }
    }
    assert forall|i: int| 0 <= i < after.len() implies next.contains_key(
        (#[trigger] after[i]).0@,
    ) && next[after[i].0@] == after[i].1@ by {
        if i < before.len() {
            assert(before[i].0@ != key);
            assert(table.contains_key(before[i].0@));
        }
    }
    assert forall|n: Seq<char>| #[trigger] next.contains_key(n) implies exists|i: int|
        0 <= i < after.len() && (#[trigger] after[i]).0@ == n by {
        if n == key {
            assert(after[before.len() as int].0@ == n);
        } else {
            assert(table.contains_key(n));
            let i = choose|i: int| 0 <= i < before.len() && (#[trigger] before[i]).0@ == n;
            assert(after[i] == before[i]);
        }
    }
}

/// One part of a multipart form.
#[derive(Debug, PartialEq, Eq)]
pub enum FormPart {
    /// The file at a path.
    File { name: String, file_path: String },
    /// A text.
    Text { name: String, value: String },
}

/// What a part of a form stands for.
#[verifier::ext_equal]
pub enum PartModel {
    File { name: Seq<char>, file_path: Seq<char> },
    Text { name: Seq<char>, value: Seq<char> },
}

impl View for FormPart {
    type V = PartModel;

    open spec fn view(&self) -> PartModel {
        match *self {
            FormPart::File { name, file_path } => PartModel::File {
                name: name@,
                file_path: file_path@,
            },
            FormPart::Text { name, value } => PartModel::Text { name: name@, value: value@ },
        }
    }
}

/// The file of a field in a table.
pub open spec fn file_under(pairs: Seq<(String, String)>, name: Seq<char>) -> Option<Seq<char>>
    decreases pairs.len(),
{
    if pairs.len() == 0 {
        None
    } else if pairs[0].0@ == name {
        Some(pairs[0].1@)
    } else {
        file_under(pairs.drop_first(), name)
    }
}

proof fn file_under_none(pairs: Seq<(String, String)>, name: Seq<char>)
    requires
        forall|i: int| 0 <= i < pairs.len() ==> (#[trigger] pairs[i]).0@ != name,
    ensures
        file_under(pairs, name) is None,
    decreases pairs.len(),
{
    if pairs.len() > 0 {
        assert(pairs[0].0@ != name);
        let rest = pairs.drop_first();
        assert forall|i: int| 0 <= i < rest.len() implies (#[trigger] rest[i]).0@ != name by {
            assert(rest[i] == pairs[i + 1]);
        }
        file_under_none(rest, name);
    }
}

proof fn file_under_found(pairs: Seq<(String, String)>, name: Seq<char>, k: int)
    requires
        0 <= k < pairs.len(),
        pairs[k].0@ == name,
        forall|i: int| 0 <= i < k ==> (#[trigger] pairs[i]).0@ != name,
    ensures
        file_under(pairs, name) == Some(pairs[k].1@),
    decreases pairs.len(),
{
    if k > 0 {
        assert(pairs[0].0@ != name);
        let rest = pairs.drop_first();
        assert forall|i: int| 0 <= i < k - 1 implies (#[trigger] rest[i]).0@ != name by {
            assert(rest[i] == pairs[i + 1]);
        }
        file_under_found(rest, name, k - 1);
    }
}

/// In the table of the files to send, a field has the file that the last
/// directive for it names, and no other field has one.
pub proof fn last_directive_wins(
    actions: Seq<Action>,
    pairs: Seq<(String, String)>,
    name: Seq<char>,
)
    requires
        is_table(pairs, file_fields(actions, actions.len() as int)),
    ensures
        file_under(pairs, name) == (if file_fields(actions, actions.len() as int).contains_key(
            name,
        ) {
            Some(file_fields(actions, actions.len() as int)[name])
        } else {
            None
        }),
{
    let table = file_fields(actions, actions.len() as int);
    if table.contains_key(name) {
        let k = choose|k: int| 0 <= k < pairs.len() && (#[trigger] pairs[k]).0@ == name;
        assert forall|i: int| 0 <= i < k implies (#[trigger] pairs[i]).0@ != name by {
            assert(pairs[i].0@ != pairs[k].0@);
        }
        file_under_found(pairs, name, k);
        assert(table[pairs[k].0@] == pairs[k].1@);
    } else {
        assert forall|i: int| 0 <= i < pairs.len() implies (#[trigger] pairs[i]).0@ != name by {
            assert(table.contains_key(pairs[i].0@));
        }
        file_under_none(pairs, name);
    }
}

/// The part for a flattened field: its file where it has one, else its text.
pub open spec fn part_for(name: Seq<char>, value: Seq<char>, file: Option<Seq<char>>) -> PartModel {
    match file {
        Some(file_path) => PartModel::File { name, file_path },
        None => PartModel::Text { name, value },
    }
}

/// The parts of the form for the flattened fields of a payload, in their
/// order. A file is taken from where the table says, not from the text of the
/// payload.
pub fn multipart_parts(fields: &[(String, String)], files: &Vec<(String, String)>) -> (r: Vec<
    FormPart,
>)
    ensures
        r@.len() == fields@.len(),
        forall|i: int|
            0 <= i < r@.len() ==> (#[trigger] r@[i])@ == part_for(
                fields@[i].0@,
                fields@[i].1@,
                file_under(files@, fields@[i].0@),
            ),
        forall|i: int|
            0 <= i < r@.len() ==> match (#[trigger] r@[i])@ {
                PartModel::File { name, file_path } => name == fields@[i].0@ && exists|k: int|
                    0 <= k < files@.len() && (#[trigger] files@[k]).0@ == name && files@[k].1@
                        == file_path,
                PartModel::Text { name, value } => name == fields@[i].0@ && value
                    == fields@[i].1@ && forall|k: int|
                    0 <= k < files@.len() ==> (#[trigger] files@[k]).0@ != name,
            },
{
    let mut out: Vec<FormPart> = Vec::new();
    let mut i: usize = 0;
    while i < fields.len()
        invariant
            i <= fields@.len(),
            out@.len() == i,
            forall|j: int|
                0 <= j < i ==> (#[trigger] out@[j])@ == part_for(
                    fields@[j].0@,
                    fields@[j].1@,
                    file_under(files@, fields@[j].0@),
                ),
            forall|j: int|
                0 <= j < i ==> match (#[trigger] out@[j])@ {
                    PartModel::File { name, file_path } => name == fields@[j].0@ && exists|k: int|
                        0 <= k < files@.len() && (#[trigger] files@[k]).0@ == name && files@[k].1@
                            == file_path,
                    PartModel::Text { name, value } => name == fields@[j].0@ && value
                        == fields@[j].1@ && forall|k: int|
                        0 <= k < files@.len() ==> (#[trigger] files@[k]).0@ != name,
                },
        decreases fields@.len() - i,
    {
        let name = fields[i].0.as_str();
        let part = match find_field(files, name) {
            Some(k) => {
                proof {
                    file_under_found(files@, name@, k as int);
                }
                FormPart::File { name: name.to_owned(), file_path: files[k].1.clone() }
            },
            None => {
                proof {
                    file_under_none(files@, name@);
                }
                FormPart::Text { name: name.to_owned(), value: fields[i].1.clone() }
            },
        };
        out.push(part);
        i += 1;
    }
    out
}

/// A field is sent with the file that the last directive for it names: where no
/// later one is for the same field, its file is the one.
pub proof fn last_file_is_sent(actions: Seq<Action>, i: int)
    requires
        0 <= i < actions.len(),
        actions[i] is UploadMultipart,
        forall|j: int|
            i < j < actions.len() && (#[trigger] actions[j]) is UploadMultipart ==> path_text(
                actions[j]->UploadMultipart_path,
            ) != path_text(actions[i]->UploadMultipart_path),
    ensures
        ({
            let table = file_fields(actions, actions.len() as int);
            let name = path_text(actions[i]->UploadMultipart_path);
            table.contains_key(name) && table[name] == actions[i]->UploadMultipart_file_path
        }),
{
    last_file_up_to(actions, i, actions.len() as int);
}

proof fn last_file_up_to(actions: Seq<Action>, i: int, n: int)
    requires
        0 <= i < n <= actions.len(),
        actions[i] is UploadMultipart,
        forall|j: int|
            i < j < n && (#[trigger] actions[j]) is UploadMultipart ==> path_text(
                actions[j]->UploadMultipart_path,
            ) != path_text(actions[i]->UploadMultipart_path),
    ensures
        ({
            let table = file_fields(actions, n);
            let name = path_text(actions[i]->UploadMultipart_path);
            table.contains_key(name) && table[name] == actions[i]->UploadMultipart_file_path
        }),
    decreases n,
{
    if i < n - 1 {
        last_file_up_to(actions, i, n - 1);
        if actions[n - 1] is UploadMultipart {
            assert(path_text(actions[n - 1]->UploadMultipart_path) != path_text(
                actions[i]->UploadMultipart_path,
            ));
        }
    }
}

/// No field is sent with a file but one that a directive is for.
pub proof fn every_file_field_has_a_directive(actions: Seq<Action>, n: int, name: Seq<char>)
    requires
        0 <= n <= actions.len(),
        file_fields(actions, n).contains_key(name),
    ensures
        exists|i: int|
            0 <= i < n && (#[trigger] actions[i]) is UploadMultipart && path_text(
                actions[i]->UploadMultipart_path,
            ) == name,
    decreases n,
{
    if n > 0 {
        if actions[n - 1] is UploadMultipart && path_text(actions[n - 1]->UploadMultipart_path)
            == name {
        } else {
            every_file_field_has_a_directive(actions, n - 1, name);
        }
    }
}

/// The part for a field that the table holds is its file, whatever its text
/// is; the part for any other is its text. Both keep the field's name.
pub proof fn listed_fields_are_files(
    name: Seq<char>,
    value: Seq<char>,
    files: Seq<(String, String)>,
    k: int,
)
    ensures
        0 <= k < files.len() && files[k].0@ == name && (forall|j: int|
            0 <= j < k ==> (#[trigger] files[j]).0@ != name) ==> part_for(
            name,
            value,
            file_under(files, name),
        ) == (PartModel::File { name, file_path: files[k].1@ }),
        (forall|j: int| 0 <= j < files.len() ==> (#[trigger] files[j]).0@ != name) ==> part_for(
            name,
            value,
            file_under(files, name),
        ) == (PartModel::Text { name, value }),
{
    if 0 <= k < files.len() && files[k].0@ == name && (forall|j: int|
        0 <= j < k ==> (#[trigger] files[j]).0@ != name) {
        file_under_found(files, name, k);
    }
    if forall|j: int| 0 <= j < files.len() ==> (#[trigger] files[j]).0@ != name {
        file_under_none(files, name);
    }
}

} // verus!
