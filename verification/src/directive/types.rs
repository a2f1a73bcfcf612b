//! The actions that schema directives ask for.
use vstd::prelude::*;

use crate::json::{path_view, PathSegment, Segment};
use crate::schema::FileSaveOptions;

verus! {

/// An action on the value at `path`.
#[derive(Debug)]
pub enum Directive<'a> {
    /// Upload the local file and put the media id in its place.
    UploadMedia { path: Vec<PathSegment>, file_path: String, with_file_path: bool },
    /// Send the local file as a part of a multipart form.
    UploadMultipart { path: Vec<PathSegment>, file_path: String },
    /// Save the value to a file of its own.
    Save { path: Vec<PathSegment>, options: &'a FileSaveOptions },
}

/// What a directive stands for.
#[verifier::ext_equal]
pub enum Action {
    UploadMedia { path: Seq<Segment>, file_path: Seq<char>, with_file_path: bool },
    UploadMultipart { path: Seq<Segment>, file_path: Seq<char> },
    Save { path: Seq<Segment>, options: FileSaveOptions },
}

impl<'a> View for Directive<'a> {
    type V = Action;

    open spec fn view(&self) -> Action {
        match *self {
            Directive::UploadMedia { path, file_path, with_file_path } => Action::UploadMedia {
                path: path_view(path@),
                file_path: file_path@,
                with_file_path,
            },
            Directive::UploadMultipart { path, file_path } => Action::UploadMultipart {
                path: path_view(path@),
                file_path: file_path@,
            },
            Directive::Save { path, options } => Action::Save {
                path: path_view(path@),
                options: *options,
            },
        }
    }
}

/// What a list of directives stands for.
pub open spec fn actions(directives: Seq<Directive<'_>>) -> Seq<Action> {
    Seq::new(directives.len(), |i: int| directives[i]@)
}

/// Pushing a directive appends what it stands for.
pub proof fn actions_push(directives: Seq<Directive<'_>>, d: Directive<'_>)
    ensures
        actions(directives.push(d)) == actions(directives).push(d@),
{
    assert(actions(directives.push(d)) =~= actions(directives).push(d@));
}

} // verus!
