//! Paths, file names and the sandbox around them.
pub mod content_disposition;
pub mod fuzzy;
pub mod path;
pub mod root_trie;
pub mod sandbox;
pub mod sanitize;
pub mod walk;

use vstd::prelude::*;

use crate::error::{Error, Payload};
use crate::fs::path::{join, joined, parts, Component, Part};
use crate::text::starts_with;

verus! {

/// Anchors a path at a working directory: an absolute path stays as it is,
/// any other goes on from the directory. By the paths alone: `.` and `..` are
/// left for whoever resolves the path.
pub fn absolutize(cwd: &[Component], path: &[Component]) -> (r: Vec<Component>)
    ensures
        parts(r@) == joined(parts(cwd@), parts(path@)),
{
    join(cwd, path)
}

/// The message for a file over the limit; `limit_mb` is the limit in MB.
pub open spec fn over_limit(shown: Seq<char>, limit_mb: Seq<char>) -> Seq<char> {
    "文件 \""@ + shown + "\" 大小超过 "@ + limit_mb + " MB 限制"@
}

/// Checks a file's size before anything is sent. `shown` is what the message
/// calls the file, `limit_mb` the limit as text, in MB.
pub fn check_file_size_limit(shown: &str, file_size: u64, max_size: u64, limit_mb: &str) -> (r:
    Result<(), Error>)
    ensures
        r is Ok <==> file_size <= max_size,
        r matches Err(e) ==> e matches Error::Wrapped(Payload::Validation(message)) && message@
            == over_limit(shown@, limit_mb@),
{
    if file_size > max_size {
        let mut message: String = "文件 \"".to_owned();
        message.append(shown);
        message.append("\" 大小超过 ");
        message.append(limit_mb);
        message.append(" MB 限制");
        return Err(Error::Wrapped(Payload::Validation(message)));
    }
    Ok(())
}

/// An absolute path leads to the same place from every directory; a root
/// without a prefix does so from the directories without one.
pub proof fn absolute_path_ignores_cwd(a: Seq<Part>, b: Seq<Part>, p: Seq<Part>)
    requires
        path::absolute(p),
        p[0] is RootDir ==> !has_prefix(a) && !has_prefix(b),
    ensures
        joined(a, p) == p,
        joined(a, p) == joined(b, p),
{
}

/// Whether a path starts with a prefix.
pub open spec fn has_prefix(p: Seq<Part>) -> bool {
    p.len() > 0 && p[0] is Prefix
}

/// What is anchored at an absolute directory is absolute, and anchoring it
/// again elsewhere changes nothing. A path with a prefix but no root is
/// anchored nowhere, and a root without a prefix is not anchored among
/// directories with one.
pub proof fn anchored_path_stays(cwd: Seq<Part>, other: Seq<Part>, p: Seq<Part>)
    requires
        path::absolute(cwd),
        has_prefix(p) ==> path::absolute(p),
        has_prefix(other) ==> has_prefix(cwd) || has_prefix(p),
    ensures
        path::absolute(joined(cwd, p)),
        joined(other, joined(cwd, p)) == joined(cwd, p),
{
}

/// The message for a file over the limit names the file as it is shown, and
/// after it the limit.
pub proof fn over_limit_names_both(shown: Seq<char>, limit_mb: Seq<char>)
    ensures
        starts_with(over_limit(shown, limit_mb), "文件 \""@ + shown + "\" 大小超过 "@),
        over_limit(shown, limit_mb).skip(("文件 \""@ + shown + "\" 大小超过 "@).len() as int)
            =~= limit_mb + " MB 限制"@,
{
    let head = "文件 \""@ + shown + "\" 大小超过 "@;
    assert(over_limit(shown, limit_mb).take(head.len() as int) =~= head);
}

} // verus!
