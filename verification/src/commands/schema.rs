//! The command on the schemas of services and methods.
use vstd::prelude::*;

use crate::error::{Error, Payload};
use crate::text::{
    joined_by, optional_str, pieces, pieces_make_up_the_text, position, position_is_first, same_text,
    split, texts,
};

verus! {

/// What the command is asked for.
#[derive(Debug)]
pub enum SchemaSubcmd {
    /// To list all services and methods.
    List,
    /// To show the schema of a method, or of a whole service: its path, with
    /// dots between the segments.
    Get { method_path: String },
}

/// What the chosen subcommand asks for; `method_path` is its argument.
pub fn schema_subcommand(name: Option<&str>, method_path: Option<&str>) -> (r: Result<
    SchemaSubcmd,
    Error,
>)
    ensures
        if optional_str(name) == Some("list"@) {
            r matches Ok(SchemaSubcmd::List)
        } else if optional_str(name) == Some("get"@) && method_path is Some {
            r matches Ok(SchemaSubcmd::Get { method_path: path }) && path@ == method_path->0@
        } else {
            r matches Err(Error::Wrapped(Payload::Other(message))) && message@
                == "Unknown schema subcommand"@
        },
{
    if let Some(chosen) = name {
        if same_text(chosen, "list") {
            return Ok(SchemaSubcmd::List);
        }
        if same_text(chosen, "get") {
            if let Some(path) = method_path {
                return Ok(SchemaSubcmd::Get { method_path: path.to_owned() });
            }
        }
    }
    Err(Error::other("Unknown schema subcommand"))
}

/// What schema is asked for: that of a service where `method` is empty, that
/// of one of its methods elsewhere.
#[derive(Debug)]
pub struct SchemaTarget {
    pub service: String,
    pub method: Vec<String>,
}

/// What schema a path asks for. A path without the name of a service is
/// refused before anything is sent.
pub fn schema_target(method_path: &str) -> (r: Result<SchemaTarget, Error>)
    ensures
        ({
            let segments = pieces(method_path@, '.');
            if segments[0].len() == 0 {
                r matches Err(Error::Wrapped(Payload::Validation(message))) && message@
                    == "服务名不能为空"@
            } else {
                r matches Ok(target) && target.service@ == segments[0] && texts(target.method@)
                    == segments.skip(1)
            }
        }),
        r is Ok <==> method_path@.len() > 0 && method_path@[0] != '.',
        r matches Ok(target) ==> joined_by(seq![target.service@] + texts(target.method@), '.')
            == method_path@,
{
    let mut segments = split(method_path, '.');
    let ghost all = texts(segments@);
    let service = segments.remove(0);
    assert(texts(segments@) =~= all.skip(1));
    proof {
        pieces_make_up_the_text(method_path@, '.');
        position_is_first(method_path@, '.');
        assert(all[0] == method_path@.take(position(method_path@, '.') as int)) by {
            if position(method_path@, '.') >= method_path@.len() {
                assert(method_path@.take(method_path@.len() as int) =~= method_path@);
            }
        }
        assert(seq![all[0]] + all.skip(1) =~= all);
    }
    if service.as_str().is_empty() {
        return Err(Error::validation("服务名不能为空"));
    }
    Ok(SchemaTarget { service, method: segments })
}

} // verus!
