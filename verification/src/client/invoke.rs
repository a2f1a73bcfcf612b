//! Calling a method from a program.
use vstd::prelude::*;

use super::{short_path, Client, MethodPath};
use crate::error::{Error, Payload};
use crate::json::Value;
use crate::text::texts;

verus! {

/// A call of a method that is yet to be made. What went wrong with a header is
/// kept until then.
#[derive(Debug)]
pub struct ClientInvokeRequest<'a> {
    pub client: &'a Client,
    pub path: Vec<String>,
    pub payload: Value,
    pub header_error: Option<Error>,
}

/// A call that can be made: exactly one request goes out, and the answer's
/// result is what the caller gets.
#[derive(Debug)]
pub struct MethodCall {
    pub method: MethodPath,
    pub payload: Value,
}

impl Client {
    /// A call of the method that a path names.
    pub fn invoke(&self, path: &[String], payload: Value) -> (r: ClientInvokeRequest<'_>)
        ensures
            r.client == self,
            texts(r.path@) == texts(path@),
            r.payload == payload,
            r.header_error is None,
    {
        let mut names: Vec<String> = Vec::new();
        let mut i: usize = 0;
        while i < path.len()
            invariant
                i <= path@.len(),
                names@.len() == i,
                forall|j: int| 0 <= j < i ==> (#[trigger] names@[j])@ == path@[j]@,
            decreases path@.len() - i,
        {
            names.push(path[i].clone());
            i += 1;
        }
        assert(texts(names@) =~= texts(path@));
        ClientInvokeRequest { client: self, path: names, payload, header_error: None }
    }
}

impl<'a> ClientInvokeRequest<'a> {
    /// The call to make, if it can be made: an error with a header goes first,
    /// and next a path that is too short.
    pub fn execute(self) -> (r: Result<MethodCall, Error>)
        ensures
            match self.header_error {
                Some(error) => r == Err::<MethodCall, Error>(error),
                None => if self.path@.len() < 2 {
                    r matches Err(Error::Wrapped(Payload::Validation(message))) && message@
                        == short_path(texts(self.path@))
                } else {
                    r matches Ok(call) && call.payload == self.payload && call.method.service@
                        == self.path@[0]@ && texts(call.method.method@) == texts(self.path@).skip(1)
                },
            },
    {
        match self.header_error {
            Some(error) => {
                return Err(error);
            },
            None => {},
        }
        match self.client.method(&self.path) {
            Ok(method) => Ok(MethodCall { method, payload: self.payload }),
            Err(error) => Err(error),
        }
    }
}

} // verus!
