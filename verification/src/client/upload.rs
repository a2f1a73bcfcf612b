//! Uploading a file from a program.
use vstd::prelude::*;

use super::builder::optional_dirs;
use super::catalog::EndpointKey;
use super::{Client, FsSettings, PolledEndpoint};
use crate::builtins::upload_media::{upload_form, upload_parts};
use crate::constants::MAX_UPLOAD_SIZE;
use crate::directive::octet_stream::FormPart;
use crate::error::{Error, Payload};
use crate::fs::path::parts;
use crate::fs::{check_file_size_limit, over_limit};

verus! {

/// An upload that is yet to be made. What went wrong with a header is kept
/// until then.
#[derive(Debug)]
pub struct ClientUploadMediaRequest<'a> {
    pub client: &'a Client,
    pub fs: FsSettings,
    pub file_path: String,
    pub header_error: Option<Error>,
}

/// An upload that can be made.
#[derive(Debug)]
pub struct UploadCall {
    pub endpoint: PolledEndpoint,
    pub form: Vec<FormPart>,
}

impl Client {
    /// An upload of the file at a path, under the client's file system.
    pub fn upload_media(&self, file_path: &str) -> (r: ClientUploadMediaRequest<'_>)
        ensures
            r.client == self,
            parts(r.fs.cwd@) == self@.cwd,
            optional_dirs(r.fs.readable_dirs) == self@.readable_dirs,
            optional_dirs(r.fs.writable_dirs) == self@.writable_dirs,
            r.file_path@ == file_path@,
            r.header_error is None,
    {
        ClientUploadMediaRequest {
            client: self,
            fs: self.default_fs(),
            file_path: file_path.to_owned(),
            header_error: None,
        }
    }
}

impl<'a> ClientUploadMediaRequest<'a> {
    /// The upload to make, if it can be made: an error with a header goes
    /// first, and next a file over the limit. `limit_mb` is the limit as text,
    /// in MB.
    pub fn execute(self, file_size: u64, limit_mb: &str) -> (r: Result<UploadCall, Error>)
        ensures
            match self.header_error {
                Some(error) => r == Err::<UploadCall, Error>(error),
                None => if file_size > MAX_UPLOAD_SIZE {
                    r matches Err(Error::Wrapped(Payload::Validation(message))) && message@
                        == over_limit(self.file_path@, limit_mb@)
                } else {
                    r matches Ok(call) && call.endpoint.endpoint@
                        == self.client@.endpoints.endpoint(EndpointKey::MediaUpload)
                        && call.endpoint.poll@ == self.client@.endpoints.endpoint(
                        EndpointKey::TaskQuery,
                    ) && upload_parts(call.form@, self.file_path@)
                },
            },
    {
        match self.header_error {
            Some(error) => {
                return Err(error);
            },
            None => {},
        }
        match check_file_size_limit(self.file_path.as_str(), file_size, MAX_UPLOAD_SIZE, limit_mb) {
            Ok(_) => Ok(
                UploadCall {
                    endpoint: self.client.resolve_builtin_endpoint(EndpointKey::MediaUpload),
                    form: upload_form(self.file_path.as_str()),
                },
            ),
            Err(error) => Err(error),
        }
    }
}

} // verus!
