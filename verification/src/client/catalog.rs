//! The built-in endpoints.
use vstd::prelude::*;

use crate::json::{single_entry, text_value, valid, Json, Value};

verus! {

/// The request envelope `{"payload": "<json text>"}`.
#[derive(Debug, Clone, Copy, PartialEq, Eq, Structural)]
pub struct PayloadStringReq;

impl Default for PayloadStringReq {
    fn default() -> (r: Self)
        ensures
            r == PayloadStringReq,
    {
        PayloadStringReq
    }
}

impl PayloadStringReq {
    /// Wraps the JSON text of a payload in the envelope.
    pub fn encode(&self, payload_text: &str) -> (r: Value)
        ensures
            r@ == Json::Object(seq![("payload"@, Json::String(payload_text@))]),
            valid(r@),
    {
        single_entry("payload", text_value(payload_text))
    }

    /// The name of the envelope.
    pub fn name(&self) -> (r: &'static str)
        ensures
            r@ == "payload-string"@,
    {
        "payload-string"
    }
}

/// A built-in endpoint.
#[derive(Debug, Clone, Copy, PartialEq, Eq, Structural)]
pub enum EndpointKey {
    /// Uploading media.
    MediaUpload,
    /// Finding services.
    ServiceDiscovery,
    /// Asking after a long task.
    TaskQuery,
    /// The defaults of the methods that schemas describe; their path comes
    /// from the schema.
    ServiceMethod,
    /// Documents that the server renders.
    RemoteDoc,
}

/// How a request is wrapped.
#[derive(Debug, Clone, Copy, PartialEq, Eq, Structural)]
pub enum ReqEnvelope {
    /// Not at all.
    Passthrough,
    /// In the envelope of [`PayloadStringReq`].
    PayloadString,
}

impl ReqEnvelope {
    /// The name of the envelope.
    pub fn name(&self) -> (r: &'static str)
        ensures
            r@ == (match *self {
                ReqEnvelope::Passthrough => "passthrough"@,
                ReqEnvelope::PayloadString => "payload-string"@,
            }),
    {
        match self {
            ReqEnvelope::Passthrough => "passthrough",
            ReqEnvelope::PayloadString => PayloadStringReq.name(),
        }
    }
}

/// An endpoint: its path and how its requests are wrapped. The base URL is for
/// the transport to fill in.
#[derive(Debug)]
pub struct Endpoint {
    pub path: String,
    pub req_envelope: ReqEnvelope,
}

/// What an endpoint stands for.
#[verifier::ext_equal]
pub struct EndpointModel {
    pub path: Seq<char>,
    pub req_envelope: ReqEnvelope,
}

impl View for Endpoint {
    type V = EndpointModel;

    open spec fn view(&self) -> EndpointModel {
        EndpointModel { path: self.path@, req_envelope: self.req_envelope }
    }
}

impl Endpoint {
    /// The path to request: it starts with a slash.
    pub fn path(&self) -> (r: String)
        ensures
            r@ == request_path(self.path@),
    {
        if crate::text::has_prefix(self.path.as_str(), "/") {
            self.path.clone()
        } else {
            let mut out: String = "/".to_owned();
            out.append(self.path.as_str());
            out
        }
    }

    /// The base URL that the endpoint sets: none, so that the transport's own
    /// is taken.
    pub fn base_url(&self) -> (r: &'static str)
        ensures
            r@ == ""@,
    {
        ""
    }

    /// The name of the envelope that responses come in. No endpoint sets
    /// another than the transport's own.
    pub fn res_envelope(&self) -> (r: &'static str)
        ensures
            r@ == "gateway"@,
    {
        "gateway"
    }

    /// An endpoint equal to this one.
    pub fn duplicate(&self) -> (r: Endpoint)
        ensures
            r@ == self@,
    {
        Endpoint { path: self.path.clone(), req_envelope: self.req_envelope }
    }
}

/// A path with a slash at its start.
pub open spec fn request_path(path: Seq<char>) -> Seq<char> {
    if crate::text::starts_with(path, "/"@) {
        path
    } else {
        "/"@ + path
    }
}

/// The default of a built-in endpoint. Long tasks, methods of services and
/// documents get their payload as a string; uploads and the discovery of
/// services get it as it is.
pub open spec fn default_endpoint(key: EndpointKey) -> EndpointModel {
    match key {
        EndpointKey::MediaUpload => EndpointModel {
            path: "/file/upload"@,
            req_envelope: ReqEnvelope::Passthrough,
        },
        EndpointKey::ServiceDiscovery => EndpointModel {
            path: "/service/discovery"@,
            req_envelope: ReqEnvelope::Passthrough,
        },
        EndpointKey::TaskQuery => EndpointModel {
            path: "/task/query"@,
            req_envelope: ReqEnvelope::PayloadString,
        },
        EndpointKey::ServiceMethod => EndpointModel {
            path: ""@,
            req_envelope: ReqEnvelope::PayloadString,
        },
        EndpointKey::RemoteDoc => EndpointModel {
            path: "/remote_doc/get"@,
            req_envelope: ReqEnvelope::PayloadString,
        },
    }
}

impl EndpointKey {
    /// All built-in endpoints.
    pub fn all() -> (r: Vec<EndpointKey>)
        ensures
            r@ == seq![
                EndpointKey::MediaUpload,
                EndpointKey::ServiceDiscovery,
                EndpointKey::TaskQuery,
                EndpointKey::ServiceMethod,
                EndpointKey::RemoteDoc,
            ],
            forall|key: EndpointKey| r@.contains(key),
    {
        let all: Vec<EndpointKey> = vec![
            EndpointKey::MediaUpload,
            EndpointKey::ServiceDiscovery,
            EndpointKey::TaskQuery,
            EndpointKey::ServiceMethod,
            EndpointKey::RemoteDoc,
        ];
        proof {
            assert forall|key: EndpointKey| all@.contains(key) by {
                match key {
                    EndpointKey::MediaUpload => assert(all@[0] == key),
                    EndpointKey::ServiceDiscovery => assert(all@[1] == key),
                    EndpointKey::TaskQuery => assert(all@[2] == key),
                    EndpointKey::ServiceMethod => assert(all@[3] == key),
                    EndpointKey::RemoteDoc => assert(all@[4] == key),
                }
            }
        }
        all
    }

    /// The default of the endpoint.
    pub fn builtin_default(self) -> (r: Endpoint)
        ensures
            r@ == default_endpoint(self),
    {
        match self {
            EndpointKey::MediaUpload => Endpoint {
                path: "/file/upload".to_owned(),
                req_envelope: ReqEnvelope::Passthrough,
            },
            EndpointKey::ServiceDiscovery => Endpoint {
                path: "/service/discovery".to_owned(),
                req_envelope: ReqEnvelope::Passthrough,
            },
            EndpointKey::TaskQuery => Endpoint {
                path: "/task/query".to_owned(),
                req_envelope: ReqEnvelope::PayloadString,
            },
            EndpointKey::ServiceMethod => Endpoint {
                path: "".to_owned(),
                req_envelope: ReqEnvelope::PayloadString,
            },
            EndpointKey::RemoteDoc => Endpoint {
                path: "/remote_doc/get".to_owned(),
                req_envelope: ReqEnvelope::PayloadString,
            },
        }
    }
}

/// The built-in endpoints with what was put in their place.
#[derive(Debug)]
pub struct EndpointCatalog {
    overrides: Vec<(EndpointKey, Endpoint)>,
}

/// The endpoint for a key: what was last put in its place, or the default.
spec fn lookup(overrides: Seq<(EndpointKey, Endpoint)>, key: EndpointKey) -> EndpointModel
    decreases overrides.len(),
{
    if overrides.len() == 0 {
        default_endpoint(key)
    } else if overrides.last().0 == key {
        overrides.last().1@
    } else {
        lookup(overrides.drop_last(), key)
    }
}

impl EndpointCatalog {
    /// The endpoint that the catalog has for a key.
    pub closed spec fn endpoint(self, key: EndpointKey) -> EndpointModel {
        lookup(self.overrides@, key)
    }

    /// Puts an endpoint in the place of a built-in one.
    pub fn with(self, key: EndpointKey, endpoint: Endpoint) -> (r: EndpointCatalog)
        ensures
            r.endpoint(key) == endpoint@,
            forall|other: EndpointKey| other != key ==> r.endpoint(other) == self.endpoint(other),
    {
        let mut overrides = self.overrides;
        let ghost before = overrides@;
        overrides.push((key, endpoint));
        assert(overrides@.drop_last() =~= before);
        EndpointCatalog { overrides }
    }

    /// The endpoint that the catalog has for a key.
    pub fn resolve(&self, key: EndpointKey) -> (r: Endpoint)
        ensures
            r@ == self.endpoint(key),
    {
        let mut n: usize = self.overrides.len();
        assert(self.overrides@.take(n as int) =~= self.overrides@);
        while n > 0
            invariant
                n <= self.overrides@.len(),
                lookup(self.overrides@, key) == lookup(self.overrides@.take(n as int), key),
            decreases n,
        {
            let ghost front = self.overrides@.take(n as int);
            assert(front.drop_last() =~= self.overrides@.take(n - 1));
            if self.overrides[n - 1].0 == key {
                return self.overrides[n - 1].1.duplicate();
            }
            n -= 1;
        }
        key.builtin_default()
    }
}

impl Default for EndpointCatalog {
    fn default() -> (r: Self)
        ensures
            forall|key: EndpointKey| r.endpoint(key) == default_endpoint(key),
    {
        EndpointCatalog { overrides: Vec::new() }
    }
}

/// The path to request is the path with a slash before it; a path that has one
/// gets no other.
pub proof fn path_starts_with_one_slash(path: Seq<char>)
    ensures
        path.len() == 0 || path[0] != '/' ==> request_path(path) == seq!['/'] + path,
        path.len() > 0 && path[0] == '/' ==> request_path(path) == path,
        request_path(request_path(path)) == request_path(path),
{
    reveal_strlit("/");
    assert("/"@ =~= seq!['/']);
    if path.len() > 0 {
        assert(path.take(1)[0] == path[0]);
        if path[0] == '/' {
            assert(path.take(1) =~= "/"@);
        }
    }
    let whole = request_path(path);
    assert(whole.len() > 0 && whole[0] == '/') by {
        if path.len() > 0 && path[0] == '/' {
        } else {
            assert(whole[0] == "/"@[0]);
        }
    }
    assert(whole.take(1) =~= "/"@);
}

/// Where each built-in endpoint is, and which of them get their payload as a
/// string.
pub proof fn every_endpoint_has_its_default(key: EndpointKey)
    ensures
        default_endpoint(EndpointKey::MediaUpload).path == "/file/upload"@,
        default_endpoint(EndpointKey::ServiceDiscovery).path == "/service/discovery"@,
        default_endpoint(EndpointKey::TaskQuery).path == "/task/query"@,
        default_endpoint(EndpointKey::ServiceMethod).path.len() == 0,
        default_endpoint(EndpointKey::RemoteDoc).path == "/remote_doc/get"@,
        default_endpoint(key).req_envelope is Passthrough <==> (key is MediaUpload
            || key is ServiceDiscovery),
{
    reveal_strlit("");
}

} // verus!
