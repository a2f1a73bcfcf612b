//! The client and its command line.
pub mod builder;
pub mod catalog;
pub mod custom_command;
pub mod invoke;
pub mod run;
pub mod upload;

use vstd::prelude::*;

use self::builder::{
    no_settings, optional_dirs, push_name, ClientBuilder, FsPolicy, PolicyModel,
    Transport, TransportModel,
};
use self::catalog::{Endpoint, EndpointCatalog, EndpointKey, EndpointModel, ReqEnvelope};
use self::custom_command::{names_of, CustomCommand};
use crate::error::{Error, Payload};
use crate::fs::path::{duplicate_components, optional_parts, parts, parts_of_all, Component, Part};
use crate::text::{debug_form, debug_text, starts_with, texts};

verus! {

/// The client: where it works, what it may touch, how it reaches the server,
/// and which commands its caller has added.
#[derive(Debug)]
pub struct Client {
    cwd: Vec<Component>,
    readable_dirs: Option<Vec<Vec<Component>>>,
    writable_dirs: Option<Vec<Vec<Component>>>,
    home_dir: Vec<Component>,
    tmp_dir: Vec<Component>,
    default_output_dir: Option<Vec<Component>>,
    private_fs: FsPolicy,
    workspace_fs: FsPolicy,
    bin_name: String,
    transport: Transport,
    endpoints: EndpointCatalog,
    custom_commands: Vec<CustomCommand>,
}

/// What a client stands for.
#[verifier::ext_equal]
pub struct ClientModel {
    pub cwd: Seq<Part>,
    pub readable_dirs: Option<Seq<Seq<Part>>>,
    pub writable_dirs: Option<Seq<Seq<Part>>>,
    pub home_dir: Seq<Part>,
    pub tmp_dir: Seq<Part>,
    pub default_output_dir: Option<Seq<Part>>,
    pub private_fs: PolicyModel,
    pub workspace_fs: PolicyModel,
    pub bin_name: Seq<char>,
    pub transport: TransportModel,
    pub endpoints: EndpointCatalog,
    pub custom_commands: Seq<Seq<char>>,
}

impl View for Client {
    type V = ClientModel;

    closed spec fn view(&self) -> ClientModel {
        ClientModel {
            cwd: parts(self.cwd@),
            readable_dirs: optional_dirs(self.readable_dirs),
            writable_dirs: optional_dirs(self.writable_dirs),
            home_dir: parts(self.home_dir@),
            tmp_dir: parts(self.tmp_dir@),
            default_output_dir: optional_parts(self.default_output_dir),
            private_fs: self.private_fs@,
            workspace_fs: self.workspace_fs@,
            bin_name: self.bin_name@,
            transport: self.transport@,
            endpoints: self.endpoints,
            custom_commands: names_of(self.custom_commands@),
        }
    }
}

/// An endpoint with the one that long tasks are asked after at.
#[derive(Debug)]
pub struct PolledEndpoint {
    pub endpoint: Endpoint,
    pub poll: Endpoint,
}

/// The file system as a caller sees it who anchors and checks paths alone: the
/// working directory, and what may be read and written; `None` is everything.
#[derive(Debug)]
pub struct FsSettings {
    pub cwd: Vec<Component>,
    pub readable_dirs: Option<Vec<Vec<Component>>>,
    pub writable_dirs: Option<Vec<Vec<Component>>>,
}

fn duplicate_dirs(dirs: &Option<Vec<Vec<Component>>>) -> (r: Option<Vec<Vec<Component>>>)
    ensures
        optional_dirs(r) == optional_dirs(*dirs),
{
    match dirs {
        Some(list) => {
            let mut out: Vec<Vec<Component>> = Vec::new();
            let mut i: usize = 0;
            while i < list.len()
                invariant
                    i <= list@.len(),
                    out@.len() == i,
                    forall|j: int| 0 <= j < i ==> parts((#[trigger] out@[j])@) == parts(list@[j]@),
                decreases list@.len() - i,
            {
                out.push(duplicate_components(&list[i]));
                i += 1;
            }
            assert(parts_of_all(out@) =~= parts_of_all(list@));
            Some(out)
        },
        None => None,
    }
}

impl Client {
    pub(crate) fn assemble(
        cwd: Vec<Component>,
        readable_dirs: Option<Vec<Vec<Component>>>,
        writable_dirs: Option<Vec<Vec<Component>>>,
        home_dir: Vec<Component>,
        tmp_dir: Vec<Component>,
        default_output_dir: Option<Vec<Component>>,
        private_fs: FsPolicy,
        workspace_fs: FsPolicy,
        bin_name: String,
        transport: Transport,
        endpoints: EndpointCatalog,
        custom_commands: Vec<CustomCommand>,
    ) -> (r: Client)
        ensures
            r@ == (ClientModel {
                cwd: parts(cwd@),
                readable_dirs: optional_dirs(readable_dirs),
                writable_dirs: optional_dirs(writable_dirs),
                home_dir: parts(home_dir@),
                tmp_dir: parts(tmp_dir@),
                default_output_dir: optional_parts(default_output_dir),
                private_fs: private_fs@,
                workspace_fs: workspace_fs@,
                bin_name: bin_name@,
                transport: transport@,
                endpoints: endpoints,
                custom_commands: names_of(custom_commands@),
            }),
    {
        Client {
            cwd,
            readable_dirs,
            writable_dirs,
            home_dir,
            tmp_dir,
            default_output_dir,
            private_fs,
            workspace_fs,
            bin_name,
            transport,
            endpoints,
            custom_commands,
        }
    }

    /// A builder without any setting.
    pub fn builder() -> (r: ClientBuilder)
        ensures
            r@ == no_settings(),
    {
        ClientBuilder::default()
    }

    /// The client that nothing was set for.
    pub fn from_defaults(around: builder::Surroundings) -> (r: Client)
        ensures
            builder::built(no_settings(), around, r@),
    {
        Client::builder().build(around)
    }

    /// The working directory.
    pub fn cwd(&self) -> (r: &Vec<Component>)
        ensures
            parts(r@) == self@.cwd,
    {
        &self.cwd
    }

    /// The directories that may be read, where they were set.
    pub fn readable_dirs(&self) -> (r: &Option<Vec<Vec<Component>>>)
        ensures
            optional_dirs(*r) == self@.readable_dirs,
    {
        &self.readable_dirs
    }

    /// The directories that may be written, where they were set.
    pub fn writable_dirs(&self) -> (r: &Option<Vec<Vec<Component>>>)
        ensures
            optional_dirs(*r) == self@.writable_dirs,
    {
        &self.writable_dirs
    }

    /// The file system under the client's settings.
    pub fn default_fs(&self) -> (r: FsSettings)
        ensures
            parts(r.cwd@) == self@.cwd,
            optional_dirs(r.readable_dirs) == self@.readable_dirs,
            optional_dirs(r.writable_dirs) == self@.writable_dirs,
    {
        FsSettings {
            cwd: duplicate_components(&self.cwd),
            readable_dirs: duplicate_dirs(&self.readable_dirs),
            writable_dirs: duplicate_dirs(&self.writable_dirs),
        }
    }

    /// The directory for the client's own state.
    pub fn home_dir(&self) -> (r: &Vec<Component>)
        ensures
            parts(r@) == self@.home_dir,
    {
        &self.home_dir
    }

    /// The directory for the client's own state, under its other name.
    pub fn config_dir(&self) -> (r: &Vec<Component>)
        ensures
            parts(r@) == self@.home_dir,
    {
        &self.home_dir
    }

    /// The directory for caches.
    pub fn cache_dir(&self) -> (r: Vec<Component>)
        ensures
            parts(r@) == self@.home_dir.push(Part::Normal("cache"@)),
    {
        let mut dir = duplicate_components(&self.home_dir);
        push_name(&mut dir, "cache");
        dir
    }

    /// The directory for scratch files.
    pub fn tmp_dir(&self) -> (r: &Vec<Component>)
        ensures
            parts(r@) == self@.tmp_dir,
    {
        &self.tmp_dir
    }

    /// The directory that downloads go to, where it was set.
    pub fn default_output_dir(&self) -> (r: &Option<Vec<Component>>)
        ensures
            optional_parts(*r) == self@.default_output_dir,
    {
        &self.default_output_dir
    }

    /// The name of the program.
    pub fn bin_name(&self) -> (r: &str)
        ensures
            r@ == self@.bin_name,
    {
        self.bin_name.as_str()
    }

    /// The directory for stored responses.
    pub fn request_storage_dir(&self) -> (r: Vec<Component>)
        ensures
            parts(r@) == self@.tmp_dir.push(Part::Normal("requests"@)),
    {
        let mut dir = duplicate_components(&self.tmp_dir);
        push_name(&mut dir, "requests");
        dir
    }

    /// The policy for the client's own state.
    pub fn private_fs(&self) -> (r: &FsPolicy)
        ensures
            r@ == self@.private_fs,
    {
        &self.private_fs
    }

    /// The policy for the user's workspace.
    pub fn workspace_fs(&self) -> (r: &FsPolicy)
        ensures
            r@ == self@.workspace_fs,
    {
        &self.workspace_fs
    }

    /// The transport.
    pub fn transport(&self) -> (r: &Transport)
        ensures
            r@ == self@.transport,
    {
        &self.transport
    }

    /// The transport, to be changed.
    pub fn transport_mut(&mut self) -> (r: &mut Transport)
        ensures
            r@ == old(self)@.transport,
            final(self)@ == (ClientModel { transport: final(r)@, ..old(self)@ }),
    {
        &mut self.transport
    }

    /// An endpoint at the path; the transport fills in the base URL.
    pub fn endpoint(&self, path: &str) -> (r: Endpoint)
        ensures
            r@ == (EndpointModel { path: path@, req_envelope: ReqEnvelope::Passthrough }),
    {
        Endpoint { path: path.to_owned(), req_envelope: ReqEnvelope::Passthrough }
    }

    /// The commands that the caller has added, in their order.
    pub fn custom_commands(&self) -> (r: &Vec<CustomCommand>)
        ensures
            names_of(r@) == self@.custom_commands,
    {
        &self.custom_commands
    }

    /// A built-in endpoint, with the one that long tasks are asked after at.
    pub fn resolve_builtin_endpoint(&self, key: EndpointKey) -> (r: PolledEndpoint)
        ensures
            r.endpoint@ == self@.endpoints.endpoint(key),
            r.poll@ == self@.endpoints.endpoint(EndpointKey::TaskQuery),
    {
        PolledEndpoint {
            endpoint: self.endpoints.resolve(key),
            poll: self.endpoints.resolve(EndpointKey::TaskQuery),
        }
    }
}

/// The names as debugging output shows them.
pub open spec fn debug_list(names: Seq<Seq<char>>) -> Seq<char> {
    if names.len() == 0 {
        "[]"@
    } else {
        "["@ + debug_form(names[0]) + debug_rest(names.drop_first())
    }
}

/// The names behind the first, and the end of the list.
pub open spec fn debug_rest(names: Seq<Seq<char>>) -> Seq<char>
    decreases names.len(),
{
    if names.len() == 0 {
        "]"@
    } else {
        ", "@ + debug_form(names[0]) + debug_rest(names.drop_first())
    }
}

/// The message for a path that is too short to name a method.
pub open spec fn short_path(path: Seq<Seq<char>>) -> Seq<char> {
    "方法路径至少需要两段 ([\"<service>\", \"<method>\", ...])，但收到: "@ + debug_list(path)
}

/// A method, by the name of its service and its path in there.
#[derive(Debug)]
pub struct MethodPath {
    pub service: String,
    pub method: Vec<String>,
}

impl Client {
    /// The method that a path names: its first segment is the service, the
    /// rest the way to the method. A path of fewer than two segments names
    /// none.
    pub fn method(&self, path: &[String]) -> (r: Result<MethodPath, Error>)
        ensures
            path@.len() >= 2 ==> (r matches Ok(m) && m.service@ == path@[0]@ && texts(m.method@)
                == texts(path@).skip(1)),
            path@.len() < 2 ==> (r matches Err(Error::Wrapped(Payload::Validation(message)))
                && message@ == short_path(texts(path@))),
            r matches Ok(m) ==> seq![m.service@] + texts(m.method@) == texts(path@),
    {
        let ghost all = texts(path@);
        if path.len() < 2 {
            let mut message: String =
                "方法路径至少需要两段 ([\"<service>\", \"<method>\", ...])，但收到: ".to_owned();
            if path.len() == 0 {
                message.append("[]");
            } else {
                message.append("[");
                message.append(debug_text(path[0].as_str()).as_str());
                message.append("]");
                assert(all.drop_first() =~= Seq::empty());
            }
            assert(message@ =~= short_path(all)) by {
                reveal_with_fuel(debug_rest, 2);
            }
            return Err(Error::Wrapped(Payload::Validation(message)));
        }
        let mut method: Vec<String> = Vec::new();
        let mut i: usize = 1;
        assert(texts(method@) =~= all.subrange(1, 1));
        while i < path.len()
            invariant
                1 <= i <= path@.len(),
                all == texts(path@),
                texts(method@) == all.subrange(1, i as int),
            decreases path@.len() - i,
        {
            let ghost before = method@;
            method.push(path[i].clone());
            proof {
                assert(texts(method@) =~= texts(before).push(all[i as int]));
                assert(all.subrange(1, i + 1) =~= all.subrange(1, i as int).push(all[i as int]));
            }
            i += 1;
        }
        assert(all.subrange(1, all.len() as int) =~= all.skip(1));
        assert(seq![all[0]] + all.skip(1) =~= all);
        Ok(MethodPath { service: path[0].clone(), method })
    }
}

proof fn debug_rest_joins(a: Seq<Seq<char>>, name: Seq<char>)
    ensures
        debug_rest(a.push(name)) == debug_rest(a).drop_last() + seq![',', ' '] + debug_form(name)
            + seq![']'],
        debug_rest(a).len() > 0,
    decreases a.len(),
{
    reveal_strlit("]");
    reveal_strlit(", ");
    assert("]"@ =~= seq![']']);
    assert(", "@ =~= seq![',', ' ']);
    let more = a.push(name);
    if a.len() == 0 {
        assert(more.drop_first() =~= Seq::empty());
        assert(debug_rest(more.drop_first()) == "]"@);
        assert(debug_rest(more) =~= debug_rest(a).drop_last() + seq![',', ' '] + debug_form(name)
            + seq![']']);
    } else {
        debug_rest_joins(a.drop_first(), name);
        assert(more.drop_first() =~= a.drop_first().push(name));
        assert(debug_rest(more) =~= debug_rest(a).drop_last() + seq![',', ' '] + debug_form(name)
            + seq![']']);
    }
}

/// A list is shown in brackets, with a comma and a space between each two of
/// its names; the message for a short path ends with it.
pub proof fn short_path_is_shown(path: Seq<Seq<char>>, name: Seq<char>)
    ensures
        debug_list(Seq::empty()) =~= seq!['[', ']'],
        debug_list(seq![name]) =~= seq!['['] + debug_form(name) + seq![']'],
        path.len() > 0 ==> debug_list(path.push(name)) == debug_list(path).drop_last() + seq![
            ',',
            ' ',
        ] + debug_form(name) + seq![']'],
        starts_with(
            short_path(path),
            "方法路径至少需要两段 ([\"<service>\", \"<method>\", ...])，但收到: "@,
        ),
        short_path(path).skip(
            "方法路径至少需要两段 ([\"<service>\", \"<method>\", ...])，但收到: "@.len() as int,
        ) == debug_list(path),
{
    reveal_strlit("[]");
    reveal_strlit("[");
    reveal_strlit("]");
    let one = seq![name];
    assert(one.drop_first() =~= Seq::empty());
    assert(debug_rest(one.drop_first()) == "]"@);
    if path.len() > 0 {
        debug_rest_joins(path.drop_first(), name);
        assert(path.push(name).drop_first() =~= path.drop_first().push(name));
        assert(debug_list(path.push(name)) =~= debug_list(path).drop_last() + seq![',', ' ']
            + debug_form(name) + seq![']']);
    }
    let head = "方法路径至少需要两段 ([\"<service>\", \"<method>\", ...])，但收到: "@;
    assert(short_path(path).take(head.len() as int) =~= head);
    assert(short_path(path).skip(head.len() as int) =~= debug_list(path));
}

} // verus!
