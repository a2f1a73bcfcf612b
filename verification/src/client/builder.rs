//! How a client is put together.
use vstd::prelude::*;

use super::catalog::{default_endpoint, EndpointCatalog, EndpointKey};
use super::custom_command::{names_of, CustomCommand};
use super::Client;
use crate::constants::DEFAULT_BIN_NAME;
use crate::fs::absolutize;
use crate::fs::path::{
    duplicate_components, is_under, joined, optional_parts, parts, parts_of_all, under,
    under_is_going_on, Component, Part,
};
use crate::text::{
    chars_of, optional_text, same_but_ascii_case, same_ignoring_ascii_case, same_text,
};

verus! {

/// Which places of the file system an instance may touch: those under its
/// roots, but for what the recommended rules deny where these are on. Denial
/// goes before permission.
#[derive(Debug)]
pub struct FsPolicy {
    pub roots: Vec<Vec<Component>>,
    pub recommended_deny: bool,
}

/// What a policy stands for.
#[verifier::ext_equal]
pub struct PolicyModel {
    pub roots: Seq<Seq<Part>>,
    pub recommended_deny: bool,
}

impl View for FsPolicy {
    type V = PolicyModel;

    open spec fn view(&self) -> PolicyModel {
        PolicyModel { roots: parts_of_all(self.roots@), recommended_deny: self.recommended_deny }
    }
}

/// Whether the place is the client's own configuration, or lies in it: it has
/// `.config/wecom` on its way, at whatever base.
pub open spec fn is_config_shape(place: Seq<Part>) -> bool {
    exists|i: int|
        0 <= i < place.len() - 1 && #[trigger] place[i] == Part::Normal(".config"@) && place[i + 1]
            == Part::Normal("wecom"@)
}

impl PolicyModel {
    /// Whether a place may be touched. `denied` says whether the rest of the
    /// recommended rules denies it.
    pub open spec fn permits(self, place: Seq<Part>, denied: bool) -> bool {
        &&& !(self.recommended_deny && (is_config_shape(place) || denied))
        &&& exists|i: int| 0 <= i < self.roots.len() && under(place, #[trigger] self.roots[i])
    }
}

fn config_shape(place: &[Component]) -> (r: bool)
    ensures
        r == is_config_shape(parts(place@)),
{
    let ghost p = parts(place@);
    let mut i: usize = 0;
    while place.len() > 0 && i < place.len() - 1
        invariant
            p == parts(place@),
            i <= place@.len(),
            forall|j: int|
                0 <= j < i && j + 1 < p.len() ==> !(#[trigger] p[j] == Part::Normal(".config"@)
                    && p[j + 1] == Part::Normal("wecom"@)),
        decreases place@.len() - i,
    {
        if named(&place[i], ".config") && named(&place[i + 1], "wecom") {
            assert(p[i as int] == Part::Normal(".config"@) && p[i + 1] == Part::Normal("wecom"@));
            return true;
        }
        assert(p[i as int] == place@[i as int]@ && p[i + 1] == place@[i + 1]@);
        i += 1;
    }
    false
}

fn named(component: &Component, name: &str) -> (r: bool)
    ensures
        r == (component@ == Part::Normal(name@)),
{
    match component {
        Component::Normal(text) => same_text(text.as_str(), name),
        _ => false,
    }
}

impl FsPolicy {
    /// Whether a place may be touched. `denied` says whether the rest of the
    /// recommended rules denies it.
    pub fn permits(&self, place: &[Component], denied: bool) -> (r: bool)
        ensures
            r == self@.permits(parts(place@), denied),
    {
        if self.recommended_deny && (config_shape(place) || denied) {
            return false;
        }
        let ghost roots = parts_of_all(self.roots@);
        let mut i: usize = 0;
        while i < self.roots.len()
            invariant
                i <= self.roots@.len(),
                roots == parts_of_all(self.roots@),
                !(self.recommended_deny && (is_config_shape(parts(place@)) || denied)),
                forall|j: int| 0 <= j < i ==> !under(parts(place@), #[trigger] roots[j]),
            decreases self.roots@.len() - i,
        {
            if is_under(place, &self.roots[i]) {
                assert(under(parts(place@), self@.roots[i as int]));
                return true;
            }
            assert(roots[i as int] == parts(self.roots@[i as int]@));
            i += 1;
        }
        false
    }
}

/// The policy for the client's own state (configuration, token, cache): its
/// directory and nothing else. Every path in there is made by code, so nothing
/// is denied.
pub open spec fn private_policy(config_dir: Seq<Part>) -> PolicyModel {
    PolicyModel { roots: seq![config_dir], recommended_deny: false }
}

/// The policy for the client's own state.
pub fn default_private_fs(config_dir: &[Component]) -> (r: FsPolicy)
    ensures
        r@ == private_policy(parts(config_dir@)),
{
    let policy = FsPolicy {
        roots: vec![duplicate_components(config_dir)],
        recommended_deny: false,
    };
    assert(policy@.roots =~= seq![parts(config_dir@)]);
    policy
}

/// The policy for the user's workspace, for reading and for writing: the
/// working directory and the system's temporary directory, with what the
/// recommended rules deny.
pub open spec fn workspace_policy(cwd: Seq<Part>, temp_dir: Seq<Part>) -> PolicyModel {
    PolicyModel { roots: seq![cwd, temp_dir], recommended_deny: true }
}

/// The policy for the user's workspace.
pub fn default_workspace_fs(cwd: &[Component], temp_dir: &[Component]) -> (r: FsPolicy)
    ensures
        r@ == workspace_policy(parts(cwd@), parts(temp_dir@)),
{
    let policy = FsPolicy {
        roots: vec![duplicate_components(cwd), duplicate_components(temp_dir)],
        recommended_deny: true,
    };
    assert(policy@.roots =~= seq![parts(cwd@), parts(temp_dir@)]);
    policy
}

/// The client's configuration stays out of reach of the workspace, whatever
/// the working directory is, and even where it lies in it.
pub proof fn workspace_never_reaches_config(
    cwd: Seq<Part>,
    temp_dir: Seq<Part>,
    base: Seq<Part>,
    rest: Seq<Part>,
    denied: bool,
)
    ensures
        ({
            let place = base.push(Part::Normal(".config"@)).push(Part::Normal("wecom"@)) + rest;
            !workspace_policy(cwd, temp_dir).permits(place, denied)
        }),
{
    let place = base.push(Part::Normal(".config"@)).push(Part::Normal("wecom"@)) + rest;
    assert(place[base.len() as int] == Part::Normal(".config"@));
    assert(place[base.len() as int + 1] == Part::Normal("wecom"@));
}

/// The workspace reaches what is under the working directory or the temporary
/// directory and is not denied; the client's own state is reached under its
/// directory alone.
pub proof fn default_policies_permit(
    cwd: Seq<Part>,
    temp_dir: Seq<Part>,
    config_dir: Seq<Part>,
    place: Seq<Part>,
    denied: bool,
)
    ensures
        workspace_policy(cwd, temp_dir).permits(place, denied) <==> !denied && !is_config_shape(
            place,
        ) && (under(place, cwd) || under(place, temp_dir)),
        private_policy(config_dir).permits(place, denied) <==> under(place, config_dir),
{
    let w = workspace_policy(cwd, temp_dir);
    assert(w.roots[0] == cwd && w.roots[1] == temp_dir);
    assert(private_policy(config_dir).roots[0] == config_dir);
}

/// What the logic knows of a transport: its name and the headers that it sends
/// with every request.
#[derive(Debug)]
pub struct Transport {
    pub name: String,
    pub headers: Vec<(String, String)>,
}

/// What a list of headers stands for.
pub open spec fn headers_of(headers: Seq<(String, String)>) -> Seq<(Seq<char>, Seq<char>)> {
    Seq::new(headers.len(), |i: int| (headers[i].0@, headers[i].1@))
}

/// What a transport stands for.
#[verifier::ext_equal]
pub struct TransportModel {
    pub name: Seq<char>,
    pub headers: Seq<(Seq<char>, Seq<char>)>,
}

impl View for Transport {
    type V = TransportModel;

    open spec fn view(&self) -> TransportModel {
        TransportModel { name: self.name@, headers: headers_of(self.headers@) }
    }
}

/// Whether one of the headers has the name; case does not matter.
pub open spec fn has_header(headers: Seq<(Seq<char>, Seq<char>)>, name: Seq<char>) -> bool {
    exists|i: int| 0 <= i < headers.len() && same_but_ascii_case((#[trigger] headers[i]).0, name)
}

/// The header by which the client tells the server what it is.
pub const CLI_INFO_HEADER: &'static str = "X-WeCom-Cli-Info";

/// The headers, with one for the client's description where there is none.
pub open spec fn with_cli_info(
    headers: Seq<(Seq<char>, Seq<char>)>,
    cli_info: Seq<char>,
) -> Seq<(Seq<char>, Seq<char>)> {
    if has_header(headers, CLI_INFO_HEADER@) {
        headers
    } else {
        headers.push((CLI_INFO_HEADER@, cli_info))
    }
}

fn add_cli_info(headers: &mut Vec<(String, String)>, cli_info: String)
    ensures
        headers_of(final(headers)@) == with_cli_info(headers_of(old(headers)@), cli_info@),
{
    let wanted = chars_of(CLI_INFO_HEADER);
    let ghost all = headers_of(headers@);
    let mut i: usize = 0;
    while i < headers.len()
        invariant
            i <= headers@.len(),
            *headers == *old(headers),
            all == headers_of(headers@),
            wanted@ == CLI_INFO_HEADER@,
            forall|j: int| 0 <= j < i ==> !same_but_ascii_case((#[trigger] all[j]).0, wanted@),
        decreases headers@.len() - i,
    {
        if same_ignoring_ascii_case(&chars_of(headers[i].0.as_str()), &wanted) {
            assert(same_but_ascii_case(all[i as int].0, CLI_INFO_HEADER@));
            return;
        }
        i += 1;
    }
    headers.push((CLI_INFO_HEADER.to_owned(), cli_info));
    assert(headers_of(headers@) =~= all.push((CLI_INFO_HEADER@, cli_info@)));
}

/// What a client takes from where it runs, for everything that its builder was
/// not told.
#[derive(Debug)]
pub struct Surroundings {
    /// The user's home directory, where it is known.
    pub home_dir: Option<Vec<Component>>,
    /// The working directory of the process, where it can be read.
    pub current_dir: Option<Vec<Component>>,
    /// The system's temporary directory.
    pub temp_dir: Vec<Component>,
    /// The client's description, as JSON text.
    pub cli_info: String,
}

/// What an optional list of paths stands for.
pub open spec fn optional_dirs(dirs: Option<Vec<Vec<Component>>>) -> Option<Seq<Seq<Part>>> {
    match dirs {
        Some(d) => Some(parts_of_all(d@)),
        None => None,
    }
}

/// The settings of a client, step by step.
#[derive(Debug)]
pub struct ClientBuilder {
    private_fs: Option<FsPolicy>,
    workspace_fs: Option<FsPolicy>,
    cwd: Option<Vec<Component>>,
    readable_dirs: Option<Vec<Vec<Component>>>,
    writable_dirs: Option<Vec<Vec<Component>>>,
    config_dir: Option<Vec<Component>>,
    tmp_dir: Option<Vec<Component>>,
    default_output_dir: Option<Vec<Component>>,
    bin_name: Option<String>,
    transport: Option<Transport>,
    endpoint_catalog: Option<EndpointCatalog>,
    custom_commands: Vec<CustomCommand>,
}

/// What the settings stand for.
#[verifier::ext_equal]
pub struct BuilderModel {
    pub private_fs: Option<PolicyModel>,
    pub workspace_fs: Option<PolicyModel>,
    pub cwd: Option<Seq<Part>>,
    pub readable_dirs: Option<Seq<Seq<Part>>>,
    pub writable_dirs: Option<Seq<Seq<Part>>>,
    pub config_dir: Option<Seq<Part>>,
    pub tmp_dir: Option<Seq<Part>>,
    pub default_output_dir: Option<Seq<Part>>,
    pub bin_name: Option<Seq<char>>,
    pub transport: Option<TransportModel>,
    pub endpoint_catalog: Option<EndpointCatalog>,
    pub custom_commands: Seq<Seq<char>>,
}

impl View for ClientBuilder {
    type V = BuilderModel;

    closed spec fn view(&self) -> BuilderModel {
        BuilderModel {
            private_fs: match self.private_fs {
                Some(policy) => Some(policy@),
                None => None,
            },
            workspace_fs: match self.workspace_fs {
                Some(policy) => Some(policy@),
                None => None,
            },
            cwd: optional_parts(self.cwd),
            readable_dirs: optional_dirs(self.readable_dirs),
            writable_dirs: optional_dirs(self.writable_dirs),
            config_dir: optional_parts(self.config_dir),
            tmp_dir: optional_parts(self.tmp_dir),
            default_output_dir: optional_parts(self.default_output_dir),
            bin_name: optional_text(self.bin_name),
            transport: match self.transport {
                Some(transport) => Some(transport@),
                None => None,
            },
            endpoint_catalog: self.endpoint_catalog,
            custom_commands: names_of(self.custom_commands@),
        }
    }
}

/// No setting at all.
pub open spec fn no_settings() -> BuilderModel {
    BuilderModel {
        private_fs: None,
        workspace_fs: None,
        cwd: None,
        readable_dirs: None,
        writable_dirs: None,
        config_dir: None,
        tmp_dir: None,
        default_output_dir: None,
        bin_name: None,
        transport: None,
        endpoint_catalog: None,
        custom_commands: Seq::empty(),
    }
}

impl Default for ClientBuilder {
    fn default() -> (r: Self)
        ensures
            r@ == no_settings(),
    {
        let builder = ClientBuilder {
            private_fs: None,
            workspace_fs: None,
            cwd: None,
            readable_dirs: None,
            writable_dirs: None,
            config_dir: None,
            tmp_dir: None,
            default_output_dir: None,
            bin_name: None,
            transport: None,
            endpoint_catalog: None,
            custom_commands: Vec::new(),
        };
        assert(builder@ =~= no_settings());
        builder
    }
}

/// The directory for the client's state: as set, or `.config/wecom` in the
/// user's home directory.
pub open spec fn effective_config_dir(set: Option<Seq<Part>>, home: Option<Seq<Part>>) -> Seq<
    Part,
> {
    match set {
        Some(dir) => dir,
        None => or_here(home).push(Part::Normal(".config"@)).push(Part::Normal("wecom"@)),
    }
}

/// A path, or the current directory in its place.
pub open spec fn or_here(path: Option<Seq<Part>>) -> Seq<Part> {
    match path {
        Some(p) => p,
        None => seq![Part::CurDir],
    }
}

fn path_or_here(path: Option<Vec<Component>>) -> (r: Vec<Component>)
    ensures
        parts(r@) == or_here(optional_parts(path)),
{
    match path {
        Some(p) => p,
        None => {
            let here: Vec<Component> = vec![Component::CurDir];
            assert(parts(here@) =~= seq![Part::CurDir]);
            here
        },
    }
}

pub(super) fn push_name(path: &mut Vec<Component>, name: &str)
    ensures
        parts(final(path)@) == parts(old(path)@).push(Part::Normal(name@)),
{
    let ghost before = path@;
    path.push(Component::Normal(name.to_owned()));
    assert(parts(path@) =~= parts(before).push(Part::Normal(name@)));
}

/// Whether a client is what the builder makes of its settings and its
/// surroundings.
pub open spec fn built(
    settings: BuilderModel,
    around: Surroundings,
    client: super::ClientModel,
) -> bool {
    let config_dir = effective_config_dir(settings.config_dir, optional_parts(around.home_dir));
    let temp_dir = parts(around.temp_dir@);
    let cwd = match settings.cwd {
        Some(dir) => dir,
        None => or_here(optional_parts(around.current_dir)),
    };
    &&& client.cwd == cwd
    &&& client.readable_dirs == settings.readable_dirs
    &&& client.writable_dirs == settings.writable_dirs
    &&& client.home_dir == config_dir
    &&& client.tmp_dir == (match settings.tmp_dir {
        Some(dir) => dir,
        None => temp_dir.push(Part::Normal("wecom"@)),
    })
    &&& client.default_output_dir == (match settings.default_output_dir {
        Some(dir) => Some(joined(cwd, dir)),
        None => None,
    })
    &&& client.private_fs == (match settings.private_fs {
        Some(policy) => policy,
        None => private_policy(config_dir),
    })
    &&& client.workspace_fs == (match settings.workspace_fs {
        Some(policy) => policy,
        None => workspace_policy(cwd, temp_dir),
    })
    &&& client.bin_name == (match settings.bin_name {
        Some(name) => name,
        None => DEFAULT_BIN_NAME@,
    })
    &&& client.transport == (match settings.transport {
        Some(transport) => TransportModel {
            name: transport.name,
            headers: with_cli_info(transport.headers, around.cli_info@),
        },
        None => TransportModel {
            name: "http"@,
            headers: with_cli_info(Seq::empty(), around.cli_info@),
        },
    })
    &&& forall|key: EndpointKey|
        #[trigger] client.endpoints.endpoint(key) == (match settings.endpoint_catalog {
            Some(catalog) => catalog.endpoint(key),
            None => default_endpoint(key),
        })
    &&& client.custom_commands == settings.custom_commands
}

impl ClientBuilder {
    /// The policy for the client's own state.
    pub fn private_fs(self, fs: FsPolicy) -> (r: ClientBuilder)
        ensures
            r@ == (BuilderModel { private_fs: Some(fs@), ..self@ }),
    {
        let mut builder = self;
        builder.private_fs = Some(fs);
        builder
    }

    /// The policy for the user's workspace: the one that paths from outside go
    /// through.
    pub fn workspace_fs(self, fs: FsPolicy) -> (r: ClientBuilder)
        ensures
            r@ == (BuilderModel { workspace_fs: Some(fs@), ..self@ }),
    {
        let mut builder = self;
        builder.workspace_fs = Some(fs);
        builder
    }

    /// The policy for the client's own state, where it was set.
    pub fn get_private_fs(&self) -> (r: Option<&FsPolicy>)
        ensures
            self@.private_fs == (match r {
                Some(policy) => Some(policy@),
                None => None,
            }),
    {
        self.private_fs.as_ref()
    }

    /// The policy for the workspace, where it was set.
    pub fn get_workspace_fs(&self) -> (r: Option<&FsPolicy>)
        ensures
            self@.workspace_fs == (match r {
                Some(policy) => Some(policy@),
                None => None,
            }),
    {
        self.workspace_fs.as_ref()
    }

    /// The directory that relative paths from outside are anchored at.
    pub fn cwd(self, dir: Vec<Component>) -> (r: ClientBuilder)
        ensures
            r@ == (BuilderModel { cwd: Some(parts(dir@)), ..self@ }),
    {
        let mut builder = self;
        builder.cwd = Some(dir);
        builder
    }

    /// The working directory, where it was set.
    pub fn get_cwd(&self) -> (r: Option<&Vec<Component>>)
        ensures
            self@.cwd == (match r {
                Some(dir) => Some(parts(dir@)),
                None => None,
            }),
    {
        self.cwd.as_ref()
    }

    /// The directories that may be read.
    pub fn readable_dirs(self, dirs: Vec<Vec<Component>>) -> (r: ClientBuilder)
        ensures
            r@ == (BuilderModel { readable_dirs: Some(parts_of_all(dirs@)), ..self@ }),
    {
        let mut builder = self;
        builder.readable_dirs = Some(dirs);
        builder
    }

    /// The directories that may be written.
    pub fn writable_dirs(self, dirs: Vec<Vec<Component>>) -> (r: ClientBuilder)
        ensures
            r@ == (BuilderModel { writable_dirs: Some(parts_of_all(dirs@)), ..self@ }),
    {
        let mut builder = self;
        builder.writable_dirs = Some(dirs);
        builder
    }

    /// The directory for the client's own state.
    pub fn config_dir(self, dir: Vec<Component>) -> (r: ClientBuilder)
        ensures
            r@ == (BuilderModel { config_dir: Some(parts(dir@)), ..self@ }),
    {
        let mut builder = self;
        builder.config_dir = Some(dir);
        builder
    }

    /// The directory for the client's own state, under its other name.
    pub fn home_dir(self, dir: Vec<Component>) -> (r: ClientBuilder)
        ensures
            r@ == (BuilderModel { config_dir: Some(parts(dir@)), ..self@ }),
    {
        self.config_dir(dir)
    }

    /// The directory for the client's own state, where it was set.
    pub fn get_config_dir(&self) -> (r: Option<&Vec<Component>>)
        ensures
            self@.config_dir == (match r {
                Some(dir) => Some(parts(dir@)),
                None => None,
            }),
    {
        self.config_dir.as_ref()
    }

    /// The directory for scratch files.
    pub fn tmp_dir(self, dir: Vec<Component>) -> (r: ClientBuilder)
        ensures
            r@ == (BuilderModel { tmp_dir: Some(parts(dir@)), ..self@ }),
    {
        let mut builder = self;
        builder.tmp_dir = Some(dir);
        builder
    }

    /// The directory that downloads go to. A relative one is anchored at the
    /// working directory when the client is built.
    pub fn default_output_dir(self, dir: Vec<Component>) -> (r: ClientBuilder)
        ensures
            r@ == (BuilderModel { default_output_dir: Some(parts(dir@)), ..self@ }),
    {
        let mut builder = self;
        builder.default_output_dir = Some(dir);
        builder
    }

    /// The directory that downloads go to, where it was set.
    pub fn get_default_output_dir(&self) -> (r: Option<&Vec<Component>>)
        ensures
            self@.default_output_dir == (match r {
                Some(dir) => Some(parts(dir@)),
                None => None,
            }),
    {
        self.default_output_dir.as_ref()
    }

    /// The name of the program, as it shows in versions and help.
    pub fn bin_name(self, name: &str) -> (r: ClientBuilder)
        ensures
            r@ == (BuilderModel { bin_name: Some(name@), ..self@ }),
    {
        let mut builder = self;
        builder.bin_name = Some(name.to_owned());
        builder
    }

    /// The name of the program, where it was set.
    pub fn get_bin_name(&self) -> (r: Option<&str>)
        ensures
            crate::text::optional_str(r) == self@.bin_name,
    {
        match &self.bin_name {
            Some(name) => Some(name.as_str()),
            None => None,
        }
    }

    /// The transport.
    pub fn transport(self, transport: Transport) -> (r: ClientBuilder)
        ensures
            r@ == (BuilderModel { transport: Some(transport@), ..self@ }),
    {
        let mut builder = self;
        builder.transport = Some(transport);
        builder
    }

    /// The transport, where it was set.
    pub fn get_transport(&self) -> (r: Option<&Transport>)
        ensures
            self@.transport == (match r {
                Some(transport) => Some(transport@),
                None => None,
            }),
    {
        self.transport.as_ref()
    }

    /// The built-in endpoints, in place of their defaults.
    pub fn endpoint_catalog(self, catalog: EndpointCatalog) -> (r: ClientBuilder)
        ensures
            r@ == (BuilderModel { endpoint_catalog: Some(catalog), ..self@ }),
    {
        let mut builder = self;
        builder.endpoint_catalog = Some(catalog);
        builder
    }

    /// Adds a command of the caller's own, behind those already there.
    pub fn command(self, command: CustomCommand) -> (r: ClientBuilder)
        ensures
            r@ == (BuilderModel {
                custom_commands: self@.custom_commands.push(command@),
                ..self@
            }),
    {
        let mut builder = self;
        let ghost before = builder.custom_commands@;
        builder.custom_commands.push(command);
        assert(names_of(builder.custom_commands@) =~= names_of(before).push(command@));
        builder
    }

    /// Builds the client: what was not set comes from the surroundings.
    pub fn build(self, around: Surroundings) -> (r: Client)
        ensures
            built(self@, around, r@),
    {
        let config_dir: Vec<Component> = match self.config_dir {
            Some(dir) => dir,
            None => {
                let mut dir = path_or_here(around.home_dir);
                push_name(&mut dir, ".config");
                push_name(&mut dir, "wecom");
                dir
            },
        };
        let cwd: Vec<Component> = match self.cwd {
            Some(dir) => dir,
            None => path_or_here(around.current_dir),
        };
        let default_output_dir: Option<Vec<Component>> = match self.default_output_dir {
            Some(dir) => Some(absolutize(&cwd, &dir)),
            None => None,
        };
        let private_fs: FsPolicy = match self.private_fs {
            Some(policy) => policy,
            None => default_private_fs(&config_dir),
        };
        let workspace_fs: FsPolicy = match self.workspace_fs {
            Some(policy) => policy,
            None => default_workspace_fs(&cwd, &around.temp_dir),
        };
        let tmp_dir: Vec<Component> = match self.tmp_dir {
            Some(dir) => dir,
            None => {
                let mut dir = duplicate_components(&around.temp_dir);
                push_name(&mut dir, "wecom");
                dir
            },
        };
        let mut transport: Transport = match self.transport {
            Some(transport) => transport,
            None => Transport { name: "http".to_owned(), headers: Vec::new() },
        };
        assert(self.transport is None ==> transport@.headers =~= Seq::empty());
        add_cli_info(&mut transport.headers, around.cli_info);
        let bin_name: String = match self.bin_name {
            Some(name) => name,
            None => DEFAULT_BIN_NAME.to_owned(),
        };
        let endpoints: EndpointCatalog = match self.endpoint_catalog {
            Some(catalog) => catalog,
            None => EndpointCatalog::default(),
        };
        Client::assemble(
            cwd,
            self.readable_dirs,
            self.writable_dirs,
            config_dir,
            tmp_dir,
            default_output_dir,
            private_fs,
            workspace_fs,
            bin_name,
            transport,
            endpoints,
            self.custom_commands,
        )
    }
}

/// A place that does not lie in the client's configuration, and that no other
/// rule denies, is permitted under every root: `.config` alone denies nothing,
/// nor does `wecom`.
pub proof fn other_places_are_permitted(policy: PolicyModel, i: int, rest: Seq<Part>)
    requires
        0 <= i < policy.roots.len(),
        forall|j: int|
            0 <= j < (policy.roots[i] + rest).len() - 1 ==> !(#[trigger] (policy.roots[i] + rest)[j]
                == Part::Normal(".config"@) && (policy.roots[i] + rest)[j + 1] == Part::Normal(
                "wecom"@,
            )),
    ensures
        policy.permits(policy.roots[i] + rest, false),
{
    let place = policy.roots[i] + rest;
    under_is_going_on(place, policy.roots[i], rest);
    assert(under(place, policy.roots[i]));
}

/// Nothing is permitted that goes on from no root; where the recommended rules
/// are on, neither is what they deny; and where they are off, they deny
/// nothing.
pub proof fn policy_keeps_to_its_roots(policy: PolicyModel, place: Seq<Part>, denied: bool)
    ensures
        policy.permits(place, denied) ==> exists|i: int|
            0 <= i < policy.roots.len() && place == #[trigger] policy.roots[i] + place.skip(
                policy.roots[i].len() as int,
            ),
        policy.recommended_deny && denied ==> !policy.permits(place, denied),
        !policy.recommended_deny ==> policy.permits(place, denied) == policy.permits(place, false),
{
    if policy.permits(place, denied) {
        let i = choose|i: int| 0 <= i < policy.roots.len() && under(place, #[trigger] policy.roots[i]);
        under_is_going_on(place, policy.roots[i], Seq::empty());
        assert(place == policy.roots[i] + place.skip(policy.roots[i].len() as int));
    }
}

/// The client's description is sent with every request, once: it goes behind
/// the other headers, which stay as they are, unless one of them has its name
/// in whatever case.
pub proof fn description_is_sent_once(
    headers: Seq<(Seq<char>, Seq<char>)>,
    cli_info: Seq<char>,
    i: int,
)
    ensures
        ({
            let sent = with_cli_info(headers, cli_info);
            &&& 0 <= i < headers.len() ==> sent[i] == headers[i]
            &&& 0 <= i < headers.len() && same_but_ascii_case(headers[i].0, "X-WeCom-Cli-Info"@)
                ==> sent == headers
            &&& (forall|j: int|
                0 <= j < headers.len() ==> !same_but_ascii_case(
                    (#[trigger] headers[j]).0,
                    "X-WeCom-Cli-Info"@,
                )) ==> sent.len() == headers.len() + 1 && sent.last() == (
            "X-WeCom-Cli-Info"@,
            cli_info,
            )
        }),
{
}

/// What a builder was told, its client has.
pub proof fn what_is_set_is_kept(
    settings: BuilderModel,
    around: Surroundings,
    client: super::ClientModel,
)
    requires
        built(settings, around, client),
    ensures
        settings.cwd matches Some(dir) ==> client.cwd == dir,
        settings.config_dir matches Some(dir) ==> client.home_dir == dir,
        settings.tmp_dir matches Some(dir) ==> client.tmp_dir == dir,
        settings.private_fs matches Some(policy) ==> client.private_fs == policy,
        settings.workspace_fs matches Some(policy) ==> client.workspace_fs == policy,
        settings.bin_name matches Some(name) ==> client.bin_name == name,
        settings.transport matches Some(transport) ==> client.transport.name == transport.name,
        settings.endpoint_catalog matches Some(catalog) ==> forall|key: EndpointKey|
            #[trigger] client.endpoints.endpoint(key) == catalog.endpoint(key),
        client.readable_dirs == settings.readable_dirs,
        client.writable_dirs == settings.writable_dirs,
        client.custom_commands == settings.custom_commands,
        settings.transport matches Some(transport) ==> client.transport.headers == with_cli_info(
            transport.headers,
            around.cli_info@,
        ),
{
}

/// What a builder was not told, its client has from its surroundings: the
/// working directory of the process, `.config/wecom` in the home directory,
/// `wecom` in the temporary directory, the policies for these, the name
/// `wecom`, plain HTTP and the built-in endpoints.
pub proof fn what_is_not_set_comes_from_around(
    settings: BuilderModel,
    around: Surroundings,
    client: super::ClientModel,
    key: EndpointKey,
)
    requires
        built(settings, around, client),
    ensures
        settings.cwd is None ==> client.cwd == (match around.current_dir {
            Some(dir) => parts(dir@),
            None => seq![Part::CurDir],
        }),
        settings.config_dir is None ==> client.home_dir == (match around.home_dir {
            Some(dir) => parts(dir@),
            None => seq![Part::CurDir],
        }) + seq![Part::Normal(".config"@), Part::Normal("wecom"@)],
        settings.tmp_dir is None ==> client.tmp_dir == parts(around.temp_dir@) + seq![
            Part::Normal("wecom"@),
        ],
        settings.private_fs is None ==> client.private_fs.roots =~= seq![client.home_dir]
            && !client.private_fs.recommended_deny,
        settings.workspace_fs is None ==> client.workspace_fs.roots =~= seq![
            client.cwd,
            parts(around.temp_dir@),
        ] && client.workspace_fs.recommended_deny,
        settings.bin_name is None ==> client.bin_name == "wecom"@,
        settings.transport is None ==> client.transport.name == "http"@
            && client.transport.headers =~= seq![("X-WeCom-Cli-Info"@, around.cli_info@)],
        settings.endpoint_catalog is None ==> client.endpoints.endpoint(key) == default_endpoint(
            key,
        ),
        settings.default_output_dir is None ==> client.default_output_dir is None,
        settings.default_output_dir matches Some(dir) ==> client.default_output_dir == Some(
            joined(client.cwd, dir),
        ),
{
    let none = Seq::<(Seq<char>, Seq<char>)>::empty();
    description_is_sent_once(none, around.cli_info@, 0);
    let config = seq![Part::Normal(".config"@), Part::Normal("wecom"@)];
    let home = or_here(optional_parts(around.home_dir));
    assert(home.push(config[0]).push(config[1]) =~= home + config);
    let temp_dir = parts(around.temp_dir@);
    assert(temp_dir.push(Part::Normal("wecom"@)) =~= temp_dir + seq![Part::Normal("wecom"@)]);
}

} // verus!
