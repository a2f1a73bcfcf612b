//! One run of the command line.
pub mod execute;
pub mod output;
pub mod parse_error;
pub mod pipeline;

use vstd::prelude::*;

use self::output::CliRunOutput;
use super::builder::{optional_dirs, push_name, FsPolicy, PolicyModel};
use super::{duplicate_dirs, Client, ClientModel, FsSettings};
use crate::error::Error;
use crate::fs::path::{duplicate_components, optional_parts, parts, parts_of_all, Component, Part};
use crate::text::texts;

verus! {

/// A run of the command line: the client, the arguments, where the output
/// goes, and what is set for this run alone.
#[verifier::reject_recursive_types(W)]
pub struct CliRun<'a, W> {
    client: &'a Client,
    workspace_fs: Option<FsPolicy>,
    cwd: Option<Vec<Component>>,
    readable_dirs: Option<Vec<Vec<Component>>>,
    writable_dirs: Option<Vec<Vec<Component>>>,
    home_dir: Option<Vec<Component>>,
    tmp_dir: Option<Vec<Component>>,
    argv: Vec<String>,
    output: CliRunOutput<W>,
    header_error: Option<Error>,
}

/// What a run stands for.
#[verifier::reject_recursive_types(W)]
#[verifier::ext_equal]
pub struct RunModel<W> {
    pub client: ClientModel,
    pub workspace_fs: Option<PolicyModel>,
    pub cwd: Option<Seq<Part>>,
    pub readable_dirs: Option<Seq<Seq<Part>>>,
    pub writable_dirs: Option<Seq<Seq<Part>>>,
    pub home_dir: Option<Seq<Part>>,
    pub tmp_dir: Option<Seq<Part>>,
    pub argv: Seq<Seq<char>>,
    pub output: CliRunOutput<W>,
    pub header_error: Option<Error>,
}

impl<'a, W> View for CliRun<'a, W> {
    type V = RunModel<W>;

    closed spec fn view(&self) -> RunModel<W> {
        RunModel {
            client: self.client@,
            workspace_fs: match self.workspace_fs {
                Some(policy) => Some(policy@),
                None => None,
            },
            cwd: optional_parts(self.cwd),
            readable_dirs: optional_dirs(self.readable_dirs),
            writable_dirs: optional_dirs(self.writable_dirs),
            home_dir: optional_parts(self.home_dir),
            tmp_dir: optional_parts(self.tmp_dir),
            argv: texts(self.argv@),
            output: self.output,
            header_error: self.header_error,
        }
    }
}

/// What was set for the run, or what the client has.
pub open spec fn set_or<T>(set: Option<T>, default: T) -> T {
    match set {
        Some(value) => value,
        None => default,
    }
}

impl<W> RunModel<W> {
    /// The directory that relative paths are anchored at.
    pub open spec fn effective_cwd(self) -> Seq<Part> {
        set_or(self.cwd, self.client.cwd)
    }

    /// The directory for the client's own state.
    pub open spec fn effective_home_dir(self) -> Seq<Part> {
        set_or(self.home_dir, self.client.home_dir)
    }

    /// The directory for scratch files.
    pub open spec fn effective_tmp_dir(self) -> Seq<Part> {
        set_or(self.tmp_dir, self.client.tmp_dir)
    }
}

impl Client {
    /// A run with these arguments, the first of which is the name of the
    /// program.
    pub fn run<W>(&self, argv: Vec<String>, output: CliRunOutput<W>) -> (r: CliRun<'_, W>)
        ensures
            r@ == (RunModel {
                client: self@,
                workspace_fs: None,
                cwd: None,
                readable_dirs: None,
                writable_dirs: None,
                home_dir: None,
                tmp_dir: None,
                argv: texts(argv@),
                output: output,
                header_error: None,
            }),
    {
        CliRun {
            client: self,
            workspace_fs: None,
            cwd: None,
            readable_dirs: None,
            writable_dirs: None,
            home_dir: None,
            tmp_dir: None,
            argv,
            output,
            header_error: None,
        }
    }
}

impl<'a, W> CliRun<'a, W> {
    /// The client.
    pub fn get_client(&self) -> (r: &'a Client)
        ensures
            r@ == self@.client,
    {
        self.client
    }

    /// The arguments.
    pub fn get_argv(&self) -> (r: &Vec<String>)
        ensures
            texts(r@) == self@.argv,
    {
        &self.argv
    }

    /// The policy for the user's workspace: the one for this run, or the
    /// client's.
    pub fn get_fs(&self) -> (r: &FsPolicy)
        ensures
            r@ == set_or(self@.workspace_fs, self@.client.workspace_fs),
    {
        match &self.workspace_fs {
            Some(policy) => policy,
            None => self.client.workspace_fs(),
        }
    }

    /// Another policy for the user's workspace. The client's own state stays
    /// as it is.
    pub fn fs(self, fs: FsPolicy) -> (r: CliRun<'a, W>)
        ensures
            r@ == (RunModel { workspace_fs: Some(fs@), ..self@ }),
    {
        let mut run = self;
        run.workspace_fs = Some(fs);
        run
    }

    /// The file system of the run, as far as paths go.
    pub fn fs_settings(&self) -> (r: FsSettings)
        ensures
            parts(r.cwd@) == self@.effective_cwd(),
            optional_dirs(r.readable_dirs) == (if self@.readable_dirs is Some {
                self@.readable_dirs
            } else {
                self@.client.readable_dirs
            }),
            optional_dirs(r.writable_dirs) == (if self@.writable_dirs is Some {
                self@.writable_dirs
            } else {
                self@.client.writable_dirs
            }),
    {
        let readable_dirs = match &self.readable_dirs {
            Some(_) => duplicate_dirs(&self.readable_dirs),
            None => duplicate_dirs(self.client.readable_dirs()),
        };
        let writable_dirs = match &self.writable_dirs {
            Some(_) => duplicate_dirs(&self.writable_dirs),
            None => duplicate_dirs(self.client.writable_dirs()),
        };
        FsSettings { cwd: duplicate_components(self.get_cwd()), readable_dirs, writable_dirs }
    }

    /// Another directory to anchor relative paths at. What may be touched stays
    /// as it is.
    pub fn cwd(self, dir: Vec<Component>) -> (r: CliRun<'a, W>)
        ensures
            r@ == (RunModel { cwd: Some(parts(dir@)), ..self@ }),
    {
        let mut run = self;
        run.cwd = Some(dir);
        run
    }

    /// The directory that relative paths are anchored at.
    pub fn get_cwd(&self) -> (r: &Vec<Component>)
        ensures
            parts(r@) == self@.effective_cwd(),
    {
        match &self.cwd {
            Some(dir) => dir,
            None => self.client.cwd(),
        }
    }

    /// Other directories that may be read.
    pub fn readable_dirs(self, dirs: Vec<Vec<Component>>) -> (r: CliRun<'a, W>)
        ensures
            r@ == (RunModel { readable_dirs: Some(parts_of_all(dirs@)), ..self@ }),
    {
        let mut run = self;
        run.readable_dirs = Some(dirs);
        run
    }

    /// Other directories that may be written.
    pub fn writable_dirs(self, dirs: Vec<Vec<Component>>) -> (r: CliRun<'a, W>)
        ensures
            r@ == (RunModel { writable_dirs: Some(parts_of_all(dirs@)), ..self@ }),
    {
        let mut run = self;
        run.writable_dirs = Some(dirs);
        run
    }

    /// Another directory for the client's own state.
    pub fn home_dir(self, dir: Vec<Component>) -> (r: CliRun<'a, W>)
        ensures
            r@ == (RunModel { home_dir: Some(parts(dir@)), ..self@ }),
    {
        let mut run = self;
        run.home_dir = Some(dir);
        run
    }

    /// The directory for the client's own state.
    pub fn get_home_dir(&self) -> (r: &Vec<Component>)
        ensures
            parts(r@) == self@.effective_home_dir(),
    {
        match &self.home_dir {
            Some(dir) => dir,
            None => self.client.home_dir(),
        }
    }

    /// The directory that the client has for its own state, whatever is set
    /// for the run: the policy over it was fixed with the client.
    pub fn get_config_dir(&self) -> (r: &Vec<Component>)
        ensures
            parts(r@) == self@.client.home_dir,
    {
        self.client.config_dir()
    }

    /// The directory for caches.
    pub fn get_cache_dir(&self) -> (r: Vec<Component>)
        ensures
            parts(r@) == self@.effective_home_dir().push(Part::Normal("cache"@)),
    {
        let mut dir = duplicate_components(self.get_home_dir());
        push_name(&mut dir, "cache");
        dir
    }

    /// Another directory for scratch files.
    pub fn tmp_dir(self, dir: Vec<Component>) -> (r: CliRun<'a, W>)
        ensures
            r@ == (RunModel { tmp_dir: Some(parts(dir@)), ..self@ }),
    {
        let mut run = self;
        run.tmp_dir = Some(dir);
        run
    }

    /// The directory for scratch files.
    pub fn get_tmp_dir(&self) -> (r: &Vec<Component>)
        ensures
            parts(r@) == self@.effective_tmp_dir(),
    {
        match &self.tmp_dir {
            Some(dir) => dir,
            None => self.client.tmp_dir(),
        }
    }

    /// The directory for stored responses.
    pub fn get_request_storage_dir(&self) -> (r: Vec<Component>)
        ensures
            parts(r@) == self@.effective_tmp_dir().push(Part::Normal("requests"@)),
    {
        let mut dir = duplicate_components(self.get_tmp_dir());
        push_name(&mut dir, "requests");
        dir
    }

    /// The directory that downloads go to: the client's, or the one that
    /// relative paths are anchored at.
    pub fn get_default_output_dir(&self) -> (r: &Vec<Component>)
        ensures
            parts(r@) == set_or(self@.client.default_output_dir, self@.effective_cwd()),
    {
        match self.client.default_output_dir() {
            Some(dir) => dir,
            None => self.get_cwd(),
        }
    }

    /// Other output.
    pub fn output(self, output: CliRunOutput<W>) -> (r: CliRun<'a, W>)
        ensures
            r@ == (RunModel { output: output, ..self@ }),
    {
        let mut run = self;
        run.output = output;
        run
    }

    /// The output.
    pub fn get_output(&self) -> (r: &CliRunOutput<W>)
        ensures
            *r == self@.output,
    {
        &self.output
    }

    /// Keeps what is wrong with a header until the run starts.
    pub fn with_header_error(self, error: Error) -> (r: CliRun<'a, W>)
        ensures
            r@ == (RunModel { header_error: Some(error), ..self@ }),
    {
        let mut run = self;
        run.header_error = Some(error);
        run
    }

    /// Takes out what is wrong with a header.
    pub fn take_header_error(&mut self) -> (r: Option<Error>)
        ensures
            r == old(self)@.header_error,
            final(self)@ == (RunModel { header_error: None, ..old(self)@ }),
    {
        self.header_error.take()
    }
}

/// What is set for a run goes before what its client has; what is not set is
/// the client's.
pub proof fn run_goes_before_its_client<W>(run: RunModel<W>)
    ensures
        run.cwd matches Some(dir) ==> run.effective_cwd() == dir,
        run.cwd is None ==> run.effective_cwd() == run.client.cwd,
        run.home_dir matches Some(dir) ==> run.effective_home_dir() == dir,
        run.home_dir is None ==> run.effective_home_dir() == run.client.home_dir,
        run.tmp_dir matches Some(dir) ==> run.effective_tmp_dir() == dir,
        run.tmp_dir is None ==> run.effective_tmp_dir() == run.client.tmp_dir,
{
}

} // verus!
