//! The course of a run: what is done next, from what came back of the step
//! before.
use vstd::prelude::*;

use super::execute::{
    asks_for_help, build_root_cmd, builtin_names, commands_of, deciding_argument, dispatch,
    find_service_by_name, first_argument, handled_by, help_text, is_meant, is_version_request,
    leaf, looks_up, names_go_before_aliases, needs_services, place_of, service_commands, services_of, CommandTree, Dispatch,
    ServiceCommand, ServiceInfo,
};
use super::output::rendered;
use super::parse_error::{
    extract_subcmd_path, failure_result, is_word, path_is_taken_apart_again, path_segments,
    refused_line_is_answered, remote_doc_node, spaced, words, ParseFailure,
};
use super::{CliRun, RunModel};
use crate::client::custom_command::command_names;
use crate::constants::CliInfo;
use crate::error::Error;
use crate::text::{optional_text, texts};

verus! {

/// How far a run has come.
#[derive(Debug)]
pub enum RunState {
    /// Nothing is done yet.
    Start,
    /// The services are being listed.
    Listing { first_arg: String },
    /// The schema of the service at `target` is being fetched.
    Describing { list: Vec<ServiceInfo>, target: usize },
    /// The arguments are being parsed. The service at `described` has its
    /// schema.
    Parsing { list: Vec<ServiceInfo>, described: Option<usize> },
    /// Help is wanted, and the server is being asked for its document.
    Helping { failure: ParseFailure },
    /// The chosen command is running: its path, from the top.
    Running { path: Vec<String> },
    /// The run is over.
    Done,
}

/// What came back.
#[derive(Debug)]
pub enum RunEvent {
    /// The run begins.
    Begin,
    /// The services.
    Listed(Result<Vec<ServiceInfo>, Error>),
    /// The schema was fetched, or not.
    Described(Result<(), Error>),
    /// The arguments were accepted: the chosen commands, one below the other.
    Parsed { path: Vec<String> },
    /// The arguments were not accepted; as far as they were recognised, they
    /// choose the commands in `recognised`.
    Refused { failure: ParseFailure, recognised: String },
    /// The server's document, if it has one.
    Documented(Result<Option<String>, Error>),
    /// The command ended. `tree` is what was parsed against.
    Handled { result: Result<(), Error>, tree: CommandTree },
}

/// What is to be done.
#[derive(Debug)]
pub enum RunAction {
    /// List the services.
    ListServices,
    /// Fetch the schema of the service.
    DescribeService(String),
    /// Parse the arguments, with these commands for the services.
    Parse(Vec<ServiceCommand>),
    /// Ask the server for the document on a node of the service.
    FindDocument { service: String, node: Vec<String> },
    /// Run the command.
    Handle(Dispatch),
    /// End with this result; a text is to be written first.
    Return(Result<Option<String>, Error>),
}

/// Whether what came back belongs to what was done last.
pub open spec fn fits(state: RunState, event: RunEvent) -> bool {
    match state {
        RunState::Start => event is Begin,
        RunState::Listing { .. } => event is Listed,
        RunState::Describing { list, target } => event is Described && target < list@.len(),
        RunState::Parsing { list, described } => (event is Parsed || event is Refused) && (
        described matches Some(i) ==> i < list@.len()),
        RunState::Helping { .. } => event is Documented,
        RunState::Running { .. } => event is Handled,
        RunState::Done => false,
    }
}

/// Whether the positions in a state are those of services in its list.
pub open spec fn state_ok(state: RunState) -> bool {
    match state {
        RunState::Describing { list, target } => target < list@.len(),
        RunState::Parsing { list, described } => described matches Some(i) ==> i < list@.len(),
        _ => true,
    }
}

/// Whether the result is that of a command line that was not accepted.
pub open spec fn refused_result(
    failure: ParseFailure,
    remote_doc: Option<Seq<char>>,
    color: bool,
    r: Result<Option<String>, Error>,
) -> bool {
    match r {
        Ok(Some(line)) => failure_result(failure, remote_doc, color, Ok(line)),
        Ok(None) => false,
        Err(error) => failure_result(failure, remote_doc, color, Err(error)),
    }
}

/// Whether the run ends with the error.
pub open spec fn ends_with(next: RunState, action: RunAction, error: Error) -> bool {
    next is Done && action == RunAction::Return(Err(error))
}

/// Whether the arguments are parsed next, against the commands for these
/// services.
pub open spec fn parses(
    next: RunState,
    action: RunAction,
    custom: Seq<Seq<char>>,
    list: Seq<ServiceInfo>,
    target: Option<int>,
) -> bool {
    let goal = match target {
        Some(i) => Some(list[i].name@),
        None => None,
    };
    &&& next matches RunState::Parsing { list: kept, described: t } && kept@ == list && place_of(t)
        == target
    &&& action matches RunAction::Parse(commands) && commands_of(commands@) == service_commands(
        custom,
        services_of(list),
        goal,
        list.len() as int,
    )
}

/// The path of the chosen command, as its segments.
pub open spec fn leaf_path(path: Seq<String>) -> Seq<Seq<char>> {
    words(spaced(texts(path)))
}

/// Whether the step from one state to the next is the right one.
pub open spec fn stepped<W>(
    run: RunModel<W>,
    info: CliInfo,
    state: RunState,
    event: RunEvent,
    next: RunState,
    action: RunAction,
) -> bool {
    let custom = run.client.custom_commands;
    let color = run.output.color();
    match (state, event) {
        (RunState::Start, RunEvent::Begin) => {
            let first = deciding_argument(run.argv, 1);
            if run.header_error is Some {
                ends_with(next, action, run.header_error->0)
            } else if first == "-V"@ || first == "--version"@ {
                &&& next is Done
                &&& action matches RunAction::Return(Ok(Some(line))) && line@ == info.version_line(
                    run.client.bin_name,
                ).push('\n')
            } else if looks_up(first, custom) {
                &&& next matches RunState::Listing { first_arg } && first_arg@ == first
                &&& action is ListServices
            } else {
                parses(next, action, custom, Seq::empty(), None)
            }
        },
        (RunState::Listing { first_arg }, RunEvent::Listed(Ok(list))) => {
            ||| {
                &&& next matches RunState::Describing { list: kept, target } && kept == list
                    && is_meant(services_of(list@), first_arg@, Some(target as int))
                    && target < list@.len() && (action matches RunAction::DescribeService(name)
                    && name@ == list@[target as int].name@)
            }
            ||| {
                &&& is_meant(services_of(list@), first_arg@, None)
                &&& parses(next, action, custom, list@, None)
            }
        },
        (RunState::Listing { .. }, RunEvent::Listed(Err(error))) => ends_with(next, action, error),
        (RunState::Describing { list, target }, RunEvent::Described(Ok(_))) => parses(
            next,
            action,
            custom,
            list@,
            Some(target as int),
        ),
        (RunState::Describing { .. }, RunEvent::Described(Err(error))) => ends_with(
            next,
            action,
            error,
        ),
        (RunState::Parsing { .. }, RunEvent::Parsed { path }) => {
            let chosen = if path@.len() == 0 {
                None
            } else {
                Some(path@[0]@)
            };
            &&& next == RunState::Running { path }
            &&& action matches RunAction::Handle(who) && handled_by(chosen, custom, who)
        },
        (RunState::Parsing { list, described }, RunEvent::Refused { failure, recognised }) => {
            let segs = words(recognised@);
            if failure.is_help && described is Some && segs.len() > 0 && segs[0]
                == list@[described->0 as int].name@ {
                &&& next == RunState::Helping { failure }
                &&& action matches RunAction::FindDocument { service, node } && service@ == segs[0]
                    && texts(node@) == segs.skip(1)
            } else {
                &&& next is Done
                &&& action matches RunAction::Return(r) && refused_result(failure, None, color, r)
            }
        },
        (RunState::Helping { failure }, RunEvent::Documented(Ok(doc))) => {
            &&& next is Done
            &&& action matches RunAction::Return(r) && refused_result(
                failure,
                optional_text(doc),
                color,
                r,
            )
        },
        (RunState::Helping { .. }, RunEvent::Documented(Err(error))) => ends_with(
            next,
            action,
            error,
        ),
        (RunState::Running { .. }, RunEvent::Handled { result: Ok(_), .. }) => {
            next is Done && action == RunAction::Return(Ok(None))
        },
        (RunState::Running { path }, RunEvent::Handled { result: Err(error), tree }) => {
            if asks_for_help(error) {
                &&& next is Done
                &&& action matches RunAction::Return(
                    Err(Error::CliOutput { code, message, source }),
                ) && code == 2 && source is None && message@ == rendered(
                    help_text(leaf(tree, leaf_path(path@)).help@, Some(error.message_spec())),
                    color,
                )
            } else {
                ends_with(next, action, error)
            }
        },
        _ => false,
    }
}

impl<'a, W> CliRun<'a, W> {
    /// One step of the run: what is done next, and the state that waits for
    /// what comes back of it. The first step takes the error of a wrong header
    /// out of the run, if there is one, and ends with it.
    pub fn step(&mut self, info: &CliInfo, state: RunState, event: RunEvent) -> (r: (
        RunState,
        RunAction,
    ))
        requires
            fits(state, event),
        ensures
            state_ok(r.0),
            stepped(old(self)@, *info, state, event, r.0, r.1),
            final(self)@ == (if state is Start {
                RunModel { header_error: None, ..old(self)@ }
            } else {
                old(self)@
            }),
    {
        let custom = command_names(self.client.custom_commands());
        match (state, event) {
            (RunState::Start, RunEvent::Begin) => match self.take_header_error() {
                Some(error) => (RunState::Done, RunAction::Return(Err(error))),
                None => self.begin(info, &custom),
            },
            (RunState::Listing { first_arg }, RunEvent::Listed(result)) => match result {
                Ok(list) => match find_service_by_name(&list, first_arg.as_str()) {
                    Some(target) => {
                        let name = list[target].name.clone();
                        (RunState::Describing { list, target }, RunAction::DescribeService(name))
                    },
                    None => {
                        let commands = build_root_cmd(&custom, &list, None);
                        (RunState::Parsing { list, described: None }, RunAction::Parse(commands))
                    },
                },
                Err(error) => (RunState::Done, RunAction::Return(Err(error))),
            },
            (RunState::Describing { list, target }, RunEvent::Described(result)) => match result {
                Ok(_) => {
                    let commands = build_root_cmd(&custom, &list, Some(list[target].name.as_str()));
                    (RunState::Parsing { list, described: Some(target) }, RunAction::Parse(commands))
                },
                Err(error) => (RunState::Done, RunAction::Return(Err(error))),
            },
            (RunState::Parsing { .. }, RunEvent::Parsed { path }) => {
                let who: Dispatch = if path.len() == 0 {
                    dispatch(None, &custom)
                } else {
                    dispatch(Some(path[0].as_str()), &custom)
                };
                (RunState::Running { path }, RunAction::Handle(who))
            },
            (RunState::Parsing { list, described }, RunEvent::Refused { failure, recognised }) => {
                let segs = path_segments(recognised.as_str());
                if failure.is_help {
                    if let Some(i) = described {
                        let node = remote_doc_node(Some(list[i].name.as_str()), true, &segs);
                        if let Some(node) = node {
                            let service = list[i].name.clone();
                            return (
                                RunState::Helping { failure },
                                RunAction::FindDocument { service, node },
                            );
                        }
                    }
                }
                (RunState::Done, RunAction::Return(self.refuse(failure, None)))
            },
            (RunState::Helping { failure }, RunEvent::Documented(result)) => match result {
                Ok(doc) => (RunState::Done, RunAction::Return(self.refuse(failure, doc))),
                Err(error) => (RunState::Done, RunAction::Return(Err(error))),
            },
            (RunState::Running { path }, RunEvent::Handled { result, tree }) => match result {
                Ok(_) => (RunState::Done, RunAction::Return(Ok(None))),
                Err(error) => (
                    RunState::Done,
                    RunAction::Return(Err(self.conclude(error, &path, &tree))),
                ),
            },
            _ => (RunState::Done, RunAction::Return(Ok(None))),
        }
    }

    /// The first step of a run whose headers are in order.
    fn begin(&self, info: &CliInfo, custom: &Vec<String>) -> (r: (RunState, RunAction))
        requires
            self@.header_error is None,
            texts(custom@) == self@.client.custom_commands,
        ensures
            state_ok(r.0),
            stepped(self@, *info, RunState::Start, RunEvent::Begin, r.0, r.1),
    {
        let first_arg = first_argument(&self.argv);
        if is_version_request(first_arg.as_str()) {
            let line = self.output.print(info.display_with_name(self.client.bin_name()).as_str());
            return (RunState::Done, RunAction::Return(Ok(Some(line))));
        }
        if needs_services(first_arg.as_str(), custom) {
            return (RunState::Listing { first_arg }, RunAction::ListServices);
        }
        let list: Vec<ServiceInfo> = Vec::new();
        let commands = build_root_cmd(custom, &list, None);
        assert(list@ =~= Seq::empty());
        (RunState::Parsing { list, described: None }, RunAction::Parse(commands))
    }

    /// What becomes of a command line that was not accepted.
    fn refuse(&self, failure: ParseFailure, remote_doc: Option<String>) -> (r: Result<
        Option<String>,
        Error,
    >)
        ensures
            refused_result(failure, optional_text(remote_doc), self@.output.color(), r),
    {
        let doc: Option<&str> = match &remote_doc {
            Some(text) => Some(text.as_str()),
            None => None,
        };
        match self.output.handle_parse_error(failure, doc) {
            Ok(line) => Ok(Some(line)),
            Err(error) => Err(error),
        }
    }

    /// What becomes of a command's error: a usage error with the help of the
    /// command where the server asks for it.
    fn conclude(&self, error: Error, path: &Vec<String>, tree: &CommandTree) -> (r: Error)
        ensures
            if asks_for_help(error) {
                r matches Error::CliOutput { code, message, source } && code == 2 && source is None
                    && message@ == rendered(
                    help_text(leaf(*tree, leaf_path(path@)).help@, Some(error.message_spec())),
                    self@.output.color(),
                )
            } else {
                r == error
            },
    {
        let segs = path_segments(extract_subcmd_path(path).as_str());
        let message = error.message();
        let help = self.output.render_leaf_help(tree, &segs, Some(message.as_str()));
        super::execute::finish(error, help.as_str())
    }
}

/// How many steps a run can still take.
pub open spec fn steps_left(state: RunState) -> nat {
    match state {
        RunState::Start => 5,
        RunState::Listing { .. } => 4,
        RunState::Describing { .. } => 3,
        RunState::Parsing { .. } => 2,
        RunState::Helping { .. } => 1,
        RunState::Running { .. } => 1,
        RunState::Done => 0,
    }
}

/// Every run ends: each step brings it nearer to its end, and it is over
/// exactly where a result is returned.
pub proof fn run_ends<W>(
    run: RunModel<W>,
    info: CliInfo,
    state: RunState,
    event: RunEvent,
    next: RunState,
    action: RunAction,
)
    requires
        fits(state, event),
        stepped(run, info, state, event, next, action),
    ensures
        steps_left(next) < steps_left(state),
        next is Done <==> action is Return,
{
}

/// The built-in commands, those of the caller's own and a request for the
/// version never ask the server for anything on their way: no service is
/// listed, no schema fetched and no document looked up.
pub proof fn own_commands_stay_offline<W>(
    run: RunModel<W>,
    info: CliInfo,
    next: RunState,
    action: RunAction,
    event: RunEvent,
    next2: RunState,
    action2: RunAction,
)
    requires
        ({
            let first = deciding_argument(run.argv, 1);
            first == "-V"@ || first == "--version"@ || builtin_names().contains(first)
                || run.client.custom_commands.contains(first)
        }),
        stepped(run, info, RunState::Start, RunEvent::Begin, next, action),
        next !is Done ==> fits(next, event) && stepped(run, info, next, event, next2, action2),
    ensures
        action is Parse || action is Return,
        action is Parse ==> action2 is Handle || action2 is Return,
{
}

/// A wrong header ends the run before anything else is looked at: nothing is
/// asked of the server, no argument is read, and the error is the header's.
pub proof fn wrong_header_ends_the_run<W>(
    run: RunModel<W>,
    info: CliInfo,
    next: RunState,
    action: RunAction,
)
    requires
        run.header_error is Some,
        stepped(run, info, RunState::Start, RunEvent::Begin, next, action),
    ensures
        next is Done,
        action == RunAction::Return(Err(run.header_error->0)),
{
}

/// A request for the version is answered at once, with one line: whatever else
/// the arguments are.
pub proof fn version_is_answered_at_once<W>(
    run: RunModel<W>,
    info: CliInfo,
    next: RunState,
    action: RunAction,
)
    requires
        run.header_error is None,
        deciding_argument(run.argv, 1) == "-V"@ || deciding_argument(run.argv, 1) == "--version"@,
        stepped(run, info, RunState::Start, RunEvent::Begin, next, action),
    ensures
        next is Done,
        action matches RunAction::Return(Ok(Some(line))) && line@ == info.version_line(
            run.client.bin_name,
        ) + seq!['\n'],
{
    let line = info.version_line(run.client.bin_name);
    assert(line.push('\n') =~= line + seq!['\n']);
}

/// Every other run whose command is neither built in nor the caller's own
/// starts with listing the services; the others are parsed at once, without
/// any service.
pub proof fn run_starts_with_the_services<W>(
    run: RunModel<W>,
    info: CliInfo,
    next: RunState,
    action: RunAction,
)
    requires
        run.header_error is None,
        deciding_argument(run.argv, 1) != "-V"@,
        deciding_argument(run.argv, 1) != "--version"@,
        stepped(run, info, RunState::Start, RunEvent::Begin, next, action),
    ensures
        ({
            let first = deciding_argument(run.argv, 1);
            let own = first == "cache"@ || first == "schema"@
                || run.client.custom_commands.contains(first);
            &&& !own ==> action is ListServices && (next matches RunState::Listing { first_arg }
                && first_arg@ == first)
            &&& own ==> (action matches RunAction::Parse(commands) && commands@.len() == 0) && (
            next matches RunState::Parsing { list, described } && list@.len() == 0
                && described is None)
        }),
{
    let first = deciding_argument(run.argv, 1);
    let names = builtin_names();
    assert(names[0] == "cache"@ && names[1] == "schema"@);
    if names.contains(first) || run.client.custom_commands.contains(first) {
        if let RunAction::Parse(commands) = action {
            assert(commands_of(commands@).len() == commands@.len());
        }
    }
}

/// Of the listed services, the schema of the one that is meant is fetched; where
/// none is meant, the arguments are parsed against all of them, without a
/// schema. With the schema, they are parsed against the same list, in which the
/// service has its schema.
pub proof fn meant_service_is_described<W>(
    run: RunModel<W>,
    info: CliInfo,
    first_arg: String,
    list: Vec<ServiceInfo>,
    target: usize,
    next: RunState,
    action: RunAction,
)
    requires
        target < list@.len(),
    ensures
        stepped(
            run,
            info,
            (RunState::Listing { first_arg }),
            RunEvent::Listed(Ok(list)),
            next,
            action,
        ) ==> {
            &&& (exists|i: int|
                0 <= i < list@.len() && ((#[trigger] list@[i]).name@ == first_arg@ || texts(
                    list@[i].alias@,
                ).contains(first_arg@))) ==> (next matches RunState::Describing {
                list: kept,
                target: found,
            } && kept == list && found < list@.len() && (list@[found as int].name@ == first_arg@
                || texts(list@[found as int].alias@).contains(first_arg@)) && (
            action matches RunAction::DescribeService(name) && name@ == list@[found as int].name@))
            &&& (forall|i: int|
                0 <= i < list@.len() ==> (#[trigger] list@[i]).name@ != first_arg@ && !texts(
                    list@[i].alias@,
                ).contains(first_arg@)) ==> (action matches RunAction::Parse(commands)
                && commands_of(commands@) == service_commands(
                run.client.custom_commands,
                services_of(list@),
                None,
                list@.len() as int,
            )) && (next matches RunState::Parsing { list: kept, described } && kept@ == list@
                && described is None)
        },
        stepped(
            run,
            info,
            (RunState::Describing { list, target }),
            RunEvent::Described(Ok(())),
            next,
            action,
        ) ==> (action matches RunAction::Parse(commands) && commands_of(commands@)
            == service_commands(
            run.client.custom_commands,
            services_of(list@),
            Some(list@[target as int].name@),
            list@.len() as int,
        )) && (next matches RunState::Parsing { list: kept, described } && kept@ == list@
            && described == Some(target)),
{
    let services = services_of(list@);
    assert forall|i: int| 0 <= i < list@.len() implies (#[trigger] services[i]).name
        == list@[i].name@ && services[i].alias == texts(list@[i].alias@) by {}
    if stepped(
        run,
        info,
        RunState::Listing { first_arg },
        RunEvent::Listed(Ok(list)),
        next,
        action,
    ) {
        if exists|i: int|
            0 <= i < list@.len() && ((#[trigger] list@[i]).name@ == first_arg@ || texts(
                list@[i].alias@,
            ).contains(first_arg@)) {
            let i = choose|i: int|
                0 <= i < list@.len() && ((#[trigger] list@[i]).name@ == first_arg@ || texts(
                    list@[i].alias@,
                ).contains(first_arg@));
            assert(services[i].name == first_arg@ || services[i].alias.contains(first_arg@));
            assert(!is_meant(services, first_arg@, None));
            if let RunState::Describing { list: kept, target: found } = next {
                names_go_before_aliases(services, first_arg@, Some(found as int), i);
                assert(services[found as int].name == list@[found as int].name@);
            }
        } else {
            if next is Describing {
                let found = next->target;
                names_go_before_aliases(services, first_arg@, Some(found as int), 0);
                assert(services[found as int].name == list@[found as int].name@);
            }
        }
    }
}

/// What fails on the way ends the run with its own error, and what the command
/// itself fails with is the run's error too, but for the server's request for
/// help; a command that succeeds leaves nothing more to write.
pub proof fn failures_end_the_run<W>(
    run: RunModel<W>,
    info: CliInfo,
    state: RunState,
    event: RunEvent,
    next: RunState,
    action: RunAction,
    error: Error,
)
    requires
        fits(state, event),
        stepped(run, info, state, event, next, action),
    ensures
        event == RunEvent::Listed(Err(error)) || event == RunEvent::Described(Err(error)) || event
            == RunEvent::Documented(Err(error)) ==> next is Done && action == RunAction::Return(
            Err(error),
        ),
        event matches RunEvent::Handled { result: Ok(_), .. } ==> next is Done && action
            == RunAction::Return(Ok(None)),
        event matches RunEvent::Handled { result: Err(e), .. } ==> {
            &&& next is Done
            &&& !asks_for_help(e) ==> action == RunAction::Return(Err(e))
            &&& asks_for_help(e) ==> (action matches RunAction::Return(
                Err(Error::CliOutput { code, source, .. }),
            ) && code == 2 && source is None)
        },
{
}

/// The server's request for help is answered with the help of the command that
/// was called, behind the server's message.
pub proof fn help_of_the_called_command_is_shown<W>(
    run: RunModel<W>,
    info: CliInfo,
    path: Vec<String>,
    error: Error,
    tree: CommandTree,
    next: RunState,
    action: RunAction,
)
    requires
        asks_for_help(error),
        forall|i: int| 0 <= i < path@.len() ==> is_word((#[trigger] path@[i])@),
        stepped(
            run,
            info,
            (RunState::Running { path }),
            (RunEvent::Handled { result: Err(error), tree }),
            next,
            action,
        ),
    ensures
        action matches RunAction::Return(Err(e)) && e.message_spec() == rendered(
            help_text(leaf(tree, texts(path@)).help@, Some(error.message_spec())),
            run.output.color(),
        ),
{
    assert forall|i: int| 0 <= i < texts(path@).len() implies is_word(
        #[trigger] texts(path@)[i],
    ) by {
        assert(is_word(path@[i]@));
    }
    path_is_taken_apart_again(texts(path@));
}

/// The accepted command goes to who handles it: the first name decides.
pub proof fn accepted_command_is_handled<W>(
    run: RunModel<W>,
    info: CliInfo,
    list: Vec<ServiceInfo>,
    described: Option<usize>,
    path: Vec<String>,
    next: RunState,
    action: RunAction,
)
    requires
        stepped(
            run,
            info,
            (RunState::Parsing { list, described }),
            (RunEvent::Parsed { path }),
            next,
            action,
        ),
    ensures
        next == (RunState::Running { path }),
        action matches RunAction::Handle(who) && {
            &&& path@.len() == 0 <==> who is Missing
            &&& path@.len() > 0 ==> handled_by(
                Some(path@[0]@),
                run.client.custom_commands,
                who,
            )
        },
{
}

/// Help on a service with its schema is looked for on the server first: on the
/// service that the words start with, at the node that the others name. Every
/// other line that was not accepted is answered at once.
pub proof fn help_is_looked_for_on_the_server<W>(
    run: RunModel<W>,
    info: CliInfo,
    list: Vec<ServiceInfo>,
    described: Option<usize>,
    failure: ParseFailure,
    recognised: String,
    names: Seq<Seq<char>>,
    next: RunState,
    action: RunAction,
)
    requires
        stepped(
            run,
            info,
            (RunState::Parsing { list, described }),
            (RunEvent::Refused { failure, recognised }),
            next,
            action,
        ),
        recognised@ == spaced(names),
        forall|i: int| 0 <= i < names.len() ==> is_word(#[trigger] names[i]),
    ensures
        ({
            let asked = failure.is_help && described is Some && names.len() > 0
                && list@[described->0 as int].name@ == names[0];
            &&& asked ==> next == (RunState::Helping { failure }) && (
            action matches RunAction::FindDocument { service, node } && service@ == names[0]
                && texts(node@) == names.drop_first())
            &&& !asked ==> next is Done && (action matches RunAction::Return(r) && refused_result(
                failure,
                None,
                run.output.color(),
                r,
            ))
        }),
{
    path_is_taken_apart_again(names);
    if names.len() > 0 {
        assert(names.skip(1) =~= names.drop_first());
    }
}

/// The server's document is what is shown of help that it was asked for, and
/// the parser's own text where it has none. A line that was not accepted always
/// ends the run with a text or with an error.
pub proof fn document_is_shown<W>(
    run: RunModel<W>,
    info: CliInfo,
    failure: ParseFailure,
    doc: Option<String>,
    next: RunState,
    action: RunAction,
)
    requires
        stepped(
            run,
            info,
            (RunState::Helping { failure }),
            RunEvent::Documented(Ok(doc)),
            next,
            action,
        ),
        failure.is_help,
    ensures
        next is Done,
        ({
            let shown = match doc {
                Some(text) => text@,
                None => failure.text@,
            };
            action matches RunAction::Return(r) && match r {
                Ok(Some(line)) => !failure.use_stderr && line@ == rendered(
                    shown,
                    run.output.color(),
                ) + seq!['\n'],
                Ok(None) => false,
                Err(error) => failure.use_stderr && error.message_spec() == rendered(
                    shown,
                    run.output.color(),
                ),
            }
        }),
{
    let color = run.output.color();
    if let RunAction::Return(r) = action {
        let remote = optional_text(doc);
        let shown = match doc {
            Some(text) => text@,
            None => failure.text@,
        };
        match r {
            Ok(Some(line)) => {
                refused_line_is_answered(failure, shown, remote, color, Ok(line));
            },
            Ok(None) => {},
            Err(error) => {
                refused_line_is_answered(failure, shown, remote, color, Err(error));
            },
        }
    }
}

} // verus!
