use std::path::Path;

use clap::Command;
use wecom::client::builder::Surroundings;
use wecom::client::custom_command::CustomCommand;
use wecom::client::run::execute::{
    build_root_cmd, dispatch, find_service_by_name, finish, first_argument, missing_subcommand,
    needs_services, post_subcmds, CommandTree, Dispatch, ServiceCommand, ServiceInfo,
};
use wecom::client::run::output::CliRunOutput;
use wecom::client::run::parse_error::{
    extract_subcmd_path, normalize_help_subcommand, path_segments, remote_doc_node,
    unrecognised_subcmd, ParseFailure,
};
use wecom::client::run::pipeline::{RunAction, RunEvent, RunState};
use wecom::client::Client;
use wecom::constants::CliInfo;
use wecom::error::{Error, Payload, UsageIssue};
use wecom::fs::path::Component;
use wecom::json::Value;

fn of_path(path: &Path) -> Vec<Component> {
    path.components()
        .map(|component| match component {
            std::path::Component::Prefix(prefix) => {
                Component::Prefix(prefix.as_os_str().to_string_lossy().into_owned())
            }
            std::path::Component::RootDir => Component::RootDir,
            std::path::Component::CurDir => Component::CurDir,
            std::path::Component::ParentDir => Component::ParentDir,
            std::path::Component::Normal(name) => {
                Component::Normal(name.to_string_lossy().into_owned())
            }
        })
        .collect()
}

fn comps(path: &str) -> Vec<Component> {
    of_path(Path::new(path))
}

fn to_argv(args: &[&str]) -> Vec<String> {
    args.iter().map(|s| s.to_string()).collect()
}

fn svc_info(name: &str, alias: &[&str]) -> ServiceInfo {
    ServiceInfo { name: name.to_string(), alias: to_argv(alias) }
}

fn info() -> CliInfo {
    CliInfo::new("linux/x86_64", "2026-08-05T03:47:03Z", "a1b2c3d", "1.1.0", None)
}

fn client_with(commands: &[&str]) -> Client {
    let mut builder = Client::builder().config_dir(comps("/isolated"));
    for name in commands {
        builder = builder.command(CustomCommand::new(name));
    }
    builder.build(Surroundings {
        home_dir: None,
        current_dir: None,
        temp_dir: comps("/tmp"),
        cli_info: String::new(),
    })
}

fn output() -> CliRunOutput<Vec<u8>> {
    CliRunOutput::new(Vec::new())
}

fn begin() -> RunEvent {
    RunEvent::Begin
}

fn clap_tree(infos: &[ServiceInfo], commands: &[ServiceCommand]) -> Command {
    let mut root = Command::new("wecom");
    for command in commands {
        let mut sub = Command::new(infos[command.service].name.clone())
            .arg(clap::Arg::new("doc").long("doc").action(clap::ArgAction::SetTrue));
        for alias in &command.aliases {
            sub = sub.alias(alias.clone());
        }
        if command.with_schema {
            sub = sub.subcommand(Command::new("list"));
        }
        root = root.subcommand(sub);
    }
    root
}

fn tree_of(command: &Command) -> CommandTree {
    CommandTree {
        name: command.get_name().to_string(),
        aliases: command.get_all_aliases().map(str::to_string).collect(),
        help: command.clone().render_help().ansi().to_string(),
        children: command.get_subcommands().map(tree_of).collect(),
    }
}

fn failure(kind: clap::error::ErrorKind, text: &str) -> ParseFailure {
    let error = clap::Error::raw(kind, text);
    ParseFailure {
        is_help: matches!(
            kind,
            clap::error::ErrorKind::DisplayHelp
                | clap::error::ErrorKind::DisplayHelpOnMissingArgumentOrSubcommand
        ),
        use_stderr: error.use_stderr(),
        text: error.render().ansi().to_string(),
        issue: UsageIssue {
            invalid_subcommand: kind == clap::error::ErrorKind::InvalidSubcommand,
            description: kind.as_str().map(str::to_string),
        },
    }
}

#[test]
fn normalize_help_subcommand_keeps_help_after_flag() {
    let argv = to_argv(&["wecom", "--help", "help", "svc"]);
    let got = normalize_help_subcommand(&argv);
    assert_eq!(got, argv);
}

#[test]
fn normalize_help_subcommand_drops_one_help() {
    assert_eq!(
        normalize_help_subcommand(&to_argv(&["wecom", "hr", "help", "department"])),
        ["wecom", "hr", "department"]
    );
    assert_eq!(
        normalize_help_subcommand(&to_argv(&["wecom", "help", "svc", "help"])),
        ["wecom", "svc", "help"]
    );
    assert_eq!(normalize_help_subcommand(&to_argv(&["help", "svc"])), ["help", "svc"]);
    assert!(normalize_help_subcommand(&[]).is_empty());
}

#[test]
fn leaf_help_without_api_error_renders_leaf_subcommand() {
    let cmd = Command::new("wecom").subcommand(
        Command::new("svc").subcommand(
            Command::new("list").about("List items").arg(clap::Arg::new("id").long("id")),
        ),
    );
    let out = output().render_leaf_help(&tree_of(&cmd), &to_argv(&["svc", "list"]), None);
    assert!(out.contains("List items"), "expect leaf help body: {out}");
    assert!(out.contains("--id"), "expect leaf arg help: {out}");
    assert!(!out.contains("error:"), "no error prefix expected: {out}");
}

#[test]
fn leaf_help_unknown_segment_falls_back_to_matched_level() {
    let cmd = Command::new("wecom")
        .subcommand(Command::new("svc").about("A service").subcommand(Command::new("list")));
    let out = output().render_leaf_help(&tree_of(&cmd), &to_argv(&["svc", "nope"]), None);
    assert!(out.contains("A service"), "expect svc-level help: {out}");
}

#[test]
fn leaf_help_starts_with_the_error() {
    let tree = CommandTree {
        name: "wecom".to_string(),
        aliases: Vec::new(),
        help: "\u{1b}[4mUsage\u{1b}[0m".to_string(),
        children: Vec::new(),
    };
    let plain = output().render_leaf_help(&tree, &[], Some("unknown field"));
    assert_eq!(plain, "error: unknown field\n\nUsage");
    let colored = output().force_color(true).render_leaf_help(&tree, &[], Some("unknown field"));
    let red = anstyle::Style::new()
        .fg_color(Some(anstyle::Color::Ansi(anstyle::AnsiColor::Red)))
        .bold();
    assert_eq!(
        colored,
        format!(
            "{}error:{} unknown field\n\n\u{1b}[4mUsage\u{1b}[0m",
            red.render(),
            red.render_reset()
        )
    );
}

#[test]
fn build_root_cmd_registers_alias_regardless_of_target() {
    let infos = vec![svc_info("hr", &["human-resources"]), svc_info("doc", &[])];
    let commands = build_root_cmd(&[], &infos, Some("hr"));
    let mut cmd = clap_tree(&infos, &commands);
    let hr = cmd.find_subcommand("hr").unwrap();
    assert!(hr.get_all_aliases().any(|a| a == "human-resources"));
    let matches = cmd.try_get_matches_from_mut(["wecom", "human-resources", "--doc"]).unwrap();
    assert_eq!(matches.subcommand().map(|(name, _)| name), Some("hr"));
}

#[test]
fn build_root_cmd_alias_resolves_into_schema_methods() {
    let infos = vec![svc_info("hr", &["human-resources"])];
    let mut cmd = clap_tree(&infos, &build_root_cmd(&[], &infos, Some("hr")));
    let matches = cmd.try_get_matches_from_mut(["wecom", "human-resources", "list"]).unwrap();
    let (name, sub_matches) = matches.subcommand().unwrap();
    assert_eq!(name, "hr");
    assert_eq!(sub_matches.subcommand().map(|(n, _)| n), Some("list"));
}

#[test]
fn build_root_cmd_skips_alias_equal_to_canonical_name() {
    let infos = vec![svc_info("hr", &["hr"])];
    let cmd = clap_tree(&infos, &build_root_cmd(&[], &infos, Some("hr")));
    assert_eq!(cmd.find_subcommand("hr").unwrap().get_all_aliases().count(), 0);
}

#[test]
fn build_root_cmd_skips_alias_conflicting_with_other_service_name() {
    let infos = vec![svc_info("a", &["b"]), svc_info("b", &[])];
    let cmd = clap_tree(&infos, &build_root_cmd(&[], &infos, Some("b")));
    assert_eq!(cmd.find_subcommand("a").unwrap().get_all_aliases().count(), 0);
    assert!(cmd.find_subcommand("b").is_some());
}

#[test]
fn build_root_cmd_dedupes_alias_across_services() {
    let infos = vec![svc_info("s1", &["x"]), svc_info("s2", &["x"])];
    let cmd = clap_tree(&infos, &build_root_cmd(&[], &infos, None));
    assert!(cmd.find_subcommand("s1").unwrap().get_all_aliases().any(|a| a == "x"));
    assert_eq!(cmd.find_subcommand("s2").unwrap().get_all_aliases().count(), 0);
}

#[test]
fn build_root_cmd_alias_hidden_from_root_help() {
    let infos = vec![svc_info("hr", &["human-resources"])];
    let mut cmd = clap_tree(&infos, &build_root_cmd(&[], &infos, None));
    let help = cmd.render_help().to_string();
    assert!(help.contains("hr"), "expect canonical name in help: {help}");
    assert!(
        !help.contains("human-resources"),
        "alias should not appear in root help: {help}"
    );
}

#[test]
fn build_root_cmd_schema_only_applies_to_target_service() {
    let infos = vec![svc_info("hr", &[]), svc_info("doc", &[])];
    let cmd = clap_tree(&infos, &build_root_cmd(&[], &infos, Some("hr")));
    assert!(cmd.find_subcommand("hr").unwrap().find_subcommand("list").is_some());
    assert!(cmd.find_subcommand("doc").unwrap().find_subcommand("list").is_none());
}

#[test]
fn services_with_the_name_of_an_own_command_are_left_out() {
    let infos = vec![svc_info("svc", &["auth", "cache", "s", "s"]), svc_info("svc2", &[])];
    let commands = build_root_cmd(&to_argv(&["svc2", "auth"]), &infos, Some("svc"));
    assert_eq!(commands.len(), 1);
    assert_eq!(commands[0].service, 0);
    assert!(commands[0].with_schema);
    assert_eq!(commands[0].aliases, ["s"]);
}

#[test]
fn a_service_is_found_by_its_name_before_any_alias() {
    let infos = vec![svc_info("a", &["b", "c"]), svc_info("b", &["c"])];
    assert_eq!(find_service_by_name(&infos, "b"), Some(1));
    assert_eq!(find_service_by_name(&infos, "c"), Some(0));
    assert_eq!(find_service_by_name(&infos, "d"), None);
}

#[test]
fn the_deciding_argument_is_the_first_that_is_no_flag() {
    assert_eq!(first_argument(&to_argv(&["wecom", "--verbose", "hr", "list"])), "hr");
    assert_eq!(first_argument(&to_argv(&["wecom", "--verbose", "-V", "hr"])), "-V");
    assert_eq!(first_argument(&to_argv(&["wecom", "-x"])), "");
    assert_eq!(first_argument(&[]), "");
    assert_eq!(post_subcmds(), ["cache", "schema"]);
    assert!(!needs_services("cache", &[]));
    assert!(!needs_services("auth", &to_argv(&["auth"])));
    assert!(needs_services("hr", &to_argv(&["auth"])));
}

#[test]
fn commands_are_handed_to_who_handles_them() {
    let custom = to_argv(&["auth", "cache", "auth"]);
    assert_eq!(dispatch(Some("cache"), &custom), Dispatch::Cache);
    assert_eq!(dispatch(Some("schema"), &custom), Dispatch::Schema);
    assert_eq!(dispatch(Some("auth"), &custom), Dispatch::Custom(0));
    assert_eq!(dispatch(Some("hr"), &custom), Dispatch::Service);
    assert_eq!(dispatch(None, &custom), Dispatch::Missing);
    assert_eq!(missing_subcommand().message(), "Missing subcommand");
}

#[test]
fn paths_of_subcommands_are_put_together_and_taken_apart() {
    assert_eq!(extract_subcmd_path(&to_argv(&["contact", "users", "search"])), "contact users search");
    assert_eq!(extract_subcmd_path(&[]), "");
    assert_eq!(path_segments("contact users search"), ["contact", "users", "search"]);
    assert_eq!(path_segments(" a  b "), ["a", "b"]);
    assert!(path_segments("").is_empty());
    assert_eq!(unrecognised_subcmd("hr department", Some("lst")), "hr department lst");
    assert_eq!(unrecognised_subcmd("hr", Some("")), "hr");
    assert_eq!(unrecognised_subcmd("hr", None), "hr");
}

#[test]
fn documents_are_looked_up_for_nodes_of_the_service() {
    let segs = to_argv(&["svc", "list"]);
    assert_eq!(remote_doc_node(Some("svc"), true, &segs), Some(to_argv(&["list"])));
    assert_eq!(remote_doc_node(Some("svc"), true, &to_argv(&["svc"])), Some(Vec::new()));
    assert_eq!(remote_doc_node(Some("hr"), true, &to_argv(&["other"])), None);
    assert_eq!(remote_doc_node(None, true, &segs), None);
    assert_eq!(remote_doc_node(Some("svc"), false, &segs), None);
    assert_eq!(remote_doc_node(Some("svc"), true, &[]), None);
}

#[test]
fn what_was_asked_for_is_printed() {
    let shown = failure(clap::error::ErrorKind::DisplayVersion, "wecom 1.2.3\n");
    let line = output().handle_parse_error(shown, None).unwrap();
    assert!(line.contains("wecom 1.2.3"));
    let help = failure(clap::error::ErrorKind::DisplayHelp, "help for list\n");
    let line = output().handle_parse_error(help, Some("remote help text")).unwrap();
    assert_eq!(line, "remote help text\n");
}

#[test]
fn what_was_not_asked_for_is_a_usage_error() {
    let missing = failure(
        clap::error::ErrorKind::DisplayHelpOnMissingArgumentOrSubcommand,
        "usage help\n",
    );
    let error = output().handle_parse_error(missing, None).unwrap_err();
    assert!(matches!(&error, Error::CliOutput { code: 2, message, .. } if message.contains("usage help")));
    let invalid = failure(clap::error::ErrorKind::InvalidSubcommand, "invalid subcommand\n");
    let error = output().handle_parse_error(invalid, Some("no help was wanted")).unwrap_err();
    assert!(matches!(
        &error,
        Error::CliOutput { code: 2, message, source: Some(issue) }
            if message.contains("invalid subcommand") && issue.invalid_subcommand
    ));
    assert_eq!(error.code(), 893002);
}

#[test]
fn an_answer_that_asks_for_help_becomes_a_usage_error() {
    let api = |code| {
        Error::Wrapped(Payload::Api {
            message: "unknown field".to_string(),
            action: "a".to_string(),
            code,
            body: Value::Null,
        })
    };
    assert!(matches!(
        finish(api(Some(10021)), "help"),
        Error::CliOutput { code: 2, message, source: None } if message == "help"
    ));
    assert_eq!(finish(api(Some(40001)), "help").code(), 40001);
    assert_eq!(finish(Error::other("x"), "help").message(), "x");
}

#[test]
fn a_request_for_the_version_is_answered_at_once() {
    let client = client_with(&[]);
    for flag in ["-V", "--version"] {
        let mut run = client.run(to_argv(&["wecom", flag]), output());
        let (state, action) = run.step(&info(), RunState::Start, begin());
        assert!(matches!(state, RunState::Done));
        let RunAction::Return(Ok(Some(line))) = action else {
            panic!("{action:?}");
        };
        assert_eq!(line, "wecom 1.1.0 (unknown 2026-08-05T03:47:03Z a1b2c3d)\n");
    }
}

#[test]
fn a_wrong_header_ends_the_run_before_it_begins() {
    let client = client_with(&[]);
    let mut run = client
        .run(to_argv(&["wecom", "-V"]), output())
        .with_header_error(Error::other("bad header"));
    let (_, action) = run.step(&info(), RunState::Start, begin());
    assert!(matches!(action, RunAction::Return(Err(error)) if error.message() == "bad header"));
}

#[test]
fn own_commands_ask_the_server_for_nothing() {
    let client = client_with(&["auth"]);
    for (name, who) in [
        ("cache", Dispatch::Cache),
        ("schema", Dispatch::Schema),
        ("auth", Dispatch::Custom(0)),
    ] {
        let mut run = client.run(to_argv(&["wecom", name]), output());
        let (state, action) = run.step(&info(), RunState::Start, begin());
        assert!(matches!(action, RunAction::Parse(commands) if commands.is_empty()));
        let (state, action) =
            run.step(&info(), state, RunEvent::Parsed { path: to_argv(&[name, "sub"]) });
        assert!(matches!(action, RunAction::Handle(chosen) if chosen == who));
        let tree = tree_of(&Command::new("wecom"));
        let (state, action) =
            run.step(&info(), state, RunEvent::Handled { result: Ok(()), tree });
        assert!(matches!(state, RunState::Done));
        assert!(matches!(action, RunAction::Return(Ok(None))));
    }
}

#[test]
fn a_service_goes_through_every_step() {
    let client = client_with(&["svc2"]);
    let mut run = client.run(to_argv(&["wecom", "human-resources", "list"]), output());
    let (state, action) = run.step(&info(), RunState::Start, begin());
    assert!(matches!(action, RunAction::ListServices));
    let list = vec![svc_info("svc2", &[]), svc_info("hr", &["human-resources"])];
    let (state, action) = run.step(&info(), state, RunEvent::Listed(Ok(list)));
    assert!(matches!(action, RunAction::DescribeService(name) if name == "hr"));
    let (state, action) = run.step(&info(), state, RunEvent::Described(Ok(())));
    let RunAction::Parse(commands) = action else {
        panic!("{action:?}");
    };
    assert_eq!(commands.len(), 1);
    assert!(commands[0].with_schema);
    let (state, action) =
        run.step(&info(), state, RunEvent::Parsed { path: to_argv(&["hr", "list"]) });
    assert!(matches!(action, RunAction::Handle(Dispatch::Service)));
    let cmd = Command::new("wecom").subcommand(
        Command::new("hr").subcommand(Command::new("list").about("List items")),
    );
    let answer = Error::Wrapped(Payload::Api {
        message: "unknown field".to_string(),
        action: "a".to_string(),
        code: Some(10021),
        body: Value::Null,
    });
    let event = RunEvent::Handled { result: Err(answer), tree: tree_of(&cmd) };
    let (_, action) = run.step(&info(), state, event);
    let RunAction::Return(Err(Error::CliOutput { code: 2, message, source: None })) = action else {
        panic!("{action:?}");
    };
    assert!(message.starts_with("error: unknown field\n\n"));
    assert!(message.contains("List items"));
}

#[test]
fn errors_on_the_way_end_the_run() {
    let client = client_with(&[]);
    let mut run = client.run(to_argv(&["wecom", "hr"]), output());
    let (state, _) = run.step(&info(), RunState::Start, begin());
    let (state, action) = run.step(&info(), state, RunEvent::Listed(Err(Error::other("offline"))));
    assert!(matches!(state, RunState::Done));
    assert!(matches!(action, RunAction::Return(Err(error)) if error.message() == "offline"));
    let state = RunState::Describing { list: vec![svc_info("hr", &[])], target: 0 };
    let (_, action) = run.step(&info(), state, RunEvent::Described(Err(Error::other("gone"))));
    assert!(matches!(action, RunAction::Return(Err(error)) if error.message() == "gone"));
}

#[test]
fn help_for_a_service_asks_for_its_document() {
    let client = client_with(&[]);
    let mut run = client.run(to_argv(&["wecom", "svc", "list", "--help"]), output());
    let parsing =
        || RunState::Parsing { list: vec![svc_info("svc", &[])], described: Some(0) };
    let refused = |kind, recognised: &str| RunEvent::Refused {
        failure: failure(kind, "help for list"),
        recognised: recognised.to_string(),
    };
    let kind = clap::error::ErrorKind::DisplayHelp;
    let (state, action) = run.step(&info(), parsing(), refused(kind, "svc list"));
    assert!(matches!(
        action,
        RunAction::FindDocument { service, node } if service == "svc" && node == ["list"]
    ));
    let (_, action) =
        run.step(&info(), state, RunEvent::Documented(Ok(Some("remote help text".to_string()))));
    assert!(matches!(action, RunAction::Return(Ok(Some(text))) if text == "remote help text\n"));

    let (state, _) = run.step(&info(), parsing(), refused(kind, "svc list"));
    let (_, action) = run.step(&info(), state, RunEvent::Documented(Ok(None)));
    assert!(matches!(action, RunAction::Return(Ok(Some(text))) if text.contains("help for list")));

    let (state, _) = run.step(&info(), parsing(), refused(kind, "svc list"));
    let (_, action) =
        run.step(&info(), state, RunEvent::Documented(Err(Error::other("no answer"))));
    assert!(matches!(action, RunAction::Return(Err(error)) if error.message() == "no answer"));

    let (_, action) = run.step(&info(), parsing(), refused(kind, "other"));
    assert!(matches!(action, RunAction::Return(Ok(Some(_)))));
    let kind = clap::error::ErrorKind::InvalidSubcommand;
    let (_, action) = run.step(&info(), parsing(), refused(kind, "svc list"));
    assert!(matches!(action, RunAction::Return(Err(Error::CliOutput { code: 2, .. }))));
}

#[test]
fn a_wrong_header_is_told_once_and_goes_before_everything() {
    let client = client_with(&[]);
    for args in [vec!["wecom", "cache"], vec!["wecom"], vec!["wecom", "hr"]] {
        let mut run =
            client.run(to_argv(&args), output()).with_header_error(Error::other("bad header"));
        let (state, action) = run.step(&info(), RunState::Start, begin());
        assert!(matches!(state, RunState::Done));
        match action {
            RunAction::Return(Err(error)) => assert_eq!(error.message(), "bad header"),
            _ => panic!("the header is wrong"),
        }
        assert!(run.take_header_error().is_none());
    }
}
