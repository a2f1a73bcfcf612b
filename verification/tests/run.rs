use std::io::Write;
use std::path::Path;
use std::sync::{Arc, Mutex};

use wecom::client::builder::{FsPolicy, Surroundings};
use wecom::client::run::output::CliRunOutput;
use wecom::client::run::CliRun;
use wecom::client::Client;
use wecom::error::Error;
use wecom::fs::path::Component;

fn of_path(path: &Path) -> Vec<Component> {
    path.components()
        .map(|component| match component {
            std::path::Component::Prefix(prefix) => {
                Component::Prefix(prefix.as_os_str().to_string_lossy().into_owned())
            }
            std::path::Component::RootDir => Component::RootDir,
            std::path::Component::CurDir => Component::CurDir,
            std::path::Component::ParentDir => Component::ParentDir,
            std::path::Component::Normal(name) => {
                Component::Normal(name.to_string_lossy().into_owned())
            }
        })
        .collect()
}

fn comps(path: &str) -> Vec<Component> {
    of_path(Path::new(path))
}

fn surroundings() -> Surroundings {
    Surroundings {
        home_dir: Some(comps("/home/user")),
        current_dir: Some(comps("/home/user/work")),
        temp_dir: comps("/tmp"),
        cli_info: String::new(),
    }
}

fn build_isolated_client() -> Client {
    Client::builder().home_dir(comps("/isolated")).cwd(comps("/isolated")).build(surroundings())
}

fn run_of(client: &Client) -> CliRun<'_, Vec<u8>> {
    client.run(vec!["test".to_string()], CliRunOutput::new(Vec::new()))
}

#[derive(Clone)]
struct SharedBuf(Arc<Mutex<Vec<u8>>>);

impl SharedBuf {
    fn new() -> Self {
        Self(Arc::new(Mutex::new(Vec::new())))
    }
    fn contents(&self) -> String {
        String::from_utf8_lossy(&self.0.lock().unwrap()).to_string()
    }
}

impl Write for SharedBuf {
    fn write(&mut self, buf: &[u8]) -> std::io::Result<usize> {
        self.0.lock().unwrap().write(buf)
    }
    fn flush(&mut self) -> std::io::Result<()> {
        Ok(())
    }
}

fn write_out<W: Write>(output: &CliRunOutput<W>, text: &str) {
    output.writer().lock().unwrap().write_all(text.as_bytes()).unwrap();
}

#[test]
fn run_new_custom_writer_disables_color() {
    let output = CliRunOutput::new(Vec::<u8>::new());
    assert!(!output.is_force_color());
}

#[test]
fn tests_new_custom_writer_disables_color() {
    let output = CliRunOutput::new(Vec::<u8>::new());
    assert!(!output.is_force_color());
}

#[test]
fn run_force_color_builder_sets_flag() {
    let output = CliRunOutput::new(Vec::<u8>::new()).force_color(true);
    assert!(output.is_force_color());
}

#[test]
fn tests_force_color_builder_sets_flag() {
    let output = CliRunOutput::new(Vec::<u8>::new()).force_color(true);
    assert!(output.is_force_color());
}

#[test]
fn run_print_writes_to_custom_writer() {
    let buf = SharedBuf::new();
    let output = CliRunOutput::new(buf.clone());
    write_out(&output, &output.print("hello"));
    assert_eq!(buf.contents(), "hello\n");
}

#[test]
fn tests_print_writes_to_custom_writer() {
    let buf = SharedBuf::new();
    let output = CliRunOutput::new(buf.clone());
    write_out(&output, &output.print("hello"));
    assert_eq!(buf.contents(), "hello\n");
}

#[test]
fn shared_buf_flush_is_noop() {
    let mut buf = SharedBuf::new();
    assert!(std::io::Write::flush(&mut buf).is_ok());
}

#[test]
fn run_from_writer_arc_shares_reference() {
    let buf: Arc<Mutex<Box<dyn Write + Send>>> = Arc::new(Mutex::new(Box::new(std::io::sink())));
    let output = CliRunOutput::from_writer_arc(buf.clone());
    assert!(Arc::ptr_eq(output.writer(), &buf));
    assert!(!output.is_force_color());
}

#[test]
fn tests_from_writer_arc_shares_reference() {
    let buf: Arc<Mutex<Box<dyn Write + Send>>> = Arc::new(Mutex::new(Box::new(std::io::sink())));
    let output = CliRunOutput::from_writer_arc(buf.clone());
    assert!(Arc::ptr_eq(output.writer(), &buf));
    assert!(!output.is_force_color());
}

#[test]
fn stdout_and_clone_shared_share_writer() {
    for is_terminal in [false, true] {
        let output = CliRunOutput::stdout(std::io::stdout(), is_terminal);
        let shared = output.clone_shared();
        assert!(std::sync::Arc::ptr_eq(shared.writer(), output.writer()));
        assert_eq!(shared.is_force_color(), output.is_force_color());
        assert_eq!(output.is_force_color(), is_terminal);
    }
}

#[test]
fn run_debug_impl() {
    let output = CliRunOutput::new(std::io::sink());
    let debug = output.debug_text();
    assert!(debug.contains("CliRunOutput"));
    assert!(debug.contains("force_color"));
    assert_eq!(debug, "CliRunOutput { force_color: false, .. }");
}

#[test]
fn tests_debug_impl() {
    let output = CliRunOutput::new(std::io::sink());
    let debug = output.debug_text();
    assert!(debug.contains("CliRunOutput"));
    assert!(debug.contains("force_color"));
    assert_eq!(debug, "CliRunOutput { force_color: false, .. }");
}

#[test]
fn run_render_styled_strips_ansi_when_color_off() {
    let styled = clap::builder::StyledStr::from("hello");
    let output = CliRunOutput::new(Vec::<u8>::new());
    let rendered = output.render_styled(&styled.ansi().to_string());
    assert!(!rendered.contains('\u{1b}'));
    assert_eq!(rendered, "hello");
}

#[test]
fn tests_render_styled_strips_ansi_when_color_off() {
    let styled = clap::builder::StyledStr::from("hello");
    let output = CliRunOutput::new(Vec::<u8>::new());
    let rendered = output.render_styled(&styled.ansi().to_string());
    assert!(!rendered.contains('\u{1b}'));
    assert_eq!(rendered, "hello");
}

#[test]
fn run_print_styled_writes_color_aware_text() {
    let buf = SharedBuf::new();
    let output = CliRunOutput::new(buf.clone());
    write_out(&output, &output.print_styled("world"));
    assert_eq!(buf.contents(), "world\n");
    assert!(!buf.contents().contains('\u{1b}'));
}

#[test]
fn tests_print_styled_writes_color_aware_text() {
    let buf = SharedBuf::new();
    let output = CliRunOutput::new(buf.clone());
    write_out(&output, &output.print_styled("world"));
    assert_eq!(buf.contents(), "world\n");
    assert!(!buf.contents().contains('\u{1b}'));
}

#[test]
fn render_styled_forced_color_keeps_text() {
    let output = CliRunOutput::new(Vec::<u8>::new()).force_color(true);
    assert_eq!(output.render_styled("plain"), "plain");
}

#[test]
fn render_styled_preserves_ansi_when_force_color_on() {
    let bold = anstyle::Style::new().bold();
    let text = format!("{}{}{}", bold.render(), "hello", bold.render_reset());
    let output = CliRunOutput::new(Vec::<u8>::new()).force_color(true);
    let rendered = output.render_styled(&text);
    assert!(rendered.contains('\u{1b}'), "ansi preserved: {rendered:?}");
    assert_eq!(rendered, text);
}

#[test]
fn styling_is_taken_out_where_there_is_no_color() {
    let output = CliRunOutput::new(Vec::<u8>::new());
    assert_eq!(output.render_styled("\u{1b}[1m\u{1b}[31merror:\u{1b}[0m 中文"), "error: 中文");
}

#[test]
fn run_get_home_dir_defaults_to_client() {
    let client = build_isolated_client();
    let run = run_of(&client);
    assert_eq!(run.get_home_dir(), client.home_dir());
}

#[test]
fn tests_get_home_dir_defaults_to_client() {
    let client = build_isolated_client();
    let run = run_of(&client);
    assert_eq!(run.get_home_dir(), client.home_dir());
}

#[test]
fn run_get_tmp_dir_defaults_to_client() {
    let client = build_isolated_client();
    let run = run_of(&client);
    assert_eq!(run.get_tmp_dir(), client.tmp_dir());
}

#[test]
fn tests_get_tmp_dir_defaults_to_client() {
    let client = build_isolated_client();
    let run = run_of(&client);
    assert_eq!(run.get_tmp_dir(), client.tmp_dir());
}

#[test]
fn run_home_dir_override_takes_precedence() {
    let client = build_isolated_client();
    let run = run_of(&client).home_dir(comps("/custom/home"));
    assert_eq!(*run.get_home_dir(), comps("/custom/home"));
}

#[test]
fn tests_home_dir_override_takes_precedence() {
    let client = build_isolated_client();
    let run = run_of(&client).home_dir(comps("/custom/home"));
    assert_eq!(*run.get_home_dir(), comps("/custom/home"));
}

#[test]
fn run_tmp_dir_override_takes_precedence() {
    let client = build_isolated_client();
    let run = run_of(&client).tmp_dir(comps("/custom/tmp"));
    assert_eq!(*run.get_tmp_dir(), comps("/custom/tmp"));
}

#[test]
fn tests_tmp_dir_override_takes_precedence() {
    let client = build_isolated_client();
    let run = run_of(&client).tmp_dir(comps("/custom/tmp"));
    assert_eq!(*run.get_tmp_dir(), comps("/custom/tmp"));
}

#[test]
fn run_get_cache_dir_derived_from_overridden_home() {
    let client = build_isolated_client();
    let run = run_of(&client).home_dir(comps("/custom/home"));
    assert_eq!(run.get_cache_dir(), comps("/custom/home/cache"));
}

#[test]
fn tests_get_cache_dir_derived_from_overridden_home() {
    let client = build_isolated_client();
    let run = run_of(&client).home_dir(comps("/custom/home"));
    assert_eq!(run.get_cache_dir(), comps("/custom/home/cache"));
}

#[test]
fn run_get_request_storage_dir_derived_from_overridden_tmp() {
    let client = build_isolated_client();
    let run = run_of(&client).tmp_dir(comps("/custom/tmp"));
    assert_eq!(run.get_request_storage_dir(), comps("/custom/tmp/requests"));
}

#[test]
fn tests_get_request_storage_dir_derived_from_overridden_tmp() {
    let client = build_isolated_client();
    let run = run_of(&client).tmp_dir(comps("/custom/tmp"));
    assert_eq!(run.get_request_storage_dir(), comps("/custom/tmp/requests"));
}

#[test]
fn run_get_cache_dir_defaults_to_client_derived() {
    let client = build_isolated_client();
    let run = run_of(&client);
    assert_eq!(run.get_cache_dir(), client.cache_dir());
}

#[test]
fn tests_get_cache_dir_defaults_to_client_derived() {
    let client = build_isolated_client();
    let run = run_of(&client);
    assert_eq!(run.get_cache_dir(), client.cache_dir());
}

#[test]
fn run_get_request_storage_dir_defaults_to_client_derived() {
    let client = build_isolated_client();
    let run = run_of(&client);
    assert_eq!(run.get_request_storage_dir(), client.request_storage_dir());
}

#[test]
fn tests_get_request_storage_dir_defaults_to_client_derived() {
    let client = build_isolated_client();
    let run = run_of(&client);
    assert_eq!(run.get_request_storage_dir(), client.request_storage_dir());
}

#[test]
fn a_run_anchors_paths_at_its_own_directory() {
    let client = build_isolated_client();
    let run = run_of(&client);
    assert_eq!(*run.get_cwd(), comps("/isolated"));
    assert_eq!(*run.get_default_output_dir(), comps("/isolated"));
    let run = run.cwd(comps("/isolated/task"));
    assert_eq!(*run.get_cwd(), comps("/isolated/task"));
    assert_eq!(*run.get_default_output_dir(), comps("/isolated/task"));
    assert_eq!(run.get_fs().roots, client.workspace_fs().roots);
    assert_eq!(run.fs_settings().cwd, comps("/isolated/task"));
}

#[test]
fn downloads_go_where_the_client_says() {
    let client = Client::builder()
        .default_output_dir(comps("/out"))
        .readable_dirs(vec![comps("/r")])
        .build(surroundings());
    let run = run_of(&client).cwd(comps("/elsewhere"));
    assert_eq!(*run.get_default_output_dir(), comps("/out"));
    assert_eq!(run.fs_settings().readable_dirs, Some(vec![comps("/r")]));
    assert_eq!(run.fs_settings().writable_dirs, None);
    let run = run.readable_dirs(vec![comps("/r2")]).writable_dirs(vec![comps("/w")]);
    assert_eq!(run.fs_settings().readable_dirs, Some(vec![comps("/r2")]));
    assert_eq!(run.fs_settings().writable_dirs, Some(vec![comps("/w")]));
    assert_eq!(*client.readable_dirs(), Some(vec![comps("/r")]));
}

#[test]
fn a_run_may_have_another_workspace_but_not_another_configuration() {
    let client = build_isolated_client();
    let run = run_of(&client)
        .fs(FsPolicy { roots: vec![comps("/only")], recommended_deny: false })
        .home_dir(comps("/moved"));
    assert_eq!(run.get_fs().roots, [comps("/only")]);
    assert_eq!(*run.get_config_dir(), comps("/isolated"));
    assert_eq!(run.get_client().private_fs().roots, [comps("/isolated")]);
}

#[test]
fn a_run_keeps_its_arguments_its_output_and_its_header_error() {
    let client = build_isolated_client();
    let mut run = run_of(&client)
        .output(CliRunOutput::new(Vec::new()).force_color(true))
        .with_header_error(Error::other("bad header"));
    assert_eq!(*run.get_argv(), ["test"]);
    assert!(run.get_output().is_force_color());
    assert_eq!(run.take_header_error().unwrap().message(), "bad header");
    assert!(run.take_header_error().is_none());
}
