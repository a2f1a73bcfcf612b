use std::path::Path;

use wecom::builtins::upload_media::upload_response;
use wecom::client::builder::{
    default_private_fs, default_workspace_fs, ClientBuilder, FsPolicy, Surroundings, Transport,
};
use wecom::client::catalog::{Endpoint, EndpointCatalog, EndpointKey, ReqEnvelope};
use wecom::client::custom_command::{command_names, CustomCommand};
use wecom::client::Client;
use wecom::constants::MAX_UPLOAD_SIZE;
use wecom::directive::octet_stream::FormPart;
use wecom::error::{Error, Payload};
use wecom::fs::path::Component;
use wecom::json::{Number, Value};

fn of_path(path: &Path) -> Vec<Component> {
    path.components()
        .map(|component| match component {
            std::path::Component::Prefix(prefix) => {
                Component::Prefix(prefix.as_os_str().to_string_lossy().into_owned())
            }
            std::path::Component::RootDir => Component::RootDir,
            std::path::Component::CurDir => Component::CurDir,
            std::path::Component::ParentDir => Component::ParentDir,
            std::path::Component::Normal(name) => {
                Component::Normal(name.to_string_lossy().into_owned())
            }
        })
        .collect()
}

fn comps(path: &str) -> Vec<Component> {
    of_path(Path::new(path))
}

fn convert(value: &serde_json::Value) -> Value {
    match value {
        serde_json::Value::Null => Value::Null,
        serde_json::Value::Bool(b) => Value::Bool(*b),
        serde_json::Value::Number(n) => Value::Number(if let Some(n) = n.as_u64() {
            Number::PosInt(n)
        } else if let Some(n) = n.as_i64() {
            Number::NegInt(n)
        } else {
            Number::Float(n.to_string())
        }),
        serde_json::Value::String(text) => Value::String(text.clone()),
        serde_json::Value::Array(items) => Value::Array(items.iter().map(convert).collect()),
        serde_json::Value::Object(entries) => {
            Value::Object(entries.iter().map(|(key, value)| (key.clone(), convert(value))).collect())
        }
    }
}

fn value(text: &str) -> Value {
    convert(&serde_json::from_str(text).unwrap())
}

fn surroundings() -> Surroundings {
    Surroundings {
        home_dir: Some(comps("/home/user")),
        current_dir: Some(comps("/home/user/work")),
        temp_dir: comps("/tmp"),
        cli_info: "{\"version\":\"1\"}".to_string(),
    }
}

fn isolated_builder() -> ClientBuilder {
    Client::builder().config_dir(comps("/isolated"))
}

fn build_isolated_client() -> Client {
    isolated_builder().build(surroundings())
}

fn http() -> Transport {
    Transport { name: "http".to_string(), headers: Vec::new() }
}

fn strings(names: &[&str]) -> Vec<String> {
    names.iter().map(|s| s.to_string()).collect()
}

#[test]
fn default_builder_has_empty_fields() {
    let b = ClientBuilder::default();
    assert!(b.get_private_fs().is_none());
    assert!(b.get_workspace_fs().is_none());
    assert!(b.get_config_dir().is_none());
    assert!(b.get_default_output_dir().is_none());
    assert!(b.get_cwd().is_none());
    assert!(b.get_transport().is_none());
    assert!(b.get_bin_name().is_none());
}

#[test]
fn config_dir_setter_and_getter() {
    let b = ClientBuilder::default().config_dir(comps("/home/user/.config/wecom"));
    assert_eq!(b.get_config_dir().unwrap(), &comps("/home/user/.config/wecom"));
}

#[test]
fn default_output_dir_setter_and_getter() {
    let b = ClientBuilder::default().default_output_dir(comps("/custom/out"));
    assert_eq!(b.get_default_output_dir().unwrap(), &comps("/custom/out"));
}

#[test]
fn cwd_setter_and_getter() {
    let b = ClientBuilder::default().cwd(comps("/work/dir"));
    assert_eq!(b.get_cwd().unwrap(), &comps("/work/dir"));
}

#[test]
fn build_uses_explicit_cwd() {
    let client = isolated_builder().cwd(comps("/custom/work")).build(surroundings());
    assert_eq!(*client.cwd(), comps("/custom/work"));
}

#[test]
fn transport_setter_and_getter() {
    let b = ClientBuilder::default().transport(http());
    assert_eq!(b.get_transport().unwrap().name, "http");
}

#[test]
fn build_uses_injected_transport() {
    let client = isolated_builder().transport(http()).build(surroundings());
    assert_eq!(client.transport().name, "http");
}

#[test]
fn bin_name_setter_and_getter() {
    let b = ClientBuilder::default().bin_name("wecom-test");
    assert_eq!(b.get_bin_name(), Some("wecom-test"));
}

#[test]
fn build_defaults_to_http_transport() {
    let client = build_isolated_client();
    assert_eq!(client.transport().name, "http");
}

#[test]
fn build_preserves_existing_cli_info_header() {
    let transport = Transport {
        name: "http".to_string(),
        headers: vec![("x-wecom-cli-info".to_string(), "custom".to_string())],
    };
    let client = isolated_builder().transport(transport).build(surroundings());
    let headers = &client.transport().headers;
    assert_eq!(headers.len(), 1);
    assert_eq!(headers[0].1, "custom");
}

#[test]
fn build_adds_the_cli_info_header() {
    let mut transport = http();
    transport.headers.push(("Authorization".to_string(), "Bearer my-token".to_string()));
    let client = isolated_builder().transport(transport).build(surroundings());
    let headers = &client.transport().headers;
    assert_eq!(headers.len(), 2);
    assert_eq!(headers[0].0, "Authorization");
    assert_eq!(
        headers[1],
        ("X-WeCom-Cli-Info".to_string(), "{\"version\":\"1\"}".to_string())
    );
}

#[test]
fn build_succeeds_with_injected_fs() {
    let policy = FsPolicy { roots: vec![comps("/a")], recommended_deny: false };
    let client = isolated_builder().private_fs(policy).build(surroundings());
    assert_eq!(client.private_fs().roots, [comps("/a")]);
}

#[test]
fn build_without_private_fs_falls_back_to_default() {
    let policy = FsPolicy { roots: Vec::new(), recommended_deny: false };
    let client = isolated_builder().workspace_fs(policy).build(surroundings());
    assert_eq!(client.private_fs().roots, [comps("/isolated")]);
    assert!(!client.private_fs().recommended_deny);
    assert!(client.workspace_fs().roots.is_empty());
}

#[test]
fn build_without_workspace_fs_falls_back_to_default() {
    let policy = FsPolicy { roots: Vec::new(), recommended_deny: false };
    let client = isolated_builder().private_fs(policy).build(surroundings());
    assert_eq!(client.workspace_fs().roots, [comps("/home/user/work"), comps("/tmp")]);
    assert!(client.workspace_fs().recommended_deny);
}

#[test]
fn the_default_policies_keep_apart() {
    let client = Client::builder()
        .config_dir(comps("/srv/.config/wecom"))
        .cwd(comps("/work"))
        .build(surroundings());
    let workspace = client.workspace_fs();
    assert!(workspace.permits(&comps("/work/missing.txt"), false));
    assert!(workspace.permits(&comps("/tmp/missing.txt"), false));
    assert!(!workspace.permits(&comps("/work/missing.txt"), true));
    assert!(!workspace.permits(&comps("/srv/.config/wecom/secret.txt"), false));
    assert!(!workspace.permits(&comps("/etc/hosts"), false));
    let private = client.private_fs();
    assert!(private.permits(&comps("/srv/.config/wecom/missing.txt"), false));
    assert!(!private.permits(&comps("/work/Cargo.toml"), false));
    assert!(!private.permits(&comps("/etc/hosts"), false));
}

#[test]
fn the_configuration_is_denied_inside_the_working_directory() {
    let policy = default_workspace_fs(&comps("/work"), &comps("/tmp"));
    assert!(!policy.permits(&comps("/work/.config/wecom/token"), false));
    assert!(!policy.permits(&comps("/work/a/.config/wecom"), false));
    assert!(policy.permits(&comps("/work/.config/other"), false));
    assert!(policy.permits(&comps("/work/ok.txt"), false));
    let own = default_private_fs(&comps("/work/.config/wecom"));
    assert!(own.permits(&comps("/work/.config/wecom/token"), false));
}

#[test]
fn build_passes_default_output_dir_to_client() {
    let client = isolated_builder().default_output_dir(comps("/custom/out")).build(surroundings());
    assert_eq!(*client.default_output_dir(), Some(comps("/custom/out")));
}

#[test]
fn a_relative_output_dir_is_anchored_when_the_client_is_built() {
    let client = isolated_builder()
        .cwd(comps("/work"))
        .default_output_dir(comps("out"))
        .build(surroundings());
    assert_eq!(*client.default_output_dir(), Some(comps("/work/out")));
}

#[test]
fn build_without_any_config_succeeds() {
    let client = Client::from_defaults(surroundings());
    assert_eq!(*client.home_dir(), comps("/home/user/.config/wecom"));
    assert_eq!(*client.config_dir(), comps("/home/user/.config/wecom"));
    assert_eq!(*client.cwd(), comps("/home/user/work"));
    assert_eq!(*client.tmp_dir(), comps("/tmp/wecom"));
    assert_eq!(client.cache_dir(), comps("/home/user/.config/wecom/cache"));
    assert_eq!(client.request_storage_dir(), comps("/tmp/wecom/requests"));
    assert_eq!(client.bin_name(), "wecom");
    assert!(client.default_output_dir().is_none());
    assert!(client.readable_dirs().is_none());
    assert!(client.writable_dirs().is_none());
}

#[test]
fn what_cannot_be_read_is_the_current_directory() {
    let around = Surroundings {
        home_dir: None,
        current_dir: None,
        temp_dir: comps("/tmp"),
        cli_info: String::new(),
    };
    let client = Client::from_defaults(around);
    assert_eq!(*client.home_dir(), comps("./.config/wecom"));
    assert_eq!(*client.cwd(), comps("."));
}

#[test]
fn build_default_discovery_endpoint_returns_builtin_values() {
    let client = build_isolated_client();
    let ep = client.resolve_builtin_endpoint(EndpointKey::ServiceDiscovery).endpoint;
    assert_eq!(ep.base_url(), "");
    assert_eq!(ep.path(), "/service/discovery");
}

#[test]
fn endpoint_catalog_overrides_discovery_endpoint() {
    let endpoint =
        Endpoint { path: "/sd/v2".to_string(), req_envelope: ReqEnvelope::Passthrough };
    let client = isolated_builder()
        .endpoint_catalog(
            EndpointCatalog::default().with(EndpointKey::ServiceDiscovery, endpoint),
        )
        .build(surroundings());
    let resolved = client.resolve_builtin_endpoint(EndpointKey::ServiceDiscovery);
    assert_eq!(resolved.endpoint.path(), "/sd/v2");
    assert_eq!(resolved.poll.path(), "/task/query");
}

#[test]
fn commands_are_registered_in_order() {
    let client = isolated_builder()
        .command(CustomCommand::new("auth"))
        .command(CustomCommand::new("init"))
        .build(surroundings());
    assert_eq!(command_names(client.custom_commands()), ["auth", "init"]);
}

#[test]
fn name_returns_clap_command_name() {
    let cmd = CustomCommand::new(clap::Command::new("auth").get_name());
    assert_eq!(cmd.name(), "auth");
}

#[test]
fn debug_shows_name_and_hides_handler() {
    let dbg = CustomCommand::new("auth").debug_text();
    assert!(dbg.contains("auth"), "Debug should contain name: {dbg}");
    assert!(dbg.contains(".."), "Debug should be non-exhaustive: {dbg}");
    assert_eq!(dbg, "CustomCommand { name: \"auth\", .. }");
}

#[test]
fn endpoint_carries_path() {
    let client = build_isolated_client();
    let ep = client.endpoint("/cgi/x");
    assert_eq!(ep.base_url(), "");
    assert_eq!(ep.path(), "/cgi/x");
}

#[test]
fn transport_mut_returns_mutable_reference() {
    let mut client = build_isolated_client();
    client.transport_mut().headers.push(("x-a".to_string(), "1".to_string()));
    assert_eq!(client.transport().headers.len(), 2);
    assert_eq!(client.transport().headers[1].0, "x-a");
}

#[test]
fn resolve_builtin_media_upload_path() {
    let client = build_isolated_client();
    let ep = client.resolve_builtin_endpoint(EndpointKey::MediaUpload).endpoint;
    assert!(ep.path().contains("/file/upload"));
    assert_eq!(ep.base_url(), "");
}

#[test]
fn debug_fmt_includes_client_fields() {
    let debug = format!("{:?}", build_isolated_client());
    assert!(debug.contains("Client"));
}

#[test]
fn paths_that_are_too_short_name_no_method() {
    let client = build_isolated_client();
    let error = client.method(&[]).unwrap_err();
    assert!(matches!(error, Error::Wrapped(Payload::Validation(_))));
    assert_eq!(
        error.message(),
        "方法路径至少需要两段 ([\"<service>\", \"<method>\", ...])，但收到: []"
    );
    let error = client.method(&strings(&["s\"vc"])).unwrap_err();
    assert_eq!(
        error.message(),
        format!(
            "方法路径至少需要两段 ([\"<service>\", \"<method>\", ...])，但收到: {:?}",
            ["s\"vc"]
        )
    );
    let found = client.method(&strings(&["svc", "users", "get"])).unwrap();
    assert_eq!(found.service, "svc");
    assert_eq!(found.method, ["users", "get"]);
}

#[test]
fn a_call_is_made_where_nothing_is_wrong() {
    let client = build_isolated_client();
    let call = client.invoke(&strings(&["svc", "list"]), value("{\"a\": 1}")).execute().unwrap();
    assert_eq!(call.method.service, "svc");
    assert_eq!(call.method.method, ["list"]);
    assert_eq!(call.payload, value("{\"a\": 1}"));
    let error = client.invoke(&strings(&["svc"]), Value::Null).execute().unwrap_err();
    assert!(error.message().contains("至少需要两段"));
    let mut request = client.invoke(&strings(&["svc"]), Value::Null);
    request.header_error = Some(Error::other("bad header"));
    assert_eq!(request.execute().unwrap_err().message(), "bad header");
}

#[test]
fn upload_media_returns_request() {
    let client = build_isolated_client();
    let request = client.upload_media("/path/to/file.png");
    assert_eq!(request.file_path, "/path/to/file.png");
    assert_eq!(request.fs.cwd, comps("/home/user/work"));
    assert!(request.header_error.is_none());
}

#[test]
fn an_upload_is_made_where_nothing_is_wrong() {
    let client = build_isolated_client();
    let call = client.upload_media("/a.png").execute(MAX_UPLOAD_SIZE, "100.0").unwrap();
    assert_eq!(call.endpoint.endpoint.path(), "/file/upload");
    assert_eq!(call.endpoint.poll.path(), "/task/query");
    assert!(matches!(
        &call.form[0],
        FormPart::File { name, file_path } if name == "media" && file_path == "/a.png"
    ));
    assert!(matches!(
        &call.form[1],
        FormPart::Text { name, value } if name == "type" && value == "file"
    ));
    let error = client.upload_media("/a.png").execute(MAX_UPLOAD_SIZE + 1, "100.0").unwrap_err();
    assert_eq!(error.message(), "文件 \"/a.png\" 大小超过 100.0 MB 限制");
    let mut request = client.upload_media("/a.png");
    request.header_error = Some(Error::other("bad header"));
    assert_eq!(request.execute(0, "100.0").unwrap_err().message(), "bad header");
}

#[test]
fn the_answer_to_an_upload_is_read() {
    let answer = value(r#"{"created_at": 1, "media_id": "m-1", "type": "file"}"#);
    let response = upload_response(answer, "").unwrap();
    assert_eq!(response.media_id, "m-1");
    assert_eq!(
        response.extra,
        [("created_at".to_string(), value("1")), ("type".to_string(), value("\"file\""))]
    );
    for text in ["{}", "{\"media_id\": 7}", "[]", "null"] {
        let error = upload_response(value(text), "missing field `media_id`").unwrap_err();
        assert_eq!(
            error.message(),
            "Failed to deserialize 'upload_media' response: missing field `media_id`"
        );
        assert!(matches!(
            error,
            Error::Wrapped(Payload::Parse { endpoint, body, .. })
                if endpoint == "utils://upload_media" && body == value(text)
        ));
    }
}
