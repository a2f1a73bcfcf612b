use wecom::client::catalog::{
    Endpoint, EndpointCatalog, EndpointKey, PayloadStringReq, ReqEnvelope,
};
use wecom::constants::{
    build_version, commit_id, target_platform, Build, CliInfo, DEFAULT_BIN_NAME, MAX_UPLOAD_SIZE,
    PACKAGE_VERSION,
};
use wecom::json::Value;

fn cli_info() -> CliInfo {
    CliInfo::new("linux/x86_64", "2026-08-05T03:47:03Z", "a1b2c3d", "1.1.0", None)
}

fn text(s: &str) -> Value {
    Value::String(s.to_string())
}

#[test]
fn cli_info_build_info_is_non_empty() {
    assert!(!cli_info().version.is_empty(), "version should not be empty");
    assert!(!cli_info().commit_id.is_empty(), "commit_id should not be empty");
}

#[test]
fn cli_info_to_string_matches_display() {
    assert_eq!(cli_info().display(), cli_info().display_with_name(DEFAULT_BIN_NAME));
}

#[test]
fn cli_info_display_matches_version_format() {
    let info = cli_info();
    let s = info.display();
    let expected = format!(
        "{name} {version} ({distribution} {build_time} {commit})",
        name = DEFAULT_BIN_NAME,
        version = info.version,
        distribution = info.distribution,
        build_time = info.build_time,
        commit = info.commit_id,
    );
    assert_eq!(s, expected);
    assert_eq!(s, "wecom 1.1.0 (unknown 2026-08-05T03:47:03Z a1b2c3d)");
    assert!(!s.contains('\n'), "Display should be single line: {s}");
    assert!(
        s.contains('T') && s.trim_end().ends_with(')'),
        "expected `{DEFAULT_BIN_NAME} <version> (<distribution> <RFC 3339> <commit>)`: {s}"
    );
}

#[test]
fn cli_info_is_told_field_by_field() {
    let info = CliInfo::new("linux/x86_64", "t", "c", "v", Some("brew"));
    assert_eq!(
        info.to_json(),
        Value::Object(vec![
            ("platform".to_string(), text("linux/x86_64")),
            ("build_time".to_string(), text("t")),
            ("commit_id".to_string(), text("c")),
            ("version".to_string(), text("v")),
            ("distribution".to_string(), text("brew")),
        ])
    );
    assert_eq!(info.display_with_name("cli"), "cli v (brew t c)");
}

#[test]
fn cli_info_to_json_string_is_parseable() {
    let Value::Object(entries) = cli_info().to_json() else {
        panic!("no object");
    };
    let object: serde_json::Map<String, serde_json::Value> = entries
        .iter()
        .map(|(key, value)| match value {
            Value::String(text) => (key.clone(), serde_json::Value::String(text.clone())),
            other => panic!("{other:?}"),
        })
        .collect();
    let s = serde_json::Value::Object(object).to_string();
    assert!(!s.contains('\n'), "header should be single line: {s}");
    let parsed: serde_json::Value = serde_json::from_str(&s).expect("valid JSON");
    assert!(parsed.is_object());
}

#[test]
fn versions_of_builds_are_put_together() {
    assert_eq!(target_platform("linux", "x86_64"), "linux/x86_64");
    assert_eq!(build_version("1.2.3", None, None), "1.2.3");
    assert_eq!(build_version("1.2.3", Some("rc1"), Some("false")), "1.2.3-rc1");
    assert_eq!(build_version("1.2.3", Some("rc1"), Some("true")), "1.2.3-rc1-coverage");
    assert_eq!(commit_id(Some(" abc123\n")), "abc123");
    assert_eq!(commit_id(None), "");
    assert_eq!(MAX_UPLOAD_SIZE, 104857600);
}

#[test]
fn resolve_falls_back_to_builtin_default() {
    let catalog = EndpointCatalog::default();
    let ep = catalog.resolve(EndpointKey::MediaUpload);
    assert_eq!(ep.path(), "/file/upload");
    assert_eq!(ep.req_envelope.name(), "passthrough");
    assert_eq!(ep.base_url(), "");
}

#[test]
fn payload_string_req_name() {
    assert_eq!(PayloadStringReq.name(), "payload-string");
}

#[test]
fn payload_string_req_encodes_payload_as_string() {
    let payload: serde_json::Value = serde_json::from_str("{\"a\": 1}").unwrap();
    let encoded = PayloadStringReq.encode(&payload.to_string());
    assert_eq!(encoded, Value::Object(vec![("payload".to_string(), text("{\"a\":1}"))]));
}

#[test]
fn resolve_service_method_defaults() {
    let catalog = EndpointCatalog::default();
    let ep = catalog.resolve(EndpointKey::ServiceMethod);
    assert_eq!(ep.path(), "/");
    assert_eq!(ep.req_envelope.name(), "payload-string");
    assert_eq!(ep.res_envelope(), "gateway");
}

#[test]
fn resolve_remote_doc_defaults() {
    let catalog = EndpointCatalog::default();
    let ep = catalog.resolve(EndpointKey::RemoteDoc);
    assert_eq!(ep.path(), "/remote_doc/get");
    assert_eq!(ep.base_url(), "");
    assert_eq!(ep.req_envelope.name(), "payload-string");
}

#[test]
fn the_last_endpoint_for_a_key_stands() {
    let endpoint = |path: &str| Endpoint {
        path: path.to_string(),
        req_envelope: ReqEnvelope::PayloadString,
    };
    let catalog = EndpointCatalog::default()
        .with(EndpointKey::TaskQuery, endpoint("/a"))
        .with(EndpointKey::MediaUpload, endpoint("up"))
        .with(EndpointKey::TaskQuery, endpoint("/b"));
    assert_eq!(catalog.resolve(EndpointKey::TaskQuery).path(), "/b");
    assert_eq!(catalog.resolve(EndpointKey::MediaUpload).path(), "/up");
    assert_eq!(catalog.resolve(EndpointKey::ServiceDiscovery).path(), "/service/discovery");
    assert_eq!(EndpointKey::all().len(), 5);
    for key in EndpointKey::all() {
        assert_eq!(
            EndpointCatalog::default().resolve(key).path(),
            key.builtin_default().path()
        );
    }
}

fn build() -> Build<'static> {
    Build {
        os: "linux",
        arch: "x86_64",
        build_time: "2026-08-05T03:47:03Z",
        commit: Some("a1b2c3d\n"),
        suffix: Some("beta"),
        coverage: Some("true"),
        distribution: None,
    }
}

#[test]
fn the_information_of_a_build_is_what_the_build_finds() {
    let info = CliInfo::of_build(&build());
    assert_eq!(info.platform, "linux/x86_64");
    assert_eq!(info.build_time, "2026-08-05T03:47:03Z");
    assert_eq!(info.commit_id, "a1b2c3d");
    assert_eq!(info.version, "0.1.0-beta-coverage");
    assert_eq!(info.distribution, "unknown");
    let brew = Build { distribution: Some("brew"), commit: None, ..build() };
    let info = CliInfo::of_build(&brew);
    assert_eq!(info.distribution, "brew");
    assert_eq!(info.commit_id, "");
}

#[test]
fn the_information_of_a_build_is_always_the_same() {
    let a = CliInfo::of_build(&build());
    let b = CliInfo::of_build(&build());
    assert_eq!(a.to_json(), b.to_json());
    assert_eq!(a.display(), b.display());
    assert!(!a.version.is_empty());
    let bare = Build { suffix: None, coverage: None, ..build() };
    assert_eq!(CliInfo::of_build(&bare).version, PACKAGE_VERSION);
}
