use wecom::error::{
    trunc_display, Error, Payload, Rendered, UsageIssue, E_CLI, E_CONFIG_CLIENT, E_HTTP, E_IO,
    E_OTHER, E_PARSE, E_PERMISSION, E_SUBCMD, E_VALIDATION,
};
use wecom::json::{Number, Value};

fn convert(value: &serde_json::Value) -> Value {
    match value {
        serde_json::Value::Null => Value::Null,
        serde_json::Value::Bool(b) => Value::Bool(*b),
        serde_json::Value::Number(n) => Value::Number(if let Some(n) = n.as_u64() {
            Number::PosInt(n)
        } else if let Some(n) = n.as_i64() {
            Number::NegInt(n)
        } else {
            Number::Float(n.to_string())
        }),
        serde_json::Value::String(text) => Value::String(text.clone()),
        serde_json::Value::Array(items) => Value::Array(items.iter().map(convert).collect()),
        serde_json::Value::Object(entries) => {
            Value::Object(entries.iter().map(|(key, value)| (key.clone(), convert(value))).collect())
        }
    }
}

fn value(text: &str) -> Value {
    convert(&serde_json::from_str(text).unwrap())
}

fn plain(value: &Value) -> serde_json::Value {
    match value {
        Value::Null => serde_json::Value::Null,
        Value::Bool(b) => serde_json::Value::Bool(*b),
        Value::Number(Number::PosInt(n)) => serde_json::Value::from(*n),
        Value::Number(Number::NegInt(n)) => serde_json::Value::from(*n),
        Value::Number(Number::Float(text)) => serde_json::from_str(text).unwrap(),
        Value::String(text) => serde_json::Value::String(text.clone()),
        Value::Array(items) => serde_json::Value::Array(items.iter().map(plain).collect()),
        Value::Object(entries) => serde_json::Value::Object(
            entries.iter().map(|(key, value)| (key.clone(), plain(value))).collect(),
        ),
    }
}

fn json(text: &str) -> serde_json::Value {
    serde_json::from_str(text).unwrap()
}

fn rendered(error: &Error) -> serde_json::Value {
    match error.render() {
        Rendered::Json(value) => plain(&value),
        Rendered::Text(text) => panic!("text: {text}"),
    }
}

fn http() -> Error {
    Error::Wrapped(Payload::Http {
        message: "not found".into(),
        endpoint: "https://example.com/api".into(),
        status: 404,
    })
}

fn api(code: Option<i64>, body: Value) -> Error {
    Error::Wrapped(Payload::Api {
        message: "invalid credential".into(),
        action: "test".into(),
        code,
        body,
    })
}

fn disk_full() -> Error {
    Error::Wrapped(Payload::Io { message: "disk full".into(), kind: "Other".into() })
}

fn cli(code: i32, message: &str, source: Option<UsageIssue>) -> Error {
    Error::CliOutput { code, message: message.into(), source }
}

fn issue(error: &clap::Error) -> UsageIssue {
    UsageIssue {
        invalid_subcommand: error.kind() == clap::error::ErrorKind::InvalidSubcommand,
        description: error.kind().as_str().map(str::to_string),
    }
}

fn carried(inner: Error) -> Error {
    Error::Wrapped(Payload::Nested(Box::new(inner)))
}

#[test]
fn crate_owned_codes_stay_in_wecom_range() {
    let owned = [E_VALIDATION, E_SUBCMD, E_IO, E_CLI, E_CONFIG_CLIENT, E_PERMISSION];
    for code in owned {
        assert!((893000..=893099).contains(&code), "{code}");
    }
    assert_eq!(E_OTHER, 893999);
}

#[test]
fn render_validation() {
    assert_eq!(
        rendered(&Error::validation("field is required")),
        json(r#"{"error": {"type": "ValidationError", "code": 893001, "message": "field is required"}}"#)
    );
}

#[test]
fn render_config() {
    assert_eq!(
        rendered(&Error::config("invalid transport type")),
        json(r#"{"error": {"type": "ConfigError", "code": 893005, "message": "invalid transport type"}}"#)
    );
}

#[test]
fn render_permission() {
    assert_eq!(
        rendered(&Error::permission("路径超出沙箱")),
        json(r#"{"error": {"type": "PermissionError", "code": 893006, "message": "路径超出沙箱"}}"#)
    );
}

#[test]
fn render_network() {
    let v = rendered(&Error::other("connection refused"));
    assert_eq!(v["error"]["message"], "connection refused");
}

#[test]
fn render_http() {
    assert_eq!(
        rendered(&http()),
        json(
            r#"{"error": {"type": "HTTPError", "code": 893102, "message": "not found",
                "endpoint": "https://example.com/api", "status": 404}}"#
        )
    );
}

#[test]
fn render_api_returns_body() {
    let body = r#"{"errcode":40001,"errmsg":"invalid credential"}"#;
    assert_eq!(rendered(&api(Some(40001), value(body))), json(body));
}

#[test]
fn render_io() {
    let v = rendered(&disk_full());
    assert_eq!(v["error"]["type"], "IOError");
    assert_eq!(v["error"]["message"], "disk full");
    assert_eq!(v["error"]["kind"], "Other");
}

#[test]
fn render_parse() {
    let e = Error::Wrapped(Payload::Parse {
        message: "missing field 'media_id'".into(),
        endpoint: "test".into(),
        body: value(r#"{"unexpected":"data"}"#),
    });
    assert_eq!(
        rendered(&e),
        json(
            r#"{"error": {"type": "ParseError", "code": 893103, "message": "missing field 'media_id'",
                "endpoint": "test", "body": {"unexpected": "data"}}}"#
        )
    );
}

#[test]
fn render_other() {
    let v = rendered(&Error::other("something went wrong"));
    assert_eq!(v["error"]["message"], "something went wrong");
    assert_eq!(v["error"]["type"], "UnknownError");
}

#[test]
fn render_cli_output_returns_message_as_is() {
    assert_eq!(cli(0, "wecom 1.0.0", None).render(), Rendered::Text("wecom 1.0.0".into()));
}

#[test]
fn render_cli_output_ignores_clap_source() {
    let clap_err = clap::Error::raw(clap::error::ErrorKind::InvalidValue, "raw clap message\n");
    let e = cli(2, "pre-rendered usage error", Some(issue(&clap_err)));
    assert_eq!(e.render(), Rendered::Text("pre-rendered usage error".into()));
    assert!(matches!(e, Error::CliOutput { source: Some(_), .. }));
}

#[test]
fn exit_code_cli_output() {
    assert_eq!(cli(0, "", None).exit_code(), 0);
    assert_eq!(cli(2, "", None).exit_code(), 2);
}

#[test]
fn exit_code_non_cli_output_is_1() {
    assert_eq!(Error::validation("x").exit_code(), 1);
    assert_eq!(Error::other("x").exit_code(), 1);
}

#[test]
fn code_top_level_variants() {
    assert_eq!(Error::validation("x").code(), E_VALIDATION);
    assert_eq!(Error::config("x").code(), E_CONFIG_CLIENT);
    assert_eq!(Error::permission("x").code(), E_PERMISSION);
    assert_eq!(disk_full().code(), E_IO);
    assert_eq!(cli(0, "", None).code(), E_CLI);
    assert_eq!(Error::other("x").code(), E_OTHER);
}

#[test]
fn code_wrapped_transport_variants() {
    let http = Error::Wrapped(Payload::Http {
        message: "x".into(),
        endpoint: "http://e".into(),
        status: 500,
    });
    assert_eq!(http.code(), E_HTTP);
    let parse = Error::Wrapped(Payload::Parse {
        message: "x".into(),
        endpoint: "/e".into(),
        body: Value::Null,
    });
    assert_eq!(parse.code(), E_PARSE);
    assert_eq!(api(Some(40001), Value::Null).code(), 40001);
    assert_eq!(api(None, Value::Null).code(), 0);
    assert_eq!(Error::other("x").code(), E_OTHER);
}

#[test]
fn from_io_error() {
    let e = Error::Wrapped(Payload::Io { message: "no such file".into(), kind: "NotFound".into() });
    assert_eq!(e.code(), E_IO);
    assert_eq!(e.exit_code(), 1);
    assert_eq!(e.message(), "no such file");
}

#[test]
fn to_json_validation() {
    assert_eq!(
        plain(&Error::validation("field is required").to_json()),
        json(r#"{"error": {"type": "ValidationError", "code": 893001, "message": "field is required"}}"#)
    );
}

#[test]
fn to_json_config() {
    assert_eq!(
        plain(&Error::config("invalid transport type").to_json()),
        json(r#"{"error": {"type": "ConfigError", "code": 893005, "message": "invalid transport type"}}"#)
    );
}

#[test]
fn to_json_permission() {
    assert_eq!(
        plain(&Error::permission("路径超出沙箱").to_json()),
        json(r#"{"error": {"type": "PermissionError", "code": 893006, "message": "路径超出沙箱"}}"#)
    );
}

#[test]
fn to_json_io() {
    let v = plain(&disk_full().to_json());
    assert_eq!(v["error"]["code"], E_IO);
    assert_eq!(v["error"]["type"], "IOError");
    assert_eq!(v["error"]["message"], "disk full");
    assert_eq!(v["error"]["kind"], "Other");
    assert_eq!(v["error"].as_object().unwrap().len(), 4);
}

#[test]
fn to_json_other() {
    assert_eq!(
        plain(&Error::other("something went wrong").to_json()),
        json(r#"{"error": {"type": "UnknownError", "code": 893999, "message": "something went wrong"}}"#)
    );
}

#[test]
fn to_json_cli_output() {
    assert_eq!(
        plain(&cli(2, "usage error", None).to_json()),
        json(
            r#"{"error": {"type": "CliOutput", "code": 893004, "exit_code": 2,
                "message": "usage error", "kind": null}}"#
        )
    );
}

#[test]
fn to_json_wrapped_http() {
    assert_eq!(
        plain(&http().to_json()),
        json(
            r#"{"error": {"type": "HTTPError", "code": 893102, "message": "not found",
                "endpoint": "https://example.com/api", "status": 404}}"#
        )
    );
}

#[test]
fn to_json_wrapped_api_returns_body() {
    let body = r#"{"errcode": 40001, "errmsg": "invalid credential"}"#;
    assert_eq!(api(Some(40001), value(body)).to_json(), value(body));
}

#[test]
fn to_json_cli_output_trunc_multiline() {
    assert_eq!(
        plain(&cli(2, "usage error\nmore details\nand more", None).to_json()),
        json(
            r#"{"error": {"type": "CliOutput", "code": 893004, "exit_code": 2,
                "message": "usage error\n[TRUNC]", "kind": null}}"#
        )
    );
}

#[test]
fn to_json_cli_output_trunc_long() {
    let long = "X".repeat(101);
    let v = plain(&cli(2, &long, None).to_json());
    let msg = v["error"]["message"].as_str().unwrap();
    assert!(msg.ends_with("[TRUNC]"));
    assert_eq!(msg.len(), 100 + "[TRUNC]".len());
    assert!(v["error"]["kind"].is_null());
}

#[test]
fn render_top_level_other() {
    let v = rendered(&Error::other("unexpected failure"));
    assert_eq!(v["error"]["type"], "UnknownError");
    assert_eq!(v["error"]["message"], "unexpected failure");
    assert_eq!(v["error"]["code"], E_OTHER);
}

#[test]
fn message_all_variants() {
    assert_eq!(Error::validation("invalid input").message(), "invalid input");
    assert_eq!(Error::config("bad config").message(), "bad config");
    assert_eq!(Error::permission("denied").message(), "denied");
    assert_eq!(Error::io("disk error", "e", "Other").message(), "disk error: e");
    assert_eq!(cli(0, "cli msg", None).message(), "cli msg");
    assert_eq!(Error::other("other error").message(), "other error");
}

#[test]
fn message_wrapped_variant() {
    let e = Error::Wrapped(Payload::Http {
        message: "not found".into(),
        endpoint: "/api".into(),
        status: 404,
    });
    assert_eq!(e.message(), "not found");
}

#[test]
fn io_constructor_with_context() {
    let e = Error::io("Failed to open /path", "no such file", "NotFound");
    assert!(matches!(e, Error::Wrapped(_)));
    assert_eq!(e.message(), "Failed to open /path: no such file");
    assert_eq!(e.code(), E_IO);
}

#[test]
fn display_validation() {
    let s = Error::validation("field required").display();
    assert!(s.contains("ValidationError"));
    assert!(s.contains("field required"));
    assert!(s.contains("code=893001"));
}

#[test]
fn display_config() {
    let s = Error::config("bad transport").display();
    assert!(s.contains("ConfigError"));
    assert!(s.contains("bad transport"));
    assert!(s.contains("code=893005"));
}

#[test]
fn display_permission() {
    let s = Error::permission("path denied").display();
    assert!(s.contains("PermissionError"));
    assert!(s.contains("path denied"));
}

#[test]
fn display_io() {
    let e = Error::Wrapped(Payload::Io {
        message: "write failed".into(),
        kind: "PermissionDenied".into(),
    });
    let s = e.display();
    assert!(s.contains("IoError"));
    assert!(s.contains("write failed"));
    assert!(s.contains("kind=PermissionDenied"));
}

#[test]
fn display_cli_output() {
    let s = cli(2, "usage error", None).display();
    assert!(s.contains("CliOutput"));
    assert!(s.contains("usage error"));
    assert!(s.contains("code=893004"));
    assert!(s.contains("exit=2"));
    assert!(s.contains("kind=?"));
    assert_eq!(s, "CliOutput: usage error [code=893004, exit=2, kind=?]");
}

#[test]
fn display_cli_output_with_clap_source() {
    let clap_err = clap::Error::raw(clap::error::ErrorKind::InvalidSubcommand, "no such cmd");
    let s = cli(2, "unknown subcommand", Some(issue(&clap_err))).display();
    assert!(s.contains("kind=unrecognized subcommand"));
}

#[test]
fn display_other() {
    let s = Error::other("unexpected").display();
    assert!(s.contains("UnknownError"));
    assert!(s.contains("unexpected"));
    assert!(s.contains("code=893999"));
}

#[test]
fn display_wrapped() {
    assert!(carried(Error::other("inner error")).display().contains("inner error"));
}

#[test]
fn from_transport_error() {
    let e = Error::other("wrapped");
    assert!(matches!(e, Error::Wrapped(_)));
    assert_eq!(e.message(), "wrapped");
}

#[test]
fn from_transport_round_tripped_permission_keeps_capability() {
    let e = carried(Error::permission("路径超出沙箱"));
    assert!(matches!(e, Error::Wrapped(_)));
    assert_eq!(e.code(), E_PERMISSION);
    assert_eq!(
        plain(&e.to_json()),
        json(r#"{"error": {"type": "PermissionError", "code": 893006, "message": "路径超出沙箱"}}"#)
    );
    assert_eq!(e.message(), "路径超出沙箱");
}

#[test]
fn from_transport_round_tripped_io_keeps_capability() {
    let e = carried(Error::io("Failed to open /tmp/x", "no such file", "NotFound"));
    assert_eq!(e.code(), E_IO);
    assert_eq!(e.message(), "Failed to open /tmp/x: no such file");
    assert_eq!(plain(&e.to_json())["error"]["type"], "IOError");
}

#[test]
fn from_transport_round_tripped_transport_variant() {
    let e = carried(http());
    assert_eq!(e.code(), E_HTTP);
    let Error::Wrapped(Payload::Nested(inner)) = &e else {
        panic!("{e:?}");
    };
    assert!(matches!(**inner, Error::Wrapped(Payload::Http { status: 404, .. })));
}

#[test]
fn from_transport_foreign_other_payload_delegates() {
    let e = carried(Error::other("disk full"));
    assert!(matches!(e, Error::Wrapped(_)));
    assert_eq!(e.code(), E_OTHER);
    assert_eq!(e.message(), "disk full");
}

#[test]
fn code_cli_output_subcommand() {
    let clap_err =
        clap::Error::raw(clap::error::ErrorKind::InvalidSubcommand, "no such subcommand");
    assert_eq!(cli(2, "unknown subcommand", Some(issue(&clap_err))).code(), E_SUBCMD);
}

#[test]
fn code_cli_output_without_clap_source_returns_e_cli() {
    assert_eq!(cli(0, "version info", None).code(), E_CLI);
}

#[test]
fn wecom_error_error_type_stable_labels() {
    assert_eq!(Error::validation("x").error_type(), "ValidationError");
    assert_eq!(Error::permission("x").error_type(), "PermissionError");
    assert_eq!(Error::config("x").error_type(), "ConfigError");
    assert_eq!(cli(0, "m", None).error_type(), "CliOutput");
    assert_eq!(Error::other("x").error_type(), "UnknownError");
    assert_eq!(carried(Error::config("x")).error_type(), "ConfigError");
}

#[test]
fn texts_are_cut_at_the_line_and_at_the_limit() {
    assert_eq!(trunc_display("short", 100), "short");
    assert_eq!(trunc_display("", 0), "");
    assert_eq!(trunc_display("abc", 2), "ab[TRUNC]");
    assert_eq!(trunc_display("文件名", 2), "文件[TRUNC]");
    assert_eq!(trunc_display("a\nb", 100), "a\n[TRUNC]");
    assert_eq!(trunc_display("abc", 3), "abc");
}

#[test]
fn what_is_carried_shows_as_it_is_but_exits_as_its_carrier() {
    let e = carried(carried(cli(2, "usage", None)));
    assert_eq!(e.render(), Rendered::Text("usage".into()));
    assert_eq!(e.code(), E_CLI);
    assert_eq!(e.display(), cli(2, "usage", None).display());
    assert_eq!(e.exit_code(), 1);
}
