use wecom::commands::cache::{
    cache_subcommand, status_report, CacheClear, CacheCmds, CachedFile, Removal,
};
use wecom::commands::schema::{schema_subcommand, schema_target, SchemaSubcmd};
use wecom::error::{Error, Payload};
use wecom::fs::walk::DirEntry;
use wecom::json::{Number, Value};

fn convert(value: &serde_json::Value) -> Value {
    match value {
        serde_json::Value::Null => Value::Null,
        serde_json::Value::Bool(b) => Value::Bool(*b),
        serde_json::Value::Number(n) => Value::Number(if let Some(n) = n.as_u64() {
            Number::PosInt(n)
        } else if let Some(n) = n.as_i64() {
            Number::NegInt(n)
        } else {
            Number::Float(n.to_string())
        }),
        serde_json::Value::String(text) => Value::String(text.clone()),
        serde_json::Value::Array(items) => Value::Array(items.iter().map(convert).collect()),
        serde_json::Value::Object(entries) => {
            Value::Object(entries.iter().map(|(key, value)| (key.clone(), convert(value))).collect())
        }
    }
}

fn value(text: &str) -> Value {
    convert(&serde_json::from_str(text).unwrap())
}

fn entry(name: &str, is_file: bool) -> DirEntry {
    DirEntry { name: name.to_string(), is_file, is_dir: !is_file }
}

#[test]
fn subcommands_on_caches_are_told_apart() {
    assert_eq!(cache_subcommand(Some("status")).unwrap(), CacheCmds::Status);
    assert_eq!(cache_subcommand(Some("clear")).unwrap(), CacheCmds::Clear);
    for name in [None, Some("other")] {
        let error = cache_subcommand(name).unwrap_err();
        assert!(matches!(&error, Error::Wrapped(Payload::Other(_))));
        assert_eq!(error.message(), "Unknown cache subcommand");
    }
}

#[test]
fn the_status_lists_the_files_whose_time_is_known() {
    assert_eq!(status_report(&[]), value("[]"));
    let files = [
        CachedFile { name: "catalog.json".to_string(), update_time: Some(1700000000) },
        CachedFile { name: "broken.json".to_string(), update_time: None },
        CachedFile { name: "service_hr.json".to_string(), update_time: Some(0) },
    ];
    assert_eq!(
        status_report(&files),
        value(
            r#"[{"file": "catalog.json", "update_time": 1700000000},
                {"file": "service_hr.json", "update_time": 0}]"#
        )
    );
}

#[test]
fn an_empty_cache_has_nothing_to_clear() {
    let run = CacheClear::new(&[entry("nested", false)]);
    assert_eq!(run.current(), None);
    assert_eq!(
        run.report(),
        value(r#"{"status": "success", "message": "没有需要清除的缓存文件。"}"#)
    );
}

#[test]
fn files_are_removed_one_after_the_other() {
    let mut run = CacheClear::new(&[
        entry("old.json", true),
        entry("nested", false),
        entry("locked.json", true),
        entry("stale.json", true),
    ]);
    assert_eq!(run.current(), Some("old.json"));
    assert!(run.step(Removal::Removed).is_ok());
    assert_eq!(run.current(), Some("locked.json"));
    assert!(run.step(Removal::Failed).is_ok());
    assert_eq!(run.current(), Some("stale.json"));
    assert!(run.step(Removal::Removed).is_ok());
    assert_eq!(run.current(), None);
    assert_eq!(
        run.report(),
        value(
            r#"{"status": "success", "message": "已清除 2 个缓存文件。",
                "removed": ["old.json", "stale.json"]}"#
        )
    );
}

#[test]
fn a_refusal_ends_the_clearing() {
    let mut run = CacheClear::new(&[entry("a.json", true), entry("b.json", true)]);
    let refused = Removal::Refused(Error::permission("目标路径超出可访问范围"));
    let error = run.step(refused).unwrap_err();
    assert!(matches!(error, Error::Wrapped(Payload::Permission(_))));
}

#[test]
fn subcommands_on_schemas_are_told_apart() {
    assert!(matches!(schema_subcommand(Some("list"), None), Ok(SchemaSubcmd::List)));
    assert!(matches!(
        schema_subcommand(Some("get"), Some("hr.list")),
        Ok(SchemaSubcmd::Get { method_path }) if method_path == "hr.list"
    ));
    for (name, path) in [(None, None), (Some("get"), None), (Some("other"), Some("x"))] {
        let error = schema_subcommand(name, path).unwrap_err();
        assert_eq!(error.message(), "Unknown schema subcommand");
    }
}

#[test]
fn handle_schema_cmd_unknown_returns_error() {
    let err = schema_subcommand(None, None).unwrap_err();
    assert!(matches!(err, Error::Wrapped(Payload::Other(_))));
}

#[test]
fn a_schema_is_asked_for_by_its_path() {
    let target = schema_target("contact.users.list").unwrap();
    assert_eq!(target.service, "contact");
    assert_eq!(target.method, ["users", "list"]);
    let target = schema_target("contact").unwrap();
    assert_eq!(target.service, "contact");
    assert!(target.method.is_empty());
    let target = schema_target("contact.").unwrap();
    assert_eq!(target.method, [""]);
    for path in ["", ".list"] {
        let error = schema_target(path).unwrap_err();
        assert!(matches!(&error, Error::Wrapped(Payload::Validation(_))));
        assert_eq!(error.message(), "服务名不能为空");
    }
}
