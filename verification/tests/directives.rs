use wecom::directive::file_save::{
    decode_content, decoded_or_error, plan_file_save, record_saved_file, SavePlan,
};
use wecom::directive::media_upload::{apply_media_ids, check_upload_sizes, unique_upload_paths};
use wecom::directive::octet_stream::{multipart_file_fields, multipart_parts, FormPart};
use wecom::directive::types::Directive;
use wecom::json::{Number, PathSegment, Value};
use wecom::json_path::{get_value_deep, segments_to_path, set_value_deep};
use wecom::schema::FileSaveOptions;

fn convert(value: &serde_json::Value) -> Value {
    match value {
        serde_json::Value::Null => Value::Null,
        serde_json::Value::Bool(b) => Value::Bool(*b),
        serde_json::Value::Number(n) => Value::Number(if let Some(n) = n.as_u64() {
            Number::PosInt(n)
        } else if let Some(n) = n.as_i64() {
            Number::NegInt(n)
        } else {
            Number::Float(n.to_string())
        }),
        serde_json::Value::String(text) => Value::String(text.clone()),
        serde_json::Value::Array(items) => Value::Array(items.iter().map(convert).collect()),
        serde_json::Value::Object(entries) => {
            Value::Object(entries.iter().map(|(key, value)| (key.clone(), convert(value))).collect())
        }
    }
}

fn value(text: &str) -> Value {
    convert(&serde_json::from_str(text).unwrap())
}

fn key(name: &str) -> PathSegment {
    PathSegment::Key(name.to_string())
}

fn media(path: Vec<PathSegment>, file_path: &str, with_file_path: bool) -> Directive<'static> {
    Directive::UploadMedia { path, file_path: file_path.to_string(), with_file_path }
}

fn under<'a>(fields: &'a [(String, String)], name: &str) -> Option<&'a String> {
    fields.iter().find(|(field, _)| field == name).map(|(_, path)| path)
}

fn options(file_name: Option<&str>, content_encoding: Option<&str>) -> FileSaveOptions {
    FileSaveOptions {
        file_name: file_name.map(str::to_string),
        content_encoding: content_encoding.map(str::to_string),
    }
}

#[test]
fn directive_upload_media_debug() {
    let d = Directive::UploadMedia {
        path: vec![PathSegment::Key("media".into())],
        file_path: "/tmp/file.txt".to_string(),
        with_file_path: false,
    };
    let debug_str = format!("{:?}", d);
    assert!(debug_str.contains("UploadMedia"));
    assert!(debug_str.contains("file.txt"));
}

#[test]
fn directive_upload_multipart_debug() {
    let d = Directive::UploadMultipart {
        path: vec![PathSegment::Key("file".into())],
        file_path: "/tmp/file.txt".to_string(),
    };
    let debug_str = format!("{:?}", d);
    assert!(debug_str.contains("UploadMultipart"));
}

#[test]
fn directive_save_debug() {
    let options = wecom::schema::FileSaveOptions {
        file_name: Some("report.pdf".to_string()),
        content_encoding: Some("base64".to_string()),
    };
    let d = Directive::Save {
        path: vec![PathSegment::Key("data".into())],
        options: &options,
    };
    let debug_str = format!("{:?}", d);
    assert!(debug_str.contains("Save"));
    assert!(debug_str.contains("report.pdf"));
}

#[test]
fn decode_content_no_encoding() {
    let result = decode_content("hello world", None).unwrap();
    assert_eq!(result, b"hello world");
}

#[test]
fn decode_content_non_base64_encoding() {
    let result = decode_content("hello", Some("utf-8")).unwrap();
    assert_eq!(result, b"hello");
}

#[test]
fn decode_content_base64_valid() {
    // "hello" in base64 = "aGVsbG8="
    let result = decode_content("aGVsbG8=", Some("base64")).unwrap();
    assert_eq!(result, b"hello");
}

#[test]
fn decode_content_base64_invalid() {
    let result = decode_content("not_valid_base64!!!", Some("base64"));
    assert!(result.is_err());
}

#[test]
fn decode_content_base64_empty() {
    let result = decode_content("", Some("base64")).unwrap();
    assert!(result.is_empty());
}

#[test]
fn multipart_file_fields_extracts_paths() {

    let directives = vec![
        Directive::UploadMultipart {
            path: vec![PathSegment::Key("file".into())],
            file_path: String::from("/tmp/a.bin"),
        },
        Directive::UploadMultipart {
            path: vec![
                PathSegment::Key("nested".into()),
                PathSegment::Key("data".into()),
            ],
            file_path: String::from("/tmp/b.bin"),
        },
    ];
    let fields = multipart_file_fields(&directives);
    assert_eq!(
        under(&fields, "file"),
        Some(&String::from("/tmp/a.bin"))
    );
    assert_eq!(
        under(&fields, "nested.data"),
        Some(&String::from("/tmp/b.bin"))
    );
}

#[test]
fn the_last_directive_for_a_field_wins() {
    let directives = [
        Directive::UploadMultipart { path: vec![key("f")], file_path: "/a".to_string() },
        media(vec![key("f")], "/ignored", false),
        Directive::UploadMultipart { path: vec![key("f")], file_path: "/b".to_string() },
    ];
    assert_eq!(multipart_file_fields(&directives), [("f".to_string(), "/b".to_string())]);
}

#[test]
fn a_form_has_files_for_file_fields_and_text_for_the_others() {
    let fields = [
        ("data".to_string(), "/local/x".to_string()),
        ("name".to_string(), "n".to_string()),
    ];
    let files = vec![("data".to_string(), "/abs/x".to_string())];
    let form = multipart_parts(&fields, &files);
    assert_eq!(form.len(), 2);
    assert!(matches!(
        &form[0],
        FormPart::File { name, file_path } if name == "data" && file_path == "/abs/x"
    ));
    assert!(matches!(
        &form[1],
        FormPart::Text { name, value } if name == "name" && value == "n"
    ));
}

#[test]
fn a_failed_decoding_is_told() {
    let error = decode_content("not_valid_base64!!!", Some("base64")).unwrap_err();
    assert!(error.message().starts_with("Decode base64 failed: "));
    let error = decoded_or_error(Err("reason".to_string())).unwrap_err();
    assert_eq!(error.message(), "Decode base64 failed: reason");
    assert_eq!(decoded_or_error(Ok(vec![1, 2])).unwrap(), [1, 2]);
    assert_eq!(decode_content("中", None).unwrap(), "中".as_bytes());
}

#[test]
fn a_string_is_saved_under_the_name_of_the_schema() {
    let options = options(Some("decoded.bin"), Some("base64"));
    let save = Directive::Save { path: vec![key("data")], options: &options };
    let plan = plan_file_save(&value(r#"{"data": "aGVsbG8="}"#), &save, false);
    let SavePlan::File { content, content_encoding, file_name } = plan else {
        panic!("{plan:?}");
    };
    assert_eq!(file_name.as_deref(), Some("decoded.bin"));
    assert_eq!(decode_content(&content, content_encoding.as_deref()).unwrap(), b"hello");
}

#[test]
fn an_object_goes_before_the_schema() {
    let options = options(Some("schema_name.txt"), Some("utf-8"));
    let save = Directive::Save { path: vec![key("data")], options: &options };
    let data = value(
        r#"{"data": {"file_name": "override_name.bin", "content": "aGVsbG8=", "content_encoding": "base64"}}"#,
    );
    let plan = plan_file_save(&data, &save, false);
    let SavePlan::File { content, content_encoding, file_name } = plan else {
        panic!("{plan:?}");
    };
    assert_eq!(file_name.as_deref(), Some("override_name.bin"));
    assert_eq!(decode_content(&content, content_encoding.as_deref()).unwrap(), b"hello");
}

#[test]
fn an_object_falls_back_to_the_schema() {
    let options = options(Some("schema_output.txt"), None);
    let save = Directive::Save { path: vec![key("data")], options: &options };
    let data = value(r#"{"data": {"content": "file content from object", "file_name": null}}"#);
    let plan = plan_file_save(&data, &save, false);
    let SavePlan::File { content, content_encoding: None, file_name } = plan else {
        panic!("{plan:?}");
    };
    assert_eq!(file_name.as_deref(), Some("schema_output.txt"));
    assert_eq!(content, "file content from object");
}

#[test]
fn names_of_saved_files_are_made_safe() {
    let options = options(None, None);
    let save = Directive::Save { path: vec![key("data")], options: &options };
    let data = value(r#"{"data": {"file_name": "../../evil.txt", "content": "payload"}}"#);
    assert!(matches!(
        plan_file_save(&data, &save, false),
        SavePlan::File { file_name: Some(name), .. } if name == ".._.._evil.txt"
    ));
    let data = value(r#"{"data": "content"}"#);
    assert!(matches!(
        plan_file_save(&data, &save, false),
        SavePlan::File { file_name: None, .. }
    ));
}

#[test]
fn what_describes_no_file_is_left_alone() {
    let options = options(Some("out.txt"), None);
    let save = Directive::Save { path: vec![key("data")], options: &options };
    let plan = |text: &str| plan_file_save(&value(text), &save, false);
    assert!(matches!(plan(r#"{"other": "value"}"#), SavePlan::Nothing));
    assert!(matches!(plan(r#"{"data": {"file_name": "x"}}"#), SavePlan::InvalidObject));
    assert!(matches!(plan(r#"{"data": {"content": 1}}"#), SavePlan::InvalidObject));
    assert!(matches!(plan(r#"{"data": 42}"#), SavePlan::InvalidType));
    let upload = media(vec![key("data")], "/a", false);
    assert!(matches!(
        plan_file_save(&value(r#"{"data": "x"}"#), &upload, false),
        SavePlan::Nothing
    ));
}

#[test]
fn the_path_of_a_saved_file_takes_the_place_of_its_content() {
    let mut data = value(r#"{"data": "content", "other": 1}"#);
    record_saved_file(&mut data, &[key("data")], "/out/a.txt");
    assert_eq!(data, value(r#"{"data": "/out/a.txt", "other": 1}"#));
}

#[test]
fn every_file_is_uploaded_once() {
    let directives = [
        media(vec![key("a")], "/x", false),
        media(vec![key("b")], "/y", false),
        media(vec![key("c")], "/x", true),
        Directive::UploadMultipart { path: vec![key("d")], file_path: "/z".to_string() },
    ];
    assert_eq!(unique_upload_paths(&directives), ["/x", "/y"]);
    let mut data = value(r#"{"a": "/x", "b": "/y", "c": "/x", "d": "/z"}"#);
    let uploaded = [
        ("/x".to_string(), "id-x".to_string()),
        ("/y".to_string(), "id-y".to_string()),
    ];
    apply_media_ids(&mut data, &directives, &uploaded);
    assert_eq!(
        data,
        value(
            r#"{"a": "id-x", "b": "id-y", "c": {"media_id": "id-x", "file_path": "/x"}, "d": "/z"}"#
        )
    );
}

#[test]
fn sizes_are_checked_before_anything_is_uploaded() {
    let files = [("/a".to_string(), 10), ("/b".to_string(), 11), ("/c".to_string(), 12)];
    assert!(check_upload_sizes(&files, 12, "0.0").is_ok());
    let error = check_upload_sizes(&files, 10, "0.0").unwrap_err();
    assert_eq!(error.message(), "文件 \"/b\" 大小超过 0.0 MB 限制");
}

#[test]
fn values_are_read_and_written_along_paths() {
    let mut data = value(r#"{"a": [{"b": 1}, {"b": 2}]}"#);
    let path = [key("a"), PathSegment::Index(1), key("b")];
    assert_eq!(get_value_deep(&data, &path), Some(&value("2")));
    set_value_deep(&mut data, &path, value("\"x\""));
    assert_eq!(data, value(r#"{"a": [{"b": 1}, {"b": "x"}]}"#));
    set_value_deep(&mut data, &[key("missing"), key("b")], value("1"));
    assert_eq!(data, value(r#"{"a": [{"b": 1}, {"b": "x"}]}"#));
    assert_eq!(get_value_deep(&data, &[key("a"), PathSegment::Index(2)]), None);
    assert_eq!(get_value_deep(&data, &[]), Some(&data));
    assert_eq!(segments_to_path(&path), "a.1.b");
    assert_eq!(segments_to_path(&[]), "");
}

fn keys_are_distinct(value: &Value) -> bool {
    match value {
        Value::Array(items) => items.iter().all(keys_are_distinct),
        Value::Object(entries) => entries.iter().enumerate().all(|(i, (key, value))| {
            keys_are_distinct(value) && entries[..i].iter().all(|(other, _)| other != key)
        }),
        _ => true,
    }
}

#[test]
fn writing_keeps_the_keys_distinct() {
    let mut data = value(r#"{"a": {"b": 1, "c": [{"d": 2}]}, "e": 3}"#);
    set_value_deep(&mut data, &[key("a"), key("b")], value(r#"{"x": 1, "y": 2}"#));
    set_value_deep(&mut data, &[key("a"), key("nowhere")], Value::Null);
    let directives = vec![media(vec![key("e")], "/tmp/a.png", true)];
    apply_media_ids(&mut data, &directives, &[("/tmp/a.png".to_string(), "m1".to_string())]);
    assert!(keys_are_distinct(&data));
    assert_eq!(
        data,
        value(
            r#"{"a": {"b": {"x": 1, "y": 2}, "c": [{"d": 2}]},
                "e": {"media_id": "m1", "file_path": "/tmp/a.png"}}"#
        )
    );
}
