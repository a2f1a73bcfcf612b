use std::sync::Arc;

use indexmap::IndexMap;
use wecom::directive::collect::{collect, collect_directives, value_type_matches_schema};
use wecom::directive::ending::{comes_to_an_end, try_collect};
use wecom::directive::types::Directive;
use wecom::json::{Number, PathSegment, Value};
use wecom::schema::{AdditionalProperties, JsonSchema, JsonSchemaWecomDirectives, WecomBoolValue};

fn convert(value: &serde_json::Value) -> Value {
    match value {
        serde_json::Value::Null => Value::Null,
        serde_json::Value::Bool(b) => Value::Bool(*b),
        serde_json::Value::Number(n) => Value::Number(if let Some(n) = n.as_u64() {
            Number::PosInt(n)
        } else if let Some(n) = n.as_i64() {
            Number::NegInt(n)
        } else {
            Number::Float(n.to_string())
        }),
        serde_json::Value::String(text) => Value::String(text.clone()),
        serde_json::Value::Array(items) => Value::Array(items.iter().map(convert).collect()),
        serde_json::Value::Object(entries) => {
            Value::Object(entries.iter().map(|(key, value)| (key.clone(), convert(value))).collect())
        }
    }
}

fn value(text: &str) -> Value {
    convert(&serde_json::from_str(text).unwrap())
}

fn make_schemas() -> IndexMap<String, JsonSchema> {
    IndexMap::new()
}

#[test]
fn empty_schema_no_directives() {
    let schemas = make_schemas();
    let schema = JsonSchema::default();
    let data = value(r#"{}"#);
    let directives = collect_directives(&schemas, &schema, &data);
    assert!(directives.is_empty());
}

#[test]
fn object_schema_without_directives() {
    let schemas = make_schemas();
    let schema = JsonSchema {
        schema_type: Some("object".to_string()),
        properties: {
            let mut m = Vec::new();
            m.push((
                "name".to_string(),
                Arc::new(JsonSchema {
                    schema_type: Some("string".to_string()),
                    ..Default::default()
                }),
            ));
            m
        },
        ..Default::default()
    };
    let data = value(r#"{"name": "hello"}"#);
    let directives = collect_directives(&schemas, &schema, &data);
    assert!(directives.is_empty());
}

#[test]
fn upload_media_directive_collected() {
    let schemas = make_schemas();
    let schema = JsonSchema {
        schema_type: Some("object".to_string()),
        properties: {
            let mut m = Vec::new();
            m.push((
                "file".to_string(),
                Arc::new(JsonSchema {
                    schema_type: Some("string".to_string()),
                    directives: JsonSchemaWecomDirectives {
                        upload_media: Some(wecom::schema::UploadMediaOptions::default()),
                        ..Default::default()
                    },
                    ..Default::default()
                }),
            ));
            m
        },
        ..Default::default()
    };
    let data = value(r#"{"file": "/path/to/file.txt"}"#);
    let directives = collect_directives(&schemas, &schema, &data);
    assert_eq!(directives.len(), 1);
    assert!(
        matches!(&directives[0], Directive::UploadMedia { file_path, .. } if file_path == "/path/to/file.txt")
    );
}

#[test]
fn octet_stream_directive_collected() {
    let schemas = make_schemas();
    let schema = JsonSchema {
        schema_type: Some("object".to_string()),
        properties: {
            let mut m = Vec::new();
            m.push((
                "media".to_string(),
                Arc::new(JsonSchema {
                    schema_type: Some("string".to_string()),
                    directives: JsonSchemaWecomDirectives {
                        octet_stream: Some(WecomBoolValue::default()),
                        ..Default::default()
                    },
                    ..Default::default()
                }),
            ));
            m
        },
        ..Default::default()
    };
    let data = value(r#"{"media": "/path/to/video.mp4"}"#);
    let directives = collect_directives(&schemas, &schema, &data);
    assert_eq!(directives.len(), 1);
    assert!(matches!(&directives[0], Directive::UploadMultipart { .. }));
}

#[test]
fn file_save_directive_collected() {
    let schemas = make_schemas();
    let save_options = wecom::schema::FileSaveOptions {
        file_name: Some("output.csv".to_string()),
        content_encoding: None,
    };
    let schema = JsonSchema {
        schema_type: Some("object".to_string()),
        properties: {
            let mut m = Vec::new();
            m.push((
                "data".to_string(),
                Arc::new(JsonSchema {
                    schema_type: Some("string".to_string()),
                    directives: JsonSchemaWecomDirectives {
                        file_save: Some(save_options),
                        ..Default::default()
                    },
                    ..Default::default()
                }),
            ));
            m
        },
        ..Default::default()
    };
    let data = value(r#"{"data": "csv content here"}"#);
    let directives = collect_directives(&schemas, &schema, &data);
    assert_eq!(directives.len(), 1);
    assert!(
        matches!(&directives[0], Directive::Save { options, .. } if options.file_name.as_deref() == Some("output.csv"))
    );
}

#[test]
fn file_save_directive_collected_for_non_string_data() {
    let schemas = make_schemas();
    let save_options = wecom::schema::FileSaveOptions {
        file_name: Some("output.csv".to_string()),
        content_encoding: None,
    };
    let schema = JsonSchema {
        schema_type: Some("object".to_string()),
        properties: {
            let mut m = Vec::new();
            m.push((
                "data".to_string(),
                Arc::new(JsonSchema {
                    schema_type: Some("string".to_string()),
                    directives: JsonSchemaWecomDirectives {
                        file_save: Some(save_options),
                        ..Default::default()
                    },
                    ..Default::default()
                }),
            ));
            m
        },
        ..Default::default()
    };
    // 数据值为 Object（file_save 的 payload 格式），不是字符串
    // file_save 的收集不应依赖 data 的类型
    let data =
        value(r#"{"data": {"content": "csv content here", "file_name": "result.csv"}}"#);
    let directives = collect_directives(&schemas, &schema, &data);
    assert_eq!(directives.len(), 1);
    assert!(
        matches!(&directives[0], Directive::Save { options, .. } if options.file_name.as_deref() == Some("output.csv"))
    );
}

#[test]
fn array_items_walk_collects_directives() {
    let schemas = make_schemas();
    let schema = JsonSchema {
        schema_type: Some("array".to_string()),
        items: Some(Arc::new(JsonSchema {
            schema_type: Some("string".to_string()),
            directives: JsonSchemaWecomDirectives {
                upload_media: Some(wecom::schema::UploadMediaOptions::default()),
                ..Default::default()
            },
            ..Default::default()
        })),
        ..Default::default()
    };
    let data = value(r#"["/a.txt", "/b.txt"]"#);
    let directives = collect_directives(&schemas, &schema, &data);
    assert_eq!(directives.len(), 2);
}

#[test]
fn ref_resolves_to_target_schema() {
    let mut schemas = IndexMap::new();
    schemas.insert(
        "FileField".to_string(),
        JsonSchema {
            schema_type: Some("string".to_string()),
            directives: JsonSchemaWecomDirectives {
                upload_media: Some(wecom::schema::UploadMediaOptions::default()),
                ..Default::default()
            },
            ..Default::default()
        },
    );

    let schema = JsonSchema {
        schema_type: Some("object".to_string()),
        properties: {
            let mut m = Vec::new();
            m.push((
                "media".to_string(),
                Arc::new(JsonSchema {
                    schema_ref: Some("FileField".to_string()),
                    ..Default::default()
                }),
            ));
            m
        },
        ..Default::default()
    };
    let data = value(r#"{"media": "/file.bin"}"#);
    let directives = collect_directives(&schemas, &schema, &data);
    assert_eq!(directives.len(), 1);
}

#[test]
fn non_string_data_skipped_for_string_schema() {
    let schemas = make_schemas();
    let schema = JsonSchema {
        schema_type: Some("object".to_string()),
        properties: {
            let mut m = Vec::new();
            m.push((
                "file".to_string(),
                Arc::new(JsonSchema {
                    schema_type: Some("string".to_string()),
                    directives: JsonSchemaWecomDirectives {
                        upload_media: Some(wecom::schema::UploadMediaOptions::default()),
                        ..Default::default()
                    },
                    ..Default::default()
                }),
            ));
            m
        },
        ..Default::default()
    };
    // "file" is a number, not a string — should be skipped
    let data = value(r#"{"file": 42}"#);
    let directives = collect_directives(&schemas, &schema, &data);
    assert!(directives.is_empty());
}

#[test]
fn single_item_array_extracted_for_string_schema() {
    let schemas = make_schemas();
    let schema = JsonSchema {
        schema_type: Some("object".to_string()),
        properties: {
            let mut m = Vec::new();
            m.push((
                "file".to_string(),
                Arc::new(JsonSchema {
                    schema_type: Some("string".to_string()),
                    directives: JsonSchemaWecomDirectives {
                        upload_media: Some(wecom::schema::UploadMediaOptions::default()),
                        ..Default::default()
                    },
                    ..Default::default()
                }),
            ));
            m
        },
        ..Default::default()
    };
    let data = value(r#"{"file": ["/a.jpg"]}"#);
    let directives = collect_directives(&schemas, &schema, &data);
    assert_eq!(directives.len(), 1);
    assert!(
        matches!(&directives[0], Directive::UploadMedia { file_path, .. } if file_path == "/a.jpg")
    );
}

#[test]
fn one_of_short_circuits() {
    let schemas = make_schemas();
    let schema = JsonSchema {
        one_of: vec![JsonSchema {
            schema_type: Some("string".to_string()),
            ..Default::default()
        }],
        ..Default::default()
    };
    let data = value(r#""test""#);
    let directives = collect_directives(&schemas, &schema, &data);
    assert!(directives.is_empty());
}

#[test]
fn enum_short_circuits() {
    let schemas = make_schemas();
    let schema = JsonSchema {
        schema_type: Some("string".to_string()),
        enum_values: vec![value(r#""a""#), value(r#""b""#)],
        ..Default::default()
    };
    let data = value(r#""a""#);
    let directives = collect_directives(&schemas, &schema, &data);
    assert!(directives.is_empty());
}

#[test]
fn auto_correct_array_schema_single_string_to_array() {
    let schemas = make_schemas();
    // array schema，items 标记了 upload_media
    let schema = JsonSchema {
        schema_type: Some("object".to_string()),
        properties: {
            let mut m = Vec::new();
            m.push((
                "files".to_string(),
                Arc::new(JsonSchema {
                    schema_type: Some("array".to_string()),
                    items: Some(Arc::new(JsonSchema {
                        schema_type: Some("string".to_string()),
                        directives: JsonSchemaWecomDirectives {
                            upload_media: Some(wecom::schema::UploadMediaOptions::default()),
                            ..Default::default()
                        },
                        ..Default::default()
                    })),
                    ..Default::default()
                }),
            ));
            m
        },
        ..Default::default()
    };
    // LLM 误传：单个字符串而非数组
    let data = value(r#"{"files": "/path/to/file.jpg"}"#);
    let directives = collect_directives(&schemas, &schema, &data);
    assert_eq!(directives.len(), 1);
    assert!(
        matches!(&directives[0], Directive::UploadMedia { file_path, .. } if file_path == "/path/to/file.jpg")
    );
}

#[test]
fn auto_correct_array_schema_normal_array_unaffected() {
    let schemas = make_schemas();
    let schema = JsonSchema {
        schema_type: Some("object".to_string()),
        properties: {
            let mut m = Vec::new();
            m.push((
                "files".to_string(),
                Arc::new(JsonSchema {
                    schema_type: Some("array".to_string()),
                    items: Some(Arc::new(JsonSchema {
                        schema_type: Some("string".to_string()),
                        directives: JsonSchemaWecomDirectives {
                            upload_media: Some(wecom::schema::UploadMediaOptions::default()),
                            ..Default::default()
                        },
                        ..Default::default()
                    })),
                    ..Default::default()
                }),
            ));
            m
        },
        ..Default::default()
    };
    // 正常数组 → 不应被纠偏逻辑影响
    let data = value(r#"{"files": ["/a.jpg", "/b.pdf"]}"#);
    let directives = collect_directives(&schemas, &schema, &data);
    assert_eq!(directives.len(), 2);
}

#[test]
fn auto_correct_array_schema_object_not_corrected() {
    let schemas = make_schemas();
    let schema = JsonSchema {
        schema_type: Some("object".to_string()),
        properties: {
            let mut m = Vec::new();
            m.push((
                "files".to_string(),
                Arc::new(JsonSchema {
                    schema_type: Some("array".to_string()),
                    items: Some(Arc::new(JsonSchema {
                        schema_type: Some("string".to_string()),
                        directives: JsonSchemaWecomDirectives {
                            upload_media: Some(wecom::schema::UploadMediaOptions::default()),
                            ..Default::default()
                        },
                        ..Default::default()
                    })),
                    ..Default::default()
                }),
            ));
            m
        },
        ..Default::default()
    };
    // 对象不应被转换为 array
    let data = value(r#"{"files": {"file_path": "/a.jpg"}}"#);
    let directives = collect_directives(&schemas, &schema, &data);
    assert!(directives.is_empty());
}

#[test]
fn unwrap_path_includes_index() {
    let schemas = make_schemas();
    let schema = JsonSchema {
        schema_type: Some("object".to_string()),
        properties: {
            let mut m = Vec::new();
            m.push((
                "file".to_string(),
                Arc::new(JsonSchema {
                    schema_type: Some("string".to_string()),
                    directives: JsonSchemaWecomDirectives {
                        upload_media: Some(wecom::schema::UploadMediaOptions::default()),
                        ..Default::default()
                    },
                    ..Default::default()
                }),
            ));
            m
        },
        ..Default::default()
    };
    let data = value(r#"{"file": ["/a.jpg"]}"#);
    let directives = collect_directives(&schemas, &schema, &data);
    assert_eq!(directives.len(), 1);
    let Directive::UploadMedia {
        path, file_path, ..
    } = &directives[0]
    else {
        panic!("expected UploadMedia directive");
    };
    assert_eq!(file_path, "/a.jpg");
    assert_eq!(path.len(), 2);
    assert!(matches!(&path[0], PathSegment::Key(k) if k == "file"));
    assert!(matches!(&path[1], PathSegment::Index(0)));
}

#[test]
fn wrap_path_no_index() {
    let schemas = make_schemas();
    let schema = JsonSchema {
        schema_type: Some("object".to_string()),
        properties: {
            let mut m = Vec::new();
            m.push((
                "files".to_string(),
                Arc::new(JsonSchema {
                    schema_type: Some("array".to_string()),
                    items: Some(Arc::new(JsonSchema {
                        schema_type: Some("string".to_string()),
                        directives: JsonSchemaWecomDirectives {
                            upload_media: Some(wecom::schema::UploadMediaOptions::default()),
                            ..Default::default()
                        },
                        ..Default::default()
                    })),
                    ..Default::default()
                }),
            ));
            m
        },
        ..Default::default()
    };
    let data = value(r#"{"files": "/a.jpg"}"#);
    let directives = collect_directives(&schemas, &schema, &data);
    assert_eq!(directives.len(), 1);
    let Directive::UploadMedia {
        path, file_path, ..
    } = &directives[0]
    else {
        panic!("expected UploadMedia directive");
    };
    assert_eq!(file_path, "/a.jpg");
    assert_eq!(path.len(), 1);
    assert!(matches!(&path[0], PathSegment::Key(k) if k == "files"));
}

#[test]
fn no_correction_on_type_mismatch() {
    let schemas = make_schemas();
    let schema = JsonSchema {
        schema_type: Some("object".to_string()),
        properties: {
            let mut m = Vec::new();
            m.push((
                "files".to_string(),
                Arc::new(JsonSchema {
                    schema_type: Some("array".to_string()),
                    items: Some(Arc::new(JsonSchema {
                        schema_type: Some("string".to_string()),
                        directives: JsonSchemaWecomDirectives {
                            upload_media: Some(wecom::schema::UploadMediaOptions::default()),
                            ..Default::default()
                        },
                        ..Default::default()
                    })),
                    ..Default::default()
                }),
            ));
            m
        },
        ..Default::default()
    };
    // number 类型与 string 不匹配 → 不纠偏
    let data = value(r#"{"files": 42}"#);
    let directives = collect_directives(&schemas, &schema, &data);
    assert!(directives.is_empty());
}

#[test]
fn two_dimensional_array_not_unwrapped() {
    let schemas = make_schemas();
    let schema = JsonSchema {
        schema_type: Some("object".to_string()),
        properties: {
            let mut m = Vec::new();
            m.push((
                "items".to_string(),
                Arc::new(JsonSchema {
                    schema_type: Some("array".to_string()),
                    items: Some(Arc::new(JsonSchema {
                        schema_type: Some("array".to_string()),
                        items: Some(Arc::new(JsonSchema {
                            schema_type: Some("string".to_string()),
                            directives: JsonSchemaWecomDirectives {
                                upload_media: Some(
                                    wecom::schema::UploadMediaOptions::default(),
                                ),
                                ..Default::default()
                            },
                            ..Default::default()
                        })),
                        ..Default::default()
                    })),
                    ..Default::default()
                }),
            ));
            m
        },
        ..Default::default()
    };
    let data = value(r#"{"items": [["/a.jpg"]]}"#);
    let directives = collect_directives(&schemas, &schema, &data);
    assert_eq!(directives.len(), 1);
    let Directive::UploadMedia {
        path, file_path, ..
    } = &directives[0]
    else {
        panic!("expected UploadMedia directive");
    };
    assert_eq!(file_path, "/a.jpg");
    assert_eq!(path.len(), 3);
    assert!(matches!(&path[0], PathSegment::Key(k) if k == "items"));
    assert!(matches!(&path[1], PathSegment::Index(0)));
    assert!(matches!(&path[2], PathSegment::Index(0)));
}

fn upload() -> JsonSchema {
    JsonSchema {
        schema_type: Some("string".to_string()),
        directives: JsonSchemaWecomDirectives {
            upload_media: Some(wecom::schema::UploadMediaOptions { with_file_path: true }),
            ..Default::default()
        },
        ..Default::default()
    }
}

fn reference(name: &str) -> JsonSchema {
    JsonSchema { schema_ref: Some(name.to_string()), ..Default::default() }
}

#[test]
fn types_match_values() {
    for (text, name) in [
        ("\"a\"", "string"),
        ("[]", "array"),
        ("{}", "object"),
        ("1", "number"),
        ("-1", "integer"),
        ("1.5", "number"),
        ("true", "boolean"),
    ] {
        assert!(value_type_matches_schema(&value(text), name));
    }
    assert!(!value_type_matches_schema(&value("null"), "null"));
    assert!(!value_type_matches_schema(&value("1"), "string"));
}

#[test]
fn properties_go_before_the_other_entries() {
    let schemas = make_schemas();
    let schema = JsonSchema {
        schema_type: Some("object".to_string()),
        properties: vec![
            ("b".to_string(), Arc::new(upload())),
            ("a".to_string(), Arc::new(upload())),
        ],
        additional_properties: Some(Box::new(AdditionalProperties::Schema(Arc::new(upload())))),
        ..Default::default()
    };
    let data = value(r#"{"z": "/z", "a": "/a", "b": "/b"}"#);
    let paths: Vec<String> = collect_directives(&schemas, &schema, &data)
        .iter()
        .map(|d| match d {
            Directive::UploadMedia { file_path, with_file_path: true, .. } => file_path.clone(),
            other => panic!("{other:?}"),
        })
        .collect();
    assert_eq!(paths, ["/b", "/a", "/z"]);
}

#[test]
fn unknown_directives_are_sorted_and_told_once() {
    let schemas = make_schemas();
    let leaf = |names: &[&str]| JsonSchema {
        schema_type: Some("string".to_string()),
        extra: names.iter().map(|n| (n.to_string(), Value::Bool(true))).collect(),
        ..Default::default()
    };
    let schema = JsonSchema {
        schema_type: Some("object".to_string()),
        properties: vec![
            ("a".to_string(), Arc::new(leaf(&["x-wecom-zeta", "format", "x-wecom-alpha"]))),
            ("b".to_string(), Arc::new(leaf(&["x-wecom-zeta"]))),
        ],
        ..Default::default()
    };
    let found = collect(&schemas, &schema, &value(r#"{"a": "1", "b": "2"}"#));
    assert!(found.directives.is_empty());
    assert_eq!(found.unknown_directives, ["x-wecom-alpha", "x-wecom-zeta"]);
}

#[test]
fn a_circle_at_one_place_is_told_beforehand() {
    let mut schemas = make_schemas();
    schemas.insert("A".to_string(), reference("B"));
    schemas.insert("B".to_string(), reference("A"));
    let start = reference("A");
    assert!(!comes_to_an_end(&schemas, &start, &value("\"x\"")));
    assert!(try_collect(&schemas, &start, &value("\"x\"")).is_none());
}

#[test]
fn a_circle_that_goes_down_in_the_payload_ends() {
    let mut schemas = make_schemas();
    schemas.insert(
        "Node".to_string(),
        JsonSchema {
            schema_type: Some("object".to_string()),
            properties: vec![
                ("next".to_string(), Arc::new(reference("Node"))),
                ("file".to_string(), Arc::new(upload())),
            ],
            ..Default::default()
        },
    );
    let start = reference("Node");
    let data = value(r#"{"next": {"next": {"file": "/c"}, "file": "/b"}, "file": "/a"}"#);
    assert!(comes_to_an_end(&schemas, &start, &data));
    let found = try_collect(&schemas, &start, &data).unwrap();
    assert_eq!(found.directives.len(), 3);
    assert!(matches!(
        &found.directives[0],
        Directive::UploadMedia { file_path, path, .. } if file_path == "/c" && path.len() == 3
    ));
}

#[test]
fn a_circle_through_a_wrapped_value_is_told_beforehand() {
    let mut schemas = make_schemas();
    let mut items = reference("List");
    items.schema_type = Some("string".to_string());
    schemas.insert(
        "List".to_string(),
        JsonSchema {
            schema_type: Some("array".to_string()),
            items: Some(Arc::new(items)),
            ..Default::default()
        },
    );
    let start = reference("List");
    assert!(!comes_to_an_end(&schemas, &start, &value("\"x\"")));
    assert!(comes_to_an_end(&schemas, &start, &value("[]")));
    assert!(comes_to_an_end(&schemas, &start, &value("7")));
}
