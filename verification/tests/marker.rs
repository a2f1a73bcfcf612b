use std::sync::Arc;

use indexmap::IndexMap;
use wecom::directive::collect::collect_directives;
use wecom::directive::marker::check_has_octet_stream;
use wecom::directive::types::Directive;
use wecom::json::{Number, Value};
use wecom::schema::{
    AdditionalProperties, JsonSchema, JsonSchemaWecomDirectives, WecomBoolValue,
};

fn convert(value: &serde_json::Value) -> Value {
    match value {
        serde_json::Value::Null => Value::Null,
        serde_json::Value::Bool(b) => Value::Bool(*b),
        serde_json::Value::Number(n) => Value::Number(if let Some(n) = n.as_u64() {
            Number::PosInt(n)
        } else if let Some(n) = n.as_i64() {
            Number::NegInt(n)
        } else {
            Number::Float(n.to_string())
        }),
        serde_json::Value::String(text) => Value::String(text.clone()),
        serde_json::Value::Array(items) => Value::Array(items.iter().map(convert).collect()),
        serde_json::Value::Object(entries) => {
            Value::Object(entries.iter().map(|(key, value)| (key.clone(), convert(value))).collect())
        }
    }
}

fn value(text: &str) -> Value {
    convert(&serde_json::from_str(text).unwrap())
}

fn schemas(entries: Vec<(&str, JsonSchema)>) -> IndexMap<String, JsonSchema> {
    entries.into_iter().map(|(k, v)| (k.to_string(), v)).collect()
}

fn make_schema() -> JsonSchema {
    JsonSchema { schema_type: Some("object".into()), ..Default::default() }
}

fn with_octet_stream() -> JsonSchema {
    JsonSchema {
        schema_type: Some("string".into()),
        directives: JsonSchemaWecomDirectives {
            octet_stream: Some(WecomBoolValue::default()),
            ..Default::default()
        },
        ..Default::default()
    }
}

#[test]
fn no_marker() {
    assert!(!check_has_octet_stream(&schemas(vec![]), &make_schema()));
}

#[test]
fn direct_octet_stream() {
    assert!(check_has_octet_stream(
        &schemas(vec![]),
        &with_octet_stream()
    ));
}

#[test]
fn nested_octet_stream() {
    let s = schemas(vec![]);

    let mut prop = make_schema();
    prop.properties
        .push(("data".into(), Arc::new(with_octet_stream())));
    assert!(check_has_octet_stream(&s, &prop));

    let array = JsonSchema {
        schema_type: Some("array".into()),
        items: Some(Arc::new(with_octet_stream())),
        ..Default::default()
    };
    assert!(check_has_octet_stream(&s, &array));

    let mut ap = make_schema();
    ap.additional_properties = Some(Box::new(AdditionalProperties::Schema(Arc::new(
        with_octet_stream(),
    ))));
    assert!(check_has_octet_stream(&s, &ap));
}

#[test]
fn pruned_branches_not_detected() {
    let s = schemas(vec![]);

    // oneOf 分支内的标记：collect 在 oneOf 非空时短路返回，marker 同样剪枝
    let mut one_of = make_schema();
    one_of.one_of.push(with_octet_stream());
    assert!(!check_has_octet_stream(&s, &one_of));

    // enum 非空的节点：collect 短路返回
    let mut with_enum = make_schema();
    with_enum.enum_values = vec![value(r#""a""#)];
    with_enum
        .properties
        .push(("data".into(), Arc::new(with_octet_stream())));
    assert!(!check_has_octet_stream(&s, &with_enum));

    // 无 type 的容器节点：collect 不进入其子节点
    let typeless = JsonSchema {
        properties: {
            let mut m = Vec::new();
            m.push(("data".into(), Arc::new(with_octet_stream())));
            m
        },
        ..Default::default()
    };
    assert!(!check_has_octet_stream(&s, &typeless));
}

#[test]
fn deep_no_marker() {
    let mut s = make_schema();
    let mut child = make_schema();
    child.properties.push(("x".into(), Arc::new(make_schema())));
    s.properties.push(("data".into(), Arc::new(child)));
    assert!(!check_has_octet_stream(&schemas(vec![]), &s));
}

#[test]
fn ref_resolved_marker_hit() {
    let s = schemas(vec![("Res", with_octet_stream())]);
    let r = JsonSchema {
        schema_ref: Some("Res".into()),
        ..Default::default()
    };
    assert!(check_has_octet_stream(&s, &r));
}

#[test]
fn missing_ref_target_is_false() {
    let s = schemas(vec![]);
    let r = JsonSchema {
        schema_ref: Some("Missing".into()),
        ..Default::default()
    };
    assert!(!check_has_octet_stream(&s, &r));
}

#[test]
fn circular_ref_terminates() {
    let a = JsonSchema {
        schema_ref: Some("B".into()),
        ..Default::default()
    };
    let b = JsonSchema {
        schema_ref: Some("A".into()),
        ..Default::default()
    };
    let s = schemas(vec![("A", a), ("B", b)]);
    let r = JsonSchema {
        schema_ref: Some("A".into()),
        ..Default::default()
    };
    assert!(!check_has_octet_stream(&s, &r));
}

#[test]
fn marker_consistent_with_collect_directives() {
    let collected = |schemas: &IndexMap<String, JsonSchema>,
                     schema: &JsonSchema,
                     data: &Value| {
        collect_directives(schemas, schema, data)
            .iter()
            .any(|d| matches!(d, Directive::UploadMultipart { .. }))
    };

    // 平铺 properties：marker 检出 ⇔ 指令被收集
    let mut flat = make_schema();
    flat.properties
        .push(("media".into(), Arc::new(with_octet_stream())));
    let data = value(r#"{"media": "/tmp/x.png"}"#);
    let s = schemas(vec![]);
    assert!(check_has_octet_stream(&s, &flat));
    assert!(collected(&s, &flat, &data));

    // $ref 包装：两侧都解析
    let s = schemas(vec![("Req", flat)]);
    let r = JsonSchema {
        schema_ref: Some("Req".into()),
        ..Default::default()
    };
    assert!(check_has_octet_stream(&s, &r));
    assert!(collected(&s, &r, &data));

    // oneOf 内的标记：两侧都剪枝，同假
    let mut one_of = make_schema();
    one_of.one_of.push(with_octet_stream());
    assert_eq!(
        check_has_octet_stream(&s, &one_of),
        collected(&s, &one_of, &data),
        "oneOf 分支必须同真同假"
    );

    // 无 type 容器内的标记：两侧同假
    let typeless = JsonSchema {
        properties: {
            let mut m = Vec::new();
            m.push(("media".into(), Arc::new(with_octet_stream())));
            m
        },
        ..Default::default()
    };
    assert_eq!(
        check_has_octet_stream(&s, &typeless),
        collected(&s, &typeless, &data),
        "无 type 节点必须同真同假"
    );
}

#[test]
fn a_circle_with_a_marker_in_it_is_found() {
    let mut a = make_schema();
    a.properties.push((
        "next".into(),
        Arc::new(JsonSchema { schema_ref: Some("A".into()), ..Default::default() }),
    ));
    a.properties.push(("file".into(), Arc::new(with_octet_stream())));
    let s = schemas(vec![("A", a)]);
    let r = JsonSchema { schema_ref: Some("A".into()), ..Default::default() };
    assert!(check_has_octet_stream(&s, &r));
}
