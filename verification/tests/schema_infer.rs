use jdx::schema::{format_schema, infer_schema, merge_schemas, FieldSchema, SchemaType};
use jdx::value::Json;

fn s(x: &str) -> Json {
    Json::Str(x.to_string())
}

fn n(x: i64) -> Json {
    Json::Num(x.to_string())
}

fn arr(items: Vec<Json>) -> Json {
    Json::Arr(items)
}

fn obj(pairs: Vec<(&str, Json)>) -> Json {
    let mut v: Vec<(String, Json)> = pairs
        .into_iter()
        .map(|(k, j)| (k.to_string(), j))
        .collect();
    v.sort_by(|a, b| a.0.cmp(&b.0));
    Json::Obj(v)
}

fn field<'a>(fields: &'a [(String, FieldSchema)], key: &str) -> &'a FieldSchema {
    &fields.iter().find(|(k, _)| k == key).expect("field").1
}

#[test]
fn test_infer_simple_object() {
    let data = obj(vec![("name", s("Alice")), ("age", n(30))]);
    let schema = infer_schema(&data, 10);
    if let SchemaType::Object { fields } = schema {
        assert!(fields.iter().any(|(k, _)| k == "name"));
        assert!(fields.iter().any(|(k, _)| k == "age"));
        assert!(matches!(field(&fields, "name").schema, SchemaType::String { .. }));
        assert!(matches!(field(&fields, "age").schema, SchemaType::Number { .. }));
    } else {
        panic!("expected object schema");
    }
}

#[test]
fn test_infer_array_of_objects() {
    let data = arr(vec![
        obj(vec![("name", s("Alice")), ("age", n(25))]),
        obj(vec![("name", s("Bob")), ("age", n(35)), ("email", s("bob@test.com"))]),
    ]);
    let schema = infer_schema(&data, 10);
    if let SchemaType::Array { items, .. } = schema {
        if let SchemaType::Object { fields } = *items {
            assert!(!field(&fields, "name").optional);
            assert!(!field(&fields, "age").optional);
            assert!(field(&fields, "email").optional);
        } else {
            panic!("expected object items");
        }
    } else {
        panic!("expected array schema");
    }
}

#[test]
fn test_infer_null() {
    assert_eq!(infer_schema(&Json::Null, 10), SchemaType::Null);
}

#[test]
fn test_infer_bool() {
    assert_eq!(infer_schema(&Json::Bool(true), 10), SchemaType::Bool);
}

#[test]
fn test_infer_empty_array() {
    let schema = infer_schema(&arr(vec![]), 10);
    if let SchemaType::Array {
        len_min, len_max, ..
    } = schema
    {
        assert_eq!(len_min, 0);
        assert_eq!(len_max, 0);
    } else {
        panic!("expected array schema");
    }
}

#[test]
fn test_infer_mixed_types_in_array() {
    let data = arr(vec![n(1), s("two"), Json::Null]);
    let schema = infer_schema(&data, 10);
    if let SchemaType::Array { items, .. } = schema {
        assert!(matches!(*items, SchemaType::Union(_)));
    } else {
        panic!("expected array schema");
    }
}

#[test]
fn test_schema_simple_object() {
    let data = obj(vec![("name", s("Alice")), ("age", n(30)), ("active", Json::Bool(true))]);
    let schema = infer_schema(&data, 10);
    if let SchemaType::Object { fields } = schema {
        assert_eq!(fields.len(), 3);
        assert!(matches!(field(&fields, "name").schema, SchemaType::String { .. }));
        assert!(matches!(field(&fields, "age").schema, SchemaType::Number { .. }));
        assert!(matches!(field(&fields, "active").schema, SchemaType::Bool));
    } else {
        panic!("expected object schema");
    }
}

#[test]
fn test_schema_array_homogeneous() {
    let data = arr(vec![
        obj(vec![("name", s("Alice")), ("age", n(25))]),
        obj(vec![("name", s("Bob")), ("age", n(35))]),
    ]);
    let schema = infer_schema(&data, 10);
    if let SchemaType::Array {
        items,
        len_min,
        len_max,
        ..
    } = schema
    {
        assert_eq!(len_min, 2);
        assert_eq!(len_max, 2);
        if let SchemaType::Object { fields } = *items {
            assert!(!field(&fields, "name").optional);
            assert!(!field(&fields, "age").optional);
        } else {
            panic!("expected object items");
        }
    } else {
        panic!("expected array schema");
    }
}

#[test]
fn test_schema_optional_fields() {
    let data = arr(vec![
        obj(vec![("name", s("Alice")), ("age", n(25))]),
        obj(vec![("name", s("Bob")), ("age", n(35)), ("email", s("bob@test.com"))]),
        obj(vec![("name", s("Charlie"))]),
    ]);
    let schema = infer_schema(&data, 10);
    if let SchemaType::Array { items, .. } = schema {
        if let SchemaType::Object { fields } = *items {
            assert!(!field(&fields, "name").optional, "name should be required");
            assert!(
                field(&fields, "age").optional,
                "age should be optional (missing in the third record)"
            );
            assert!(field(&fields, "email").optional, "email should be optional");
        } else {
            panic!("expected object items");
        }
    } else {
        panic!("expected array schema");
    }
}

#[test]
fn test_schema_mixed_types() {
    let data = arr(vec![n(1), s("two"), Json::Null, Json::Bool(true)]);
    let schema = infer_schema(&data, 10);
    if let SchemaType::Array { items, .. } = schema {
        assert!(matches!(*items, SchemaType::Union(_)));
    } else {
        panic!("expected array schema");
    }
}

#[test]
fn test_schema_nested_objects() {
    let data = obj(vec![(
        "user",
        obj(vec![(
            "profile",
            obj(vec![("avatar", s("url")), ("bio", s("text"))]),
        )]),
    )]);
    let schema = infer_schema(&data, 10);
    if let SchemaType::Object { fields } = schema {
        if let SchemaType::Object {
            fields: user_fields,
        } = &field(&fields, "user").schema
        {
            if let SchemaType::Object {
                fields: profile_fields,
            } = &field(user_fields, "profile").schema
            {
                assert!(matches!(
                    field(profile_fields, "avatar").schema,
                    SchemaType::String { .. }
                ));
            } else {
                panic!("expected object for profile");
            }
        } else {
            panic!("expected object for user");
        }
    } else {
        panic!("expected object schema");
    }
}

#[test]
fn test_schema_empty_array() {
    let data = arr(vec![]);
    let schema = infer_schema(&data, 10);
    if let SchemaType::Array {
        len_min,
        len_max,
        items,
        ..
    } = schema
    {
        assert_eq!(len_min, 0);
        assert_eq!(len_max, 0);
        assert!(matches!(*items, SchemaType::Unknown));
    } else {
        panic!("expected array schema");
    }
}

#[test]
fn test_schema_number_range() {
    let data = arr(vec![
        obj(vec![("score", n(10))]),
        obj(vec![("score", n(50))]),
        obj(vec![("score", n(90))]),
    ]);
    let schema = infer_schema(&data, 10);
    if let SchemaType::Array { items, .. } = schema {
        if let SchemaType::Object { fields } = *items {
            if let SchemaType::Number { min, max } = &field(&fields, "score").schema {
                assert_eq!(min.as_deref(), Some("10"));
                assert_eq!(max.as_deref(), Some("90"));
            } else {
                panic!("expected number schema for score");
            }
        } else {
            panic!("expected object items");
        }
    } else {
        panic!("expected array schema");
    }
}

#[test]
fn test_schema_sample_bound() {
    let data = arr(vec![n(1), n(2), s("three")]);
    let schema = infer_schema(&data, 2);
    if let SchemaType::Array { items, len_min, .. } = schema {
        assert_eq!(len_min, 3);
        assert!(matches!(*items, SchemaType::Number { .. }));
    } else {
        panic!("expected array schema");
    }
}

#[test]
fn test_merge_schemas_optional_marking() {
    let a = infer_schema(&obj(vec![("a", n(1))]), 10);
    let b = infer_schema(&obj(vec![("a", n(1)), ("b", n(2))]), 10);
    let merged = merge_schemas(a, b);
    if let SchemaType::Object { fields } = merged {
        assert!(!field(&fields, "a").optional);
        assert!(field(&fields, "b").optional);
    } else {
        panic!("expected object schema");
    }
}

#[test]
fn test_merge_schemas_union_names() {
    let a = infer_schema(&n(1), 10);
    let b = infer_schema(&s("x"), 10);
    let merged = merge_schemas(a, b);
    assert_eq!(
        merged,
        SchemaType::Union(vec!["number".to_string(), "string".to_string()])
    );
}

#[test]
fn test_format_schema_null() {
    assert_eq!(format_schema(&SchemaType::Null, 0), "null");
}

#[test]
fn test_format_schema_bool() {
    assert_eq!(format_schema(&SchemaType::Bool, 0), "bool");
}

#[test]
fn test_format_schema_unknown() {
    assert_eq!(format_schema(&SchemaType::Unknown, 0), "unknown");
}

#[test]
fn test_format_schema_basic() {
    let data = obj(vec![("name", s("Alice")), ("age", n(30))]);
    let schema = infer_schema(&data, 10);
    let output = format_schema(&schema, 0);
    assert!(output.contains("name"));
    assert!(output.contains("age"));
    assert!(output.contains("string"));
    assert!(output.contains("number"));
}

#[test]
fn test_format_schema_number_range_text() {
    let data = arr(vec![n(10), n(90)]);
    let schema = infer_schema(&data, 10);
    let output = format_schema(&schema, 0);
    assert!(output.contains("number  # 10..90"));
    assert!(output.contains("array of 2"));
}
