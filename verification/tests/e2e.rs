use jdx::json::traverse;
use jdx::schema::{infer_schema, SchemaType};
use jdx::query::{parse, PathSegment};
use jdx::transform::apply_transform;
use jdx::value::{compact_print, json_eq, Json};

fn s(x: &str) -> Json {
    Json::Str(x.to_string())
}

fn n(x: i64) -> Json {
    Json::Num(x.to_string())
}

fn f(x: f64) -> Json {
    Json::Num(format!("{:?}", x))
}

fn arr(items: Vec<Json>) -> Json {
    Json::Arr(items)
}

fn obj(pairs: Vec<(&str, Json)>) -> Json {
    let mut v: Vec<(String, Json)> = pairs
        .into_iter()
        .map(|(k, j)| (k.to_string(), j))
        .collect();
    v.sort_by(|a, b| a.0.cmp(&b.0));
    Json::Obj(v)
}

#[test]
fn test_e2e_simple_key_access() {
    let data = obj(vec![("name", s("Alice")), ("age", n(30))]);
    let segments = parse(".name").unwrap();
    let result = traverse(&data, &segments);
    assert_eq!(result.value, Some(s("Alice")));
}

#[test]
fn test_e2e_nested_path() {
    let data = obj(vec![(
        "store",
        obj(vec![("books", arr(vec![obj(vec![("title", s("1984"))])]))]),
    )]);
    let segments = parse(".store.books[0].title").unwrap();
    let result = traverse(&data, &segments);
    assert_eq!(result.value, Some(s("1984")));
}

#[test]
fn test_e2e_root_returns_full_document() {
    let data = obj(vec![("a", n(1)), ("b", n(2))]);
    let segments = parse(".").unwrap();
    let result = traverse(&data, &segments);
    assert_eq!(result.value, Some(data));
}

#[test]
fn test_e2e_missing_path_returns_none() {
    let data = obj(vec![("name", s("Alice"))]);
    let segments = parse(".missing.deep.path").unwrap();
    let result = traverse(&data, &segments);
    assert_eq!(result.value, None);
}

#[test]
fn test_e2e_array_slice() {
    let data = obj(vec![("items", arr(vec![n(0), n(1), n(2), n(3), n(4), n(5)]))]);
    let segments = parse(".items[1:4]").unwrap();
    let result = traverse(&data, &segments);
    assert_eq!(result.value, Some(arr(vec![n(1), n(2), n(3)])));
}

#[test]
fn test_e2e_negative_index() {
    let data = obj(vec![("items", arr(vec![s("a"), s("b"), s("c")]))]);
    let segments = parse(".items[-1]").unwrap();
    let result = traverse(&data, &segments);
    assert_eq!(result.value, Some(s("c")));
}

#[test]
fn test_e2e_wildcard_on_object() {
    let data = obj(vec![("a", n(1)), ("b", n(2)), ("c", n(3))]);
    let segments = parse(".*").unwrap();
    let result = traverse(&data, &segments);
    if let Some(Json::Arr(a)) = result.value {
        assert_eq!(a.len(), 3);
    } else {
        panic!("expected array from wildcard");
    }
}

#[test]
fn test_e2e_quoted_key_with_dots() {
    let data = obj(vec![("key.with.dots", s("found"))]);
    let segments = parse(".[\"key.with.dots\"]").unwrap();
    let result = traverse(&data, &segments);
    assert_eq!(result.value, Some(s("found")));
}

// --- the concrete scenarios ---

#[test]
fn scenario_parse_book_author_path() {
    let segments = parse(".store.books[0].author").unwrap();
    assert_eq!(
        segments,
        vec![
            PathSegment::Key("store".into()),
            PathSegment::Key("books".into()),
            PathSegment::Index(0),
            PathSegment::Key("author".into()),
        ]
    );
}

#[test]
fn scenario_negative_index_resolves_last() {
    let data = obj(vec![("items", arr(vec![n(10), n(20), n(30)]))]);
    let segments = vec![PathSegment::Key("items".into()), PathSegment::Index(-1)];
    let result = traverse(&data, &segments);
    assert_eq!(result.value, Some(n(30)));
}

#[test]
fn scenario_filter_then_sort() {
    let data = arr(vec![
        obj(vec![("name", s("A")), ("price", n(5))]),
        obj(vec![("name", s("B")), ("price", n(15))]),
        obj(vec![("name", s("C")), ("price", n(8))]),
    ]);
    let result = apply_transform(&data, ":filter price < 10 :sort price").unwrap();
    assert_eq!(
        result,
        arr(vec![
            obj(vec![("name", s("A")), ("price", n(5))]),
            obj(vec![("name", s("C")), ("price", n(8))]),
        ])
    );
}

#[test]
fn scenario_sum_prices() {
    let data = arr(vec![
        obj(vec![("price", f(10.99))]),
        obj(vec![("price", f(8.99))]),
        obj(vec![("price", f(32.99))]),
    ]);
    let result = apply_transform(&data, ":sum price").unwrap();
    assert_eq!(result, Json::Num("52.97".to_string()));
}

#[test]
fn scenario_infer_optional_email() {
    let data = arr(vec![
        obj(vec![("name", s("Alice")), ("age", n(25))]),
        obj(vec![("name", s("Bob")), ("age", n(35)), ("email", s("b@x.com"))]),
    ]);
    let schema = infer_schema(&data, 10);
    if let SchemaType::Array { items, .. } = schema {
        if let SchemaType::Object { fields } = *items {
            let get = |k: &str| fields.iter().find(|(key, _)| key == k).unwrap().1.clone();
            assert!(get("email").optional);
            assert!(!get("name").optional);
            assert!(!get("age").optional);
        } else {
            panic!("expected object items");
        }
    } else {
        panic!("expected array schema");
    }
}

#[test]
fn scenario_filter_continues_but_slice_terminates() {
    let data = obj(vec![(
        "items",
        arr(vec![
            obj(vec![("name", s("A")), ("price", n(5))]),
            obj(vec![("name", s("B")), ("price", n(15))]),
        ]),
    )]);

    // A filter continues: the following key is resolved against the
    // filtered array (and fails there, since an array has no fields).
    let filtered = parse(".items[price < 10].whatever").unwrap();
    let rf = traverse(&data, &filtered);
    assert_eq!(rf.value, None);
    assert_eq!(rf.depth, 2);

    // A slice terminates at once: the trailing key is never consulted
    // and the sliced array itself comes back.
    let sliced = parse(".items[0:1].whatever").unwrap();
    let rs = traverse(&data, &sliced);
    assert_eq!(
        rs.value,
        Some(arr(vec![obj(vec![("name", s("A")), ("price", n(5))])]))
    );
    assert_eq!(rs.depth, 2);
}

// --- serialization and equality ---

#[test]
fn test_compact_print_shapes() {
    let data = obj(vec![
        ("b", arr(vec![n(1), Json::Bool(true), Json::Null])),
        ("a", s("hi\n\"x\"")),
    ]);
    assert_eq!(
        compact_print(&data),
        "{\"a\":\"hi\\n\\\"x\\\"\",\"b\":[1,true,null]}"
    );
}

#[test]
fn test_json_eq_structural() {
    let a = obj(vec![("x", arr(vec![n(1), n(2)]))]);
    let b = obj(vec![("x", arr(vec![n(1), n(2)]))]);
    let c = obj(vec![("x", arr(vec![n(1), n(3)]))]);
    assert!(json_eq(&a, &b));
    assert!(!json_eq(&a, &c));
}

#[test]
fn test_deep_clone_equal() {
    let a = obj(vec![("x", arr(vec![n(1), s("two"), Json::Null]))]);
    let b = a.deep_clone();
    assert_eq!(a, b);
}
