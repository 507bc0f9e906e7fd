use jdx::json::{eval_predicate, get_available_keys, traverse};
use jdx::query::{CompareOp, FilterValue, PathSegment, Predicate};
use jdx::value::Json;

fn s(x: &str) -> Json {
    Json::Str(x.to_string())
}

fn n(x: i64) -> Json {
    Json::Num(x.to_string())
}

fn arr(items: Vec<Json>) -> Json {
    Json::Arr(items)
}

fn obj(pairs: Vec<(&str, Json)>) -> Json {
    let mut v: Vec<(String, Json)> = pairs
        .into_iter()
        .map(|(k, j)| (k.to_string(), j))
        .collect();
    v.sort_by(|a, b| a.0.cmp(&b.0));
    Json::Obj(v)
}

#[test]
fn test_traverse_simple_key() {
    let data = obj(vec![("name", s("Alice")), ("age", n(30))]);
    let result = traverse(&data, &[PathSegment::Key("name".into())]);
    assert_eq!(result.value, Some(s("Alice")));
    assert_eq!(result.depth, 1);
}

#[test]
fn test_traverse_nested() {
    let data = obj(vec![("a", obj(vec![("b", obj(vec![("c", n(42))]))]))]);
    let segments = vec![
        PathSegment::Key("a".into()),
        PathSegment::Key("b".into()),
        PathSegment::Key("c".into()),
    ];
    let result = traverse(&data, &segments);
    assert_eq!(result.value, Some(n(42)));
    assert_eq!(result.depth, 3);
}

#[test]
fn test_traverse_array_index() {
    let data = obj(vec![("items", arr(vec![n(10), n(20), n(30)]))]);
    let segments = vec![PathSegment::Key("items".into()), PathSegment::Index(1)];
    let result = traverse(&data, &segments);
    assert_eq!(result.value, Some(n(20)));
}

#[test]
fn test_traverse_negative_index() {
    let data = obj(vec![("items", arr(vec![n(10), n(20), n(30)]))]);
    let segments = vec![PathSegment::Key("items".into()), PathSegment::Index(-1)];
    let result = traverse(&data, &segments);
    assert_eq!(result.value, Some(n(30)));
}

#[test]
fn test_traverse_missing_key() {
    let data = obj(vec![("name", s("Alice"))]);
    let result = traverse(&data, &[PathSegment::Key("missing".into())]);
    assert_eq!(result.value, None);
    assert_eq!(result.depth, 0);
}

#[test]
fn test_traverse_index_out_of_bounds() {
    let data = obj(vec![("items", arr(vec![n(1), n(2)]))]);
    let segments = vec![PathSegment::Key("items".into()), PathSegment::Index(99)];
    let result = traverse(&data, &segments);
    assert_eq!(result.value, None);
}

#[test]
fn test_traverse_slice() {
    let data = obj(vec![("items", arr(vec![n(0), n(1), n(2), n(3), n(4)]))]);
    let segments = vec![
        PathSegment::Key("items".into()),
        PathSegment::Slice(Some(1), Some(3)),
    ];
    let result = traverse(&data, &segments);
    assert_eq!(result.value, Some(arr(vec![n(1), n(2)])));
}

#[test]
fn test_traverse_slice_open_end() {
    let data = obj(vec![("items", arr(vec![n(0), n(1), n(2), n(3)]))]);
    let segments = vec![
        PathSegment::Key("items".into()),
        PathSegment::Slice(Some(2), None),
    ];
    let result = traverse(&data, &segments);
    assert_eq!(result.value, Some(arr(vec![n(2), n(3)])));
}

#[test]
fn test_traverse_slice_negative_bounds() {
    let data = obj(vec![("items", arr(vec![n(0), n(1), n(2), n(3)]))]);
    let segments = vec![
        PathSegment::Key("items".into()),
        PathSegment::Slice(Some(-2), None),
    ];
    let result = traverse(&data, &segments);
    assert_eq!(result.value, Some(arr(vec![n(2), n(3)])));
}

#[test]
fn test_traverse_wildcard_object() {
    let data = obj(vec![("a", n(1)), ("b", n(2))]);
    let result = traverse(&data, &[PathSegment::Wildcard]);
    if let Some(Json::Arr(a)) = result.value {
        assert_eq!(a.len(), 2);
        assert!(a.contains(&n(1)));
        assert!(a.contains(&n(2)));
    } else {
        panic!("expected array from wildcard on object");
    }
}

#[test]
fn test_traverse_wildcard_array() {
    let data = arr(vec![n(1), n(2), n(3)]);
    let result = traverse(&data, &[PathSegment::Wildcard]);
    assert_eq!(result.value, Some(arr(vec![n(1), n(2), n(3)])));
}

#[test]
fn test_traverse_root() {
    let data = obj(vec![("a", n(1))]);
    let result = traverse(&data, &[]);
    assert_eq!(result.value, Some(obj(vec![("a", n(1))])));
    assert_eq!(result.depth, 0);
}

#[test]
fn test_get_available_keys_object() {
    let data = obj(vec![("banana", n(1)), ("apple", n(2)), ("cherry", n(3))]);
    let keys = get_available_keys(&data);
    assert_eq!(keys, vec!["apple", "banana", "cherry"]);
}

#[test]
fn test_get_available_keys_array() {
    let data = arr(vec![n(10), n(20), n(30)]);
    let keys = get_available_keys(&data);
    assert_eq!(keys, vec!["[0]", "[1]", "[2]"]);
}

#[test]
fn test_get_available_keys_primitive() {
    let data = n(42);
    let keys = get_available_keys(&data);
    assert!(keys.is_empty());
}

// --- Filter traversal tests ---

#[test]
fn test_traverse_filter_number_lt() {
    let data = obj(vec![(
        "books",
        arr(vec![
            obj(vec![("title", s("A")), ("price", n(5))]),
            obj(vec![("title", s("B")), ("price", n(15))]),
            obj(vec![("title", s("C")), ("price", n(8))]),
        ]),
    )]);
    let segments = vec![
        PathSegment::Key("books".into()),
        PathSegment::Filter(Predicate {
            field: "price".into(),
            op: CompareOp::Lt,
            value: FilterValue::Number("10.0".into()),
        }),
    ];
    let result = traverse(&data, &segments);
    let got = result.value.unwrap();
    if let Json::Arr(a) = got {
        assert_eq!(a.len(), 2);
        assert_eq!(a[0].get("title"), Some(&s("A")));
        assert_eq!(a[1].get("title"), Some(&s("C")));
    } else {
        panic!("expected array");
    }
}

#[test]
fn test_traverse_filter_string_eq() {
    let data = obj(vec![(
        "users",
        arr(vec![
            obj(vec![("name", s("Alice")), ("role", s("admin"))]),
            obj(vec![("name", s("Bob")), ("role", s("user"))]),
            obj(vec![("name", s("Carol")), ("role", s("admin"))]),
        ]),
    )]);
    let segments = vec![
        PathSegment::Key("users".into()),
        PathSegment::Filter(Predicate {
            field: "role".into(),
            op: CompareOp::Eq,
            value: FilterValue::String("admin".into()),
        }),
    ];
    let result = traverse(&data, &segments);
    let got = result.value.unwrap();
    if let Json::Arr(a) = got {
        assert_eq!(a.len(), 2);
        assert_eq!(a[0].get("name"), Some(&s("Alice")));
        assert_eq!(a[1].get("name"), Some(&s("Carol")));
    } else {
        panic!("expected array");
    }
}

#[test]
fn test_traverse_filter_bool() {
    let data = arr(vec![
        obj(vec![("name", s("Alice")), ("active", Json::Bool(true))]),
        obj(vec![("name", s("Bob")), ("active", Json::Bool(false))]),
        obj(vec![("name", s("Carol")), ("active", Json::Bool(true))]),
    ]);
    let segments = vec![PathSegment::Filter(Predicate {
        field: "active".into(),
        op: CompareOp::Eq,
        value: FilterValue::Bool(true),
    })];
    let result = traverse(&data, &segments);
    let got = result.value.unwrap();
    if let Json::Arr(a) = got {
        assert_eq!(a.len(), 2);
    } else {
        panic!("expected array");
    }
}

#[test]
fn test_traverse_filter_with_continuation() {
    let data = obj(vec![(
        "items",
        arr(vec![
            obj(vec![("name", s("A")), ("price", n(5))]),
            obj(vec![("name", s("B")), ("price", n(15))]),
        ]),
    )]);
    let segments = vec![
        PathSegment::Key("items".into()),
        PathSegment::Filter(Predicate {
            field: "price".into(),
            op: CompareOp::Lt,
            value: FilterValue::Number("10.0".into()),
        }),
    ];
    let result = traverse(&data, &segments);
    let got = result.value.unwrap();
    if let Json::Arr(a) = got {
        assert_eq!(a.len(), 1);
        assert_eq!(a[0].get("name"), Some(&s("A")));
    } else {
        panic!("expected array");
    }
}

#[test]
fn test_traverse_filter_no_matches() {
    let data = arr(vec![obj(vec![("val", n(1))]), obj(vec![("val", n(2))])]);
    let segments = vec![PathSegment::Filter(Predicate {
        field: "val".into(),
        op: CompareOp::Gt,
        value: FilterValue::Number("100.0".into()),
    })];
    let result = traverse(&data, &segments);
    assert_eq!(result.value, Some(arr(vec![])));
}

#[test]
fn test_traverse_filter_on_non_array() {
    let data = obj(vec![("a", n(1))]);
    let segments = vec![PathSegment::Filter(Predicate {
        field: "a".into(),
        op: CompareOp::Eq,
        value: FilterValue::Number("1.0".into()),
    })];
    let result = traverse(&data, &segments);
    assert_eq!(result.value, None);
}

#[test]
fn test_eval_predicate_null() {
    let item = obj(vec![("name", s("test")), ("deleted", Json::Null)]);
    let pred = Predicate {
        field: "deleted".into(),
        op: CompareOp::Eq,
        value: FilterValue::Null,
    };
    assert!(eval_predicate(&item, &pred));
}

#[test]
fn test_eval_predicate_missing_field() {
    let item = obj(vec![("name", s("test"))]);
    let pred = Predicate {
        field: "missing".into(),
        op: CompareOp::Eq,
        value: FilterValue::Number("1.0".into()),
    };
    assert!(!eval_predicate(&item, &pred));
}

#[test]
fn test_eval_predicate_epsilon_equality() {
    let item = obj(vec![("price", Json::Num("10".into()))]);
    let pred = Predicate {
        field: "price".into(),
        op: CompareOp::Eq,
        value: FilterValue::Number("10.0".into()),
    };
    assert!(eval_predicate(&item, &pred));
    let ne = Predicate {
        field: "price".into(),
        op: CompareOp::Ne,
        value: FilterValue::Number("10.5".into()),
    };
    assert!(eval_predicate(&item, &ne));
}

#[test]
fn test_eval_predicate_string_order() {
    let item = obj(vec![("name", s("banana"))]);
    let pred = Predicate {
        field: "name".into(),
        op: CompareOp::Gt,
        value: FilterValue::String("apple".into()),
    };
    assert!(eval_predicate(&item, &pred));
}
