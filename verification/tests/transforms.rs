use jdx::transform::apply_transform;
use jdx::value::Json;

fn s(x: &str) -> Json {
    Json::Str(x.to_string())
}

fn n(x: i64) -> Json {
    Json::Num(x.to_string())
}

fn f(x: f64) -> Json {
    Json::Num(format!("{:?}", x))
}

fn arr(items: Vec<Json>) -> Json {
    Json::Arr(items)
}

fn obj(pairs: Vec<(&str, Json)>) -> Json {
    let mut v: Vec<(String, Json)> = pairs
        .into_iter()
        .map(|(k, j)| (k.to_string(), j))
        .collect();
    v.sort_by(|a, b| a.0.cmp(&b.0));
    Json::Obj(v)
}

#[test]
fn test_keys() {
    let data = obj(vec![("b", n(2)), ("a", n(1))]);
    let result = apply_transform(&data, ":keys").unwrap();
    if let Json::Arr(a) = result {
        assert_eq!(a.len(), 2);
    } else {
        panic!("expected array");
    }
}

#[test]
fn test_values() {
    let data = obj(vec![("a", n(1)), ("b", n(2))]);
    let result = apply_transform(&data, ":values").unwrap();
    if let Json::Arr(a) = result {
        assert_eq!(a.len(), 2);
    } else {
        panic!("expected array");
    }
}

#[test]
fn test_count_array() {
    let data = arr(vec![n(1), n(2), n(3)]);
    let result = apply_transform(&data, ":count").unwrap();
    assert_eq!(result, n(3));
}

#[test]
fn test_count_object() {
    let data = obj(vec![("a", n(1)), ("b", n(2))]);
    let result = apply_transform(&data, ":count").unwrap();
    assert_eq!(result, n(2));
}

#[test]
fn test_flatten() {
    let data = arr(vec![arr(vec![n(1), n(2)]), arr(vec![n(3), n(4)]), n(5)]);
    let result = apply_transform(&data, ":flatten").unwrap();
    assert_eq!(result, arr(vec![n(1), n(2), n(3), n(4), n(5)]));
}

#[test]
fn test_pick() {
    let data = arr(vec![
        obj(vec![("name", s("Alice")), ("age", n(30)), ("email", s("a@test.com"))]),
        obj(vec![("name", s("Bob")), ("age", n(25)), ("email", s("b@test.com"))]),
    ]);
    let result = apply_transform(&data, ":pick name,email").unwrap();
    if let Json::Arr(a) = result {
        assert_eq!(a[0], obj(vec![("name", s("Alice")), ("email", s("a@test.com"))]));
        assert_eq!(a[1], obj(vec![("name", s("Bob")), ("email", s("b@test.com"))]));
    } else {
        panic!("expected array");
    }
}

#[test]
fn test_omit() {
    let data = obj(vec![("name", s("Alice")), ("age", n(30)), ("secret", s("x"))]);
    let result = apply_transform(&data, ":omit secret").unwrap();
    assert_eq!(result, obj(vec![("name", s("Alice")), ("age", n(30))]));
}

#[test]
fn test_sort_by_field() {
    let data = arr(vec![
        obj(vec![("name", s("Charlie")), ("age", n(35))]),
        obj(vec![("name", s("Alice")), ("age", n(25))]),
        obj(vec![("name", s("Bob")), ("age", n(30))]),
    ]);
    let result = apply_transform(&data, ":sort name").unwrap();
    if let Json::Arr(a) = result {
        assert_eq!(a[0].get("name"), Some(&s("Alice")));
        assert_eq!(a[1].get("name"), Some(&s("Bob")));
        assert_eq!(a[2].get("name"), Some(&s("Charlie")));
    } else {
        panic!("expected array");
    }
}

#[test]
fn test_sort_primitives() {
    let data = arr(vec![n(3), n(1), n(2)]);
    let result = apply_transform(&data, ":sort").unwrap();
    assert_eq!(result, arr(vec![n(1), n(2), n(3)]));
}

#[test]
fn test_uniq() {
    let data = arr(vec![n(1), n(2), n(2), n(3), n(1), n(3)]);
    let result = apply_transform(&data, ":uniq").unwrap();
    assert_eq!(result, arr(vec![n(1), n(2), n(3)]));
}

#[test]
fn test_transform_uniq() {
    let data = arr(vec![s("a"), s("b"), s("a"), s("c"), s("b")]);
    let result = apply_transform(&data, ":uniq").unwrap();
    assert_eq!(result, arr(vec![s("a"), s("b"), s("c")]));
}

#[test]
fn test_group_by() {
    let data = arr(vec![
        obj(vec![("type", s("fruit")), ("name", s("apple"))]),
        obj(vec![("type", s("veg")), ("name", s("carrot"))]),
        obj(vec![("type", s("fruit")), ("name", s("banana"))]),
    ]);
    let result = apply_transform(&data, ":group_by type").unwrap();
    match result.get("fruit") {
        Some(Json::Arr(a)) => assert_eq!(a.len(), 2),
        _ => panic!("expected fruit bucket"),
    }
    match result.get("veg") {
        Some(Json::Arr(a)) => assert_eq!(a.len(), 1),
        _ => panic!("expected veg bucket"),
    }
}

#[test]
fn test_unknown_command() {
    let data = arr(vec![n(1), n(2), n(3)]);
    let result = apply_transform(&data, ":unknown");
    assert!(result.is_err());
    assert_eq!(result.unwrap_err(), "unknown transform command: :unknown");
}

#[test]
fn test_keys_on_non_object() {
    let data = arr(vec![n(1), n(2)]);
    let result = apply_transform(&data, ":keys");
    assert_eq!(result.unwrap_err(), ":keys requires an object");
}

#[test]
fn test_flatten_on_non_array() {
    let data = obj(vec![("a", n(1))]);
    let result = apply_transform(&data, ":flatten");
    assert_eq!(result.unwrap_err(), ":flatten requires an array");
}

#[test]
fn test_pick_empty_args() {
    let data = arr(vec![obj(vec![("a", n(1))])]);
    let result = apply_transform(&data, ":pick");
    assert!(result.is_err());
}

#[test]
fn test_group_by_missing_field() {
    let data = arr(vec![
        obj(vec![("type", s("a")), ("name", s("x"))]),
        obj(vec![("name", s("y"))]),
    ]);
    let result = apply_transform(&data, ":group_by type").unwrap();
    assert!(result.get("a").is_some());
    assert!(result.get("null").is_some());
}

// --- :filter transform tests ---

#[test]
fn test_filter_number_lt() {
    let data = arr(vec![
        obj(vec![("name", s("A")), ("price", n(5))]),
        obj(vec![("name", s("B")), ("price", n(15))]),
        obj(vec![("name", s("C")), ("price", n(8))]),
    ]);
    let result = apply_transform(&data, ":filter price < 10").unwrap();
    if let Json::Arr(a) = result {
        assert_eq!(a.len(), 2);
        assert_eq!(a[0].get("name"), Some(&s("A")));
        assert_eq!(a[1].get("name"), Some(&s("C")));
    } else {
        panic!("expected array");
    }
}

#[test]
fn test_filter_string_eq() {
    let data = arr(vec![
        obj(vec![("name", s("Alice")), ("role", s("admin"))]),
        obj(vec![("name", s("Bob")), ("role", s("user"))]),
    ]);
    let result = apply_transform(&data, ":filter role == \"admin\"").unwrap();
    if let Json::Arr(a) = result {
        assert_eq!(a.len(), 1);
        assert_eq!(a[0].get("name"), Some(&s("Alice")));
    } else {
        panic!("expected array");
    }
}

#[test]
fn test_filter_ge() {
    let data = arr(vec![
        obj(vec![("score", n(85))]),
        obj(vec![("score", n(90))]),
        obj(vec![("score", n(95))]),
    ]);
    let result = apply_transform(&data, ":filter score >= 90").unwrap();
    if let Json::Arr(a) = result {
        assert_eq!(a.len(), 2);
    } else {
        panic!("expected array");
    }
}

#[test]
fn test_filter_chained_with_pick() {
    let data = arr(vec![
        obj(vec![("name", s("Alice")), ("age", n(25)), ("email", s("a@t.com"))]),
        obj(vec![("name", s("Bob")), ("age", n(35)), ("email", s("b@t.com"))]),
        obj(vec![("name", s("Carol")), ("age", n(40)), ("email", s("c@t.com"))]),
    ]);
    let result = apply_transform(&data, ":filter age > 30 :pick name,age").unwrap();
    if let Json::Arr(a) = result {
        assert_eq!(a.len(), 2);
        assert_eq!(a[0], obj(vec![("name", s("Bob")), ("age", n(35))]));
        assert_eq!(a[1], obj(vec![("name", s("Carol")), ("age", n(40))]));
    } else {
        panic!("expected array");
    }
}

#[test]
fn test_filter_empty_args() {
    let data = arr(vec![n(1), n(2), n(3)]);
    let result = apply_transform(&data, ":filter");
    assert!(result.is_err());
}

#[test]
fn test_filter_on_non_array() {
    let data = obj(vec![("a", n(1))]);
    let result = apply_transform(&data, ":filter a > 0");
    assert_eq!(result.unwrap_err(), ":filter requires an array");
}

#[test]
fn test_filter_bool_value() {
    let data = arr(vec![
        obj(vec![("name", s("Alice")), ("active", Json::Bool(true))]),
        obj(vec![("name", s("Bob")), ("active", Json::Bool(false))]),
    ]);
    let result = apply_transform(&data, ":filter active == true").unwrap();
    if let Json::Arr(a) = result {
        assert_eq!(a.len(), 1);
        assert_eq!(a[0].get("name"), Some(&s("Alice")));
    } else {
        panic!("expected array");
    }
}

#[test]
fn test_filter_chained_with_sort_and_count() {
    let data = arr(vec![
        obj(vec![("name", s("A")), ("price", n(5))]),
        obj(vec![("name", s("B")), ("price", n(15))]),
        obj(vec![("name", s("C")), ("price", n(3))]),
        obj(vec![("name", s("D")), ("price", n(8))]),
    ]);
    let result = apply_transform(&data, ":filter price < 10 :sort price :count").unwrap();
    assert_eq!(result, n(3));
}

// --- :sum, :avg, :min, :max tests ---

#[test]
fn test_sum_primitives() {
    let data = arr(vec![n(1), n(2), n(3), n(4)]);
    let result = apply_transform(&data, ":sum").unwrap();
    assert_eq!(result, n(10));
}

#[test]
fn test_sum_by_field() {
    let data = arr(vec![
        obj(vec![("name", s("A")), ("price", f(10.99))]),
        obj(vec![("name", s("B")), ("price", f(8.99))]),
        obj(vec![("name", s("C")), ("price", f(32.99))]),
    ]);
    let result = apply_transform(&data, ":sum price").unwrap();
    assert_eq!(result, f(52.97));
}

#[test]
fn test_avg_primitives() {
    let data = arr(vec![n(10), n(20), n(30)]);
    let result = apply_transform(&data, ":avg").unwrap();
    assert_eq!(result, n(20));
}

#[test]
fn test_avg_by_field() {
    let data = arr(vec![
        obj(vec![("score", n(80))]),
        obj(vec![("score", n(90))]),
        obj(vec![("score", n(100))]),
    ]);
    let result = apply_transform(&data, ":avg score").unwrap();
    assert_eq!(result, n(90));
}

#[test]
fn test_avg_empty() {
    let data = arr(vec![]);
    let result = apply_transform(&data, ":avg").unwrap();
    assert_eq!(result, Json::Null);
}

#[test]
fn test_min_primitives() {
    let data = arr(vec![n(5), n(2), n(8), n(1), n(9)]);
    let result = apply_transform(&data, ":min").unwrap();
    assert_eq!(result, n(1));
}

#[test]
fn test_min_by_field() {
    let data = arr(vec![
        obj(vec![("name", s("A")), ("price", f(10.99))]),
        obj(vec![("name", s("B")), ("price", f(8.99))]),
        obj(vec![("name", s("C")), ("price", f(32.99))]),
    ]);
    let result = apply_transform(&data, ":min price").unwrap();
    assert_eq!(result, f(8.99));
}

#[test]
fn test_max_primitives() {
    let data = arr(vec![n(5), n(2), n(8), n(1), n(9)]);
    let result = apply_transform(&data, ":max").unwrap();
    assert_eq!(result, n(9));
}

#[test]
fn test_max_by_field() {
    let data = arr(vec![
        obj(vec![("name", s("A")), ("price", f(10.99))]),
        obj(vec![("name", s("B")), ("price", f(8.99))]),
        obj(vec![("name", s("C")), ("price", f(32.99))]),
    ]);
    let result = apply_transform(&data, ":max price").unwrap();
    assert_eq!(result, f(32.99));
}

#[test]
fn test_sum_chained_with_filter() {
    let data = arr(vec![
        obj(vec![("name", s("A")), ("price", n(5))]),
        obj(vec![("name", s("B")), ("price", n(15))]),
        obj(vec![("name", s("C")), ("price", n(8))]),
    ]);
    let result = apply_transform(&data, ":filter price < 10 :sum price").unwrap();
    assert_eq!(result, n(13));
}

#[test]
fn test_sum_on_non_array() {
    let data = obj(vec![("a", n(1))]);
    let result = apply_transform(&data, ":sum");
    assert_eq!(result.unwrap_err(), ":sum requires an array");
}

// --- chained transform integration ---

#[test]
fn test_transform_flatten_tags() {
    let data = arr(vec![
        arr(vec![s("fiction"), s("classic")]),
        arr(vec![s("fiction"), s("dystopian")]),
        arr(vec![s("programming"), s("best-practices")]),
    ]);
    let result = apply_transform(&data, ":flatten").unwrap();
    if let Json::Arr(a) = result {
        assert_eq!(a.len(), 6);
    } else {
        panic!("expected array");
    }
}

#[test]
fn test_transform_omit_fields() {
    let data = arr(vec![
        obj(vec![("name", s("Alice")), ("age", n(30)), ("secret", s("x"))]),
        obj(vec![("name", s("Bob")), ("age", n(25)), ("secret", s("y"))]),
    ]);
    let result = apply_transform(&data, ":omit secret").unwrap();
    if let Json::Arr(a) = result {
        assert!(a[0].get("secret").is_none());
        assert!(a[1].get("secret").is_none());
    } else {
        panic!("expected array");
    }
}

#[test]
fn test_transform_chain_pick_and_sort() {
    let data = arr(vec![
        obj(vec![("name", s("Charlie")), ("age", n(35))]),
        obj(vec![("name", s("Alice")), ("age", n(25))]),
        obj(vec![("name", s("Bob")), ("age", n(30))]),
    ]);
    let sorted = apply_transform(&data, ":sort name").unwrap();
    let picked = apply_transform(&sorted, ":pick name").unwrap();
    assert_eq!(
        picked,
        arr(vec![
            obj(vec![("name", s("Alice"))]),
            obj(vec![("name", s("Bob"))]),
            obj(vec![("name", s("Charlie"))]),
        ])
    );
}

#[test]
fn test_transform_chained_pick_then_sort() {
    let data = arr(vec![
        obj(vec![("name", s("Charlie")), ("age", n(35)), ("city", s("Denver"))]),
        obj(vec![("name", s("Alice")), ("age", n(25)), ("city", s("Portland"))]),
        obj(vec![("name", s("Bob")), ("age", n(30)), ("city", s("Seattle"))]),
    ]);
    let result = apply_transform(&data, ":pick name,age :sort age").unwrap();
    assert_eq!(
        result,
        arr(vec![
            obj(vec![("name", s("Alice")), ("age", n(25))]),
            obj(vec![("name", s("Bob")), ("age", n(30))]),
            obj(vec![("name", s("Charlie")), ("age", n(35))]),
        ])
    );
}

#[test]
fn test_transform_chained_sort_then_pick() {
    let data = arr(vec![
        obj(vec![("name", s("Charlie")), ("age", n(35))]),
        obj(vec![("name", s("Alice")), ("age", n(25))]),
        obj(vec![("name", s("Bob")), ("age", n(30))]),
    ]);
    let result = apply_transform(&data, ":sort age :pick name").unwrap();
    assert_eq!(
        result,
        arr(vec![
            obj(vec![("name", s("Alice"))]),
            obj(vec![("name", s("Bob"))]),
            obj(vec![("name", s("Charlie"))]),
        ])
    );
}

#[test]
fn test_transform_chained_three_steps() {
    let data = arr(vec![
        obj(vec![("name", s("Charlie")), ("age", n(35)), ("city", s("Denver"))]),
        obj(vec![("name", s("Alice")), ("age", n(25)), ("city", s("Portland"))]),
        obj(vec![("name", s("Bob")), ("age", n(30)), ("city", s("Seattle"))]),
    ]);
    let result = apply_transform(&data, ":pick name,age :sort age :count").unwrap();
    assert_eq!(result, n(3));
}

// --- two independent commands compose: separately or as one chain ---

#[test]
fn test_pipeline_two_steps_equal_one_chain() {
    let data = arr(vec![
        obj(vec![("name", s("Charlie")), ("age", n(35)), ("city", s("Denver"))]),
        obj(vec![("name", s("Alice")), ("age", n(25)), ("city", s("Portland"))]),
        obj(vec![("name", s("Bob")), ("age", n(30)), ("city", s("Seattle"))]),
    ]);
    let picked = apply_transform(&data, ":pick name,age").unwrap();
    let two_steps = apply_transform(&picked, ":sort age").unwrap();
    let one_chain = apply_transform(&data, ":pick name,age :sort age").unwrap();
    assert_eq!(two_steps, one_chain);
}
