use jdx::query::{
    get_last_keyword, parse, parse_predicate, split_query_and_transforms, CompareOp, FilterValue,
    PathSegment, Predicate, QueryError,
};

#[test]
fn test_parse_simple_path() {
    let result = parse(".foo.bar").unwrap();
    assert_eq!(
        result,
        vec![
            PathSegment::Key("foo".into()),
            PathSegment::Key("bar".into()),
        ]
    );
}

#[test]
fn test_parse_with_index() {
    let result = parse(".users[0].name").unwrap();
    assert_eq!(
        result,
        vec![
            PathSegment::Key("users".into()),
            PathSegment::Index(0),
            PathSegment::Key("name".into()),
        ]
    );
}

#[test]
fn test_parse_negative_index() {
    let result = parse(".items[-1]").unwrap();
    assert_eq!(
        result,
        vec![PathSegment::Key("items".into()), PathSegment::Index(-1),]
    );
}

#[test]
fn test_parse_slice() {
    let result = parse(".items[0:5]").unwrap();
    assert_eq!(
        result,
        vec![
            PathSegment::Key("items".into()),
            PathSegment::Slice(Some(0), Some(5)),
        ]
    );
}

#[test]
fn test_parse_slice_open_start() {
    let result = parse(".items[:3]").unwrap();
    assert_eq!(
        result,
        vec![
            PathSegment::Key("items".into()),
            PathSegment::Slice(None, Some(3)),
        ]
    );
}

#[test]
fn test_parse_slice_open_end() {
    let result = parse(".items[2:]").unwrap();
    assert_eq!(
        result,
        vec![
            PathSegment::Key("items".into()),
            PathSegment::Slice(Some(2), None),
        ]
    );
}

#[test]
fn test_parse_wildcard_bracket() {
    let result = parse(".items[*]").unwrap();
    assert_eq!(
        result,
        vec![PathSegment::Key("items".into()), PathSegment::Wildcard,]
    );
}

#[test]
fn test_parse_wildcard_dot() {
    let result = parse(".items.*").unwrap();
    assert_eq!(
        result,
        vec![PathSegment::Key("items".into()), PathSegment::Wildcard,]
    );
}

#[test]
fn test_parse_quoted_key() {
    let result = parse(".[\"key.with.dot\"]").unwrap();
    assert_eq!(result, vec![PathSegment::Key("key.with.dot".into())]);
}

#[test]
fn test_parse_root_only() {
    let result = parse(".").unwrap();
    assert_eq!(result, vec![]);
}

#[test]
fn test_parse_empty_error() {
    assert_eq!(parse(""), Err(QueryError::Empty));
}

#[test]
fn test_parse_no_leading_dot_error() {
    assert_eq!(parse("foo"), Err(QueryError::MustStartWithDot));
}

#[test]
fn test_parse_unclosed_bracket() {
    assert!(matches!(
        parse(".foo[0"),
        Err(QueryError::UnclosedBracket { .. })
    ));
}

#[test]
fn test_parse_unclosed_quote() {
    assert!(matches!(
        parse(".[\"unclosed"),
        Err(QueryError::UnclosedQuote { .. })
    ));
}

#[test]
fn test_parse_complex_path() {
    let result = parse(".store.books[0].authors[*].name").unwrap();
    assert_eq!(
        result,
        vec![
            PathSegment::Key("store".into()),
            PathSegment::Key("books".into()),
            PathSegment::Index(0),
            PathSegment::Key("authors".into()),
            PathSegment::Wildcard,
            PathSegment::Key("name".into()),
        ]
    );
}

#[test]
fn test_parse_segments_match_types() {
    let segments = parse(".store.books[0].tags[*]").unwrap();
    assert_eq!(
        segments,
        vec![
            PathSegment::Key("store".into()),
            PathSegment::Key("books".into()),
            PathSegment::Index(0),
            PathSegment::Key("tags".into()),
            PathSegment::Wildcard,
        ]
    );
}

#[test]
fn test_parse_invalid_index_error() {
    assert_eq!(
        parse(".items[1x2]"),
        Err(QueryError::InvalidIndex {
            value: "1x2".into(),
            pos: 7
        })
    );
}

#[test]
fn test_parse_invalid_index_overflow() {
    assert!(matches!(
        parse(".items[99999999999999999999]"),
        Err(QueryError::InvalidIndex { .. })
    ));
}

#[test]
fn test_parse_unexpected_char_error() {
    assert_eq!(
        parse(".a[0]x"),
        Err(QueryError::UnexpectedChar { ch: 'x', pos: 5 })
    );
}

#[test]
fn test_parse_invalid_predicate_error() {
    assert!(matches!(
        parse(".items[price ~ 3]"),
        Err(QueryError::InvalidPredicate { .. })
    ));
}

#[test]
fn test_get_last_keyword_partial() {
    assert_eq!(get_last_keyword(".foo.ba"), "ba");
}

#[test]
fn test_get_last_keyword_trailing_dot() {
    assert_eq!(get_last_keyword(".foo."), "");
}

#[test]
fn test_get_last_keyword_root() {
    assert_eq!(get_last_keyword("."), "");
}

#[test]
fn test_get_last_keyword_empty() {
    assert_eq!(get_last_keyword(""), "");
}

#[test]
fn test_get_last_keyword_for_suggestions() {
    assert_eq!(get_last_keyword(".store.bo"), "bo");
    assert_eq!(get_last_keyword(".store."), "");
    assert_eq!(get_last_keyword(".store.books[0]."), "");
    assert_eq!(get_last_keyword(".store.books[0].ti"), "ti");
}

// --- Filter predicate tests ---

#[test]
fn test_parse_filter_number_lt() {
    let result = parse(".books[price < 10]").unwrap();
    assert_eq!(
        result,
        vec![
            PathSegment::Key("books".into()),
            PathSegment::Filter(Predicate {
                field: "price".into(),
                op: CompareOp::Lt,
                value: FilterValue::Number("10.0".into()),
            }),
        ]
    );
}

#[test]
fn test_parse_filter_string_eq() {
    let result = parse(".users[role == \"admin\"]").unwrap();
    assert_eq!(
        result,
        vec![
            PathSegment::Key("users".into()),
            PathSegment::Filter(Predicate {
                field: "role".into(),
                op: CompareOp::Eq,
                value: FilterValue::String("admin".into()),
            }),
        ]
    );
}

#[test]
fn test_parse_filter_ge() {
    let result = parse(".items[score >= 90]").unwrap();
    assert_eq!(
        result,
        vec![
            PathSegment::Key("items".into()),
            PathSegment::Filter(Predicate {
                field: "score".into(),
                op: CompareOp::Ge,
                value: FilterValue::Number("90.0".into()),
            }),
        ]
    );
}

#[test]
fn test_parse_filter_ne() {
    let result = parse(".items[status != \"deleted\"]").unwrap();
    assert_eq!(
        result,
        vec![
            PathSegment::Key("items".into()),
            PathSegment::Filter(Predicate {
                field: "status".into(),
                op: CompareOp::Ne,
                value: FilterValue::String("deleted".into()),
            }),
        ]
    );
}

#[test]
fn test_parse_filter_bool() {
    let result = parse(".users[active == true]").unwrap();
    assert_eq!(
        result,
        vec![
            PathSegment::Key("users".into()),
            PathSegment::Filter(Predicate {
                field: "active".into(),
                op: CompareOp::Eq,
                value: FilterValue::Bool(true),
            }),
        ]
    );
}

#[test]
fn test_parse_filter_null() {
    let result = parse(".items[deleted == null]").unwrap();
    assert_eq!(
        result,
        vec![
            PathSegment::Key("items".into()),
            PathSegment::Filter(Predicate {
                field: "deleted".into(),
                op: CompareOp::Eq,
                value: FilterValue::Null,
            }),
        ]
    );
}

#[test]
fn test_parse_filter_with_continuation() {
    let result = parse(".store.books[price < 10].title").unwrap();
    assert_eq!(
        result,
        vec![
            PathSegment::Key("store".into()),
            PathSegment::Key("books".into()),
            PathSegment::Filter(Predicate {
                field: "price".into(),
                op: CompareOp::Lt,
                value: FilterValue::Number("10.0".into()),
            }),
            PathSegment::Key("title".into()),
        ]
    );
}

#[test]
fn test_parse_predicate_all_ops() {
    assert_eq!(parse_predicate("a == 1").unwrap().op, CompareOp::Eq);
    assert_eq!(parse_predicate("a != 1").unwrap().op, CompareOp::Ne);
    assert_eq!(parse_predicate("a < 1").unwrap().op, CompareOp::Lt);
    assert_eq!(parse_predicate("a > 1").unwrap().op, CompareOp::Gt);
    assert_eq!(parse_predicate("a <= 1").unwrap().op, CompareOp::Le);
    assert_eq!(parse_predicate("a >= 1").unwrap().op, CompareOp::Ge);
}

#[test]
fn test_parse_predicate_float() {
    let pred = parse_predicate("price < 9.99").unwrap();
    assert_eq!(pred.field, "price");
    assert_eq!(pred.value, FilterValue::Number("9.99".into()));
}

#[test]
fn test_parse_predicate_incomplete() {
    let err = parse_predicate("price <").unwrap_err();
    assert_eq!(err, "incomplete predicate: price <");
}

#[test]
fn test_parse_predicate_no_operator() {
    let err = parse_predicate("price").unwrap_err();
    assert_eq!(err, "no valid operator found in: price");
}

#[test]
fn test_parse_predicate_unquoted_string() {
    let pred = parse_predicate("name == Alice").unwrap();
    assert_eq!(pred.value, FilterValue::String("Alice".into()));
}

// --- splitting a query from its transform chain ---

#[test]
fn test_split_query_no_transforms() {
    let (path, transforms) = split_query_and_transforms(".users[0].name");
    assert_eq!(path, ".users[0].name");
    assert!(transforms.is_none());
}

#[test]
fn test_split_query_with_transforms() {
    let (path, transforms) = split_query_and_transforms(".users :pick name,age :sort age");
    assert_eq!(path, ".users");
    assert_eq!(transforms.unwrap(), ":pick name,age :sort age");
}
