use jdx::suggestion::{longest_common_prefix, Suggester};

fn keys(strs: &[&str]) -> Vec<String> {
    strs.iter().map(|s| s.to_string()).collect()
}

#[test]
fn test_empty_input_returns_all() {
    let suggester = Suggester::new();
    let k = keys(&["name", "age", "email"]);
    let candidates = suggester.get_candidates(&k, "");
    assert_eq!(candidates.len(), 3);
}

#[test]
fn test_exact_prefix_match() {
    let suggester = Suggester::new();
    let k = keys(&["name", "namespace", "age"]);
    let candidates = suggester.get_candidates(&k, "nam");
    assert!(candidates.len() >= 2);
    let texts: Vec<&str> = candidates.iter().map(|c| c.text.as_str()).collect();
    assert!(texts.contains(&"name"));
    assert!(texts.contains(&"namespace"));
}

#[test]
fn test_fuzzy_match() {
    let suggester = Suggester::new();
    let k = keys(&["firstName", "lastName", "email"]);
    let candidates = suggester.get_candidates(&k, "fn");
    assert!(
        candidates.iter().any(|c| c.text == "firstName"),
        "expected firstName to match 'fn'"
    );
}

#[test]
fn test_no_match() {
    let suggester = Suggester::new();
    let k = keys(&["name", "age"]);
    let candidates = suggester.get_candidates(&k, "zzz");
    assert!(candidates.is_empty());
}

#[test]
fn test_ranking_exact_beats_fuzzy() {
    let suggester = Suggester::new();
    let k = keys(&["age", "average", "aggregate"]);
    let candidates = suggester.get_candidates(&k, "age");
    assert!(!candidates.is_empty());
    assert_eq!(candidates[0].text, "age");
}

#[test]
fn test_completion_single_prefix() {
    let suggester = Suggester::new();
    let k = keys(&["username", "password"]);
    let result = suggester.get_completion(&k, "user");
    assert_eq!(result, Some(("name".into(), "username".into())));
}

#[test]
fn test_completion_multiple_prefix_common() {
    let suggester = Suggester::new();
    let k = keys(&["name", "namespace"]);
    let result = suggester.get_completion(&k, "na");
    assert_eq!(result, Some(("me".into(), "name".into())));
}

#[test]
fn test_completion_no_match() {
    let suggester = Suggester::new();
    let k = keys(&["name", "age"]);
    let result = suggester.get_completion(&k, "zzz");
    assert_eq!(result, None);
}

#[test]
fn test_match_indices_present() {
    let suggester = Suggester::new();
    let k = keys(&["username"]);
    let candidates = suggester.get_candidates(&k, "user");
    assert!(!candidates.is_empty());
    assert!(!candidates[0].match_indices.is_empty());
}

#[test]
fn test_longest_common_prefix() {
    let a = "namespace".to_string();
    let b = "name".to_string();
    let c = "named".to_string();
    let s = vec![&a, &b, &c];
    assert_eq!(longest_common_prefix(&s), "name");
}

#[test]
fn test_longest_common_prefix_identical() {
    let a = "test".to_string();
    let b = "test".to_string();
    let s = vec![&a, &b];
    assert_eq!(longest_common_prefix(&s), "test");
}

#[test]
fn test_longest_common_prefix_empty() {
    let result = longest_common_prefix(&[]);
    assert_eq!(result, "");
}
