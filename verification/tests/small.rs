use jdx::clipboard::{copy_path_js, copy_path_python, copy_query};
use jdx::config::AppConfig;
use jdx::format::{detect_format, DataFormat};
use jdx::history::{History, MAX_HISTORY};
use jdx::keys::{map_key_event, Action, Key};
use jdx::modes::AppMode;
use jdx::prompts::{build_system_prompt, build_user_prompt, parse_ai_response, AiProvider, AiQuery, AiResponse, AiService};

#[test]
fn test_system_prompt_contains_schema() {
    let prompt = build_system_prompt("{ users: [object], count: number }");
    assert!(prompt.contains("users: [object]"));
    assert!(prompt.contains("jdx query syntax"));
    assert!(prompt.contains(":pick"));
    assert!(prompt.contains(":sort"));
    assert!(prompt.contains(":filter"));
    assert!(prompt.contains(":sum"));
    assert!(prompt.contains("NEVER use JSONPath"));
}

#[test]
fn test_user_prompt_contains_question_and_data() {
    let prompt = build_user_prompt("find all users", "{\"users\": []}");
    assert!(prompt.contains("find all users"));
    assert!(prompt.contains("\"users\""));
}

#[test]
fn test_parse_ai_response_with_query_line() {
    let r = parse_ai_response("There are 3 users.\nQuery: .users :count\n");
    assert_eq!(r.answer, "There are 3 users.");
    assert_eq!(r.suggested_query.as_deref(), Some(".users :count"));
}

#[test]
fn test_parse_ai_response_bare_query() {
    let r = parse_ai_response(".users[0].name");
    assert_eq!(r.answer, "Suggested query: .users[0].name");
    assert_eq!(r.suggested_query.as_deref(), Some(".users[0].name"));
}

#[test]
fn test_parse_ai_response_fences_and_ticks() {
    let r = parse_ai_response("An answer.\n```\nQuery: `.items :count`\n```\n");
    assert_eq!(r.answer, "An answer.");
    assert_eq!(r.suggested_query.as_deref(), Some(".items :count"));
}

struct CannedProvider;

impl AiProvider for CannedProvider {
    fn query(&self, request: &AiQuery) -> Result<AiResponse, String> {
        Ok(parse_ai_response(&format!(
            "About {}.\nQuery: .users :count\n",
            request.question
        )))
    }

    fn name(&self) -> &str {
        "canned"
    }
}

#[test]
fn test_ai_service_without_provider() {
    let service = AiService::new();
    assert!(!service.is_available());
    let q = AiQuery {
        question: "how many".into(),
        schema_summary: "{}".into(),
        data_context: "{}".into(),
    };
    assert!(service.query(&q).is_err());
}

#[test]
fn test_ai_service_with_provider() {
    let service = AiService::with_provider(Box::new(CannedProvider));
    assert!(service.is_available());
    let q = AiQuery {
        question: "users".into(),
        schema_summary: "{}".into(),
        data_context: "{}".into(),
    };
    let r = service.query(&q).unwrap();
    assert_eq!(r.suggested_query.as_deref(), Some(".users :count"));
}

#[test]
fn test_default_config() {
    let config = AppConfig::default();
    assert_eq!(config.ai.provider, "none");
    assert!(!config.display.monochrome);
    assert_eq!(config.display.max_candidates, 20);
}

#[test]
fn test_add_and_search() {
    let mut history = History {
        queries: Vec::new(),
        bookmarks: Vec::new(),
    };
    history.add_query(".users[0].name");
    history.add_query(".users[1].email");
    history.add_query(".items.count");

    let results = history.search("users");
    assert_eq!(results.len(), 2);
}

#[test]
fn test_dedup() {
    let mut history = History {
        queries: Vec::new(),
        bookmarks: Vec::new(),
    };
    history.add_query(".foo");
    history.add_query(".bar");
    history.add_query(".foo");
    assert_eq!(history.queries.len(), 2);
    assert_eq!(history.queries.last().unwrap(), ".foo");
}

#[test]
fn test_max_history() {
    let mut history = History {
        queries: Vec::new(),
        bookmarks: Vec::new(),
    };
    for i in 0..600 {
        history.add_query(&format!(".query{i}"));
    }
    assert!(history.queries.len() <= MAX_HISTORY);
}

#[test]
fn test_bookmarks() {
    let mut history = History {
        queries: Vec::new(),
        bookmarks: Vec::new(),
    };
    history.add_bookmark("users", ".users");
    history.add_bookmark("items", ".items[*]");
    assert_eq!(history.get_bookmarks().len(), 2);

    history.add_bookmark("users", ".users[0]");
    assert_eq!(history.get_bookmarks().len(), 2);
    assert_eq!(history.get_bookmarks()[1].1, ".users[0]");
}

#[test]
fn test_search_order_most_recent_first() {
    let mut history = History::new();
    history.add_query(".users.old");
    history.add_query(".users.new");
    let results = history.search("users");
    assert_eq!(results, vec![".users.new", ".users.old"]);
}

#[test]
fn test_mode_labels() {
    assert_eq!(AppMode::Query.label(), "QUERY");
    assert_eq!(AppMode::Tree.label(), "TREE");
    assert_eq!(AppMode::Ai.label(), "AI");
    assert_eq!(AppMode::Schema.label(), "SCHEMA");
    assert_eq!(AppMode::Help.label(), "HELP");
    assert_eq!(AppMode::default(), AppMode::Query);
}

#[test]
fn test_map_key_event_basics() {
    assert_eq!(map_key_event(Key::Left, false), Action::CursorLeft);
    assert_eq!(map_key_event(Key::Left, true), Action::Noop);
    assert_eq!(map_key_event(Key::Char('a'), false), Action::InsertChar('a'));
    assert_eq!(map_key_event(Key::Char('a'), true), Action::CursorHome);
    assert_eq!(map_key_event(Key::Char('c'), true), Action::Quit);
    assert_eq!(map_key_event(Key::Char('r'), true), Action::SearchHistory);
    assert_eq!(map_key_event(Key::Enter, false), Action::Confirm);
    assert_eq!(map_key_event(Key::Esc, false), Action::Quit);
    assert_eq!(map_key_event(Key::Tab, false), Action::Tab);
}

#[test]
fn test_get_bindings_lengths() {
    assert_eq!(jdx::keys::get_bindings(AppMode::Query).len(), 14);
    assert_eq!(jdx::keys::get_bindings(AppMode::Tree).len(), 7);
    assert_eq!(jdx::keys::get_bindings(AppMode::Ai).len(), 5);
    assert_eq!(jdx::keys::get_bindings(AppMode::Schema).len(), 5);
    assert_eq!(jdx::keys::get_bindings(AppMode::Help).len(), 3);
}

#[test]
fn test_copy_query_text() {
    assert_eq!(copy_query(".users[0]"), ".users[0]");
}

#[test]
fn test_copy_path_js_text() {
    assert_eq!(copy_path_js(".users[0].name"), "data.users[0].name");
}

#[test]
fn test_copy_path_python_text() {
    assert_eq!(
        copy_path_python(".users[0].name"),
        "data[\"users\"][0][\"name\"]"
    );
}

#[test]
fn test_copy_path_python_root() {
    assert_eq!(copy_path_python("."), "data");
}

#[test]
fn test_detect_json() {
    assert_eq!(detect_format(r#"{"key": "value"}"#), DataFormat::Json);
    assert_eq!(detect_format("[1, 2, 3]"), DataFormat::Json);
}

#[test]
fn test_detect_yaml() {
    assert_eq!(
        detect_format("---\nname: Alice\nage: 30\n"),
        DataFormat::Yaml
    );
    assert_eq!(
        detect_format("key: value\nnested:\n  a: 1\n"),
        DataFormat::Yaml
    );
}

#[test]
fn test_detect_toml() {
    assert_eq!(
        detect_format("[server]\nhost = \"localhost\"\n"),
        DataFormat::Toml
    );
}

#[test]
fn test_detect_ndjson() {
    let input = "{\"a\": 1}\n{\"b\": 2}\n{\"c\": 3}\n";
    assert_eq!(detect_format(input), DataFormat::Ndjson);
}

#[test]
fn test_detect_csv() {
    assert_eq!(detect_format("a,b,c\n1,2,3\n"), DataFormat::Csv);
}

#[test]
fn test_format_from_str_name() {
    assert_eq!(DataFormat::from_str_name("json").unwrap(), DataFormat::Json);
    assert_eq!(DataFormat::from_str_name("yaml").unwrap(), DataFormat::Yaml);
    assert_eq!(DataFormat::from_str_name("yml").unwrap(), DataFormat::Yaml);
    assert_eq!(DataFormat::from_str_name("toml").unwrap(), DataFormat::Toml);
    assert_eq!(DataFormat::from_str_name("csv").unwrap(), DataFormat::Csv);
    assert_eq!(
        DataFormat::from_str_name("ndjson").unwrap(),
        DataFormat::Ndjson
    );
    assert_eq!(
        DataFormat::from_str_name("jsonl").unwrap(),
        DataFormat::Ndjson
    );
    assert_eq!(DataFormat::from_str_name("JSON").unwrap(), DataFormat::Json);
    assert_eq!(
        DataFormat::from_str_name("nope").unwrap_err(),
        "unknown format: nope"
    );
}
