use host_lifecycle::dream::{Confidence, Finding, Route, StoreLoc};
use host_lifecycle::mcp::{
    consolidate_reply, done_reply, elicits_after_initialize, entry_for_write, expects_reply, is_delete, is_reply_to,
    list_reply, memory_step, message_of_line, method_not_found, name_from_elicitation, name_given, read_reply, route_method,
    route_tool, should_elicit, slug_arg, slug_required, unknown_tool, verb_argv, verb_reply, MemoryStep, Method, RpcFields,
    ToolArgs, ToolRoute, EXIT_NAME_REQUIRED,
};
use host_lifecycle::memory::{EntryType, MemoryEntry};

fn args(name: Option<&str>, purpose: Option<&str>, at: Option<&str>, source: Option<&str>) -> ToolArgs {
    ToolArgs {
        name: name.map(String::from),
        purpose: purpose.map(String::from),
        at: at.map(String::from),
        source: source.map(String::from),
    }
}

#[test]
fn verb_argv_maps_arguments() {
    let a = args(None, Some("reader"), Some("/tmp"), None);
    assert_eq!(verb_argv("init", &a, Some("acme")), vec!["init", "--name", "acme", "--purpose", "reader", "--at", "/tmp"]);
    let b = args(None, None, None, Some("/home/user/notes"));
    assert_eq!(verb_argv("adopt", &b, Some("bar")), vec!["adopt", "--name", "bar", "--", "/home/user/notes"]);
    let inj = args(None, None, None, Some("--at"));
    assert_eq!(verb_argv("adopt", &inj, None), vec!["adopt", "--", "--at"]);
    assert_eq!(verb_argv("init", &args(None, None, None, None), None), vec!["init"]);
}

#[test]
fn a_blank_argument_is_left_out_and_a_name_trimmed() {
    let a = args(Some("  acme "), Some("   "), None, Some("src"));
    assert_eq!(verb_argv("init", &a, None), vec!["init", "--name", "acme"]);
    assert!(name_given(&a));
    assert!(!name_given(&args(Some(" "), None, None, None)));
}

fn msg(line: &str) -> RpcFields {
    message_of_line(line).expect("a JSON message")
}

#[test]
fn client_capability_and_elicitation_response_parsing() {
    assert!(msg(r#"{"params": {"capabilities": {"elicitation": {}}}}"#).elicits);
    assert!(!msg(r#"{"params": {"capabilities": {"roots": {}}}}"#).elicits);
    assert_eq!(
        name_from_elicitation(&msg(r#"{"result": {"action": "accept", "content": {"name": " acme "}}}"#)).as_deref(),
        Some("acme")
    );
    assert_eq!(name_from_elicitation(&msg(r#"{"result": {"action": "decline"}}"#)), None);
    assert_eq!(name_from_elicitation(&msg(r#"{"result": {"action": "cancel"}}"#)), None);
    assert_eq!(name_from_elicitation(&msg(r#"{"result": {"action": "accept", "content": {"name": "  "}}}"#)), None);
    assert!(should_elicit(EXIT_NAME_REQUIRED, true, false));
    assert!(!should_elicit(EXIT_NAME_REQUIRED, false, false));
    assert!(!should_elicit(EXIT_NAME_REQUIRED, true, true));
    assert!(!should_elicit(1, true, false));
}

#[test]
fn a_message_line_is_read_field_by_field() {
    let m = msg(
        r#"  {"jsonrpc":"2.0","id":7,"method":"tools/call","params":{"name":"adopt","arguments":{"source":"--at","name":"acme","purpose":"reader","at":"/tmp"}}}  "#,
    );
    assert_eq!(m.method.as_deref(), Some("tools/call"));
    assert_eq!(m.id, Some(7));
    assert_eq!(m.id_text.as_deref(), Some("7"));
    assert!(m.has_params);
    assert!(!m.elicits);
    assert_eq!(m.tool.as_deref(), Some("adopt"));
    assert_eq!(m.args.name.as_deref(), Some("acme"));
    assert_eq!(m.args.purpose.as_deref(), Some("reader"));
    assert_eq!(m.args.at.as_deref(), Some("/tmp"));
    assert_eq!(m.args.source.as_deref(), Some("--at"));
    assert_eq!(verb_argv("adopt", &m.args, None), vec!["adopt", "--name", "acme", "--purpose", "reader", "--at", "/tmp", "--", "--at"]);
    assert!(expects_reply(&m));
}

#[test]
fn memory_arguments_come_from_the_message() {
    let m = msg(
        r#"{"id":"x","method":"tools/call","params":{"name":"memory_write","arguments":{"slug":" alpha ","op":"delete","description":"d","body":"b","type":"state","superseded_by":"beta"}}}"#,
    );
    assert_eq!(m.id, None);
    assert_eq!(m.id_text.as_deref(), Some("\"x\""));
    assert_eq!(slug_arg(m.slug.as_deref()), "alpha");
    assert!(is_delete(m.op.as_deref()));
    assert_eq!(m.description.as_deref(), Some("d"));
    assert_eq!(m.body.as_deref(), Some("b"));
    assert_eq!(m.entry_type.as_deref(), Some("state"));
    assert_eq!(m.superseded_by.as_deref(), Some("beta"));
    // a value that is not a string reads as absent
    let n = msg(r#"{"method":5,"params":{"name":["memory_read"],"arguments":{"slug":3}}}"#);
    assert_eq!(n.method, None);
    assert_eq!(n.tool, None);
    assert_eq!(n.slug, None);
    assert_eq!(n.id_text, None);
    assert!(!expects_reply(&n));
}

#[test]
fn blank_and_non_json_lines_are_skipped() {
    assert!(message_of_line("").is_none());
    assert!(message_of_line("   \n").is_none());
    assert!(message_of_line("not json").is_none());
    assert!(message_of_line("{\"id\": 1").is_none());
    assert!(message_of_line("{}\n").is_some());
}

#[test]
fn a_notification_gets_no_reply() {
    assert!(!expects_reply(&msg(r#"{"jsonrpc":"2.0","method":"notifications/initialized"}"#)));
    assert!(!expects_reply(&msg(r#"{"jsonrpc":"2.0","id":null,"method":"ping"}"#)));
    assert!(expects_reply(&msg(r#"{"jsonrpc":"2.0","id":0,"method":"ping"}"#)));
}

#[test]
fn initialize_sets_the_elicitation_capability_only_with_params() {
    let with = msg(r#"{"id":1,"method":"initialize","params":{"capabilities":{"elicitation":{}}}}"#);
    let without_cap = msg(r#"{"id":1,"method":"initialize","params":{"capabilities":{}}}"#);
    let no_params = msg(r#"{"id":1,"method":"initialize"}"#);
    assert!(elicits_after_initialize(false, &with));
    assert!(!elicits_after_initialize(true, &without_cap));
    assert!(elicits_after_initialize(true, &no_params));
    assert!(!elicits_after_initialize(false, &no_params));
}

#[test]
fn an_interleaved_notification_is_not_the_elicitation_answer() {
    let note = msg(r#"{"jsonrpc":"2.0","method":"notifications/cancelled","params":{"requestId":9}}"#);
    let answer = msg(r#"{"jsonrpc":"2.0","id":1,"result":{"action":"accept","content":{"name":"acme"}}}"#);
    assert!(!is_reply_to(&note, 1));
    assert!(is_reply_to(&answer, 1));
    assert!(!is_reply_to(&answer, 2));
    assert_eq!(name_from_elicitation(&answer).as_deref(), Some("acme"));
}

#[test]
fn methods_and_tools_are_routed() {
    assert_eq!(route_method("initialize"), Method::Initialize);
    assert_eq!(route_method(""), Method::Silent);
    assert_eq!(route_method("notifications/cancelled"), Method::Silent);
    assert_eq!(route_method("tools/call"), Method::ToolsCall);
    assert_eq!(route_method("resources/list"), Method::NotFound);
    assert_eq!(method_not_found("x/y"), "method not found: x/y");
    assert_eq!(route_tool("memory_write"), ToolRoute::Memory);
    assert_eq!(route_tool("adopt"), ToolRoute::Verb);
    assert_eq!(route_tool("rm"), ToolRoute::Unknown);
    let r = unknown_tool("rm");
    assert!(r.is_error);
    assert_eq!(r.text, "unknown tool: rm");
    assert!(verb_reply("out".into(), 3).is_error);
    assert!(!verb_reply("out".into(), 0).is_error);
}

fn entry(slug: &str, description: &str) -> MemoryEntry {
    MemoryEntry {
        slug: slug.into(),
        description: description.into(),
        body: "b\n".into(),
        entry_type: EntryType::Fact,
        created: "2026-07-19".into(),
        last_edited: "2026-07-19".into(),
        superseded_by: String::new(),
    }
}

#[test]
fn memory_tool_answers() {
    assert_eq!(list_reply(&vec![]).text, "(no memory entries)");
    let r = list_reply(&vec![entry("alpha", "first"), entry("beta", "second")]);
    assert_eq!(r.text, "- [alpha](alpha.md): first\n- [beta](beta.md): second");
    assert_eq!(slug_arg(Some("  alpha ")), "alpha");
    assert_eq!(slug_arg(None), "");
    assert_eq!(slug_required("memory_read").text, "memory_read requires a 'slug'");
    let read = read_reply("beta", &Err("gone".to_string()));
    assert!(read.is_error);
    assert_eq!(read.text, "read beta: gone");
    assert!(!read_reply("alpha", &Ok(entry("alpha", "first"))).is_error);
    assert!(is_delete(Some("delete")));
    assert!(!is_delete(Some("write")) && !is_delete(None));
    assert_eq!(done_reply(true, "a", &Ok(())).text, "deleted a");
    assert_eq!(done_reply(false, "a", &Ok(())).text, "wrote a");
    assert_eq!(done_reply(false, "a", &Err("disk".into())).text, "write a: disk");
    let e = entry_for_write("a", Some("d"), None, Some(" nonsense "), None, None, "2026-01-02");
    assert_eq!(e.entry_type, EntryType::Fact);
    assert_eq!(e.created, "2026-01-02");
    assert_eq!(e.body, "");
    let e = entry_for_write("a", None, Some("b"), Some("state"), Some("z"), Some("2025-05-05".into()), "2026-01-02");
    assert_eq!(e.entry_type, EntryType::State);
    assert_eq!(e.created, "2025-05-05");
    assert_eq!(e.last_edited, "2026-01-02");
    assert_eq!(e.superseded_by, "z");
}

#[test]
fn memory_consolidate_reports_findings() {
    let cov = vec!["coverage: one".to_string(), "coverage: two".to_string()];
    assert_eq!(consolidate_reply(&vec![], &cov).text, "clean\ncoverage: one\ncoverage: two");
    let f = Finding {
        entry_slug: "alpha".into(),
        store: StoreLoc::PerUser,
        kind: "dangling-link".into(),
        route: Route::Edit,
        confidence: Confidence::Confirmed,
        state: "tier-unused".into(),
        explanation: "why".into(),
        suggestion: "do".into(),
    };
    let r = consolidate_reply(&vec![f], &cov);
    assert!(!r.is_error);
    assert_eq!(
        r.text,
        "1 confirmed finding(s), 0 review prompt(s):\nalpha (per-user) [dangling-link] confirmed route=edit: why\n  → do\ncoverage: one\ncoverage: two"
    );
}

#[test]
fn a_memory_call_is_read_into_what_it_asks_of_the_store() {
    let call = |args: &str| msg(&format!(r#"{{"id":1,"method":"tools/call","params":{{"arguments":{args}}}}}"#));
    assert!(matches!(memory_step("memory_list", &call("{}")), MemoryStep::List));
    assert!(matches!(memory_step("memory_consolidate", &call("{}")), MemoryStep::Consolidate));
    match memory_step("memory_read", &call(r#"{"slug":" alpha "}"#)) {
        MemoryStep::Read { slug } => assert_eq!(slug, "alpha"),
        _ => panic!("a read of alpha"),
    }
    match memory_step("memory_read", &call(r#"{"slug":"  "}"#)) {
        MemoryStep::Answer { reply } => {
            assert!(reply.is_error);
            assert_eq!(reply.text, "memory_read requires a 'slug'");
        }
        _ => panic!("a refusal"),
    }
    match memory_step("memory_write", &call(r#"{"slug":"beta","op":"delete"}"#)) {
        MemoryStep::Delete { slug } => assert_eq!(slug, "beta"),
        _ => panic!("a delete of beta"),
    }
    match memory_step("memory_write", &call(r#"{"slug":"beta","op":"write"}"#)) {
        MemoryStep::Write { slug } => assert_eq!(slug, "beta"),
        _ => panic!("a write of beta"),
    }
    match memory_step("memory_write", &call("{}")) {
        MemoryStep::Answer { reply } => assert_eq!(reply.text, "memory_write requires a 'slug'"),
        _ => panic!("a refusal"),
    }
    match memory_step("memory_erase", &call("{}")) {
        MemoryStep::Answer { reply } => {
            assert!(reply.is_error);
            assert_eq!(reply.text, "unknown memory tool: memory_erase");
        }
        _ => panic!("an unknown tool"),
    }
}
