use tailview::models::{answer_plan, create_snippet, exit_plan_tool_ids, parse_slug,
    plan_session_map, question_option_count, search_in_content, subagent_infos, AnswerPlan};
use tailview::status::{build_permission_message, cert_paths, needs_attention, prepare_tts_input,
    status_for_event, strip_trailing_dots, url_domain, viewer_active, StatusDecision};
use tailview::store::SessionStatusValue;
use tailview::text::{extract_task_id, format_u64_dec, is_mobile_ua, parse_u64_dec, truncate_chars};

#[test]
fn task_ids_come_from_their_tags() {
    assert_eq!(
        extract_task_id("before <task-id>t-42</task-id> after").as_deref(),
        Some("t-42")
    );
    assert_eq!(extract_task_id("no tags here"), None);
    assert_eq!(extract_task_id("<task-id>unterminated"), None);
}

#[test]
fn mobile_user_agents_are_recognized() {
    assert!(is_mobile_ua("Mozilla/5.0 (iPhone; CPU iPhone OS 17_0)"));
    assert!(is_mobile_ua("Mozilla/5.0 (Linux; Android 14)"));
    assert!(!is_mobile_ua("Mozilla/5.0 (Macintosh; Intel Mac OS X)"));
}

#[test]
fn truncation_counts_characters() {
    assert_eq!(truncate_chars("hello", 10), "hello");
    assert_eq!(truncate_chars("hello", 3), "hel");
    assert_eq!(truncate_chars("héllo", 2), "hé");
}

#[test]
fn decimal_numbers_round_trip() {
    for n in [0u64, 1, 9, 10, 12345, u64::MAX] {
        let digits = format_u64_dec(n);
        assert_eq!(parse_u64_dec(&digits), Some(n));
    }
    assert_eq!(parse_u64_dec(b""), None);
    assert_eq!(parse_u64_dec(b"12x"), None);
    assert_eq!(parse_u64_dec(b"99999999999999999999999"), None);
}

#[test]
fn events_map_to_statuses() {
    assert_eq!(
        status_for_event("SessionStart", None),
        StatusDecision::Apply(Some(SessionStatusValue::Active))
    );
    assert_eq!(
        status_for_event("Notification", Some(&"permission_prompt".to_string())),
        StatusDecision::Apply(Some(SessionStatusValue::Permission))
    );
    assert_eq!(
        status_for_event("Notification", None),
        StatusDecision::Apply(Some(SessionStatusValue::Notification))
    );
    assert_eq!(status_for_event("SessionEnd", None), StatusDecision::Apply(None));
    assert_eq!(status_for_event("SomethingNew", None), StatusDecision::Ignore);
}

#[test]
fn attention_and_activity_gates() {
    assert!(needs_attention(Some(SessionStatusValue::Permission)));
    assert!(needs_attention(Some(SessionStatusValue::Notification)));
    assert!(!needs_attention(Some(SessionStatusValue::Active)));
    assert!(!needs_attention(None));
    assert!(viewer_active(100, 80));
    assert!(!viewer_active(100, 70));
    assert!(!viewer_active(100, 0));
    // a ping from the future still counts as active
    assert!(viewer_active(100, 200));
}

#[test]
fn permission_messages_show_the_detail() {
    let input = b"{\"command\":\"rm -rf build\"}".to_vec();
    assert_eq!(
        build_permission_message(Some(&"Bash".to_string()), Some(&input)),
        "Bash: rm -rf build"
    );
    let ginput = b"{\"pattern\":\"*.rs\",\"path\":\"/src\"}".to_vec();
    assert_eq!(
        build_permission_message(Some(&"Grep".to_string()), Some(&ginput)),
        "Grep: /src/*.rs"
    );
    assert_eq!(build_permission_message(None, None), "Unknown");
    let long = format!("{{\"command\":\"{}\"}}", "x".repeat(200));
    let msg = build_permission_message(Some(&"Bash".to_string()), Some(&long.into_bytes()));
    assert_eq!(msg.chars().count(), "Bash: ".chars().count() + 80);
}

#[test]
fn tts_input_is_validated_and_bounded() {
    assert_eq!(prepare_tts_input("   \n\t "), None);
    let long = "y".repeat(5000);
    let p = prepare_tts_input(&long).unwrap();
    assert_eq!(p.chars().count(), 4000);
}

#[test]
fn raw_tails_serve_only_temporary_paths() {
    assert!(tailview::status::tail_path_allowed("/tmp/task.output"));
    assert!(tailview::status::tail_path_allowed("/private/tmp/x/y"));
    assert!(tailview::status::tail_path_allowed("/var/folders/ab/cd"));
    assert!(!tailview::status::tail_path_allowed("/etc/passwd"));
    assert!(!tailview::status::tail_path_allowed("relative/tmp/"));
}

#[test]
fn url_domains_sit_between_the_separators() {
    assert_eq!(url_domain("https://example.org/path/x"), "example.org");
    assert_eq!(url_domain("https://example.org"), "example.org");
    assert_eq!(url_domain("no-separators"), "no-separators");
}

#[test]
fn certificate_paths_and_dns_names() {
    let c = cert_paths("/home/u/certs", "host.example.ts.net");
    assert_eq!(c.cert_path, "/home/u/certs/host.example.ts.net.crt");
    assert_eq!(c.key_path, "/home/u/certs/host.example.ts.net.key");
    assert_eq!(strip_trailing_dots("host.example.ts.net."), "host.example.ts.net");
    assert_eq!(strip_trailing_dots("plain"), "plain");
}

#[test]
fn snippets_match_case_folded() {
    let text = "The Quick Brown Fox Jumps Over";
    let s = create_snippet(text, "quick", 3);
    assert_eq!(s, "...he Quick Br...");
    // no hit: the head of the text
    let s2 = create_snippet(text, "zebra", 3);
    assert_eq!(s2, "The Qu");
}

#[test]
fn search_matches_turns_case_insensitively() {
    let content = ["{\"type\":\"user\",\"message\":{\"content\":\"FIX the bug\"}}\n", "{\"type\":\"assistant\",\"message\":{\"content\":\"done\"}}\n", "{\"type\":\"summary\",\"summary\":\"not searched\"}\n", "{\"type\":\"user\",\"message\":{\"content\":\"also fixing\"}}\n"].join("");
    let hits = search_in_content(content.as_bytes(), "fix");
    assert_eq!(hits.len(), 2);
    assert_eq!(hits[0].message_index, 0);
    assert_eq!(hits[0].text, "FIX the bug");
    assert_eq!(hits[1].message_index, 2);
}

#[test]
fn subagents_deduplicate_by_agent() {
    let content = ["{\"type\":\"progress\",\"parentToolUseID\":\"tu1\",\"data\":{\"type\":\"agent_progress\",\"agentId\":\"ag1\"}}\n", "{\"type\":\"progress\",\"parentToolUseID\":\"tu2\",\"data\":{\"type\":\"agent_progress\",\"agentId\":\"ag1\"}}\n", "{\"type\":\"progress\",\"parentToolUseID\":\"tu3\",\"data\":{\"type\":\"agent_progress\",\"agentId\":\"ag2\"}}\n", "{\"type\":\"progress\",\"data\":{\"type\":\"other\"}}\n"].join("");
    let infos = subagent_infos(content.as_bytes());
    assert_eq!(infos.len(), 2);
    assert_eq!(infos[0].agent_id, "ag1");
    assert_eq!(infos[0].tool_use_id, "tu1");
    assert_eq!(infos[1].agent_id, "ag2");
}

#[test]
fn plan_sessions_pair_with_tool_calls() {
    let content = ["{\"type\":\"assistant\",\"message\":{\"content\":[", "{\"type\":\"tool_use\",\"name\":\"ExitPlanMode\",\"id\":\"call1\"},", "{\"type\":\"tool_use\",\"name\":\"Bash\",\"id\":\"call2\"}]}}\n"].join("");
    let ids = exit_plan_tool_ids(content.as_bytes());
    assert_eq!(ids, vec!["call1".to_string()]);

    let pairs = plan_session_map(
        &vec!["call1".to_string(), "call3".to_string()],
        &vec!["impl-session".to_string()],
    );
    assert_eq!(pairs.len(), 2);
    assert_eq!(pairs[0].tool_use_id, "call1");
    assert_eq!(pairs[0].session_id, "impl-session");
    assert_eq!(pairs[1].session_id, "impl-session");
    assert_eq!(plan_session_map(&vec!["call1".to_string()], &Vec::new()).len(), 0);
}

#[test]
fn slugs_come_from_the_first_line_that_has_one() {
    let content = "{\"type\":\"user\"}\n{\"slug\":\"my-plan\"}\n{\"slug\":\"other\"}\n";
    assert_eq!(parse_slug(content.as_bytes()).as_deref(), Some("my-plan"));
    assert_eq!(parse_slug(b"{}\n"), None);
}

#[test]
fn answers_turn_into_key_plans() {
    let q = b"[{\"question\":\"ok?\",\"options\":[{\"label\":\"a\"},{\"label\":\"b\"},{\"label\":\"c\"}]}]";
    assert_eq!(question_option_count(q), 3);
    assert_eq!(question_option_count(b"not json"), 1);
    assert!(matches!(answer_plan(Some(2), None, 3), AnswerPlan::SelectOption { downs: 2 }));
    match answer_plan(None, Some("free text".to_string()), 3) {
        AnswerPlan::TypeText { downs, text } => {
            assert_eq!(downs, 3);
            assert_eq!(text, "free text");
        },
        _ => panic!("expected a typing plan"),
    }
    assert!(matches!(answer_plan(None, None, 3), AnswerPlan::Invalid));
}
