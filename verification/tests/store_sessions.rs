use tailview::history::parse_history;
use tailview::sessions::{list_sessions, session_updates, FileFacts};
use tailview::store::{build_summary_file, parse_summary_file, SessionStatusValue, SessionStore,
    SummaryAction};

fn user(text: &str) -> String {
    format!("{{\"type\":\"user\",\"message\":{{\"role\":\"user\",\"content\":\"{}\"}}}}", text)
}

fn assistant(text: &str) -> String {
    format!(
        "{{\"type\":\"assistant\",\"message\":{{\"role\":\"assistant\",\"content\":\"{}\"}}}}",
        text
    )
}

fn two_pairs() -> Vec<u8> {
    format!("{}\n{}\n{}\n{}\n", user("q1"), assistant("a1"), user("q2"), assistant("a2"))
        .into_bytes()
}

fn facts(id: &str, enc: &str, size: u64, mtime: u64, content: Option<Vec<u8>>) -> FileFacts {
    FileFacts {
        id: id.to_string(),
        encoded_project: enc.to_string(),
        path: format!("/logs/{}/{}.jsonl", enc, id),
        size,
        mtime_ms: mtime,
        created_ms: mtime,
        content,
    }
}

#[test]
fn count_cache_serves_matching_size_without_content() {
    let mut store = SessionStore::new();
    let id = "abc".to_string();
    let content = two_pairs();
    let size = content.len() as u64;
    // first call: a miss, counted from the bytes and cached
    let n1 = store.message_count(&id, size, Some(&content));
    assert_eq!(n1, 4);
    // second call at the same size: served from the cache, no bytes needed
    let n2 = store.message_count(&id, size, None);
    assert_eq!(n2, 4);
    // the file grew: the old entry is stale, a recount is forced
    let mut grown = content.clone();
    grown.extend_from_slice(format!("{}\n", user("q3")).as_bytes());
    let n3 = store.message_count(&id, grown.len() as u64, Some(&grown));
    assert_eq!(n3, 5);
    // and the shrunken file forces a recount just the same
    let shrunk = format!("{}\n", user("only")).into_bytes();
    let n4 = store.message_count(&id, shrunk.len() as u64, Some(&shrunk));
    assert_eq!(n4, 1);
}

#[test]
fn summary_policy_follows_the_threshold() {
    let mut store = SessionStore::new();
    let id = "abc".to_string();
    // no summary yet: any turn asks for the cheap early summary
    assert_eq!(store.summary_decision(&id, 0), SummaryAction::Skip);
    assert_eq!(store.summary_decision(&id, 1), SummaryAction::Early);
    store.store_summary(id.clone(), "did things".to_string(), 4);
    // regeneration only once the count grew by the threshold
    assert_eq!(store.summary_decision(&id, 6), SummaryAction::Skip);
    assert_eq!(store.summary_decision(&id, 7), SummaryAction::Generate);
    // nothing while a generation is pending
    store.set_summary_pending(id.clone());
    assert_eq!(store.summary_decision(&id, 9), SummaryAction::Skip);
    store.clear_summary_pending(&id);
    assert_eq!(store.summary_decision(&id, 9), SummaryAction::Generate);
}

#[test]
fn summary_file_round_trips() {
    let bytes = build_summary_file(7, "fixing the parser\nand its tests");
    let parsed = parse_summary_file(&bytes).unwrap();
    assert_eq!(parsed.0, 7);
    assert_eq!(parsed.1, "fixing the parser\nand its tests");
    assert_eq!(parse_summary_file(b""), None);
    assert_eq!(parse_summary_file(b"3\n"), None);
}

#[test]
fn status_updates_track_panes() {
    let mut store = SessionStore::new();
    let id = "abc".to_string();
    store.set_session_status(
        &id,
        Some(SessionStatusValue::Responding),
        Some("%1".to_string()),
        Some("main".to_string()),
    );
    assert_eq!(store.get_session_status(&id), Some(SessionStatusValue::Responding));
    let pane = store.get_session_pane(&id).unwrap();
    assert_eq!(pane.pane_id, "%1");
    assert_eq!(pane.mux_session.as_deref(), Some("main"));
    assert!(pane.verified);
    // ending the session drops both
    store.set_session_status(&id, None, None, None);
    assert_eq!(store.get_session_status(&id), None);
    assert!(store.get_session_pane(&id).is_none());
}

#[test]
fn listing_matches_the_concrete_scenario() {
    // one roster entry without a session id; one file whose modification time
    // matches the entry's timestamp and holds two user/assistant pairs
    let mut store = SessionStore::new();
    let roster = "{\"display\":\"fix bug\",\"timestamp\":1000,\"project\":\"/home/u/app\"}\n";
    store.set_roster(parse_history(roster.as_bytes()));
    let content = two_pairs();
    let size = content.len() as u64;
    let files = vec![facts("abc123", "-home-u-app", size, 1000, Some(content))];
    let sessions = list_sessions(&mut store, &files);
    assert_eq!(sessions.len(), 1);
    assert_eq!(sessions[0].id, "abc123");
    assert_eq!(sessions[0].display, "fix bug");
    assert_eq!(sessions[0].message_count, 4);
    assert_eq!(sessions[0].timestamp, 1000);
    assert_eq!(sessions[0].last_activity, 1000);
    assert_eq!(sessions[0].project, "/home/u/app");
    assert_eq!(sessions[0].project_name, "app");
}

#[test]
fn duplicate_roster_ids_collapse_to_the_first() {
    let mut store = SessionStore::new();
    let roster = ["{\"display\":\"first\",\"timestamp\":1000,\"project\":\"/p\",\"sessionId\":\"abc\"}\n", "{\"display\":\"second\",\"timestamp\":2000,\"project\":\"/p\",\"sessionId\":\"abc\"}\n"].join("");
    store.set_roster(parse_history(roster.as_bytes()));
    let content = two_pairs();
    let size = content.len() as u64;
    let files = vec![facts("abc", "-p", size, 3000, Some(content))];
    let sessions = list_sessions(&mut store, &files);
    assert_eq!(sessions.len(), 1);
    assert_eq!(sessions[0].display, "first");
    assert_eq!(sessions[0].timestamp, 1000);
}

#[test]
fn empty_orphans_are_never_listed() {
    let mut store = SessionStore::new();
    store.set_roster(Vec::new());
    // a file with zero conversational lines: indexed, but not a session
    let empty = b"{\"type\":\"progress\"}\n".to_vec();
    let size = empty.len() as u64;
    store.index_session_file("ghost".to_string(), "/logs/-p/ghost.jsonl".to_string());
    store.index_session_file("real".to_string(), "/logs/-p/real.jsonl".to_string());
    let real_content = two_pairs();
    let real_size = real_content.len() as u64;
    let files = vec![
        facts("ghost", "-p", size, 50, Some(empty)),
        facts("real", "-p", real_size, 60, Some(real_content)),
    ];
    let sessions = list_sessions(&mut store, &files);
    assert_eq!(sessions.len(), 1);
    assert_eq!(sessions[0].id, "real");
    // the orphan's display comes from its first user message
    assert_eq!(sessions[0].display, "q1");
    assert_eq!(sessions[0].project, "/p");
}

#[test]
fn deleted_sessions_never_come_back() {
    let mut store = SessionStore::new();
    let roster = "{\"display\":\"fix bug\",\"timestamp\":1000,\"project\":\"/p\",\"sessionId\":\"abc\"}\n";
    store.set_roster(parse_history(roster.as_bytes()));
    let content = two_pairs();
    let size = content.len() as u64;
    let files = vec![facts("abc", "-p", size, 1000, Some(content.clone()))];
    assert_eq!(list_sessions(&mut store, &files).len(), 1);

    store.apply_deletion(&"abc".to_string());
    // the backing file still exists, yet the session is gone
    store.set_roster(parse_history(roster.as_bytes()));
    assert_eq!(list_sessions(&mut store, &files).len(), 0);

    // and it survives a restart through the persisted hidden list
    let persisted = tailview::history::hidden_line("abc");
    let mut store2 = SessionStore::new();
    for id in tailview::history::parse_hidden(&persisted) {
        store2.hide_session(id);
    }
    store2.set_roster(parse_history(roster.as_bytes()));
    assert_eq!(list_sessions(&mut store2, &files).len(), 0);
}

#[test]
fn listing_sorts_by_last_activity() {
    let mut store = SessionStore::new();
    let roster = ["{\"display\":\"old\",\"timestamp\":100,\"project\":\"/p\",\"sessionId\":\"a\"}\n", "{\"display\":\"new\",\"timestamp\":300,\"project\":\"/p\",\"sessionId\":\"b\"}\n", "{\"display\":\"mid\",\"timestamp\":200,\"project\":\"/p\",\"sessionId\":\"c\"}\n"].join("");
    store.set_roster(parse_history(roster.as_bytes()));
    let files = Vec::new();
    let sessions = list_sessions(&mut store, &files);
    assert_eq!(sessions.len(), 3);
    assert_eq!(sessions[0].id, "b");
    assert_eq!(sessions[1].id, "c");
    assert_eq!(sessions[2].id, "a");
}

#[test]
fn deletion_invalidates_every_cache_of_the_id() {
    let mut store = SessionStore::new();
    let id = "abc".to_string();
    let content = two_pairs();
    let size = content.len() as u64;
    store.message_count(&id, size, Some(&content));
    store.slug_cache.insert(id.clone(), Some("plan".to_string()));
    store.set_session_status(
        &id,
        Some(SessionStatusValue::Permission),
        Some("%1".to_string()),
        None,
    );
    store.permission_messages.insert(id.clone(), "pending".to_string());
    store.question_data.insert(id.clone(), "[]".to_string());
    store.store_summary(id.clone(), "a summary".to_string(), 4);
    store.set_summary_pending(id.clone());

    store.apply_deletion(&id);

    assert!(!store.count_cache.contains(&id));
    assert!(!store.slug_cache.contains(&id));
    assert!(!store.summary_cache.contains(&id));
    assert!(!store.summary_pending.contains(&id));
    assert!(!store.permission_messages.contains(&id));
    assert!(!store.question_data.contains(&id));
    assert_eq!(store.get_session_status(&id), None);
    assert!(store.get_session_pane(&id).is_none());
    assert!(store.resolve(&id).is_none());
    // no stale count survives: a later query recounts from the bytes
    let n = store.message_count(&id, size, Some(&content));
    assert_eq!(n, 4);
}

#[test]
fn roster_stream_emits_only_the_changed_subset() {
    let mut store = SessionStore::new();
    let roster = ["{\"display\":\"one\",\"timestamp\":100,\"project\":\"/p\",\"sessionId\":\"a\"}\n", "{\"display\":\"two\",\"timestamp\":200,\"project\":\"/p\",\"sessionId\":\"b\"}\n"].join("");
    store.set_roster(parse_history(roster.as_bytes()));
    let files = Vec::new();
    let sessions = list_sessions(&mut store, &files);

    // the first emission covers everything
    let (changed0, known) = session_updates(&Vec::new(), &sessions);
    assert_eq!(changed0.len(), 2);

    // nothing changed: nothing is emitted
    let sessions2 = list_sessions(&mut store, &files);
    let (changed1, known2) = session_updates(&known, &sessions2);
    assert_eq!(changed1.len(), 0);

    // one status change: exactly that session is emitted
    store.set_session_status(&"b".to_string(), Some(SessionStatusValue::Responding), None, None);
    let sessions3 = list_sessions(&mut store, &files);
    let (changed2, _) = session_updates(&known2, &sessions3);
    assert_eq!(changed2.len(), 1);
    assert_eq!(changed2[0].id, "b");
}

#[test]
fn vanished_sessions_keep_their_snapshots() {
    // a session that drops out of one listing and reappears unchanged is not
    // re-emitted: its snapshot survives the absence
    let mut store = SessionStore::new();
    let roster = ["{\"display\":\"one\",\"timestamp\":100,\"project\":\"/p\",\"sessionId\":\"a\"}\n", "{\"display\":\"two\",\"timestamp\":200,\"project\":\"/p\",\"sessionId\":\"b\"}\n"].join("");
    store.set_roster(parse_history(roster.as_bytes()));
    let sessions = list_sessions(&mut store, &Vec::new());
    assert_eq!(sessions.len(), 2);
    let (_, known) = session_updates(&Vec::new(), &sessions);

    // only one session listed this round
    let partial = vec![tailview::sessions::clone_session(&sessions[0])];
    let (changed, known2) = session_updates(&known, &partial);
    assert_eq!(changed.len(), 0);
    assert_eq!(known2.len(), 2);

    // both listed again, unchanged: nothing is re-emitted
    let (changed2, _) = session_updates(&known2, &sessions);
    assert_eq!(changed2.len(), 0);
}

#[test]
fn leaving_the_permission_state_clears_its_payloads() {
    let mut store = SessionStore::new();
    let id = "abc".to_string();
    store.apply_status_change(&id, Some(SessionStatusValue::Permission), None, None);
    store.permission_messages.insert(id.clone(), "pending".to_string());
    store.question_data.insert(id.clone(), "[]".to_string());
    // staying in the permission state keeps the payloads
    store.apply_status_change(&id, Some(SessionStatusValue::Permission), None, None);
    assert!(store.permission_messages.contains(&id));
    // leaving it drops them
    store.apply_status_change(&id, Some(SessionStatusValue::Responding), None, None);
    assert!(!store.permission_messages.contains(&id));
    assert!(!store.question_data.contains(&id));
    assert_eq!(store.get_session_status(&id), Some(SessionStatusValue::Responding));
}

#[test]
fn roster_reload_flag_drives_the_cache() {
    let mut store = SessionStore::new();
    assert!(store.roster_needs_reload());
    store.set_roster(Vec::new());
    assert!(!store.roster_needs_reload());
    store.invalidate_history_cache();
    assert!(store.roster_needs_reload());
}
