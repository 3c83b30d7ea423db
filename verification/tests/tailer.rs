use tailview::tail::{tail_from, MsgKind};
use tailview::convo::{conversation, conversation_range, conversation_tail, count_turns,
    first_user_display, last_compaction_summary, extract_plain_text, split_lines};

fn user(text: &str) -> String {
    format!("{{\"type\":\"user\",\"message\":{{\"role\":\"user\",\"content\":\"{}\"}}}}", text)
}

fn assistant(text: &str) -> String {
    format!(
        "{{\"type\":\"assistant\",\"message\":{{\"role\":\"assistant\",\"content\":\"{}\"}}}}",
        text
    )
}

#[test]
fn tail_past_end_is_noop() {
    let content = format!("{}\n", user("hello"));
    let r = tail_from(content.as_bytes(), 999);
    assert_eq!(r.messages.len(), 0);
    assert_eq!(r.next_offset, 999);
}

#[test]
fn tail_reads_complete_lines_only() {
    let full_line = user("hello");
    let mut content = format!("{}\n", full_line).into_bytes();
    // a partially flushed second line, no line break yet
    content.extend_from_slice(b"{\"type\":\"assis");
    let r = tail_from(&content, 0);
    assert_eq!(r.messages.len(), 1);
    assert_eq!(r.messages[0].kind, MsgKind::User);
    assert_eq!(r.messages[0].text.as_deref(), Some("hello"));
    assert_eq!(r.next_offset as usize, full_line.len() + 1);
}

#[test]
fn tail_chunked_equals_whole() {
    let first = format!("{}\n", user("one"));
    let second = format!("{}\n", assistant("two"));
    let grown = format!("{}{}", first, second);

    let r1 = tail_from(first.as_bytes(), 0);
    let r2 = tail_from(grown.as_bytes(), r1.next_offset);
    let whole = tail_from(grown.as_bytes(), 0);

    let mut chunked: Vec<(MsgKind, Vec<u8>)> = Vec::new();
    for m in r1.messages.iter().chain(r2.messages.iter()) {
        chunked.push((m.kind, m.raw.clone()));
    }
    let whole_msgs: Vec<(MsgKind, Vec<u8>)> =
        whole.messages.iter().map(|m| (m.kind, m.raw.clone())).collect();
    assert_eq!(chunked, whole_msgs);
    assert_eq!(r2.next_offset, whole.next_offset);
}

#[test]
fn partial_line_completed_later_is_recovered() {
    let first = format!("{}\n", user("one"));
    let partial = "{\"type\":\"assistant\",\"message\":{\"role\":\"assist";
    let mut v1 = first.clone().into_bytes();
    v1.extend_from_slice(partial.as_bytes());

    let r1 = tail_from(&v1, 0);
    assert_eq!(r1.messages.len(), 1);
    assert_eq!(r1.next_offset as usize, first.len());

    let completed = format!("{}{}\n", first, assistant("two"));
    let r2 = tail_from(completed.as_bytes(), r1.next_offset);
    assert_eq!(r2.messages.len(), 1);
    assert_eq!(r2.messages[0].kind, MsgKind::Assistant);
    assert_eq!(r2.messages[0].text.as_deref(), Some("two"));
}

#[test]
fn malformed_complete_line_stops_the_scan() {
    let first = format!("{}\n", user("one"));
    let content = format!("{}this is not json\n{}\n", first, assistant("late"));
    let r = tail_from(content.as_bytes(), 0);
    assert_eq!(r.messages.len(), 1);
    assert_eq!(r.next_offset as usize, first.len());
}

#[test]
fn blank_lines_are_consumed() {
    let content = format!("\n  \n{}\n", user("hello"));
    let r = tail_from(content.as_bytes(), 0);
    assert_eq!(r.messages.len(), 1);
    assert_eq!(r.next_offset as usize, content.len());
}

#[test]
fn queue_op_with_seen_task_id_is_suppressed() {
    let u = user("done <task-id>t1</task-id> earlier");
    let q = "{\"type\":\"queue-operation\",\"content\":\"<task-notification>done <task-id>t1</task-id></task-notification>\"}";
    let content = format!("{}\n{}\n", u, q);
    let r = tail_from(content.as_bytes(), 0);
    assert_eq!(r.messages.len(), 1);
    assert_eq!(r.messages[0].kind, MsgKind::User);
}

#[test]
fn queue_op_with_fresh_task_id_is_rewritten() {
    let u = user("done <task-id>t1</task-id> earlier");
    let q = "{\"type\":\"queue-operation\",\"content\":\"<task-notification>done <task-id>t2</task-id></task-notification>\"}";
    let content = format!("{}\n{}\n", u, q);
    let r = tail_from(content.as_bytes(), 0);
    assert_eq!(r.messages.len(), 2);
    assert_eq!(r.messages[1].kind, MsgKind::QueueUser);
    assert!(r.messages[1].text.as_deref().unwrap().contains("<task-notification>"));
}

#[test]
fn conversation_orders_summaries_first() {
    let s = "{\"type\":\"summary\",\"summary\":\"compacted\"}";
    let content = format!("{}\n{}\n{}\n", user("one"), s, assistant("two"));
    let msgs = conversation(content.as_bytes());
    assert_eq!(msgs.len(), 3);
    assert_eq!(msgs[0].kind, MsgKind::Summary);
    assert_eq!(msgs[1].kind, MsgKind::User);
    assert_eq!(msgs[2].kind, MsgKind::Assistant);
}

#[test]
fn count_counts_only_turns() {
    let s = "{\"type\":\"summary\",\"summary\":\"compacted\"}";
    let content = format!("{}\n{}\n{}\nnot json\n", user("one"), s, assistant("two"));
    assert_eq!(count_turns(content.as_bytes()), 2);
}

#[test]
fn conversation_tail_pages_from_the_end() {
    let l1 = format!("{}\n", user("one"));
    let l2 = format!("{}\n", assistant("two"));
    let l3 = format!("{}\n", user("three"));
    let content = format!("{}{}{}", l1, l2, l3);
    let page = conversation_tail(content.as_bytes(), 2);
    assert_eq!(page.messages.len(), 2);
    assert!(page.has_more);
    assert_eq!(page.start_offset as usize, l1.len());
    assert_eq!(page.end_offset as usize, content.len());
    assert_eq!(page.messages[0].text.as_deref(), Some("two"));
    assert_eq!(page.messages[1].text.as_deref(), Some("three"));

    let all = conversation_tail(content.as_bytes(), 10);
    assert_eq!(all.messages.len(), 3);
    assert!(!all.has_more);
    assert_eq!(all.start_offset, 0);
}

#[test]
fn conversation_range_pages_before_a_boundary() {
    let l1 = format!("{}\n", user("one"));
    let l2 = format!("{}\n", assistant("two"));
    let l3 = format!("{}\n", user("three"));
    let content = format!("{}{}{}", l1, l2, l3);
    let boundary = (l1.len() + l2.len()) as u64;
    let page = conversation_range(content.as_bytes(), boundary, 1);
    assert_eq!(page.messages.len(), 1);
    assert_eq!(page.messages[0].text.as_deref(), Some("two"));
    assert!(page.has_more);
    assert_eq!(page.start_offset as usize, l1.len());
    assert_eq!(page.end_offset, boundary);
}

#[test]
fn first_user_display_truncates() {
    let long_text = "x".repeat(150);
    let content = format!("{}\n", user(&long_text));
    let d = first_user_display(content.as_bytes(), "fallback-id");
    assert_eq!(d.chars().count(), 100);
    let empty = first_user_display(b"", "fallback-id");
    assert_eq!(empty, "fallback-id");
}

#[test]
fn compaction_summary_comes_from_the_last_summary_line() {
    let s1 = "{\"type\":\"summary\",\"summary\":\"older\"}";
    let s2 = "{\"type\":\"summary\",\"summary\":\"newer\"}";
    let content = format!("{}\n{}\n{}\n", s1, user("hi"), s2);
    assert_eq!(last_compaction_summary(content.as_bytes()).as_deref(), Some("newer"));
    assert_eq!(last_compaction_summary(b"no summaries here"), None);
}

#[test]
fn plain_text_joins_block_texts() {
    let line = "{\"type\":\"assistant\",\"message\":{\"content\":[{\"type\":\"text\",\"text\":\"a\"},{\"type\":\"tool_use\"},{\"type\":\"text\",\"text\":\"b\"}]}}";
    assert_eq!(extract_plain_text(line.as_bytes()), "a b");
}

#[test]
fn split_lines_keeps_the_unterminated_tail() {
    let lines = split_lines(b"a\nb\nc");
    assert_eq!(lines.len(), 3);
    assert_eq!(lines[2], b"c".to_vec());
    let lines2 = split_lines(b"a\n");
    assert_eq!(lines2.len(), 1);
}
