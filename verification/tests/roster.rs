use tailview::history::{decode_project_path, encode_project_path, get_project_name, hidden_line,
    nearest_by_mtime, parse_hidden, parse_history, parse_history_line, rewrite_history,
    trim_bytes};

fn entry(display: &str, ts: u64, project: &str, sid: Option<&str>) -> String {
    match sid {
        Some(id) => format!(
            "{{\"display\":\"{}\",\"timestamp\":{},\"project\":\"{}\",\"sessionId\":\"{}\"}}",
            display, ts, project, id
        ),
        None => format!(
            "{{\"display\":\"{}\",\"timestamp\":{},\"project\":\"{}\"}}",
            display, ts, project
        ),
    }
}

#[test]
fn parses_roster_entries_and_skips_junk() {
    let content = format!(
        "{}\nnot json\n{}\n",
        entry("fix bug", 1000, "/home/u/app", None),
        entry("add tests", 2000, "/home/u/app", Some("abc123")),
    );
    let es = parse_history(content.as_bytes());
    assert_eq!(es.len(), 2);
    assert_eq!(es[0].display, "fix bug");
    assert_eq!(es[0].timestamp, 1000);
    assert_eq!(es[0].project, "/home/u/app");
    assert_eq!(es[0].session_id, None);
    assert_eq!(es[1].session_id.as_deref(), Some("abc123"));
}

#[test]
fn entry_requires_its_fields() {
    assert!(parse_history_line(b"{\"display\":\"x\",\"project\":\"p\"}").is_none());
    assert!(parse_history_line(b"{\"display\":\"x\",\"timestamp\":5}").is_none());
    assert!(parse_history_line(b"{\"display\":\"x\",\"timestamp\":5,\"project\":\"p\"}").is_some());
}

#[test]
fn project_paths_encode_and_decode() {
    assert_eq!(encode_project_path("/home/u/my.app"), "-home-u-my-app");
    assert_eq!(decode_project_path("-home-u-app"), "/home/u/app");
    // decoding is lossy on purpose: a dot that was encoded comes back as a
    // separator
    assert_eq!(decode_project_path("-home-u-my-app"), "/home/u/my/app");
    // a name that does not start with a dash stays as it is
    assert_eq!(decode_project_path("plain"), "plain");
}

#[test]
fn project_name_is_the_last_nonempty_segment() {
    assert_eq!(get_project_name("/home/u/app"), "app");
    assert_eq!(get_project_name("/home/u/app/"), "app");
    assert_eq!(get_project_name("///"), "///");
    assert_eq!(get_project_name(""), "");
}

#[test]
fn nearest_mtime_picks_the_closest_and_the_earliest_tie() {
    let files = vec![
        ("far".to_string(), 5000u64),
        ("close".to_string(), 1010u64),
        ("tie".to_string(), 990u64),
    ];
    // close is 10 away, tie is 10 away: the earliest candidate wins the tie
    assert_eq!(nearest_by_mtime(&files, 1000).as_deref(), Some("close"));
    let files2 = vec![("a".to_string(), 990u64), ("b".to_string(), 1010u64)];
    assert_eq!(nearest_by_mtime(&files2, 1000).as_deref(), Some("a"));
    assert_eq!(nearest_by_mtime(&Vec::new(), 1000), None);
}

#[test]
fn deletion_rewrites_only_matching_lines() {
    let keep = entry("keep", 1, "/p", Some("other"));
    let drop_line = entry("drop", 2, "/p", Some("gone"));
    let content = format!("{}\n{}\n\n", keep, drop_line);
    let (bytes, changed) = rewrite_history(content.as_bytes(), "gone");
    assert!(changed);
    assert_eq!(String::from_utf8(bytes).unwrap(), format!("{}\n", keep));

    let (bytes2, changed2) = rewrite_history(content.as_bytes(), "absent");
    assert!(!changed2);
    assert_eq!(String::from_utf8(bytes2).unwrap(), format!("{}\n{}\n", keep, drop_line));
}

#[test]
fn project_list_is_sorted_and_unique() {
    let content = [
        "{\"display\":\"a\",\"timestamp\":1,\"project\":\"/home/u/zeta\"}\n",
        "{\"display\":\"b\",\"timestamp\":2,\"project\":\"/home/u/alpha\"}\n",
        "{\"display\":\"c\",\"timestamp\":3,\"project\":\"/home/u/zeta\"}\n",
        "{\"display\":\"d\",\"timestamp\":4,\"project\":\"\"}\n",
    ].join("");
    let entries = parse_history(content.as_bytes());
    let projects = tailview::history::project_list(&entries);
    assert_eq!(projects, vec!["/home/u/alpha".to_string(), "/home/u/zeta".to_string()]);
}

#[test]
fn hidden_list_round_trips_across_restarts() {
    let mut persisted: Vec<u8> = Vec::new();
    persisted.extend_from_slice(&hidden_line("abc123"));
    persisted.extend_from_slice(&hidden_line("def456"));
    let ids = parse_hidden(&persisted);
    assert_eq!(ids, vec!["abc123".to_string(), "def456".to_string()]);
}

#[test]
fn hidden_list_trims_and_skips_blank_lines() {
    let ids = parse_hidden(b"  abc  \n\n   \ndef\n");
    assert_eq!(ids, vec!["abc".to_string(), "def".to_string()]);
}

#[test]
fn trimming_strips_ascii_whitespace() {
    assert_eq!(trim_bytes(b"  x y\t\r\n"), b"x y".to_vec());
    assert_eq!(trim_bytes(b"   "), Vec::<u8>::new());
}
