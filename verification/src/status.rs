//! Hook-event handling: which status an event sets, when a notification
//! should be pushed, the permission message shown for a pending tool call,
//! and the small helpers around the excluded collaborators (speech input,
//! certificate paths, URL opening).

use vstd::prelude::*;
use crate::json::{json_str_field, json_get_str};
use crate::store::SessionStatusValue;
use crate::text::{chars_of, find_from, push_str, spec_truncate, str_eq, string_of, truncate_chars};

verus! {

/// What a hook event does to a session's status.
#[derive(Clone, Copy, Debug, PartialEq, Eq, Structural)]
pub enum StatusDecision {
    /// Set the status; ending a session sets it to nothing.
    Apply(Option<SessionStatusValue>),
    /// An unknown event; the status stays as it is.
    Ignore,
}

/// The status each hook event maps to.
pub open spec fn spec_status_for_event(ev: Seq<char>, nt: Option<Seq<char>>) -> StatusDecision {
    if ev == "SessionStart"@ {
        StatusDecision::Apply(Option::Some(SessionStatusValue::Active))
    } else if ev == "UserPromptSubmit"@ {
        StatusDecision::Apply(Option::Some(SessionStatusValue::Responding))
    } else if ev == "Notification"@ {
        if nt == Option::Some("permission_prompt"@) {
            StatusDecision::Apply(Option::Some(SessionStatusValue::Permission))
        } else {
            StatusDecision::Apply(Option::Some(SessionStatusValue::Notification))
        }
    } else if ev == "PermissionRequest"@ {
        StatusDecision::Apply(Option::Some(SessionStatusValue::Permission))
    } else if ev == "PreCompact"@ {
        StatusDecision::Apply(Option::Some(SessionStatusValue::Compacting))
    } else if ev == "PreToolUse"@ || ev == "PostToolUse"@ {
        StatusDecision::Apply(Option::Some(SessionStatusValue::Responding))
    } else if ev == "Stop"@ {
        StatusDecision::Apply(Option::Some(SessionStatusValue::Active))
    } else if ev == "SessionEnd"@ {
        StatusDecision::Apply(Option::None)
    } else {
        StatusDecision::Ignore
    }
}

/// Map a hook event to the status it sets.
pub fn status_for_event(event: &str, notification_type: Option<&String>) -> (r: StatusDecision)
    ensures
        r == spec_status_for_event(
            event@,
            match notification_type {
                Option::Some(nt) => Option::Some(nt@),
                Option::None => Option::None,
            },
        ),
{
    if str_eq(event, "SessionStart") {
        StatusDecision::Apply(Option::Some(SessionStatusValue::Active))
    } else if str_eq(event, "UserPromptSubmit") {
        StatusDecision::Apply(Option::Some(SessionStatusValue::Responding))
    } else if str_eq(event, "Notification") {
        let is_perm: bool = match notification_type {
            Option::Some(nt) => str_eq(nt.as_str(), "permission_prompt"),
            Option::None => false,
        };
        if is_perm {
            StatusDecision::Apply(Option::Some(SessionStatusValue::Permission))
        } else {
            StatusDecision::Apply(Option::Some(SessionStatusValue::Notification))
        }
    } else if str_eq(event, "PermissionRequest") {
        StatusDecision::Apply(Option::Some(SessionStatusValue::Permission))
    } else if str_eq(event, "PreCompact") {
        StatusDecision::Apply(Option::Some(SessionStatusValue::Compacting))
    } else if str_eq(event, "PreToolUse") || str_eq(event, "PostToolUse") {
        StatusDecision::Apply(Option::Some(SessionStatusValue::Responding))
    } else if str_eq(event, "Stop") {
        StatusDecision::Apply(Option::Some(SessionStatusValue::Active))
    } else if str_eq(event, "SessionEnd") {
        StatusDecision::Apply(Option::None)
    } else {
        StatusDecision::Ignore
    }
}

/// The statuses that ask for the user's attention.
pub open spec fn spec_needs_attention(status: Option<SessionStatusValue>) -> bool {
    status == Option::Some(SessionStatusValue::Permission) || status == Option::Some(
        SessionStatusValue::Notification,
    )
}

/// Whether a status change should trigger a push notification at all.
pub fn needs_attention(status: Option<SessionStatusValue>) -> (r: bool)
    ensures
        r == spec_needs_attention(status),
{
    match status {
        Option::Some(SessionStatusValue::Permission) => true,
        Option::Some(SessionStatusValue::Notification) => true,
        _ => false,
    }
}

/// A viewer that pinged within the last thirty seconds counts as active; a
/// ping from the future (clock skew) does too.
pub open spec fn spec_viewer_active(now_s: u64, last_ping_s: u64) -> bool {
    last_ping_s > 0 && now_s - last_ping_s < 30
}

/// Whether a viewer is currently watching, going by its last ping.
pub fn viewer_active(now_s: u64, last_ping_s: u64) -> (r: bool)
    ensures
        r == spec_viewer_active(now_s, last_ping_s),
{
    last_ping_s > 0 && (now_s <= last_ping_s || now_s - last_ping_s < 30)
}

/// The detail a pending tool call shows: its command, file path, search
/// pattern (under its path), or URL, whichever the input carries first.
pub open spec fn spec_permission_detail(input: Seq<u8>) -> Option<Seq<char>> {
    match json_str_field(input, "command"@) {
        Option::Some(c) => Option::Some(c),
        Option::None => match json_str_field(input, "file_path"@) {
            Option::Some(f) => Option::Some(f),
            Option::None => match json_str_field(input, "pattern"@) {
                Option::Some(pat) => match json_str_field(input, "path"@) {
                    Option::Some(pa) => Option::Some(pa + "/"@ + pat),
                    Option::None => Option::Some(pat),
                },
                Option::None => match json_str_field(input, "url"@) {
                    Option::Some(u) => Option::Some(u),
                    Option::None => Option::None,
                },
            },
        },
    }
}

/// The message shown for a pending permission request: the tool name, and
/// the first eighty characters of its detail when the input carries one.
pub open spec fn spec_permission_message(name: Seq<char>, input: Option<Seq<u8>>) -> Seq<char> {
    match input {
        Option::None => name,
        Option::Some(doc) => match spec_permission_detail(doc) {
            Option::None => name,
            Option::Some(d) => name + ": "@ + spec_truncate(d, 80),
        },
    }
}

/// Build the permission message for a pending tool call.
pub fn build_permission_message(tool_name: Option<&String>, tool_input: Option<&Vec<u8>>) -> (r:
    String)
    ensures
        r@ == spec_permission_message(
            match tool_name {
                Option::Some(n) => n@,
                Option::None => "Unknown"@,
            },
            match tool_input {
                Option::Some(i) => Option::Some(i@),
                Option::None => Option::None,
            },
        ),
{
    let mut msg: String = match tool_name {
        Option::Some(n) => n.clone(),
        Option::None => "Unknown".to_owned(),
    };
    let detail: Option<String> = match tool_input {
        Option::None => Option::None,
        Option::Some(doc) => {
            match json_get_str(doc.as_slice(), "command") {
                Option::Some(c) => Option::Some(c),
                Option::None => match json_get_str(doc.as_slice(), "file_path") {
                    Option::Some(f) => Option::Some(f),
                    Option::None => match json_get_str(doc.as_slice(), "pattern") {
                        Option::Some(pat) => match json_get_str(doc.as_slice(), "path") {
                            Option::Some(pa) => {
                                let mut d = pa;
                                push_str(&mut d, "/");
                                push_str(&mut d, pat.as_str());
                                Option::Some(d)
                            },
                            Option::None => Option::Some(pat),
                        },
                        Option::None => match json_get_str(doc.as_slice(), "url") {
                            Option::Some(u) => Option::Some(u),
                            Option::None => Option::None,
                        },
                    },
                },
            }
        },
    };
    match detail {
        Option::None => msg,
        Option::Some(d) => {
            let t = truncate_chars(d.as_str(), 80);
            push_str(&mut msg, ": ");
            push_str(&mut msg, t.as_str());
            msg
        },
    }
}

/// The text handed to speech synthesis: nothing for an all-blank input, else
/// the first four thousand characters.
pub open spec fn is_blank_char(c: char) -> bool {
    c == ' ' || c == '\t' || c == '\n' || c == '\r'
}

/// Validate and bound a speech-synthesis input.
pub fn prepare_tts_input(text: &str) -> (r: Option<String>)
    ensures
        r is Some <==> exists|k: int| 0 <= k < text@.len() && !is_blank_char(#[trigger] text@[k]),
        r matches Some(t) ==> t@ == spec_truncate(text@, 4000),
{
    let cs = chars_of(text);
    let mut i: usize = 0;
    while i < cs.len()
        invariant
            i <= cs@.len(),
            cs@ == text@,
            forall|k: int| 0 <= k < i ==> is_blank_char(#[trigger] text@[k]),
        decreases cs@.len() - i,
    {
        let c = cs[i];
        if !(c == ' ' || c == '\t' || c == '\n' || c == '\r') {
            return Option::Some(truncate_chars(text, 4000));
        }
        i = i + 1;
    }
    Option::None
}

/// The domain of a URL: what stands between the second and third separator,
/// or the whole URL when it has no such part.
pub open spec fn spec_url_domain(s: Seq<char>) -> Seq<char> {
    match find_from(s, "/"@, 0) {
        Option::None => s,
        Option::Some(i1) => match find_from(s, "/"@, i1 + 1) {
            Option::None => s,
            Option::Some(i2) => match find_from(s, "/"@, i2 + 1) {
                Option::None => s.subrange(i2 + 1, s.len() as int),
                Option::Some(i3) => s.subrange(i2 + 1, i3),
            },
        },
    }
}

/// Extract the domain a push notification names for a URL.
pub fn url_domain(url: &str) -> (r: String)
    ensures
        r@ == spec_url_domain(url@),
{
    let cs = chars_of(url);
    let sep = chars_of("/");
    let len_anchor: usize = cs.len();
    proof {
        reveal_strlit("/");
        assert(cs@.len() == len_anchor as int);
    }
    let i1 = match crate::text::find_chars_from(&cs, &sep, 0) {
        Option::Some(i) => i,
        Option::None => {
            return url.to_owned();
        },
    };
    proof {
        crate::text::lemma_find_bounds(cs@, sep@, 0);
    }
    let i2 = match crate::text::find_chars_from(&cs, &sep, i1 + 1) {
        Option::Some(i) => i,
        Option::None => {
            return url.to_owned();
        },
    };
    proof {
        crate::text::lemma_find_bounds(cs@, sep@, i1 + 1);
    }
    let start: usize = i2 + 1;
    let end: usize = match crate::text::find_chars_from(&cs, &sep, start) {
        Option::Some(i) => i,
        Option::None => cs.len(),
    };
    proof {
        crate::text::lemma_find_bounds(cs@, sep@, start as int);
    }
    let mut out: Vec<char> = Vec::new();
    let mut k: usize = start;
    while k < end
        invariant
            start <= k <= end,
            end <= cs@.len(),
            cs@ == url@,
            out@ =~= url@.subrange(start as int, k as int),
        decreases end - k,
    {
        out.push(cs[k]);
        k = k + 1;
    }
    proof {
        assert(out@ =~= url@.subrange(start as int, end as int));
    }
    string_of(&out)
}

/// The certificate and key files of one host.
pub struct TlsCerts {
    pub cert_path: String,
    pub key_path: String,
}

/// Where a host's certificate and key live under the certificate directory.
pub fn cert_paths(certs_dir: &str, hostname: &str) -> (r: TlsCerts)
    ensures
        r.cert_path@ == certs_dir@ + "/"@ + hostname@ + ".crt"@,
        r.key_path@ == certs_dir@ + "/"@ + hostname@ + ".key"@,
{
    let mut cert = certs_dir.to_owned();
    push_str(&mut cert, "/");
    push_str(&mut cert, hostname);
    push_str(&mut cert, ".crt");
    let mut key = certs_dir.to_owned();
    push_str(&mut key, "/");
    push_str(&mut key, hostname);
    push_str(&mut key, ".key");
    TlsCerts { cert_path: cert, key_path: key }
}

/// A DNS name with its trailing dots removed.
pub open spec fn spec_strip_trailing_dots(s: Seq<char>) -> Seq<char>
    decreases s.len(),
{
    if s.len() > 0 && s.last() == '.' {
        spec_strip_trailing_dots(s.drop_last())
    } else {
        s
    }
}

/// Strip the trailing dot off a fully qualified DNS name.
pub fn strip_trailing_dots(s: &str) -> (r: String)
    ensures
        r@ == spec_strip_trailing_dots(s@),
{
    let cs = chars_of(s);
    let mut e: usize = cs.len();
    proof {
        assert(s@.take(e as int) =~= s@);
    }
    while e > 0 && cs[e - 1] == '.'
        invariant
            e <= cs@.len(),
            cs@ == s@,
            spec_strip_trailing_dots(s@) == spec_strip_trailing_dots(s@.take(e as int)),
        decreases e,
    {
        proof {
            assert(s@.take(e as int).last() == s@[e - 1]);
            assert(s@.take(e as int).drop_last() =~= s@.take(e - 1));
        }
        e = e - 1;
    }
    proof {
        if e > 0 {
            assert(s@.take(e as int).last() == s@[e - 1]);
            assert(spec_strip_trailing_dots(s@.take(e as int)) == s@.take(e as int));
        } else {
            assert(s@.take(0) =~= Seq::<char>::empty());
        }
    }
    let mut out: Vec<char> = Vec::new();
    let mut k: usize = 0;
    while k < e
        invariant
            k <= e <= cs@.len(),
            cs@ == s@,
            out@ =~= s@.take(e as int).subrange(0, k as int),
        decreases e - k,
    {
        out.push(cs[k]);
        proof {
            assert(out@ =~= s@.take(e as int).subrange(0, k + 1));
        }
        k = k + 1;
    }
    proof {
        assert(out@ =~= s@.take(e as int));
    }
    string_of(&out)
}

/// `pre` is a prefix of `s`.
pub open spec fn starts_with_seq(s: Seq<char>, pre: Seq<char>) -> bool {
    s.len() >= pre.len() && s.subrange(0, pre.len() as int) == pre
}

/// Whether `hay` starts with `pre`.
pub fn starts_with_chars(hay: &Vec<char>, pre: &Vec<char>) -> (r: bool)
    ensures
        r == starts_with_seq(hay@, pre@),
{
    if hay.len() < pre.len() {
        return false;
    }
    let mut k: usize = 0;
    while k < pre.len()
        invariant
            k <= pre@.len() <= hay@.len(),
            forall|m: int| 0 <= m < k ==> hay@[m] == pre@[m],
        decreases pre@.len() - k,
    {
        if hay[k] != pre[k] {
            proof {
                assert(hay@.subrange(0, pre@.len() as int)[k as int] != pre@[k as int]);
            }
            return false;
        }
        k = k + 1;
    }
    proof {
        assert(hay@.subrange(0, pre@.len() as int) =~= pre@);
    }
    true
}

/// Whether a raw file-tail request may read this path: only the temporary
/// directories are served.
pub fn tail_path_allowed(path: &str) -> (r: bool)
    ensures
        r <==> starts_with_seq(path@, "/tmp/"@) || starts_with_seq(path@, "/private/tmp/"@)
            || starts_with_seq(path@, "/var/folders/"@),
{
    let cs = chars_of(path);
    starts_with_chars(&cs, &chars_of("/tmp/")) || starts_with_chars(&cs, &chars_of("/private/tmp/"))
        || starts_with_chars(&cs, &chars_of("/var/folders/"))
}

} // verus!
