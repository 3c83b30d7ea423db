//! The incremental tailer: given file bytes and a byte offset, parse only the
//! newly appended, complete lines into structured messages and return the new
//! offset.
//!
//! The central guarantee: a line is consumed only when it is terminated by a
//! line break and parses as a record, so a record flushed half-way by a
//! concurrent writer is neither emitted truncated nor skipped — it is re-read
//! once more bytes have arrived.  A complete line that does not parse stops
//! the scan at its first byte.

use vstd::prelude::*;
use crate::record::{classify_line, line_text, queue_content, read_line_text, read_queue_content,
    spec_line_kind, user_task_id, LineKind};
use crate::text::{chars_of, contains_chars, contains_seq, extract_task_id, spec_task_id};

verus! {

/// The kinds of message the tailer emits.
#[derive(Clone, Copy, Debug, PartialEq, Eq, Structural)]
pub enum MsgKind {
    /// A user turn.
    User,
    /// An assistant turn.
    Assistant,
    /// A control summary.
    Summary,
    /// A queue notification rewritten into a user turn.
    QueueUser,
}

/// One emitted message: its kind, the raw line bytes (so unrecognized fields
/// round-trip opaquely), and the plain-text body when the content is a string.
pub struct LogMessage {
    pub kind: MsgKind,
    pub raw: Vec<u8>,
    pub text: Option<String>,
}

/// The mathematical image of a message.
pub ghost struct SpecMsg {
    pub kind: MsgKind,
    pub raw: Seq<u8>,
    pub text: Option<Seq<char>>,
}

impl View for LogMessage {
    type V = SpecMsg;

    open spec fn view(&self) -> SpecMsg {
        SpecMsg {
            kind: self.kind,
            raw: self.raw@,
            text: match self.text {
                Option::Some(t) => Option::Some(t@),
                Option::None => Option::None,
            },
        }
    }
}

/// What one call of the tailer returns: the messages parsed out of newly
/// appended complete lines, and the offset of the first unconsumed byte.
pub struct StreamResult {
    pub messages: Vec<LogMessage>,
    pub next_offset: u64,
}

/// The views of a message vector.
pub open spec fn msgs_view(v: Seq<LogMessage>) -> Seq<SpecMsg> {
    v.map_values(|m: LogMessage| m@)
}

/// An ASCII whitespace byte.
pub open spec fn is_ascii_blank(b: u8) -> bool {
    b == 32 || (9 <= b <= 13)
}

/// A line of nothing but ASCII whitespace; consumed without a record.
pub open spec fn is_blank_line(l: Seq<u8>) -> bool {
    forall|k: int| 0 <= k < l.len() ==> is_ascii_blank(l[k])
}

/// Check whether a line is blank.
pub fn is_blank(l: &[u8]) -> (r: bool)
    ensures
        r == is_blank_line(l@),
{
    let mut i: usize = 0;
    while i < l.len()
        invariant
            i <= l@.len(),
            forall|k: int| 0 <= k < i ==> is_ascii_blank(l@[k]),
        decreases l@.len() - i,
    {
        let b: u8 = *vstd::slice::slice_index_get(l, i);
        if !(b == 32 || (9 <= b && b <= 13)) {
            return false;
        }
        i = i + 1;
    }
    true
}

/// The position of the first line break at or after `i`.
pub open spec fn find_nl(s: Seq<u8>, i: int) -> Option<int>
    decreases s.len() - i when 0 <= i
{
    if i >= s.len() {
        None
    } else if s[i] == 10 {
        Some(i)
    } else {
        find_nl(s, i + 1)
    }
}

pub proof fn lemma_find_nl_props(s: Seq<u8>, i: int)
    requires
        0 <= i,
    ensures
        match find_nl(s, i) {
            Some(j) => i <= j < s.len() && s[j] == 10 && forall|k: int| i <= k < j ==> s[k] != 10,
            None => forall|k: int| i <= k < s.len() ==> s[k] != 10,
        },
    decreases s.len() - i,
{
    if i >= s.len() {
    } else if s[i] == 10 {
    } else {
        lemma_find_nl_props(s, i + 1);
    }
}

/// Where the first line break is known pointwise, `find_nl` returns it.
pub proof fn lemma_find_nl_value(s: Seq<u8>, i: int, j: int)
    requires
        0 <= i <= j < s.len(),
        s[j] == 10,
        forall|k: int| i <= k < j ==> s[k] != 10,
    ensures
        find_nl(s, i) == Some(j),
    decreases j - i,
{
    if i < j {
        lemma_find_nl_value(s, i + 1, j);
    }
}

/// Find the first line break at or after `from`.
pub fn find_newline(s: &[u8], from: usize) -> (r: Option<usize>)
    ensures
        r matches Some(j) ==> Some(j as int) == find_nl(s@, from as int),
        r is None ==> find_nl(s@, from as int) is None,
{
    let mut i: usize = from;
    while i < s.len()
        invariant
            from <= i,
            find_nl(s@, from as int) == find_nl(s@, i as int),
        decreases s@.len() - i,
    {
        if *vstd::slice::slice_index_get(s, i) == 10 {
            return Some(i);
        }
        i = i + 1;
    }
    None
}

/// The message emitted for a conversational or summary line.
pub open spec fn plain_msg(kind: MsgKind, l: Seq<u8>) -> SpecMsg {
    SpecMsg { kind: kind, raw: l, text: line_text(l) }
}

/// The message a queue-operation line is rewritten into, if it is emitted at
/// all: it must carry a task notification, and a task identifier already seen
/// on a real user turn in the same read suppresses it.
pub open spec fn queue_emit(l: Seq<u8>, seen: Set<Seq<char>>) -> Option<SpecMsg> {
    match queue_content(l) {
        Option::None => Option::None,
        Option::Some(c) => if !contains_seq(c, "<task-notification>"@) {
            Option::None
        } else {
            match spec_task_id(c) {
                Option::Some(id) => if seen.contains(id) {
                    Option::None
                } else {
                    Option::Some(SpecMsg { kind: MsgKind::QueueUser, raw: l, text: Option::Some(c) })
                },
                Option::None => Option::Some(
                    SpecMsg { kind: MsgKind::QueueUser, raw: l, text: Option::Some(c) },
                ),
            }
        },
    }
}

/// The task identifiers that a user line adds to the seen set.
pub open spec fn seen_after(l: Seq<u8>, seen: Set<Seq<char>>) -> Set<Seq<char>> {
    match user_task_id(l) {
        Option::Some(id) => seen.insert(id),
        Option::None => seen,
    }
}

/// The outcome of scanning from a position: emitted messages and the first
/// unconsumed byte.
pub ghost struct TailSpec {
    pub msgs: Seq<SpecMsg>,
    pub end: int,
}

/// Scan `s` from position `i` with `seen` task identifiers: consume complete
/// lines while they parse, emit the conversational ones, and stop at the
/// first line that does not parse or has no line break yet.
pub open spec fn spec_tail_from(s: Seq<u8>, i: int, seen: Set<Seq<char>>) -> TailSpec
    decreases s.len() - i when 0 <= i <= s.len() via spec_tail_from_dec
{
    match find_nl(s, i) {
        None => TailSpec { msgs: Seq::empty(), end: i },
        Some(j) => {
            let l = s.subrange(i, j);
            if is_blank_line(l) {
                spec_tail_from(s, j + 1, seen)
            } else {
                match spec_line_kind(l) {
                    LineKind::Broken => TailSpec { msgs: Seq::empty(), end: i },
                    LineKind::User => {
                        let rest = spec_tail_from(s, j + 1, seen_after(l, seen));
                        TailSpec { msgs: seq![plain_msg(MsgKind::User, l)] + rest.msgs, end: rest.end }
                    },
                    LineKind::Assistant => {
                        let rest = spec_tail_from(s, j + 1, seen);
                        TailSpec {
                            msgs: seq![plain_msg(MsgKind::Assistant, l)] + rest.msgs,
                            end: rest.end,
                        }
                    },
                    LineKind::Summary => {
                        let rest = spec_tail_from(s, j + 1, seen);
                        TailSpec {
                            msgs: seq![plain_msg(MsgKind::Summary, l)] + rest.msgs,
                            end: rest.end,
                        }
                    },
                    LineKind::QueueOp => {
                        let rest = spec_tail_from(s, j + 1, seen);
                        match queue_emit(l, seen) {
                            Option::Some(m) => TailSpec {
                                msgs: seq![m] + rest.msgs,
                                end: rest.end,
                            },
                            Option::None => rest,
                        }
                    },
                    LineKind::Other => spec_tail_from(s, j + 1, seen),
                }
            }
        },
    }
}

#[via_fn]
proof fn spec_tail_from_dec(s: Seq<u8>, i: int, seen: Set<Seq<char>>) {
    lemma_find_nl_props(s, i);
}

/// The line-start offset of each message the scan emits, in emission order.
pub open spec fn spec_tail_starts(s: Seq<u8>, i: int, seen: Set<Seq<char>>) -> Seq<int>
    decreases s.len() - i when 0 <= i <= s.len() via spec_tail_starts_dec
{
    match find_nl(s, i) {
        None => Seq::empty(),
        Some(j) => {
            let l = s.subrange(i, j);
            if is_blank_line(l) {
                spec_tail_starts(s, j + 1, seen)
            } else {
                match spec_line_kind(l) {
                    LineKind::Broken => Seq::empty(),
                    LineKind::User => seq![i] + spec_tail_starts(s, j + 1, seen_after(l, seen)),
                    LineKind::Assistant => seq![i] + spec_tail_starts(s, j + 1, seen),
                    LineKind::Summary => seq![i] + spec_tail_starts(s, j + 1, seen),
                    LineKind::QueueOp => {
                        match queue_emit(l, seen) {
                            Option::Some(_) => seq![i] + spec_tail_starts(s, j + 1, seen),
                            Option::None => spec_tail_starts(s, j + 1, seen),
                        }
                    },
                    LineKind::Other => spec_tail_starts(s, j + 1, seen),
                }
            }
        },
    }
}

#[via_fn]
proof fn spec_tail_starts_dec(s: Seq<u8>, i: int, seen: Set<Seq<char>>) {
    lemma_find_nl_props(s, i);
}

/// The offsets as integers.
pub open spec fn starts_view(v: Seq<u64>) -> Seq<int> {
    v.map_values(|x: u64| x as int)
}

/// There is one start per message; starts grow strictly and stay in range.
pub proof fn lemma_starts_props(s: Seq<u8>, i: int, seen: Set<Seq<char>>)
    requires
        0 <= i <= s.len(),
    ensures
        spec_tail_starts(s, i, seen).len() == spec_tail_from(s, i, seen).msgs.len(),
        forall|k: int|
            0 <= k < spec_tail_starts(s, i, seen).len() ==> i <= #[trigger] spec_tail_starts(
                s,
                i,
                seen,
            )[k] < s.len(),
        forall|k1: int, k2: int|
            0 <= k1 < k2 < spec_tail_starts(s, i, seen).len() ==> #[trigger] spec_tail_starts(
                s,
                i,
                seen,
            )[k1] < #[trigger] spec_tail_starts(s, i, seen)[k2],
    decreases s.len() - i,
{
    lemma_find_nl_props(s, i);
    match find_nl(s, i) {
        None => {},
        Some(j) => {
            let l = s.subrange(i, j);
            if is_blank_line(l) {
                lemma_starts_props(s, j + 1, seen);
            } else {
                match spec_line_kind(l) {
                    LineKind::Broken => {},
                    LineKind::User => {
                        lemma_starts_props(s, j + 1, seen_after(l, seen));
                    },
                    _ => {
                        lemma_starts_props(s, j + 1, seen);
                    },
                }
            }
        },
    }
}

/// The scan never walks backwards nor past the end.
pub proof fn lemma_tail_end_bounds(s: Seq<u8>, i: int, seen: Set<Seq<char>>)
    requires
        0 <= i <= s.len(),
    ensures
        i <= spec_tail_from(s, i, seen).end <= s.len(),
    decreases s.len() - i,
{
    lemma_find_nl_props(s, i);
    match find_nl(s, i) {
        None => {},
        Some(j) => {
            let l = s.subrange(i, j);
            if is_blank_line(l) {
                lemma_tail_end_bounds(s, j + 1, seen);
            } else {
                match spec_line_kind(l) {
                    LineKind::Broken => {},
                    LineKind::User => {
                        lemma_tail_end_bounds(s, j + 1, seen_after(l, seen));
                    },
                    _ => {
                        lemma_tail_end_bounds(s, j + 1, seen);
                    },
                }
            }
        },
    }
}

/// Parse the complete lines of `content` starting at `from_offset`.
///
/// An offset at or past the end of the file is a no-op, not an error: the
/// call returns no messages and the offset unchanged.
pub fn tail_from(content: &[u8], from_offset: u64) -> (r: StreamResult)
    ensures
        from_offset >= content@.len() ==> r.messages@.len() == 0 && r.next_offset == from_offset,
        from_offset < content@.len() ==> ({
            let t = spec_tail_from(content@, from_offset as int, Set::empty());
            &&& msgs_view(r.messages@) == t.msgs
            &&& r.next_offset == t.end
        }),
{
    let (r, _starts) = scan_from(content, from_offset);
    r
}

/// The scan behind the tailer and the paginated queries: messages, the next
/// offset, and each message's line-start offset.
pub fn scan_from(content: &[u8], from_offset: u64) -> (r: (StreamResult, Vec<u64>))
    ensures
        from_offset >= content@.len() ==> r.0.messages@.len() == 0 && r.0.next_offset
            == from_offset && r.1@.len() == 0,
        from_offset < content@.len() ==> ({
            let t = spec_tail_from(content@, from_offset as int, Set::empty());
            &&& msgs_view(r.0.messages@) == t.msgs
            &&& r.0.next_offset == t.end
            &&& starts_view(r.1@) == spec_tail_starts(content@, from_offset as int, Set::empty())
        }),
{
    if from_offset >= content.len() as u64 {
        return (StreamResult { messages: Vec::new(), next_offset: from_offset }, Vec::new());
    }
    let ghost s = content@;
    let ghost from0 = from_offset as int;
    let mut pos: usize = from_offset as usize;
    let mut out: Vec<LogMessage> = Vec::new();
    let mut starts: Vec<u64> = Vec::new();
    let mut seen: Vec<String> = Vec::new();
    let ghost mut seen_ids: Set<Seq<char>> = Set::empty();
    loop
        invariant
            content@ == s,
            from0 <= pos <= s.len() <= usize::MAX,
            forall|id: Seq<char>|
                seen_ids.contains(id) <==> exists|k: int| 0 <= k < seen@.len() && #[trigger] (
                seen@[k]@) == id,
            spec_tail_from(s, from0, Set::empty()) == (TailSpec {
                msgs: msgs_view(out@) + spec_tail_from(s, pos as int, seen_ids).msgs,
                end: spec_tail_from(s, pos as int, seen_ids).end,
            }),
            spec_tail_starts(s, from0, Set::empty()) == starts_view(starts@) + spec_tail_starts(
                s,
                pos as int,
                seen_ids,
            ),
        ensures
            spec_tail_from(s, from0, Set::empty()) == (TailSpec {
                msgs: msgs_view(out@),
                end: pos as int,
            }),
            spec_tail_starts(s, from0, Set::empty()) == starts_view(starts@),
        decreases s.len() - pos,
    {
        let ghost cont = spec_tail_from(s, pos as int, seen_ids);
        let ghost cont_starts = spec_tail_starts(s, pos as int, seen_ids);
        let nl = find_newline(content, pos);
        proof {
            lemma_find_nl_props(s, pos as int);
        }
        match nl {
            Option::None => {
                proof {
                    assert(cont.msgs =~= Seq::<SpecMsg>::empty());
                    assert(msgs_view(out@) + cont.msgs =~= msgs_view(out@));
                    assert(cont_starts =~= Seq::<int>::empty());
                    assert(starts_view(starts@) + cont_starts =~= starts_view(starts@));
                }
                break;
            },
            Option::Some(j) => {
                let line = vstd::slice::slice_subrange(content, pos, j);
                let ghost l = s.subrange(pos as int, j as int);
                if is_blank(line) {
                    pos = j + 1;
                } else {
                    let kind = classify_line(line);
                    match kind {
                        LineKind::Broken => {
                            proof {
                                assert(cont.msgs =~= Seq::<SpecMsg>::empty());
                                assert(msgs_view(out@) + cont.msgs =~= msgs_view(out@));
                                assert(cont_starts =~= Seq::<int>::empty());
                                assert(starts_view(starts@) + cont_starts =~= starts_view(starts@));
                            }
                            break;
                        },
                        LineKind::User => {
                            let text = read_line_text(line);
                            if let Option::Some(t) = &text {
                                if let Option::Some(id) = extract_task_id(t.as_str()) {
                                    let ghost old_seen_v = seen@;
                                    let ghost uid = user_task_id(l)->Some_0;
                                    proof {
                                        assert(id@ == uid);
                                    }
                                    seen.push(id);
                                    proof {
                                        seen_ids = seen_ids.insert(uid);
                                        assert forall|x: Seq<char>| seen_ids.contains(x) implies
                                            exists|k: int|
                                                0 <= k < seen@.len() && #[trigger] (seen@[k]@)
                                                    == x by {
                                            if x == uid {
                                                assert(seen@[old_seen_v.len() as int]@ == x);
                                            } else {
                                                let k = choose|k: int|
                                                    0 <= k < old_seen_v.len() && #[trigger] (
                                                    old_seen_v[k]@) == x;
                                                assert(seen@[k]@ == x);
                                            }
                                        }
                                        assert forall|x: Seq<char>|
                                            (exists|k: int|
                                                0 <= k < seen@.len() && #[trigger] (seen@[k]@)
                                                    == x) implies seen_ids.contains(x) by {
                                            let k = choose|k: int|
                                                0 <= k < seen@.len() && #[trigger] (seen@[k]@)
                                                    == x;
                                            if k < old_seen_v.len() {
                                                assert(old_seen_v[k]@ == x);
                                            } else {
                                                assert(x == uid);
                                            }
                                        }
                                    }
                                }
                            }
                            let m = LogMessage {
                                kind: MsgKind::User,
                                raw: vstd::slice::slice_to_vec(line),
                                text,
                            };
                            proof {
                                assert(m@ == plain_msg(MsgKind::User, l));
                            }
                            let ghost old_out = out@;
                            let ghost old_starts = starts@;
                            out.push(m);
                            starts.push(pos as u64);
                            proof {
                                let rest = spec_tail_from(s, j + 1, seen_ids);
                                assert(cont.msgs == seq![plain_msg(MsgKind::User, l)] + rest.msgs);
                                assert(msgs_view(out@) =~= msgs_view(old_out).push(
                                    plain_msg(MsgKind::User, l),
                                ));
                                assert(msgs_view(old_out) + cont.msgs =~= msgs_view(out@)
                                    + rest.msgs);
                                let rest_st = spec_tail_starts(s, j + 1, seen_ids);
                                assert(cont_starts == seq![pos as int] + rest_st);
                                assert(starts_view(starts@) =~= starts_view(old_starts).push(
                                    pos as int,
                                ));
                                assert(starts_view(old_starts) + cont_starts =~= starts_view(
                                    starts@,
                                ) + rest_st);
                            }
                            pos = j + 1;
                        },
                        LineKind::Assistant | LineKind::Summary => {
                            let mk = if matches!(kind, LineKind::Assistant) {
                                MsgKind::Assistant
                            } else {
                                MsgKind::Summary
                            };
                            let m = LogMessage {
                                kind: mk,
                                raw: vstd::slice::slice_to_vec(line),
                                text: read_line_text(line),
                            };
                            proof {
                                assert(m@ == plain_msg(mk, l));
                            }
                            let ghost old_out = out@;
                            let ghost old_starts = starts@;
                            out.push(m);
                            starts.push(pos as u64);
                            proof {
                                let rest = spec_tail_from(s, j + 1, seen_ids);
                                assert(cont.msgs == seq![plain_msg(mk, l)] + rest.msgs);
                                assert(msgs_view(out@) =~= msgs_view(old_out).push(plain_msg(mk, l)));
                                assert(msgs_view(old_out) + cont.msgs =~= msgs_view(out@)
                                    + rest.msgs);
                                let rest_st = spec_tail_starts(s, j + 1, seen_ids);
                                assert(cont_starts == seq![pos as int] + rest_st);
                                assert(starts_view(starts@) =~= starts_view(old_starts).push(
                                    pos as int,
                                ));
                                assert(starts_view(old_starts) + cont_starts =~= starts_view(
                                    starts@,
                                ) + rest_st);
                            }
                            pos = j + 1;
                        },
                        LineKind::QueueOp => {
                            let emitted: Option<LogMessage> = match read_queue_content(line) {
                                Option::None => Option::None,
                                Option::Some(c) => {
                                    let cchars = chars_of(c.as_str());
                                    if !contains_chars(&cchars, &chars_of("<task-notification>")) {
                                        Option::None
                                    } else {
                                        let suppressed: bool = match extract_task_id(c.as_str()) {
                                            Option::Some(id) => contains_string(&seen, &id),
                                            Option::None => false,
                                        };
                                        if suppressed {
                                            Option::None
                                        } else {
                                            Option::Some(LogMessage {
                                                kind: MsgKind::QueueUser,
                                                raw: vstd::slice::slice_to_vec(line),
                                                text: Option::Some(c),
                                            })
                                        }
                                    }
                                },
                            };
                            match emitted {
                                Option::Some(m) => {
                                    proof {
                                        assert(queue_emit(l, seen_ids) == Option::Some(m@));
                                    }
                                    let ghost old_out = out@;
                                    let ghost old_starts = starts@;
                                    out.push(m);
                                    starts.push(pos as u64);
                                    proof {
                                        let rest = spec_tail_from(s, j + 1, seen_ids);
                                        assert(cont.msgs == seq![queue_emit(l, seen_ids).unwrap()]
                                            + rest.msgs);
                                        assert(msgs_view(out@) =~= msgs_view(old_out).push(
                                            queue_emit(l, seen_ids).unwrap(),
                                        ));
                                        assert(msgs_view(old_out) + cont.msgs =~= msgs_view(out@)
                                            + rest.msgs);
                                        let rest_st = spec_tail_starts(s, j + 1, seen_ids);
                                        assert(cont_starts == seq![pos as int] + rest_st);
                                        assert(starts_view(starts@) =~= starts_view(
                                            old_starts,
                                        ).push(pos as int));
                                        assert(starts_view(old_starts) + cont_starts
                                            =~= starts_view(starts@) + rest_st);
                                    }
                                },
                                Option::None => {
                                    proof {
                                        assert(queue_emit(l, seen_ids) is None);
                                    }
                                },
                            }
                            pos = j + 1;
                        },
                        _ => {
                            pos = j + 1;
                        },
                    }
                }
            },
        }
    }
    proof {
        lemma_tail_end_bounds(s, from0, Set::empty());
    }
    (StreamResult { messages: out, next_offset: pos as u64 }, starts)
}

/// No complete line that the scan from `i` reaches is a queue notification.
pub open spec fn no_queue_from(s: Seq<u8>, i: int) -> bool
    decreases s.len() - i when 0 <= i <= s.len() via no_queue_from_dec
{
    match find_nl(s, i) {
        None => true,
        Some(j) => {
            let l = s.subrange(i, j);
            if is_blank_line(l) {
                no_queue_from(s, j + 1)
            } else {
                match spec_line_kind(l) {
                    LineKind::Broken => true,
                    LineKind::QueueOp => false,
                    _ => no_queue_from(s, j + 1),
                }
            }
        },
    }
}

#[via_fn]
proof fn no_queue_from_dec(s: Seq<u8>, i: int) {
    lemma_find_nl_props(s, i);
}

/// Where no queue notification is reached, the seen set is never read: the
/// scan returns the same outcome whatever identifiers were seen before.
pub proof fn lemma_seen_irrelevant(s: Seq<u8>, i: int, a: Set<Seq<char>>, b: Set<Seq<char>>)
    requires
        0 <= i <= s.len(),
        no_queue_from(s, i),
    ensures
        spec_tail_from(s, i, a) == spec_tail_from(s, i, b),
    decreases s.len() - i,
{
    lemma_find_nl_props(s, i);
    match find_nl(s, i) {
        None => {},
        Some(j) => {
            let l = s.subrange(i, j);
            if is_blank_line(l) {
                lemma_seen_irrelevant(s, j + 1, a, b);
            } else {
                match spec_line_kind(l) {
                    LineKind::Broken => {},
                    LineKind::User => {
                        lemma_seen_irrelevant(s, j + 1, seen_after(l, a), seen_after(l, b));
                    },
                    LineKind::QueueOp => {
                        assert(false);
                    },
                    _ => {
                        lemma_seen_irrelevant(s, j + 1, a, b);
                    },
                }
            }
        },
    }
}

/// The general continuation step behind offset-chunked resumption: scanning a
/// prefix and then resuming on the grown file covers exactly what one scan of
/// the grown file covers, as long as no queue notification is involved.
pub proof fn lemma_tail_resumes(s1: Seq<u8>, s2: Seq<u8>, i: int, a: Set<Seq<char>>, b: Set<
    Seq<char>,
>)
    requires
        0 <= i <= s1.len() <= s2.len(),
        forall|k: int| 0 <= k < s1.len() ==> s1[k] == s2[k],
        no_queue_from(s1, i),
        no_queue_from(s2, i),
    ensures
        no_queue_from(s2, spec_tail_from(s1, i, a).end),
        spec_tail_from(s2, i, b) == (TailSpec {
            msgs: spec_tail_from(s1, i, a).msgs + spec_tail_from(
                s2,
                spec_tail_from(s1, i, a).end,
                b,
            ).msgs,
            end: spec_tail_from(s2, spec_tail_from(s1, i, a).end, b).end,
        }),
    decreases s1.len() - i,
{
    lemma_find_nl_props(s1, i);
    let t1 = spec_tail_from(s1, i, a);
    match find_nl(s1, i) {
        None => {
            assert(t1 == TailSpec { msgs: Seq::<SpecMsg>::empty(), end: i });
            let q = spec_tail_from(s2, i, b);
            assert(Seq::<SpecMsg>::empty() + q.msgs =~= q.msgs);
        },
        Some(j) => {
            lemma_find_nl_value(s2, i, j);
            let l = s1.subrange(i, j);
            assert(s2.subrange(i, j) =~= l);
            if is_blank_line(l) {
                lemma_tail_resumes(s1, s2, j + 1, a, b);
            } else {
                match spec_line_kind(l) {
                    LineKind::Broken => {
                        assert(t1 == TailSpec { msgs: Seq::<SpecMsg>::empty(), end: i });
                        let q = spec_tail_from(s2, i, b);
                        assert(q == TailSpec { msgs: Seq::<SpecMsg>::empty(), end: i });
                        assert(Seq::<SpecMsg>::empty() + q.msgs =~= q.msgs);
                    },
                    LineKind::User => {
                        let a2 = seen_after(l, a);
                        let b2 = seen_after(l, b);
                        lemma_tail_resumes(s1, s2, j + 1, a2, b2);
                        let r1 = spec_tail_from(s1, j + 1, a2);
                        lemma_tail_end_bounds(s1, j + 1, a2);
                        lemma_seen_irrelevant(s2, r1.end, b2, b);
                        let m = plain_msg(MsgKind::User, l);
                        let q = spec_tail_from(s2, r1.end, b);
                        assert(seq![m] + (r1.msgs + q.msgs) =~= (seq![m] + r1.msgs) + q.msgs);
                    },
                    LineKind::QueueOp => {
                        assert(false);
                    },
                    LineKind::Other => {
                        lemma_tail_resumes(s1, s2, j + 1, a, b);
                    },
                    _ => {
                        // assistant and summary lines step without touching seen
                        lemma_tail_resumes(s1, s2, j + 1, a, b);
                        let r1 = spec_tail_from(s1, j + 1, a);
                        lemma_tail_end_bounds(s1, j + 1, a);
                        let mk = if spec_line_kind(l) == LineKind::Assistant {
                            MsgKind::Assistant
                        } else {
                            MsgKind::Summary
                        };
                        let m = plain_msg(mk, l);
                        let q = spec_tail_from(s2, r1.end, b);
                        assert(seq![m] + (r1.msgs + q.msgs) =~= (seq![m] + r1.msgs) + q.msgs);
                    },
                }
            }
        },
    }
}

/// Offset-chunked reads never duplicate nor drop a complete line: reading the
/// file as it stood, then resuming from the returned offset once the file has
/// grown, together yields exactly what one read of the grown file yields.
/// Queue notifications are left out: whether one is suppressed depends on the
/// task identifiers seen within a single read, by design.
pub proof fn lemma_tail_resumption(s1: Seq<u8>, s2: Seq<u8>, i: int)
    requires
        0 <= i <= s1.len() <= s2.len(),
        forall|k: int| 0 <= k < s1.len() ==> s1[k] == s2[k],
        no_queue_from(s1, i),
        no_queue_from(s2, i),
    ensures
        ({
            let t1 = spec_tail_from(s1, i, Set::empty());
            let t2 = spec_tail_from(s2, t1.end, Set::empty());
            let whole = spec_tail_from(s2, i, Set::empty());
            whole.msgs == t1.msgs + t2.msgs && whole.end == t2.end
        }),
{
    lemma_tail_resumes(s1, s2, i, Set::empty(), Set::empty());
}

/// A partially flushed trailing line is deferred, not lost: once the line
/// break arrives, a read resumed at the offset where the scan stopped yields
/// the completed line's message first and exactly once — every further
/// message comes from the scan of the bytes strictly past that line.
pub proof fn lemma_partial_line_recovered(s2: Seq<u8>, m: int, j: int, seen: Set<Seq<char>>)
    requires
        0 <= m <= j < s2.len(),
        find_nl(s2, m) == Some(j),
        !is_blank_line(s2.subrange(m, j)),
        spec_line_kind(s2.subrange(m, j)) != LineKind::Broken,
    ensures
        ({
            let l = s2.subrange(m, j);
            let seen2 = if spec_line_kind(l) == LineKind::User {
                seen_after(l, seen)
            } else {
                seen
            };
            let rest = spec_tail_from(s2, j + 1, seen2);
            &&& spec_line_kind(l) == LineKind::User ==> spec_tail_from(s2, m, seen) == (TailSpec {
                msgs: seq![plain_msg(MsgKind::User, l)] + rest.msgs,
                end: rest.end,
            })
            &&& spec_line_kind(l) == LineKind::Assistant ==> spec_tail_from(s2, m, seen) == (
            TailSpec { msgs: seq![plain_msg(MsgKind::Assistant, l)] + rest.msgs, end: rest.end })
            &&& spec_line_kind(l) == LineKind::Summary ==> spec_tail_from(s2, m, seen) == (TailSpec {
                msgs: seq![plain_msg(MsgKind::Summary, l)] + rest.msgs,
                end: rest.end,
            })
            &&& spec_line_kind(l) == LineKind::QueueOp ==> spec_tail_from(s2, m, seen) == (match
                queue_emit(l, seen) {
                Option::Some(msg) => TailSpec { msgs: seq![msg] + rest.msgs, end: rest.end },
                Option::None => rest,
            })
            &&& spec_line_kind(l) == LineKind::Other ==> spec_tail_from(s2, m, seen) == rest
        }),
{
}

/// The seen-identifier set an identifier vector stands for.
pub open spec fn ids_match(v: Seq<String>, ids: Set<Seq<char>>) -> bool {
    forall|id: Seq<char>|
        ids.contains(id) <==> exists|k: int| 0 <= k < v.len() && #[trigger] (v[k]@) == id
}

/// Pushing an identifier onto the vector inserts it into the set it stands for.
pub proof fn lemma_ids_push(v: Seq<String>, ids: Set<Seq<char>>, id: String)
    requires
        ids_match(v, ids),
    ensures
        ids_match(v.push(id), ids.insert(id@)),
{
    let v2 = v.push(id);
    let ids2 = ids.insert(id@);
    assert forall|x: Seq<char>| ids2.contains(x) implies exists|k: int|
        0 <= k < v2.len() && #[trigger] (v2[k]@) == x by {
        if x == id@ {
            assert(v2[v.len() as int]@ == x);
        } else {
            let k = choose|k: int| 0 <= k < v.len() && #[trigger] (v[k]@) == x;
            assert(v2[k]@ == x);
        }
    }
    assert forall|x: Seq<char>|
        (exists|k: int| 0 <= k < v2.len() && #[trigger] (v2[k]@) == x) implies ids2.contains(
        x,
    ) by {
        let k = choose|k: int| 0 <= k < v2.len() && #[trigger] (v2[k]@) == x;
        if k < v.len() {
            assert(v[k]@ == x);
        } else {
            assert(x == id@);
        }
    }
}

/// Rewrite a queue-operation line into a user message, unless its task is
/// already represented by a seen identifier.
pub(crate) fn queue_to_message(l: &[u8], seen: &Vec<String>, Ghost(ids): Ghost<Set<Seq<char>>>)
    -> (r: Option<LogMessage>)
    requires
        ids_match(seen@, ids),
    ensures
        r is Some <==> queue_emit(l@, ids) is Some,
        r matches Some(m) ==> queue_emit(l@, ids) == Some(m@),
{
    match read_queue_content(l) {
        Option::None => Option::None,
        Option::Some(c) => {
            let cchars = chars_of(c.as_str());
            if !contains_chars(&cchars, &chars_of("<task-notification>")) {
                Option::None
            } else {
                let suppressed: bool = match extract_task_id(c.as_str()) {
                    Option::Some(id) => contains_string(seen, &id),
                    Option::None => false,
                };
                if suppressed {
                    Option::None
                } else {
                    Option::Some(LogMessage {
                        kind: MsgKind::QueueUser,
                        raw: vstd::slice::slice_to_vec(l),
                        text: Option::Some(c),
                    })
                }
            }
        },
    }
}

/// Whether some string of `v` holds exactly the characters `s` holds.
pub fn contains_string(v: &Vec<String>, s: &String) -> (r: bool)
    ensures
        r <==> exists|k: int| 0 <= k < v@.len() && #[trigger] (v@[k]@) == s@,
{
    let mut i: usize = 0;
    while i < v.len()
        invariant
            i <= v@.len(),
            forall|k: int| 0 <= k < i ==> #[trigger] (v@[k]@) != s@,
        decreases v@.len() - i,
    {
        if crate::text::str_eq(v[i].as_str(), s.as_str()) {
            return true;
        }
        i = i + 1;
    }
    false
}

} // verus!
