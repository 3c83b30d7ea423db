//! Whole-file conversation queries: line splitting, the message count, the
//! full conversation with summaries first, display-text extraction, and the
//! two paginated views over byte-offset cursors.

use vstd::prelude::*;
use crate::json::{json_arr_len, json_arr_str, json_get_arr_len, json_get_arr_str, json_get_str,
    json_str_field};
use crate::record::{classify_line, line_text, read_line_text, spec_line_kind, LineKind};
use crate::tail::{find_nl, ids_match, lemma_find_nl_props, lemma_find_nl_value, lemma_ids_push, lemma_starts_props,
    msgs_view, plain_msg, queue_emit, queue_to_message, scan_from, seen_after, spec_tail_from,
    spec_tail_starts, starts_view, LogMessage, MsgKind, SpecMsg, TailSpec};
use crate::text::{spec_truncate, truncate_chars};

verus! {

/// The lines of `s` from position `i`: split on line breaks, the unterminated
/// tail included, a trailing empty piece not.
pub open spec fn spec_lines(s: Seq<u8>, i: int) -> Seq<Seq<u8>>
    decreases s.len() - i when 0 <= i <= s.len() via spec_lines_dec
{
    if i >= s.len() {
        Seq::empty()
    } else {
        match find_nl(s, i) {
            None => seq![s.subrange(i, s.len() as int)],
            Some(j) => seq![s.subrange(i, j)] + spec_lines(s, j + 1),
        }
    }
}

#[via_fn]
proof fn spec_lines_dec(s: Seq<u8>, i: int) {
    lemma_find_nl_props(s, i);
}

/// The views of a vector of lines.
pub open spec fn lines_view(v: Seq<Vec<u8>>) -> Seq<Seq<u8>> {
    v.map_values(|x: Vec<u8>| x@)
}

/// Split a file into its lines.
pub fn split_lines(content: &[u8]) -> (r: Vec<Vec<u8>>)
    ensures
        lines_view(r@) == spec_lines(content@, 0),
{
    let ghost s = content@;
    let len_anchor: usize = content.len();
    let mut out: Vec<Vec<u8>> = Vec::new();
    let mut pos: usize = 0;
    proof {
        assert(s.len() == len_anchor as int);
    }
    loop
        invariant
            content@ == s,
            0 <= pos <= s.len() <= usize::MAX,
            spec_lines(s, 0) == lines_view(out@) + spec_lines(s, pos as int),
        ensures
            spec_lines(s, 0) == lines_view(out@),
        decreases s.len() + 1 - pos,
    {
        let ghost cont = spec_lines(s, pos as int);
        if pos >= content.len() {
            proof {
                assert(cont =~= Seq::<Seq<u8>>::empty());
                assert(lines_view(out@) + cont =~= lines_view(out@));
            }
            break;
        }
        proof {
            lemma_find_nl_props(s, pos as int);
        }
        let ghost old_out = out@;
        match crate::tail::find_newline(content, pos) {
            Option::None => {
                let piece = vstd::slice::slice_to_vec(
                    vstd::slice::slice_subrange(content, pos, content.len()),
                );
                out.push(piece);
                proof {
                    assert(cont == seq![s.subrange(pos as int, s.len() as int)]);
                    assert(lines_view(out@) =~= lines_view(old_out).push(
                        s.subrange(pos as int, s.len() as int),
                    ));
                    assert(lines_view(old_out) + cont =~= lines_view(out@));
                    assert(spec_lines(s, s.len() as int) =~= Seq::<Seq<u8>>::empty());
                    assert(lines_view(out@) + spec_lines(s, s.len() as int) =~= lines_view(out@));
                }
                pos = content.len();
            },
            Option::Some(j) => {
                let piece = vstd::slice::slice_to_vec(
                    vstd::slice::slice_subrange(content, pos, j),
                );
                out.push(piece);
                proof {
                    let rest = spec_lines(s, j + 1);
                    assert(cont == seq![s.subrange(pos as int, j as int)] + rest);
                    assert(lines_view(out@) =~= lines_view(old_out).push(
                        s.subrange(pos as int, j as int),
                    ));
                    assert(lines_view(old_out) + cont =~= lines_view(out@) + rest);
                }
                pos = j + 1;
            },
        }
    }
    out
}

/// A conversational turn: the only lines the message count counts.
pub open spec fn line_is_turn(l: Seq<u8>) -> bool {
    spec_line_kind(l) == LineKind::User || spec_line_kind(l) == LineKind::Assistant
}

/// How many of the lines are conversational turns.
pub open spec fn conv_count(ls: Seq<Seq<u8>>) -> int
    decreases ls.len(),
{
    if ls.len() == 0 {
        0
    } else {
        conv_count(ls.drop_last()) + if line_is_turn(ls.last()) {
            1int
        } else {
            0int
        }
    }
}

/// Count the conversational turns of a session file.
pub fn count_turns(content: &[u8]) -> (n: usize)
    ensures
        n == conv_count(spec_lines(content@, 0)),
{
    let lines = split_lines(content);
    let ghost lsv = lines_view(lines@);
    let mut acc: usize = 0;
    let mut i: usize = 0;
    while i < lines.len()
        invariant
            i <= lines@.len(),
            lsv == lines_view(lines@),
            acc <= i,
            acc == conv_count(lsv.take(i as int)),
        decreases lines@.len() - i,
    {
        proof {
            assert(lsv.take(i + 1).drop_last() =~= lsv.take(i as int));
            assert(lsv.take(i + 1).last() == lsv[i as int]);
        }
        let k = classify_line(lines[i].as_slice());
        if matches!(k, LineKind::User | LineKind::Assistant) {
            acc = acc + 1;
        }
        i = i + 1;
    }
    proof {
        assert(lsv.take(lsv.len() as int) =~= lsv);
    }
    acc
}

/// The summary messages among the lines, in file order.
pub open spec fn conv_summaries(ls: Seq<Seq<u8>>) -> Seq<SpecMsg>
    decreases ls.len(),
{
    if ls.len() == 0 {
        Seq::empty()
    } else {
        conv_summaries(ls.drop_last()) + if spec_line_kind(ls.last()) == LineKind::Summary {
            seq![plain_msg(MsgKind::Summary, ls.last())]
        } else {
            Seq::empty()
        }
    }
}

/// The conversational turns among the lines, in file order.
pub open spec fn conv_turns(ls: Seq<Seq<u8>>) -> Seq<SpecMsg>
    decreases ls.len(),
{
    if ls.len() == 0 {
        Seq::empty()
    } else {
        conv_turns(ls.drop_last()) + if spec_line_kind(ls.last()) == LineKind::User {
            seq![plain_msg(MsgKind::User, ls.last())]
        } else if spec_line_kind(ls.last()) == LineKind::Assistant {
            seq![plain_msg(MsgKind::Assistant, ls.last())]
        } else {
            Seq::empty()
        }
    }
}

/// The task identifiers carried by the user lines.
pub open spec fn conv_task_ids(ls: Seq<Seq<u8>>) -> Set<Seq<char>>
    decreases ls.len(),
{
    if ls.len() == 0 {
        Set::empty()
    } else {
        let prev = conv_task_ids(ls.drop_last());
        if spec_line_kind(ls.last()) == LineKind::User {
            seen_after(ls.last(), prev)
        } else {
            prev
        }
    }
}

/// The queue notifications not represented by any real user turn of the file.
pub open spec fn conv_queue(ls: Seq<Seq<u8>>, ids: Set<Seq<char>>) -> Seq<SpecMsg>
    decreases ls.len(),
{
    if ls.len() == 0 {
        Seq::empty()
    } else {
        conv_queue(ls.drop_last(), ids) + if spec_line_kind(ls.last()) == LineKind::QueueOp {
            match queue_emit(ls.last(), ids) {
                Option::Some(m) => seq![m],
                Option::None => Seq::empty(),
            }
        } else {
            Seq::empty()
        }
    }
}

/// The full conversation of a file: summaries first, then the turns, then the
/// unrepresented queue notifications.
pub open spec fn spec_conversation(s: Seq<u8>) -> Seq<SpecMsg> {
    let ls = spec_lines(s, 0);
    conv_summaries(ls) + conv_turns(ls) + conv_queue(ls, conv_task_ids(ls))
}

/// Read a whole session file as one conversation, summaries ordered first.
/// Lines that do not parse are skipped, not an error: they reflect a benign
/// race with the writer.
pub fn conversation(content: &[u8]) -> (out: Vec<LogMessage>)
    ensures
        msgs_view(out@) == spec_conversation(content@),
{
    let lines = split_lines(content);
    let ghost lsv = lines_view(lines@);
    let mut summaries: Vec<LogMessage> = Vec::new();
    let mut turns: Vec<LogMessage> = Vec::new();
    let mut seen: Vec<String> = Vec::new();
    let ghost mut ids: Set<Seq<char>> = Set::empty();
    let mut i: usize = 0;
    while i < lines.len()
        invariant
            i <= lines@.len(),
            lsv == lines_view(lines@),
            msgs_view(summaries@) == conv_summaries(lsv.take(i as int)),
            msgs_view(turns@) == conv_turns(lsv.take(i as int)),
            ids == conv_task_ids(lsv.take(i as int)),
            ids_match(seen@, ids),
        decreases lines@.len() - i,
    {
        let ghost l = lsv[i as int];
        proof {
            assert(lsv.take(i + 1).drop_last() =~= lsv.take(i as int));
            assert(lsv.take(i + 1).last() == l);
        }
        let line = lines[i].as_slice();
        let kind = classify_line(line);
        match kind {
            LineKind::Summary => {
                let m = LogMessage {
                    kind: MsgKind::Summary,
                    raw: vstd::slice::slice_to_vec(line),
                    text: read_line_text(line),
                };
                let ghost old_sum = summaries@;
                summaries.push(m);
                proof {
                    assert(msgs_view(summaries@) =~= msgs_view(old_sum).push(
                        plain_msg(MsgKind::Summary, l),
                    ));
                    assert(msgs_view(old_sum) + seq![plain_msg(MsgKind::Summary, l)] =~= msgs_view(
                        summaries@,
                    ));
                }
            },
            LineKind::User | LineKind::Assistant => {
                let mk = if matches!(kind, LineKind::User) {
                    MsgKind::User
                } else {
                    MsgKind::Assistant
                };
                let text = read_line_text(line);
                if matches!(kind, LineKind::User) {
                    if let Option::Some(t) = &text {
                        if let Option::Some(id) = crate::text::extract_task_id(t.as_str()) {
                            proof {
                                lemma_ids_push(seen@, ids, id);
                                ids = ids.insert(id@);
                            }
                            seen.push(id);
                        }
                    }
                }
                let m = LogMessage { kind: mk, raw: vstd::slice::slice_to_vec(line), text };
                let ghost old_turns = turns@;
                turns.push(m);
                proof {
                    assert(msgs_view(turns@) =~= msgs_view(old_turns).push(plain_msg(mk, l)));
                    assert(msgs_view(old_turns) + seq![plain_msg(mk, l)] =~= msgs_view(turns@));
                }
            },
            _ => {
                proof {
                    assert(conv_summaries(lsv.take(i + 1)) =~= conv_summaries(lsv.take(i as int)));
                    assert(conv_turns(lsv.take(i + 1)) =~= conv_turns(lsv.take(i as int)));
                }
            },
        }
        i = i + 1;
    }
    proof {
        assert(lsv.take(lsv.len() as int) =~= lsv);
    }
    // second pass: queue notifications, filtered against every user turn's
    // task identifier
    let mut extras: Vec<LogMessage> = Vec::new();
    let mut i: usize = 0;
    while i < lines.len()
        invariant
            i <= lines@.len(),
            lsv == lines_view(lines@),
            ids == conv_task_ids(lsv),
            ids_match(seen@, ids),
            msgs_view(extras@) == conv_queue(lsv.take(i as int), ids),
        decreases lines@.len() - i,
    {
        let ghost l = lsv[i as int];
        proof {
            assert(lsv.take(i + 1).drop_last() =~= lsv.take(i as int));
            assert(lsv.take(i + 1).last() == l);
        }
        let line = lines[i].as_slice();
        if matches!(classify_line(line), LineKind::QueueOp) {
            match queue_to_message(line, &seen, Ghost(ids)) {
                Option::Some(m) => {
                    let ghost old_extras = extras@;
                    extras.push(m);
                    proof {
                        assert(msgs_view(extras@) =~= msgs_view(old_extras).push(
                            queue_emit(l, ids)->Some_0,
                        ));
                        assert(msgs_view(old_extras) + seq![queue_emit(l, ids)->Some_0]
                            =~= msgs_view(extras@));
                    }
                },
                Option::None => {
                    proof {
                        assert(conv_queue(lsv.take(i + 1), ids) =~= conv_queue(
                            lsv.take(i as int),
                            ids,
                        ));
                    }
                },
            }
        } else {
            proof {
                assert(conv_queue(lsv.take(i + 1), ids) =~= conv_queue(lsv.take(i as int), ids));
            }
        }
        i = i + 1;
    }
    proof {
        assert(lsv.take(lsv.len() as int) =~= lsv);
    }
    let mut out = summaries;
    out.append(&mut turns);
    out.append(&mut extras);
    proof {
        assert(msgs_view(out@) =~= conv_summaries(lsv) + conv_turns(lsv) + conv_queue(lsv, ids));
    }
    out
}

/// Join the `text` fields of the message's content blocks, one space between
/// present pieces, accumulating onto `acc`.
pub open spec fn blocks_join(l: Seq<u8>, i: int, n: int, acc: Seq<char>) -> Seq<char>
    decreases n - i when i <= n
{
    if i >= n {
        acc
    } else {
        let acc2 = match json_arr_str(l, "message"@, "content"@, i as usize, "text"@) {
            Option::None => acc,
            Option::Some(t) => if acc.len() == 0 {
                t
            } else {
                acc + " "@ + t
            },
        };
        blocks_join(l, i + 1, n, acc2)
    }
}

/// The plain text of a line's message: the content string itself, or the
/// joined `text` fields of its content blocks.
pub open spec fn spec_plain_text(l: Seq<u8>) -> Seq<char> {
    match line_text(l) {
        Option::Some(t) => t,
        Option::None => match json_arr_len(l, "message"@, "content"@) {
            Option::Some(n) => blocks_join(l, 0, n as int, Seq::empty()),
            Option::None => Seq::empty(),
        },
    }
}

/// Extract the plain text of a line's message.
pub fn extract_plain_text(l: &[u8]) -> (r: String)
    ensures
        r@ == spec_plain_text(l@),
{
    match read_line_text(l) {
        Option::Some(t) => t,
        Option::None => {
            match json_get_arr_len(l, "message", "content") {
                Option::None => String::new(),
                Option::Some(n) => {
                    let mut acc = String::new();
                    let mut i: usize = 0;
                    while i < n
                        invariant
                            i <= n,
                            blocks_join(l@, 0, n as int, Seq::empty()) == blocks_join(
                                l@,
                                i as int,
                                n as int,
                                acc@,
                            ),
                        decreases n - i,
                    {
                        match json_get_arr_str(l, "message", "content", i, "text") {
                            Option::None => {},
                            Option::Some(t) => {
                                if acc.as_str().is_empty() {
                                    acc = t;
                                } else {
                                    crate::text::push_str(&mut acc, " ");
                                    crate::text::push_str(&mut acc, t.as_str());
                                }
                            },
                        }
                        i = i + 1;
                    }
                    acc
                },
            }
        },
    }
}

/// The text of the first user turn that has any, reading the file top down.
pub open spec fn first_user_text(ls: Seq<Seq<u8>>) -> Option<Seq<char>>
    decreases ls.len(),
{
    if ls.len() == 0 {
        Option::None
    } else if spec_line_kind(ls.first()) == LineKind::User && spec_plain_text(ls.first()).len()
        > 0 {
        Option::Some(spec_plain_text(ls.first()))
    } else {
        first_user_text(ls.drop_first())
    }
}

/// The display text of a session that has no roster entry: the first hundred
/// characters of its first user message, or the session id itself.
pub fn first_user_display(content: &[u8], session_id: &str) -> (r: String)
    ensures
        r@ == match first_user_text(spec_lines(content@, 0)) {
            Option::Some(t) => spec_truncate(t, 100),
            Option::None => session_id@,
        },
{
    let lines = split_lines(content);
    let ghost lsv = lines_view(lines@);
    let mut i: usize = 0;
    proof {
        assert(lsv.skip(0) =~= lsv);
    }
    while i < lines.len()
        invariant
            i <= lines@.len(),
            lsv == lines_view(lines@),
            lsv == spec_lines(content@, 0),
            first_user_text(lsv) == first_user_text(lsv.skip(i as int)),
        decreases lines@.len() - i,
    {
        proof {
            assert(lsv.skip(i as int).first() == lsv[i as int]);
            assert(lsv.skip(i as int).drop_first() =~= lsv.skip(i + 1));
        }
        let line = lines[i].as_slice();
        if matches!(classify_line(line), LineKind::User) {
            let t = extract_plain_text(line);
            if !t.as_str().is_empty() {
                proof {
                    assert(first_user_text(lsv.skip(i as int)) == Option::Some(
                        spec_plain_text(lsv[i as int]),
                    ));
                }
                return truncate_chars(t.as_str(), 100);
            }
        }
        i = i + 1;
    }
    proof {
        assert(lsv.skip(lsv.len() as int) =~= Seq::<Seq<u8>>::empty());
    }
    session_id.to_owned()
}

/// The compaction summary of the last summary line, if any: its `summary`
/// field, which may itself be absent.
pub open spec fn last_summary_text(ls: Seq<Seq<u8>>) -> Option<Seq<char>>
    decreases ls.len(),
{
    if ls.len() == 0 {
        Option::None
    } else if spec_line_kind(ls.last()) == LineKind::Summary {
        json_str_field(ls.last(), "summary"@)
    } else {
        last_summary_text(ls.drop_last())
    }
}

/// Find the compaction summary carried by the last summary line of the file.
pub fn last_compaction_summary(content: &[u8]) -> (r: Option<String>)
    ensures
        r is Some <==> last_summary_text(spec_lines(content@, 0)) is Some,
        r matches Some(t) ==> last_summary_text(spec_lines(content@, 0)) == Some(t@),
{
    let lines = split_lines(content);
    let ghost lsv = lines_view(lines@);
    let mut i: usize = lines.len();
    proof {
        assert(lsv.take(lsv.len() as int) =~= lsv);
    }
    while i > 0
        invariant
            i <= lines@.len(),
            lsv == lines_view(lines@),
            lsv == spec_lines(content@, 0),
            last_summary_text(lsv) == last_summary_text(lsv.take(i as int)),
        decreases i,
    {
        proof {
            assert(lsv.take(i as int).last() == lsv[i - 1]);
            assert(lsv.take(i as int).drop_last() =~= lsv.take(i - 1));
        }
        let line = lines[i - 1].as_slice();
        proof {
            assert(line@ == lsv[i - 1]);
        }
        if matches!(classify_line(line), LineKind::Summary) {
            proof {
                assert(last_summary_text(lsv.take(i as int)) == json_str_field(
                    lsv[i - 1],
                    "summary"@,
                ));
            }
            return json_get_str(line, "summary");
        }
        i = i - 1;
    }
    proof {
        assert(lsv.take(0) =~= Seq::<Seq<u8>>::empty());
    }
    Option::None
}

/// One page of a conversation, addressed by opaque byte-offset cursors.
pub struct PaginatedResult {
    pub messages: Vec<LogMessage>,
    /// Byte offset where these messages start; hand it back to load older.
    pub start_offset: u64,
    /// Byte offset after the last consumed line; resume live reads there.
    pub end_offset: u64,
    /// Whether older messages exist before `start_offset`.
    pub has_more: bool,
}

/// The newest `limit` messages of the file, with the cursors around them.
pub fn conversation_tail(content: &[u8], limit: usize) -> (r: PaginatedResult)
    ensures
        ({
            let t = spec_tail_from(content@, 0, Set::empty());
            let st = spec_tail_starts(content@, 0, Set::empty());
            let n = t.msgs.len() as int;
            let k = if n > limit {
                n - limit
            } else {
                0
            };
            &&& msgs_view(r.messages@) == t.msgs.skip(k)
            &&& r.end_offset == t.end
            &&& (r.has_more <==> k > 0)
            &&& (k < n ==> r.start_offset == st[k])
            &&& (k >= n ==> r.start_offset == t.end)
        }),
{
    let ghost s = content@;
    proof {
        if s.len() == 0 {
            assert(spec_tail_from(s, 0, Set::empty()) == TailSpec {
                msgs: Seq::<SpecMsg>::empty(),
                end: 0,
            });
            assert(spec_tail_starts(s, 0, Set::empty()) =~= Seq::<int>::empty());
        }
        lemma_starts_props(s, 0, Set::empty());
    }
    let (sr, starts) = scan_from(content, 0);
    proof {
        if s.len() == 0 {
            assert(msgs_view(sr.messages@) =~= Seq::<SpecMsg>::empty());
            assert(starts_view(starts@) =~= Seq::<int>::empty());
        }
    }
    let n = sr.messages.len();
    let k: usize = if n > limit {
        n - limit
    } else {
        0
    };
    let mut msgs = sr.messages;
    let page = msgs.split_off(k);
    proof {
        assert(msgs_view(page@) =~= spec_tail_from(s, 0, Set::empty()).msgs.skip(k as int));
    }
    let start_offset: u64 = if k < starts.len() {
        starts[k]
    } else {
        sr.next_offset
    };
    PaginatedResult {
        messages: page,
        start_offset,
        end_offset: sr.next_offset,
        has_more: k > 0,
    }
}

/// The cut point: how many offsets lie strictly below the boundary `b`.
pub open spec fn idx_below(st: Seq<int>, b: int) -> int
    decreases st.len(),
{
    if st.len() == 0 {
        0
    } else if st[0] < b {
        1 + idx_below(st.drop_first(), b)
    } else {
        0
    }
}

proof fn lemma_idx_below_bounds(st: Seq<int>, b: int)
    ensures
        0 <= idx_below(st, b) <= st.len(),
    decreases st.len(),
{
    if st.len() > 0 && st[0] < b {
        lemma_idx_below_bounds(st.drop_first(), b);
    }
}

/// The page of up to `limit` messages that precedes the byte boundary
/// `before`, with the cursors around it.
pub fn conversation_range(content: &[u8], before: u64, limit: usize) -> (r: PaginatedResult)
    ensures
        ({
            let t = spec_tail_from(content@, 0, Set::empty());
            let st = spec_tail_starts(content@, 0, Set::empty());
            let n = t.msgs.len() as int;
            let p = idx_below(st, before as int);
            let k = if p > limit {
                p - limit
            } else {
                0
            };
            &&& msgs_view(r.messages@) == t.msgs.subrange(k, p)
            &&& (r.has_more <==> k > 0)
            &&& (k < p ==> r.start_offset == st[k])
            &&& (k >= p ==> r.start_offset == before)
            &&& (p < n ==> r.end_offset == st[p])
            &&& (p >= n ==> r.end_offset == t.end)
        }),
{
    let ghost s = content@;
    proof {
        if s.len() == 0 {
            assert(spec_tail_from(s, 0, Set::empty()) == TailSpec {
                msgs: Seq::<SpecMsg>::empty(),
                end: 0,
            });
            assert(spec_tail_starts(s, 0, Set::empty()) =~= Seq::<int>::empty());
        }
        lemma_starts_props(s, 0, Set::empty());
    }
    let (sr, starts) = scan_from(content, 0);
    proof {
        if s.len() == 0 {
            assert(msgs_view(sr.messages@) =~= Seq::<SpecMsg>::empty());
            assert(starts_view(starts@) =~= Seq::<int>::empty());
        }
    }
    let ghost stv = starts_view(starts@);
    let mut p: usize = 0;
    proof {
        assert(stv.skip(0) =~= stv);
        lemma_idx_below_bounds(stv, before as int);
        lemma_idx_below_bounds(stv.skip(0), before as int);
    }
    while p < starts.len() && starts[p] < before
        invariant
            p <= starts@.len(),
            stv == starts_view(starts@),
            idx_below(stv, before as int) == p + idx_below(stv.skip(p as int), before as int),
            p < starts@.len() ==> idx_below(stv.skip(p as int), before as int) >= 0,
        decreases starts@.len() - p,
    {
        proof {
            assert(stv.skip(p as int).first() == stv[p as int]);
            assert(stv.skip(p as int).drop_first() =~= stv.skip(p + 1));
            lemma_idx_below_bounds(stv.skip(p + 1), before as int);
        }
        p = p + 1;
    }
    proof {
        if p < starts@.len() {
            assert(stv.skip(p as int).first() == stv[p as int]);
            assert(idx_below(stv.skip(p as int), before as int) == 0);
        } else {
            assert(stv.skip(p as int) =~= Seq::<int>::empty());
        }
        assert(idx_below(stv, before as int) == p as int);
    }
    let k: usize = if p > limit {
        p - limit
    } else {
        0
    };
    let mut msgs = sr.messages;
    msgs.truncate(p);
    let page = msgs.split_off(k);
    proof {
        assert(msgs_view(page@) =~= spec_tail_from(s, 0, Set::empty()).msgs.subrange(
            k as int,
            p as int,
        ));
    }
    let start_offset: u64 = if k < p {
        starts[k]
    } else {
        before
    };
    let end_offset: u64 = if p < starts.len() {
        starts[p]
    } else {
        sr.next_offset
    };
    PaginatedResult { messages: page, start_offset, end_offset, has_more: k > 0 }
}

/// `find_nl` commutes with dropping a prefix.
pub proof fn lemma_find_nl_shift(s: Seq<u8>, off: int, i: int)
    requires
        0 <= off <= i,
        off <= s.len(),
    ensures
        find_nl(s.skip(off), i - off) == (match find_nl(s, i) {
            Option::Some(j) => Option::Some(j - off),
            Option::None => Option::None::<int>,
        }),
    decreases s.len() - i,
{
    if i >= s.len() {
    } else if s[i] == 10 {
        assert(s.skip(off)[i - off] == s[i]);
    } else {
        assert(s.skip(off)[i - off] == s[i]);
        lemma_find_nl_shift(s, off, i + 1);
    }
}

/// The lines from a position are the lines of the suffix that starts there.
pub proof fn lemma_lines_shift(s: Seq<u8>, off: int, i: int)
    requires
        0 <= off <= i <= s.len(),
    ensures
        spec_lines(s, i) == spec_lines(s.skip(off), i - off),
    decreases s.len() - i,
{
    lemma_find_nl_shift(s, off, i);
    lemma_find_nl_props(s, i);
    let t = s.skip(off);
    if i >= s.len() {
    } else {
        match find_nl(s, i) {
            Option::None => {
                assert(t.subrange(i - off, t.len() as int) =~= s.subrange(i, s.len() as int));
            },
            Option::Some(j) => {
                assert(t.subrange(i - off, j - off) =~= s.subrange(i, j));
                lemma_lines_shift(s, off, j + 1);
            },
        }
    }
}

/// Splitting distributes over concatenation at a line-break boundary.
pub proof fn lemma_lines_concat(a: Seq<u8>, b: Seq<u8>)
    requires
        a.len() > 0 ==> a[a.len() - 1] == 10,
    ensures
        spec_lines(a + b, 0) == spec_lines(a, 0) + spec_lines(b, 0),
    decreases a.len(),
{
    if a.len() == 0 {
        assert(a + b =~= b);
        assert(spec_lines(a, 0) =~= Seq::<Seq<u8>>::empty());
        assert(spec_lines(a, 0) + spec_lines(b, 0) =~= spec_lines(b, 0));
    } else {
        lemma_find_nl_props(a, 0);
        if find_nl(a, 0) is None {
            assert(a[a.len() - 1] != 10);
            assert(false);
        }
        let j = find_nl(a, 0)->Some_0;
        lemma_find_nl_value(a + b, 0, j);
        assert((a + b).subrange(0, j) =~= a.subrange(0, j));
        let a2 = a.skip(j + 1);
        lemma_lines_shift(a, j + 1, j + 1);
        assert(spec_lines(a, j + 1) == spec_lines(a2, 0));
        lemma_lines_shift(a + b, j + 1, j + 1);
        assert((a + b).skip(j + 1) =~= a2 + b);
        if a2.len() > 0 {
            assert(a2[a2.len() - 1] == a[a.len() - 1]);
        }
        lemma_lines_concat(a2, b);
        assert(spec_lines(a + b, 0) =~= seq![a.subrange(0, j)] + (spec_lines(a2, 0) + spec_lines(
            b,
            0,
        )));
        assert(seq![a.subrange(0, j)] + (spec_lines(a2, 0) + spec_lines(b, 0)) =~= (seq![
            a.subrange(0, j),
        ] + spec_lines(a2, 0)) + spec_lines(b, 0));
    }
}

} // verus!
