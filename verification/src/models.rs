//! The remaining wire types and the per-file queries built on them: subagent
//! detection, plan-session pairing, slug lookup, and conversation search.

use vstd::prelude::*;
use crate::convo::{lines_view, spec_lines, spec_plain_text, split_lines, extract_plain_text,
    line_is_turn};
use crate::json::{json_arr_len, json_arr_str, json_elem_arr_len, json_str_field,
    json_str_field2, json_get_arr_len, json_get_arr_str, json_get_elem_arr_len, json_get_str,
    json_get_str2};
use crate::record::{classify_line, LineKind};
use crate::tail::{ids_match, lemma_ids_push};
use crate::text::{chars_of, contains_chars, contains_seq, find_from, lower_of, push_str,
    spec_truncate, str_eq, string_of, to_lowercase, truncate_chars};
use crate::tail::contains_string;

verus! {

/// Token accounting carried on assistant turns.
pub struct TokenUsage {
    pub input_tokens: Option<u64>,
    pub output_tokens: Option<u64>,
    pub cache_creation_input_tokens: Option<u64>,
    pub cache_read_input_tokens: Option<u64>,
}

/// One subagent found in a session log.
pub struct SubagentInfo {
    pub agent_id: String,
    pub tool_use_id: String,
}

/// One plan-approval tool call paired with the session that implements it.
pub struct PlanSessionInfo {
    pub tool_use_id: String,
    pub session_id: String,
}

/// One search hit inside one session.
pub struct SearchMatch {
    pub message_index: usize,
    pub text: String,
    pub snippet: String,
}

/// The hits of one session, with its identity for display.
pub struct SearchResult {
    pub session_id: String,
    pub display: String,
    pub project_name: String,
    pub timestamp: u64,
    pub matches: Vec<SearchMatch>,
}

/// The progress payload of a raw log line.
pub struct AgentProgressData {
    pub data_type: Option<String>,
    pub agent_id: Option<String>,
}

/// The fields of a raw log line that subagent detection reads.
pub struct RawJsonLine {
    pub msg_type: Option<String>,
    pub data: Option<AgentProgressData>,
    pub parent_tool_use_id: Option<String>,
}

/// A hook's status report.
pub struct StatusUpdateRequest {
    pub event: String,
    pub pane_id: Option<String>,
    pub mux_session: Option<String>,
    pub tool_name: Option<String>,
    pub notification_type: Option<String>,
    /// the tool input, as raw JSON text
    pub tool_input: Option<String>,
}

/// A search query.
pub struct SearchRequest {
    pub query: String,
}

/// A message typed into a session's terminal.
pub struct SendMessageRequest {
    pub message: String,
}

/// Raw key sequences sent to a session's terminal.
pub struct SendKeysRequest {
    pub keys: Vec<Vec<u8>>,
}

/// An answer to a pending question: a chosen option or free text.
pub struct AnswerQuestionRequest {
    pub option_index: Option<usize>,
    pub text: Option<String>,
}

/// A request to launch a fresh session.
pub struct LaunchRequest {
    pub project: Option<String>,
    pub prompt: Option<String>,
    pub dangerously_skip_permissions: Option<bool>,
    pub mux_session: Option<String>,
}

/// A request to resume a finished session.
pub struct ResurrectRequest {
    pub project: String,
    pub dangerously_skip_permissions: Option<bool>,
    pub mux_session: Option<String>,
}

/// A web-push subscription.
pub struct PushSubscription {
    pub endpoint: String,
    pub keys: PushSubscriptionKeys,
}

/// The client keys of a web-push subscription.
pub struct PushSubscriptionKeys {
    pub p256dh: String,
    pub auth: String,
}

/// A speech-synthesis request.
pub struct TtsRequest {
    pub text: String,
}

/// Parse the fields subagent detection reads out of one raw line.
pub fn parse_raw_line(l: &[u8]) -> (r: RawJsonLine)
    ensures
        crate::sessions::opt_view(r.msg_type) == json_str_field(l@, "type"@),
        crate::sessions::opt_view(r.parent_tool_use_id) == json_str_field(l@, "parentToolUseID"@),
        r.data matches Some(d) ==> crate::sessions::opt_view(d.data_type) == json_str_field2(
            l@,
            "data"@,
            "type"@,
        ) && crate::sessions::opt_view(d.agent_id) == json_str_field2(l@, "data"@, "agentId"@),
        r.data is None ==> json_str_field2(l@, "data"@, "type"@) is None && json_str_field2(
            l@,
            "data"@,
            "agentId"@,
        ) is None,
{
    let data_type = json_get_str2(l, "data", "type");
    let agent_id = json_get_str2(l, "data", "agentId");
    let data = if data_type.is_some() || agent_id.is_some() {
        Option::Some(AgentProgressData { data_type, agent_id })
    } else {
        Option::None
    };
    RawJsonLine {
        msg_type: json_get_str(l, "type"),
        data,
        parent_tool_use_id: json_get_str(l, "parentToolUseID"),
    }
}

/// The subagent a line announces: a progress line whose payload names an
/// agent and whose parent tool call is known.
pub open spec fn subagent_of(l: Seq<u8>) -> Option<(Seq<char>, Seq<char>)> {
    if json_str_field(l, "type"@) == Option::Some("progress"@) && json_str_field2(
        l,
        "data"@,
        "type"@,
    ) == Option::Some("agent_progress"@) {
        match (json_str_field2(l, "data"@, "agentId"@), json_str_field(l, "parentToolUseID"@)) {
            (Option::Some(a), Option::Some(t)) => Option::Some((a, t)),
            _ => Option::None,
        }
    } else {
        Option::None
    }
}

/// The subagents of the lines from position `i`, each agent only at its
/// first announcement.
pub open spec fn subagents_from(ls: Seq<Seq<u8>>, i: int, seen: Set<Seq<char>>) -> Seq<
    (Seq<char>, Seq<char>),
>
    decreases ls.len() - i when 0 <= i <= ls.len()
{
    if i >= ls.len() {
        Seq::empty()
    } else {
        match subagent_of(ls[i]) {
            Option::Some(p) => if seen.contains(p.0) {
                subagents_from(ls, i + 1, seen)
            } else {
                seq![p] + subagents_from(ls, i + 1, seen.insert(p.0))
            },
            Option::None => subagents_from(ls, i + 1, seen),
        }
    }
}

/// The views of a subagent vector.
pub open spec fn subagents_view(v: Seq<SubagentInfo>) -> Seq<(Seq<char>, Seq<char>)> {
    v.map_values(|x: SubagentInfo| (x.agent_id@, x.tool_use_id@))
}

/// Find the subagents of a session file, first announcement of each agent
/// winning.
pub fn subagent_infos(content: &[u8]) -> (r: Vec<SubagentInfo>)
    ensures
        subagents_view(r@) == subagents_from(spec_lines(content@, 0), 0, Set::empty()),
{
    let lines = split_lines(content);
    let ghost lsv = lines_view(lines@);
    let mut out: Vec<SubagentInfo> = Vec::new();
    let mut seen: Vec<String> = Vec::new();
    let ghost mut seen_set: Set<Seq<char>> = Set::empty();
    let mut i: usize = 0;
    while i < lines.len()
        invariant
            i <= lines@.len(),
            lsv == lines_view(lines@),
            ids_match(seen@, seen_set),
            subagents_from(lsv, 0, Set::empty()) == subagents_view(out@) + subagents_from(
                lsv,
                i as int,
                seen_set,
            ),
        decreases lines@.len() - i,
    {
        let line = lines[i].as_slice();
        let ghost l = lsv[i as int];
        let raw = parse_raw_line(line);
        let is_progress: bool = match &raw.msg_type {
            Option::Some(t) => str_eq(t.as_str(), "progress"),
            Option::None => false,
        };
        let mut handled = false;
        if is_progress {
            if let Option::Some(d) = &raw.data {
                let is_agent: bool = match &d.data_type {
                    Option::Some(t) => str_eq(t.as_str(), "agent_progress"),
                    Option::None => false,
                };
                if is_agent {
                    if let (Option::Some(a), Option::Some(t)) = (&d.agent_id, &raw.parent_tool_use_id) {
                        handled = true;
                        proof {
                            assert(subagent_of(l) == Option::Some((a@, t@)));
                        }
                        if !contains_string(&seen, a) {
                            let ghost old_out = out@;
                            let a2 = a.clone();
                            proof {
                                lemma_ids_push(seen@, seen_set, a2);
                                seen_set = seen_set.insert(a@);
                            }
                            seen.push(a2);
                            out.push(SubagentInfo { agent_id: a.clone(), tool_use_id: t.clone() });
                            proof {
                                assert(subagents_view(out@) =~= subagents_view(old_out).push(
                                    (a@, t@),
                                ));
                                assert(subagents_view(old_out) + (seq![(a@, t@)] + subagents_from(
                                    lsv,
                                    i + 1,
                                    seen_set,
                                )) =~= subagents_view(out@) + subagents_from(lsv, i + 1, seen_set));
                            }
                        }
                    }
                }
            }
        }
        if !handled {
            proof {
                assert(subagent_of(l) is None);
            }
        }
        i = i + 1;
    }
    proof {
        assert(subagents_from(lsv, lsv.len() as int, seen_set) =~= Seq::<
            (Seq<char>, Seq<char>),
        >::empty());
        assert(subagents_view(out@) + subagents_from(lsv, lsv.len() as int, seen_set)
            =~= subagents_view(out@));
    }
    out
}

/// The plan-approval tool-call identifiers of one assistant line's blocks,
/// scanning from block `i` of `n`.
pub open spec fn line_plan_ids(l: Seq<u8>, i: int, n: int) -> Seq<Seq<char>>
    decreases n - i when i <= n
{
    if i >= n {
        Seq::empty()
    } else {
        (if json_arr_str(l, "message"@, "content"@, i as usize, "name"@) == Option::Some("ExitPlanMode"@) {
            match json_arr_str(l, "message"@, "content"@, i as usize, "id"@) {
                Option::Some(id) => seq![id],
                Option::None => Seq::empty(),
            }
        } else {
            Seq::empty()
        }) + line_plan_ids(l, i + 1, n)
    }
}

/// The plan-approval identifiers a line carries.
pub open spec fn plan_ids_of_line(l: Seq<u8>) -> Seq<Seq<char>> {
    if crate::record::spec_line_kind(l) == LineKind::Assistant {
        match json_arr_len(l, "message"@, "content"@) {
            Option::Some(n) => line_plan_ids(l, 0, n as int),
            Option::None => Seq::empty(),
        }
    } else {
        Seq::empty()
    }
}

/// The plan-approval identifiers of the lines from position `i`.
pub open spec fn plan_ids_from(ls: Seq<Seq<u8>>, i: int) -> Seq<Seq<char>>
    decreases ls.len() - i when 0 <= i <= ls.len()
{
    if i >= ls.len() {
        Seq::empty()
    } else {
        plan_ids_of_line(ls[i]) + plan_ids_from(ls, i + 1)
    }
}

/// The views of an identifier vector.
pub open spec fn strings_view(v: Seq<String>) -> Seq<Seq<char>> {
    v.map_values(|s: String| s@)
}

/// Collect one line's plan-approval identifiers.
fn line_plan_ids_exec(l: &[u8]) -> (r: Vec<String>)
    ensures
        strings_view(r@) == plan_ids_of_line(l@),
{
    let mut out: Vec<String> = Vec::new();
    if !matches!(classify_line(l), LineKind::Assistant) {
        proof {
            assert(strings_view(out@) =~= plan_ids_of_line(l@));
        }
        return out;
    }
    let n: usize = match json_get_arr_len(l, "message", "content") {
        Option::Some(n) => n,
        Option::None => {
            proof {
                assert(strings_view(out@) =~= plan_ids_of_line(l@));
            }
            return out;
        },
    };
    let mut i: usize = 0;
    while i < n
        invariant
            i <= n,
            json_arr_len(l@, "message"@, "content"@) == Option::Some(n),
            crate::record::spec_line_kind(l@) == LineKind::Assistant,
            line_plan_ids(l@, 0, n as int) == strings_view(out@) + line_plan_ids(
                l@,
                i as int,
                n as int,
            ),
        decreases n - i,
    {
        let is_exit: bool = match json_get_arr_str(l, "message", "content", i, "name") {
            Option::Some(nm) => str_eq(nm.as_str(), "ExitPlanMode"),
            Option::None => false,
        };
        if is_exit {
            match json_get_arr_str(l, "message", "content", i, "id") {
                Option::Some(id) => {
                    let ghost old_out = out@;
                    let ghost idv = id@;
                    out.push(id);
                    proof {
                        assert(strings_view(out@) =~= strings_view(old_out).push(idv));
                        assert(strings_view(old_out) + (seq![idv] + line_plan_ids(l@, i + 1, n as int))
                            =~= strings_view(out@) + line_plan_ids(l@, i + 1, n as int));
                    }
                },
                Option::None => {},
            }
        }
        i = i + 1;
    }
    proof {
        assert(line_plan_ids(l@, n as int, n as int) =~= Seq::<Seq<char>>::empty());
        assert(strings_view(out@) + line_plan_ids(l@, n as int, n as int) =~= strings_view(out@));
    }
    out
}

/// Collect the plan-approval tool-call identifiers of a session file.
pub fn exit_plan_tool_ids(content: &[u8]) -> (r: Vec<String>)
    ensures
        strings_view(r@) == plan_ids_from(spec_lines(content@, 0), 0),
{
    let lines = split_lines(content);
    let ghost lsv = lines_view(lines@);
    let mut out: Vec<String> = Vec::new();
    let mut i: usize = 0;
    while i < lines.len()
        invariant
            i <= lines@.len(),
            lsv == lines_view(lines@),
            plan_ids_from(lsv, 0) == strings_view(out@) + plan_ids_from(lsv, i as int),
        decreases lines@.len() - i,
    {
        let ghost old_out = out@;
        let mut more = line_plan_ids_exec(lines[i].as_slice());
        let ghost morev = strings_view(more@);
        out.append(&mut more);
        proof {
            assert(strings_view(out@) =~= strings_view(old_out) + morev);
            assert(strings_view(old_out) + (morev + plan_ids_from(lsv, i + 1)) =~= strings_view(
                out@,
            ) + plan_ids_from(lsv, i + 1));
        }
        i = i + 1;
    }
    proof {
        assert(plan_ids_from(lsv, lsv.len() as int) =~= Seq::<Seq<char>>::empty());
        assert(strings_view(out@) + plan_ids_from(lsv, lsv.len() as int) =~= strings_view(out@));
    }
    out
}

/// Pair each plan-approval tool call with an implementation session: the
/// call at position `i` gets session `i`, or the last session when there are
/// fewer sessions than calls; no session means no pairing at all.
pub fn plan_session_map(exit_ids: &Vec<String>, plan_sessions: &Vec<String>) -> (r: Vec<
    PlanSessionInfo,
>)
    ensures
        plan_sessions@.len() == 0 ==> r@.len() == 0,
        plan_sessions@.len() > 0 ==> r@.len() == exit_ids@.len() && forall|i: int|
            0 <= i < r@.len() ==> (#[trigger] r@[i]).tool_use_id@ == exit_ids@[i]@
                && r@[i].session_id@ == (if i < plan_sessions@.len() {
                plan_sessions@[i]@
            } else {
                plan_sessions@[plan_sessions@.len() - 1]@
            }),
{
    let mut out: Vec<PlanSessionInfo> = Vec::new();
    if plan_sessions.len() == 0 {
        return out;
    }
    let mut i: usize = 0;
    while i < exit_ids.len()
        invariant
            i <= exit_ids@.len(),
            plan_sessions@.len() > 0,
            out@.len() == i,
            forall|k: int|
                0 <= k < i ==> (#[trigger] out@[k]).tool_use_id@ == exit_ids@[k]@
                    && out@[k].session_id@ == (if k < plan_sessions@.len() {
                    plan_sessions@[k]@
                } else {
                    plan_sessions@[plan_sessions@.len() - 1]@
                }),
        decreases exit_ids@.len() - i,
    {
        let sid: String = if i < plan_sessions.len() {
            plan_sessions[i].clone()
        } else {
            plan_sessions[plan_sessions.len() - 1].clone()
        };
        out.push(PlanSessionInfo { tool_use_id: exit_ids[i].clone(), session_id: sid });
        i = i + 1;
    }
    out
}

/// The slug of the first line that carries one.
pub open spec fn slug_of_lines(ls: Seq<Seq<u8>>, i: int) -> Option<Seq<char>>
    decreases ls.len() - i when 0 <= i <= ls.len()
{
    if i >= ls.len() {
        Option::None
    } else {
        match json_str_field(ls[i], "slug"@) {
            Option::Some(s) => Option::Some(s),
            Option::None => slug_of_lines(ls, i + 1),
        }
    }
}

/// Find the slug a session file declares, if any.
pub fn parse_slug(content: &[u8]) -> (r: Option<String>)
    ensures
        r is Some <==> slug_of_lines(spec_lines(content@, 0), 0) is Some,
        r matches Some(s) ==> slug_of_lines(spec_lines(content@, 0), 0) == Some(s@),
{
    let lines = split_lines(content);
    let ghost lsv = lines_view(lines@);
    let mut i: usize = 0;
    while i < lines.len()
        invariant
            i <= lines@.len(),
            lsv == lines_view(lines@),
            lsv == spec_lines(content@, 0),
            slug_of_lines(lsv, 0) == slug_of_lines(lsv, i as int),
        decreases lines@.len() - i,
    {
        match json_get_str(lines[i].as_slice(), "slug") {
            Option::Some(s) => {
                return Option::Some(s);
            },
            Option::None => {},
        }
        i = i + 1;
    }
    Option::None
}

/// How many options the first pending question offers; one when the payload
/// does not say.
pub fn question_option_count(questions_json: &[u8]) -> (n: usize)
    ensures
        n == match json_elem_arr_len(questions_json@, 0, "options"@) {
            Option::Some(m) => m,
            Option::None => 1usize,
        },
{
    match json_get_elem_arr_len(questions_json, 0, "options") {
        Option::Some(m) => m,
        Option::None => 1,
    }
}

/// The key plan that answers a pending question.
pub enum AnswerPlan {
    /// Move down `downs` times, then confirm.
    SelectOption { downs: usize },
    /// Move down past every option, then type the text and confirm.
    TypeText { downs: usize, text: String },
    /// Neither an option nor text was given.
    Invalid,
}

/// Plan the key presses that answer a question: a chosen option is reached
/// by its index, free text sits one step past the last option.
pub fn answer_plan(option_index: Option<usize>, text: Option<String>, option_count: usize) -> (r:
    AnswerPlan)
    ensures
        option_index matches Some(idx) ==> (r matches AnswerPlan::SelectOption { downs } && downs
            == idx),
        (option_index is None && text is Some) ==> (r matches AnswerPlan::TypeText {
            downs,
            text: t2,
        } && downs == option_count && t2@ == text->Some_0@),
        option_index is None && text is None ==> r is Invalid,
{
    match option_index {
        Option::Some(idx) => AnswerPlan::SelectOption { downs: idx },
        Option::None => match text {
            Option::Some(t) => AnswerPlan::TypeText { downs: option_count, text: t },
            Option::None => AnswerPlan::Invalid,
        },
    }
}

/// The snippet shown for a hit: up to `ctx` characters either side of the
/// first case-folded occurrence of the query, with ellipses marking cut
/// edges; without an occurrence, the head of the text.
pub open spec fn spec_snippet(t: Seq<char>, q: Seq<char>, ctx: int) -> Seq<char> {
    match find_from(lower_of(t), lower_of(q), 0) {
        Option::None => spec_truncate(t, 2 * ctx),
        Option::Some(i) => {
            let start0 = if i - ctx >= 0 {
                i - ctx
            } else {
                0
            };
            let start = if start0 <= t.len() {
                start0
            } else {
                t.len() as int
            };
            let end0 = i + lower_of(q).len() + ctx;
            let end = if end0 <= t.len() {
                end0
            } else {
                t.len() as int
            };
            let core = if start <= end {
                t.subrange(start, end)
            } else {
                Seq::empty()
            };
            (if start > 0 {
                "..."@
            } else {
                Seq::empty()
            }) + core + (if end < t.len() {
                "..."@
            } else {
                Seq::empty()
            })
        },
    }
}

/// Build the snippet around the first case-folded hit of `query` in `text`.
pub fn create_snippet(text: &str, query: &str, context_length: usize) -> (r: String)
    ensures
        r@ == spec_snippet(text@, query@, context_length as int),
{
    let lt = to_lowercase(text);
    let lq = to_lowercase(query);
    let lt_chars = chars_of(lt.as_str());
    let lq_chars = chars_of(lq.as_str());
    let t_chars = chars_of(text);
    let tl: usize = t_chars.len();
    match crate::text::find_chars_from(&lt_chars, &lq_chars, 0) {
        Option::None => {
            let double: usize = if context_length <= usize::MAX / 2 {
                2 * context_length
            } else {
                usize::MAX
            };
            proof {
                if context_length > usize::MAX / 2 {
                    assert(2 * (context_length as int) >= usize::MAX);
                    assert(spec_truncate(text@, 2 * (context_length as int)) == spec_truncate(
                        text@,
                        usize::MAX as int,
                    ));
                }
            }
            truncate_chars(text, double)
        },
        Option::Some(i) => {
            let lqlen: usize = lq_chars.len();
            let start0: usize = if i >= context_length {
                i - context_length
            } else {
                0
            };
            let start: usize = if start0 <= tl {
                start0
            } else {
                tl
            };
            let end: usize = if i <= usize::MAX - lqlen && i + lqlen <= usize::MAX - context_length
                && i + lqlen + context_length <= tl {
                i + lqlen + context_length
            } else {
                tl
            };
            proof {
                assert(tl == text@.len());
                assert(end as int == (if i + lq_chars@.len() + context_length <= text@.len() {
                    i + lq_chars@.len() + (context_length as int)
                } else {
                    text@.len() as int
                }));
            }
            let mut out = String::new();
            if start > 0 {
                push_str(&mut out, "...");
            }
            let mut core: Vec<char> = Vec::new();
            let mut k: usize = start;
            while k < end
                invariant
                    start <= k <= end,
                    end <= t_chars@.len(),
                    t_chars@ == text@,
                    core@ =~= text@.subrange(start as int, k as int),
                decreases end - k,
            {
                core.push(t_chars[k]);
                k = k + 1;
            }
            proof {
                assert(core@ =~= text@.subrange(start as int, end as int));
            }
            let core_s = string_of(&core);
            push_str(&mut out, core_s.as_str());
            if end < tl {
                push_str(&mut out, "...");
            }
            proof {
                if start <= end {
                } else {
                    assert(false);
                }
            }
            out
        },
    }
}

/// The hits of a query against the conversational turns of a file: the turn
/// index of each matching turn and its text, matching case-folded.
pub open spec fn spec_search(ls: Seq<Seq<u8>>, i: int, idx: int, lq: Seq<char>) -> Seq<
    (int, Seq<char>),
>
    decreases ls.len() - i when 0 <= i <= ls.len()
{
    if i >= ls.len() {
        Seq::empty()
    } else if line_is_turn(ls[i]) {
        (if contains_seq(lower_of(spec_plain_text(ls[i])), lq) {
            seq![(idx, spec_plain_text(ls[i]))]
        } else {
            Seq::empty()
        }) + spec_search(ls, i + 1, idx + 1, lq)
    } else {
        spec_search(ls, i + 1, idx, lq)
    }
}

/// Search one session file for a query, case-folded: each matching turn
/// yields its index, the head of its text, and a snippet around the hit.
pub fn search_in_content(content: &[u8], query: &str) -> (r: Vec<SearchMatch>)
    ensures
        ({
            let res = spec_search(spec_lines(content@, 0), 0, 0, lower_of(query@));
            &&& r@.len() == res.len()
            &&& forall|k: int|
                0 <= k < r@.len() ==> (#[trigger] r@[k]).message_index == res[k].0 && r@[k].text@
                    == spec_truncate(res[k].1, 200) && r@[k].snippet@ == spec_snippet(
                    res[k].1,
                    query@,
                    60,
                )
        }),
{
    let lines = split_lines(content);
    let ghost lsv = lines_view(lines@);
    let lq = to_lowercase(query);
    let lq_chars = chars_of(lq.as_str());
    let mut out: Vec<SearchMatch> = Vec::new();
    let mut idx: usize = 0;
    let mut i: usize = 0;
    let ghost full = spec_search(lsv, 0, 0, lower_of(query@));
    while i < lines.len()
        invariant
            i <= lines@.len(),
            idx <= i,
            lsv == lines_view(lines@),
            lq_chars@ == lower_of(query@),
            full == spec_search(lsv, 0, 0, lower_of(query@)),
            full =~= spec_search(lsv, 0, 0, lower_of(query@)).take(out@.len() as int)
                + spec_search(lsv, i as int, idx as int, lower_of(query@)),
            out@.len() <= full.len(),
            forall|k: int|
                0 <= k < out@.len() ==> (#[trigger] out@[k]).message_index == full[k].0
                    && out@[k].text@ == spec_truncate(full[k].1, 200) && out@[k].snippet@
                    == spec_snippet(full[k].1, query@, 60),
        decreases lines@.len() - i,
    {
        let line = lines[i].as_slice();
        let ghost l = lsv[i as int];
        let kind = classify_line(line);
        if matches!(kind, LineKind::User | LineKind::Assistant) {
            let t = extract_plain_text(line);
            let lt = to_lowercase(t.as_str());
            let lt_chars = chars_of(lt.as_str());
            if contains_chars(&lt_chars, &lq_chars) {
                let m = SearchMatch {
                    message_index: idx,
                    text: truncate_chars(t.as_str(), 200),
                    snippet: create_snippet(t.as_str(), query, 60),
                };
                let ghost old_len = out@.len() as int;
                proof {
                    assert(spec_search(lsv, i as int, idx as int, lower_of(query@)) == seq![
                        ((idx as int), spec_plain_text(l)),
                    ] + spec_search(lsv, i + 1, idx + 1, lower_of(query@)));
                    assert(full[old_len] == ((idx as int), spec_plain_text(l)));
                    assert(full.take(old_len + 1) =~= full.take(old_len) + seq![full[old_len]]);
                }
                out.push(m);
            } else {
                proof {
                    assert(spec_search(lsv, i as int, idx as int, lower_of(query@)) == spec_search(
                        lsv,
                        i + 1,
                        idx + 1,
                        lower_of(query@),
                    ));
                }
            }
            idx = idx + 1;
        } else {
            proof {
                assert(spec_search(lsv, i as int, idx as int, lower_of(query@)) == spec_search(
                    lsv,
                    i + 1,
                    idx as int,
                    lower_of(query@),
                ));
            }
        }
        i = i + 1;
    }
    proof {
        assert(spec_search(lsv, lsv.len() as int, idx as int, lower_of(query@)) =~= Seq::<
            (int, Seq<char>),
        >::empty());
        assert(full =~= full.take(out@.len() as int));
        assert(out@.len() == full.len());
    }
    out
}

} // verus!
