//! The process-wide shared state: the file index and the caches, owned by
//! one container that the embedding passes by handle to every component.
//! Per-key concurrent access is the embedding's concern; every state change
//! itself is a verified method here.

use vstd::prelude::*;
use crate::alist::AList;
use crate::convo::{conv_count, count_turns, lines_view, spec_lines, split_lines,
    lemma_lines_concat};
use crate::history::{join_lines, HistoryEntry};
use crate::tail::lemma_find_nl_value;
use crate::text::{bytes_to_string, dec_value, format_u64_dec, is_digit, parse_u64_dec};
use vstd::string::StringSliceAdditionalSpecFns;

verus! {

/// The live status a session reports through its hooks.
#[derive(Clone, Copy, Debug, PartialEq, Eq, Structural)]
pub enum SessionStatusValue {
    Active,
    Responding,
    Notification,
    Permission,
    Compacting,
}

/// The terminal binding of a live session: its pane, the multiplexer session
/// holding the pane, and whether a hook confirmed the binding.
pub struct PaneBinding {
    pub pane_id: String,
    pub mux_session: Option<String>,
    pub verified: bool,
}

/// How many new turns a session must gain before its summary is regenerated.
pub const SUMMARY_THRESHOLD: usize = 3;

/// What the summarizer should do for a session, given its current turn count.
#[derive(Clone, Copy, Debug, PartialEq, Eq, Structural)]
pub enum SummaryAction {
    /// Nothing: a generation is pending, or too little has changed.
    Skip,
    /// Derive a cheap early summary from the first user message.
    Early,
    /// Generate a fresh summary.
    Generate,
}

/// The shared state: index, caches, hidden set, and the roster cache with its
/// dirty flag.
pub struct SessionStore {
    /// session id → backing file path
    pub file_index: AList<String>,
    /// session id → live status
    pub statuses: AList<SessionStatusValue>,
    /// session id → terminal binding
    pub panes: AList<PaneBinding>,
    /// session id → pending permission message
    pub permission_messages: AList<String>,
    /// session id → pending question payload, as raw JSON text
    pub question_data: AList<String>,
    /// session id → cached slug, which may be known absent
    pub slug_cache: AList<Option<String>>,
    /// session id → (turn count, file size at count)
    pub count_cache: AList<(usize, u64)>,
    /// session id → (summary text, turn count at generation)
    pub summary_cache: AList<(String, usize)>,
    /// session id → a summary generation is in flight
    pub summary_pending: AList<()>,
    /// ids excluded from the roster; append-only and persisted
    pub hidden: AList<()>,
    /// the parsed roster log, once loaded
    pub roster: Option<Vec<HistoryEntry>>,
    /// the roster on disk changed since the cache was filled
    pub roster_dirty: bool,
}

impl SessionStore {
    /// Every cache has unique keys.
    pub open spec fn wf(&self) -> bool {
        &&& self.file_index.wf()
        &&& self.statuses.wf()
        &&& self.panes.wf()
        &&& self.permission_messages.wf()
        &&& self.question_data.wf()
        &&& self.slug_cache.wf()
        &&& self.count_cache.wf()
        &&& self.summary_cache.wf()
        &&& self.summary_pending.wf()
        &&& self.hidden.wf()
    }

    /// A fresh store: everything empty, the roster not yet loaded.
    pub fn new() -> (r: Self)
        ensures
            r.wf(),
            r.file_index@ == Map::<Seq<char>, String>::empty(),
            r.statuses@ == Map::<Seq<char>, SessionStatusValue>::empty(),
            r.panes@ == Map::<Seq<char>, PaneBinding>::empty(),
            r.permission_messages@ == Map::<Seq<char>, String>::empty(),
            r.question_data@ == Map::<Seq<char>, String>::empty(),
            r.slug_cache@ == Map::<Seq<char>, Option<String>>::empty(),
            r.count_cache@ == Map::<Seq<char>, (usize, u64)>::empty(),
            r.summary_cache@ == Map::<Seq<char>, (String, usize)>::empty(),
            r.summary_pending@ == Map::<Seq<char>, ()>::empty(),
            r.hidden@ == Map::<Seq<char>, ()>::empty(),
            r.roster is None,
            !r.roster_dirty,
    {
        SessionStore {
            file_index: AList::new(),
            statuses: AList::new(),
            panes: AList::new(),
            permission_messages: AList::new(),
            question_data: AList::new(),
            slug_cache: AList::new(),
            count_cache: AList::new(),
            summary_cache: AList::new(),
            summary_pending: AList::new(),
            hidden: AList::new(),
            roster: Option::None,
            roster_dirty: false,
        }
    }

    /// Mark the roster cache stale; the next read reloads it.
    pub fn invalidate_history_cache(&mut self)
        ensures
            *final(self) == (SessionStore { roster_dirty: true, ..*old(self) }),
    {
        self.roster_dirty = true;
    }

    /// Whether the roster log must be re-read before the next listing.
    pub fn roster_needs_reload(&self) -> (r: bool)
        ensures
            r == (self.roster_dirty || self.roster is None),
    {
        self.roster_dirty || self.roster.is_none()
    }

    /// Install a freshly parsed roster and clear the dirty flag.
    pub fn set_roster(&mut self, entries: Vec<HistoryEntry>)
        ensures
            *final(self) == (SessionStore {
                roster: Option::Some(entries),
                roster_dirty: false,
                ..*old(self)
            }),
    {
        self.roster = Option::Some(entries);
        self.roster_dirty = false;
    }

    /// Record the status a hook reported.  Ending a session drops its status
    /// and pane binding; any live status is recorded, together with a
    /// hook-verified pane binding where one was reported.
    pub fn set_session_status(
        &mut self,
        id: &String,
        status: Option<SessionStatusValue>,
        pane_id: Option<String>,
        mux_session: Option<String>,
    )
        requires
            old(self).wf(),
        ensures
            final(self).wf(),
            status is None ==> final(self).statuses@ == old(self).statuses@.remove(id@) && final(self).panes@ == old(self).panes@.remove(id@),
            status matches Some(st) ==> final(self).statuses@ == old(self).statuses@.insert(
                id@,
                st,
            ) && (match pane_id {
                Option::Some(p) => final(self).panes@ == old(self).panes@.insert(
                    id@,
                    PaneBinding { pane_id: p, mux_session: mux_session, verified: true },
                ),
                Option::None => final(self).panes@ == old(self).panes@,
            }),
            final(self).file_index@ == old(self).file_index@,
            final(self).permission_messages@ == old(self).permission_messages@,
            final(self).question_data@ == old(self).question_data@,
            final(self).slug_cache@ == old(self).slug_cache@,
            final(self).count_cache@ == old(self).count_cache@,
            final(self).summary_cache@ == old(self).summary_cache@,
            final(self).summary_pending@ == old(self).summary_pending@,
            final(self).hidden@ == old(self).hidden@,
            final(self).roster == old(self).roster,
            final(self).roster_dirty == old(self).roster_dirty,
    {
        match status {
            Option::None => {
                self.statuses.remove(id);
                self.panes.remove(id);
            },
            Option::Some(st) => {
                self.statuses.insert(id.clone(), st);
                if let Option::Some(p) = pane_id {
                    self.panes.insert(
                        id.clone(),
                        PaneBinding { pane_id: p, mux_session, verified: true },
                    );
                }
            },
        }
    }

    /// The status recorded for a session, if any.
    pub fn get_session_status(&self, id: &String) -> (r: Option<SessionStatusValue>)
        requires
            self.wf(),
        ensures
            r is Some <==> self.statuses@.contains_key(id@),
            r matches Some(st) ==> self.statuses@[id@] == st,
    {
        match self.statuses.get(id) {
            Option::Some(st) => Option::Some(*st),
            Option::None => Option::None,
        }
    }

    /// The terminal binding recorded for a session, if any.
    pub fn get_session_pane(&self, id: &String) -> (r: Option<&PaneBinding>)
        requires
            self.wf(),
        ensures
            r is Some <==> self.panes@.contains_key(id@),
            r matches Some(p) ==> self.panes@[id@] == *p,
    {
        self.panes.get(id)
    }

    /// Forget the pending permission message and question payload of a
    /// session, as happens when it leaves the permission state.
    pub fn clear_permission(&mut self, id: &String)
        requires
            old(self).wf(),
        ensures
            final(self).wf(),
            final(self).permission_messages@ == old(self).permission_messages@.remove(id@),
            final(self).question_data@ == old(self).question_data@.remove(id@),
            final(self).statuses@ == old(self).statuses@,
            final(self).panes@ == old(self).panes@,
            final(self).file_index@ == old(self).file_index@,
            final(self).slug_cache@ == old(self).slug_cache@,
            final(self).count_cache@ == old(self).count_cache@,
            final(self).summary_cache@ == old(self).summary_cache@,
            final(self).summary_pending@ == old(self).summary_pending@,
            final(self).hidden@ == old(self).hidden@,
            final(self).roster == old(self).roster,
            final(self).roster_dirty == old(self).roster_dirty,
    {
        self.permission_messages.remove(id);
        self.question_data.remove(id);
    }

    /// Whether a session currently shows the permission status.
    pub open spec fn spec_in_permission(&self, id: Seq<char>) -> bool {
        self.statuses@.contains_key(id) && self.statuses@[id] == SessionStatusValue::Permission
    }

    /// Record a status change exactly as the hook pipeline must: the status
    /// and pane are set as by `set_session_status`, and a session leaving the
    /// permission state drops its pending permission message and question
    /// payload.
    pub fn apply_status_change(
        &mut self,
        id: &String,
        status: Option<SessionStatusValue>,
        pane_id: Option<String>,
        mux_session: Option<String>,
    )
        requires
            old(self).wf(),
        ensures
            final(self).wf(),
            status is None ==> final(self).statuses@ == old(self).statuses@.remove(id@) && final(self).panes@ == old(self).panes@.remove(id@),
            status matches Some(st) ==> final(self).statuses@ == old(self).statuses@.insert(
                id@,
                st,
            ) && (match pane_id {
                Option::Some(p) => final(self).panes@ == old(self).panes@.insert(
                    id@,
                    PaneBinding { pane_id: p, mux_session: mux_session, verified: true },
                ),
                Option::None => final(self).panes@ == old(self).panes@,
            }),
            ({
                let leaving = old(self).spec_in_permission(id@) && status != Option::Some(
                    SessionStatusValue::Permission,
                );
                &&& final(self).permission_messages@ == (if leaving {
                    old(self).permission_messages@.remove(id@)
                } else {
                    old(self).permission_messages@
                })
                &&& final(self).question_data@ == (if leaving {
                    old(self).question_data@.remove(id@)
                } else {
                    old(self).question_data@
                })
            }),
            final(self).file_index@ == old(self).file_index@,
            final(self).slug_cache@ == old(self).slug_cache@,
            final(self).count_cache@ == old(self).count_cache@,
            final(self).summary_cache@ == old(self).summary_cache@,
            final(self).summary_pending@ == old(self).summary_pending@,
            final(self).hidden@ == old(self).hidden@,
            final(self).roster == old(self).roster,
            final(self).roster_dirty == old(self).roster_dirty,
    {
        let was_permission = match self.get_session_status(id) {
            Option::Some(SessionStatusValue::Permission) => true,
            _ => false,
        };
        let stays_permission = match status {
            Option::Some(SessionStatusValue::Permission) => true,
            _ => false,
        };
        self.set_session_status(id, status, pane_id, mux_session);
        if was_permission && !stays_permission {
            self.clear_permission(id);
        }
    }

    /// The message count of a session, per the cache policy: a cached count
    /// taken at the file's current size is returned as it stands, without
    /// touching file content; any other size — growth or shrinkage — forces a
    /// recount from `content`, which is then cached at the current size; and
    /// a file that could not be read counts as empty, nothing cached.
    pub fn message_count(&mut self, id: &String, size: u64, content: Option<&Vec<u8>>) -> (n: usize)
        requires
            old(self).wf(),
        ensures
            final(self).wf(),
            ({
                let hit = old(self).count_cache@.contains_key(id@) && old(self).count_cache@[id@].1
                    == size;
                &&& (hit ==> n == old(self).count_cache@[id@].0 && *final(self) == *old(self))
                &&& (!hit ==> match content {
                    Option::Some(c) => n == conv_count(spec_lines(c@, 0)) && final(self).count_cache@ == old(self).count_cache@.insert(id@, (n, size)) && final(self).file_index@ == old(self).file_index@ && final(self).statuses@ == old(self).statuses@ && final(self).panes@ == old(self).panes@ && final(self).permission_messages@ == old(self).permission_messages@ && final(self).question_data@ == old(self).question_data@ && final(self).slug_cache@ == old(self).slug_cache@ && final(self).summary_cache@ == old(self).summary_cache@
                        && final(self).summary_pending@ == old(self).summary_pending@ && final(self).hidden@ == old(self).hidden@ && final(self).roster == old(self).roster
                        && final(self).roster_dirty == old(self).roster_dirty,
                    Option::None => n == 0 && *final(self) == *old(self),
                })
            }),
    {
        match self.count_cache.get(id) {
            Option::Some(cached) => {
                if cached.1 == size {
                    return cached.0;
                }
            },
            Option::None => {},
        }
        match content {
            Option::Some(c) => {
                let n = count_turns(c.as_slice());
                self.count_cache.insert(id.clone(), (n, size));
                n
            },
            Option::None => 0,
        }
    }

    /// What the summarizer should do once a session shows `msg_count` turns:
    /// nothing while a generation is pending; a cheap early summary for a
    /// session with any turn but no summary yet; a fresh generation once the
    /// count has grown past the recorded count by the threshold.
    pub fn summary_decision(&self, id: &String, msg_count: usize) -> (r: SummaryAction)
        requires
            self.wf(),
        ensures
            r == self.spec_summary_decision(id@, msg_count),
    {
        if self.summary_pending.contains(id) {
            return SummaryAction::Skip;
        }
        match self.summary_cache.get(id) {
            Option::None => {
                if msg_count >= 1 {
                    SummaryAction::Early
                } else {
                    SummaryAction::Skip
                }
            },
            Option::Some(cached) => {
                if cached.1 <= usize::MAX - SUMMARY_THRESHOLD && msg_count >= cached.1
                    + SUMMARY_THRESHOLD {
                    SummaryAction::Generate
                } else {
                    SummaryAction::Skip
                }
            },
        }
    }

    /// The summary policy, as a function of the store.
    pub open spec fn spec_summary_decision(&self, id: Seq<char>, msg_count: usize) -> SummaryAction {
        if self.summary_pending@.contains_key(id) {
            SummaryAction::Skip
        } else if !self.summary_cache@.contains_key(id) {
            if msg_count >= 1 {
                SummaryAction::Early
            } else {
                SummaryAction::Skip
            }
        } else if msg_count >= self.summary_cache@[id].1 + SUMMARY_THRESHOLD {
            SummaryAction::Generate
        } else {
            SummaryAction::Skip
        }
    }

    /// Record a generated summary together with the count it was taken at;
    /// nothing else is written.
    pub fn store_summary(&mut self, id: String, text: String, msg_count: usize)
        requires
            old(self).wf(),
        ensures
            final(self).wf(),
            final(self).summary_cache@ == old(self).summary_cache@.insert(id@, (text, msg_count)),
            final(self).file_index@ == old(self).file_index@,
            final(self).statuses@ == old(self).statuses@,
            final(self).panes@ == old(self).panes@,
            final(self).permission_messages@ == old(self).permission_messages@,
            final(self).question_data@ == old(self).question_data@,
            final(self).slug_cache@ == old(self).slug_cache@,
            final(self).count_cache@ == old(self).count_cache@,
            final(self).summary_pending@ == old(self).summary_pending@,
            final(self).hidden@ == old(self).hidden@,
            final(self).roster == old(self).roster,
            final(self).roster_dirty == old(self).roster_dirty,
    {
        self.summary_cache.insert(id, (text, msg_count));
    }

    /// Mark a summary generation as in flight; nothing else is written.
    pub fn set_summary_pending(&mut self, id: String)
        requires
            old(self).wf(),
        ensures
            final(self).wf(),
            final(self).summary_pending@ == old(self).summary_pending@.insert(id@, ()),
            final(self).file_index@ == old(self).file_index@,
            final(self).statuses@ == old(self).statuses@,
            final(self).panes@ == old(self).panes@,
            final(self).permission_messages@ == old(self).permission_messages@,
            final(self).question_data@ == old(self).question_data@,
            final(self).slug_cache@ == old(self).slug_cache@,
            final(self).count_cache@ == old(self).count_cache@,
            final(self).summary_cache@ == old(self).summary_cache@,
            final(self).hidden@ == old(self).hidden@,
            final(self).roster == old(self).roster,
            final(self).roster_dirty == old(self).roster_dirty,
    {
        self.summary_pending.insert(id, ());
    }

    /// Mark a summary generation as finished; nothing else is written.
    pub fn clear_summary_pending(&mut self, id: &String)
        requires
            old(self).wf(),
        ensures
            final(self).wf(),
            final(self).summary_pending@ == old(self).summary_pending@.remove(id@),
            final(self).file_index@ == old(self).file_index@,
            final(self).statuses@ == old(self).statuses@,
            final(self).panes@ == old(self).panes@,
            final(self).permission_messages@ == old(self).permission_messages@,
            final(self).question_data@ == old(self).question_data@,
            final(self).slug_cache@ == old(self).slug_cache@,
            final(self).count_cache@ == old(self).count_cache@,
            final(self).summary_cache@ == old(self).summary_cache@,
            final(self).hidden@ == old(self).hidden@,
            final(self).roster == old(self).roster,
            final(self).roster_dirty == old(self).roster_dirty,
    {
        self.summary_pending.remove(id);
    }

    /// Record that the watcher saw a session file: index it.  Only the index
    /// is written; in particular, no cache entry is touched, so a lazy
    /// resolution never evicts or alters cached state.
    pub fn index_session_file(&mut self, id: String, path: String)
        requires
            old(self).wf(),
        ensures
            final(self).wf(),
            final(self).file_index@ == old(self).file_index@.insert(id@, path),
            final(self).statuses@ == old(self).statuses@,
            final(self).panes@ == old(self).panes@,
            final(self).permission_messages@ == old(self).permission_messages@,
            final(self).question_data@ == old(self).question_data@,
            final(self).slug_cache@ == old(self).slug_cache@,
            final(self).count_cache@ == old(self).count_cache@,
            final(self).summary_cache@ == old(self).summary_cache@,
            final(self).summary_pending@ == old(self).summary_pending@,
            final(self).hidden@ == old(self).hidden@,
            final(self).roster == old(self).roster,
            final(self).roster_dirty == old(self).roster_dirty,
    {
        self.file_index.insert(id, path);
    }

    /// Resolve a session id to its backing file path through the index.
    pub fn resolve(&self, id: &String) -> (r: Option<&String>)
        requires
            self.wf(),
        ensures
            r is Some <==> self.file_index@.contains_key(id@),
            r matches Some(p) ==> self.file_index@[id@] == *p,
    {
        self.file_index.get(id)
    }

    /// Mark a session as hidden; nothing else is written.
    pub fn hide_session(&mut self, id: String)
        requires
            old(self).wf(),
        ensures
            final(self).wf(),
            final(self).hidden@ == old(self).hidden@.insert(id@, ()),
            final(self).file_index@ == old(self).file_index@,
            final(self).statuses@ == old(self).statuses@,
            final(self).panes@ == old(self).panes@,
            final(self).permission_messages@ == old(self).permission_messages@,
            final(self).question_data@ == old(self).question_data@,
            final(self).slug_cache@ == old(self).slug_cache@,
            final(self).count_cache@ == old(self).count_cache@,
            final(self).summary_cache@ == old(self).summary_cache@,
            final(self).summary_pending@ == old(self).summary_pending@,
            final(self).roster == old(self).roster,
            final(self).roster_dirty == old(self).roster_dirty,
    {
        self.hidden.insert(id, ());
    }

    /// The in-memory effect of deleting a session: it leaves the index,
    /// every cache drops whatever it held for the id, the id is hidden from
    /// every future roster, and the roster cache is reloaded on the next
    /// read.
    pub fn apply_deletion(&mut self, id: &String)
        requires
            old(self).wf(),
        ensures
            final(self).wf(),
            final(self).file_index@ == old(self).file_index@.remove(id@),
            final(self).hidden@ == old(self).hidden@.insert(id@, ()),
            final(self).statuses@ == old(self).statuses@.remove(id@),
            final(self).panes@ == old(self).panes@.remove(id@),
            final(self).permission_messages@ == old(self).permission_messages@.remove(id@),
            final(self).question_data@ == old(self).question_data@.remove(id@),
            final(self).slug_cache@ == old(self).slug_cache@.remove(id@),
            final(self).count_cache@ == old(self).count_cache@.remove(id@),
            final(self).summary_cache@ == old(self).summary_cache@.remove(id@),
            final(self).summary_pending@ == old(self).summary_pending@.remove(id@),
            final(self).roster_dirty,
            final(self).roster == old(self).roster,
    {
        self.file_index.remove(id);
        self.statuses.remove(id);
        self.panes.remove(id);
        self.permission_messages.remove(id);
        self.question_data.remove(id);
        self.slug_cache.remove(id);
        self.count_cache.remove(id);
        self.summary_cache.remove(id);
        self.summary_pending.remove(id);
        self.hidden.insert(id.clone(), ());
        self.roster_dirty = true;
    }
}

/// What a persisted summary file holds: its first line is the turn count the
/// summary was taken at, the rest is the summary text; a file without text
/// holds nothing.
pub open spec fn spec_summary_parse(s: Seq<u8>) -> Option<(u64, Seq<char>)> {
    let ls = spec_lines(s, 0);
    if ls.len() == 0 {
        Option::None
    } else {
        let first = ls.first();
        let count: u64 = if first.len() > 0 && (forall|k: int|
            0 <= k < first.len() ==> is_digit(first[k])) && dec_value(first) <= u64::MAX {
            dec_value(first) as u64
        } else {
            0
        };
        let rest = join_lines(ls.drop_first());
        if rest.len() > 0 && vstd::utf8::valid_utf8(rest) {
            Option::Some((count, vstd::utf8::decode_utf8(rest)))
        } else {
            Option::None
        }
    }
}

/// Parse a persisted summary file.
pub fn parse_summary_file(content: &[u8]) -> (r: Option<(u64, String)>)
    ensures
        r is Some <==> spec_summary_parse(content@) is Some,
        r matches Some(p) ==> spec_summary_parse(content@) matches Some(q) && p.0 == q.0 && p.1@
            == q.1,
{
    let lines = split_lines(content);
    let ghost lsv = lines_view(lines@);
    if lines.len() == 0 {
        return Option::None;
    }
    let count: u64 = match parse_u64_dec(lines[0].as_slice()) {
        Option::Some(n) => n,
        Option::None => 0,
    };
    let ghost kv = lsv.drop_first();
    let mut rest: Vec<u8> = Vec::new();
    let mut i: usize = 1;
    proof {
        assert(kv.take(0) =~= Seq::<Seq<u8>>::empty());
    }
    while i < lines.len()
        invariant
            1 <= i <= lines@.len(),
            lsv == lines_view(lines@),
            kv == lsv.drop_first(),
            rest@ == join_lines(kv.take(i - 1)),
        decreases lines@.len() - i,
    {
        proof {
            assert(kv.take(i as int).drop_last() =~= kv.take(i - 1));
            assert(kv.take(i as int).last() == kv[i - 1]);
            assert(kv[i - 1] == lsv[i as int]);
        }
        if i > 1 {
            rest.push(10);
        }
        rest.extend_from_slice(lines[i].as_slice());
        proof {
            if i == 1 {
                assert(rest@ =~= kv[0]);
                assert(join_lines(kv.take(1)) == kv.take(1).last());
                assert(kv.take(1).last() == kv[0]);
            } else {
                assert(rest@ =~= join_lines(kv.take(i - 1)) + seq![10u8] + kv[i - 1]);
            }
        }
        i = i + 1;
    }
    proof {
        assert(kv.take(kv.len() as int) =~= kv);
    }
    if rest.len() == 0 {
        return Option::None;
    }
    match bytes_to_string(rest.as_slice()) {
        Option::Some(t) => Option::Some((count, t)),
        Option::None => Option::None,
    }
}

/// Render a summary file: the count on the first line, the text below it.
pub fn build_summary_file(count: u64, text: &str) -> (r: Vec<u8>)
    ensures
        ({
            let ls = spec_lines(r@, 0);
            &&& ls.len() >= 1
            &&& ls.first().len() > 0
            &&& forall|k: int| 0 <= k < ls.first().len() ==> is_digit(ls.first()[k])
            &&& dec_value(ls.first()) == count
            &&& ls.drop_first() == spec_lines(text.spec_bytes(), 0)
        }),
{
    let mut r = format_u64_dec(count);
    let ghost digits = r@;
    r.push(10);
    let ghost head = r@;
    r.extend_from_slice(text.as_bytes());
    proof {
        assert(head =~= digits + seq![10u8]);
        assert(r@ =~= head + text.spec_bytes());
        lemma_lines_concat(head, text.spec_bytes());
        lemma_find_nl_value(head, 0, digits.len() as int);
        assert(head.subrange(0, digits.len() as int) =~= digits);
        assert(spec_lines(head, digits.len() as int + 1) =~= Seq::<Seq<u8>>::empty());
        assert(spec_lines(head, 0) =~= seq![digits]);
        assert(spec_lines(r@, 0) == seq![digits] + spec_lines(text.spec_bytes(), 0));
        assert(spec_lines(r@, 0).first() == digits);
        assert(spec_lines(r@, 0).drop_first() =~= spec_lines(text.spec_bytes(), 0));
    }
    r
}

} // verus!
