//! The session aggregator: the roster log gives the ordering intent, the
//! filesystem gives the truth about existence.  A listing walks the roster
//! first (first occurrence of a session id wins), then the file index for
//! orphan sessions that have conversational content, and sorts everything by
//! last activity, newest first.

use vstd::prelude::*;
use crate::convo::{conv_count, spec_lines, first_user_text, first_user_display};
use crate::history::{nearest_from, spec_decode_project, spec_encode_project, spec_project_name,
    HistoryEntry, SpecHistoryEntry, encode_project_path, decode_project_path, get_project_name,
    nearest_by_mtime, entries_view};
use crate::store::{SessionStatusValue, SessionStore};
use crate::text::{spec_truncate, str_eq};

verus! {

/// One externally visible session, derived afresh on every listing.
pub struct Session {
    pub id: String,
    pub display: String,
    pub timestamp: u64,
    pub last_activity: u64,
    pub project: String,
    pub project_name: String,
    pub message_count: usize,
    pub status: Option<SessionStatusValue>,
    pub pane_id: Option<String>,
    pub pane_verified: Option<bool>,
    pub mux_session: Option<String>,
    pub permission_message: Option<String>,
    pub question_data: Option<String>,
    pub slug: Option<String>,
    pub summary: Option<String>,
}

/// The mathematical image of a session.
pub ghost struct SpecSession {
    pub id: Seq<char>,
    pub display: Seq<char>,
    pub timestamp: u64,
    pub last_activity: u64,
    pub project: Seq<char>,
    pub project_name: Seq<char>,
    pub message_count: usize,
    pub status: Option<SessionStatusValue>,
    pub pane_id: Option<Seq<char>>,
    pub pane_verified: Option<bool>,
    pub mux_session: Option<Seq<char>>,
    pub permission_message: Option<Seq<char>>,
    pub question_data: Option<Seq<char>>,
    pub slug: Option<Seq<char>>,
    pub summary: Option<Seq<char>>,
}

/// The view of an optional string.
pub open spec fn opt_view(o: Option<String>) -> Option<Seq<char>> {
    match o {
        Option::Some(s) => Option::Some(s@),
        Option::None => Option::None,
    }
}

impl View for Session {
    type V = SpecSession;

    open spec fn view(&self) -> SpecSession {
        SpecSession {
            id: self.id@,
            display: self.display@,
            timestamp: self.timestamp,
            last_activity: self.last_activity,
            project: self.project@,
            project_name: self.project_name@,
            message_count: self.message_count,
            status: self.status,
            pane_id: opt_view(self.pane_id),
            pane_verified: self.pane_verified,
            mux_session: opt_view(self.mux_session),
            permission_message: opt_view(self.permission_message),
            question_data: opt_view(self.question_data),
            slug: opt_view(self.slug),
            summary: opt_view(self.summary),
        }
    }
}

/// What the embedding saw of one session file on disk: its id (the file
/// stem), the directory name it sits in, its path, size, timestamps, and the
/// bytes where they had to be read.
pub struct FileFacts {
    pub id: String,
    pub encoded_project: String,
    pub path: String,
    pub size: u64,
    pub mtime_ms: u64,
    pub created_ms: u64,
    pub content: Option<Vec<u8>>,
}

/// The mathematical image of the facts about one file.
pub ghost struct SpecFileFacts {
    pub id: Seq<char>,
    pub encoded_project: Seq<char>,
    pub path: Seq<char>,
    pub size: u64,
    pub mtime_ms: u64,
    pub created_ms: u64,
    pub content: Option<Seq<u8>>,
}

impl View for FileFacts {
    type V = SpecFileFacts;

    open spec fn view(&self) -> SpecFileFacts {
        SpecFileFacts {
            id: self.id@,
            encoded_project: self.encoded_project@,
            path: self.path@,
            size: self.size,
            mtime_ms: self.mtime_ms,
            created_ms: self.created_ms,
            content: match self.content {
                Option::Some(c) => Option::Some(c@),
                Option::None => Option::None,
            },
        }
    }
}

/// The views of a facts vector.
pub open spec fn facts_view(v: Seq<FileFacts>) -> Seq<SpecFileFacts> {
    v.map_values(|f: FileFacts| f@)
}

/// The first facts entry for a session id.
pub open spec fn find_fact(fs: Seq<SpecFileFacts>, id: Seq<char>) -> Option<SpecFileFacts>
    decreases fs.len(),
{
    if fs.len() == 0 {
        Option::None
    } else if fs.first().id == id {
        Option::Some(fs.first())
    } else {
        find_fact(fs.drop_first(), id)
    }
}

/// Find the facts recorded for a session id.
pub fn find_fact_exec<'a>(files: &'a Vec<FileFacts>, id: &String) -> (r: Option<&'a FileFacts>)
    ensures
        r is Some <==> find_fact(facts_view(files@), id@) is Some,
        r matches Some(f) ==> find_fact(facts_view(files@), id@) == Some(f@),
{
    let ghost fs = facts_view(files@);
    let mut i: usize = 0;
    proof {
        assert(fs.skip(0) =~= fs);
    }
    while i < files.len()
        invariant
            i <= files@.len(),
            fs == facts_view(files@),
            find_fact(fs, id@) == find_fact(fs.skip(i as int), id@),
        decreases files@.len() - i,
    {
        proof {
            assert(fs.skip(i as int).first() == fs[i as int]);
            assert(fs.skip(i as int).drop_first() =~= fs.skip(i + 1));
        }
        if str_eq(files[i].id.as_str(), id.as_str()) {
            return Option::Some(&files[i]);
        }
        i = i + 1;
    }
    proof {
        assert(fs.skip(fs.len() as int) =~= Seq::<SpecFileFacts>::empty());
    }
    Option::None
}

/// The (id, modification time) pairs of the files that live in the encoded
/// project directory, in snapshot order.
pub open spec fn project_files(fs: Seq<SpecFileFacts>, enc: Seq<char>) -> Seq<(Seq<char>, u64)>
    decreases fs.len(),
{
    if fs.len() == 0 {
        Seq::empty()
    } else {
        project_files(fs.drop_last(), enc) + if fs.last().encoded_project == enc {
            seq![(fs.last().id, fs.last().mtime_ms)]
        } else {
            Seq::empty()
        }
    }
}

/// Collect the candidate files of one encoded project directory.
pub fn project_files_exec(files: &Vec<FileFacts>, enc: &String) -> (r: Vec<(String, u64)>)
    ensures
        crate::history::pairs_view(r@) == project_files(facts_view(files@), enc@),
{
    let ghost fs = facts_view(files@);
    let mut out: Vec<(String, u64)> = Vec::new();
    let mut i: usize = 0;
    while i < files.len()
        invariant
            i <= files@.len(),
            fs == facts_view(files@),
            crate::history::pairs_view(out@) == project_files(fs.take(i as int), enc@),
        decreases files@.len() - i,
    {
        proof {
            assert(fs.take(i + 1).drop_last() =~= fs.take(i as int));
            assert(fs.take(i + 1).last() == fs[i as int]);
        }
        if str_eq(files[i].encoded_project.as_str(), enc.as_str()) {
            let ghost old_out = out@;
            out.push((files[i].id.clone(), files[i].mtime_ms));
            proof {
                assert(crate::history::pairs_view(out@) =~= crate::history::pairs_view(
                    old_out,
                ).push((fs[i as int].id, fs[i as int].mtime_ms)));
                assert(crate::history::pairs_view(old_out) + seq![
                    (fs[i as int].id, fs[i as int].mtime_ms),
                ] =~= crate::history::pairs_view(out@));
            }
        } else {
            proof {
                assert(project_files(fs.take(i + 1), enc@) =~= project_files(
                    fs.take(i as int),
                    enc@,
                ));
            }
        }
        i = i + 1;
    }
    proof {
        assert(fs.take(fs.len() as int) =~= fs);
    }
    out
}

/// The session id a roster entry stands for: its own id where it carries one,
/// else the project file whose modification time lies nearest its timestamp.
pub open spec fn resolve_entry(e: SpecHistoryEntry, fs: Seq<SpecFileFacts>) -> Option<Seq<char>> {
    match e.session_id {
        Option::Some(id) => Option::Some(id),
        Option::None => match nearest_from(
            project_files(fs, spec_encode_project(e.project)),
            e.timestamp,
            0,
            Option::None,
        ) {
            Option::Some(b) => Option::Some(b.0),
            Option::None => Option::None,
        },
    }
}

/// Entry `j` is the first roster entry resolving to `id`.
pub open spec fn first_resolving(
    rs: Seq<SpecHistoryEntry>,
    fs: Seq<SpecFileFacts>,
    j: int,
    id: Seq<char>,
) -> bool {
    &&& 0 <= j < rs.len()
    &&& resolve_entry(rs[j], fs) == Option::Some(id)
    &&& forall|j2: int| 0 <= j2 < j ==> resolve_entry(rs[j2], fs) != Option::Some(id)
}

/// Sort sessions by last activity, newest first.  Every element of the
/// result is an input element and none is lost; distinct session ids stay
/// distinct.
#[verifier::rlimit(60)]
pub fn sort_sessions(v: Vec<Session>) -> (r: Vec<Session>)
    requires
        forall|a: int, b: int| 0 <= a < b < v@.len() ==> (#[trigger] v@[a].id@) != (#[trigger] v@[b].id@),
    ensures
        forall|a: int, b: int|
            0 <= a <= b < r@.len() ==> (#[trigger] r@[a].last_activity) >= (
            #[trigger] r@[b].last_activity),
        forall|a: int, b: int| 0 <= a < b < r@.len() ==> (#[trigger] r@[a].id@) != (#[trigger] r@[b].id@),
        forall|k: int| 0 <= k < r@.len() ==> v@.contains(#[trigger] r@[k]),
        forall|k0: int| 0 <= k0 < v@.len() ==> r@.contains(#[trigger] v@[k0]),
        r@.len() == v@.len(),
{
    let ghost orig = v@;
    let mut remaining = v;
    let mut out: Vec<Session> = Vec::new();
    proof {
        assert forall|k: int| 0 <= k < remaining@.len() implies orig.contains(
            #[trigger] remaining@[k],
        ) by {
            assert(orig[k] == remaining@[k]);
        }
        assert forall|k0: int| 0 <= k0 < orig.len() implies out@.contains(#[trigger] orig[k0])
            || remaining@.contains(orig[k0]) by {
            assert(remaining@[k0] == orig[k0]);
        }
    }
    loop
        invariant
            out@.len() + remaining@.len() == orig.len(),
            // out is sorted, newest first
            forall|a: int, b: int|
                0 <= a <= b < out@.len() ==> (#[trigger] out@[a].last_activity) >= (
                #[trigger] out@[b].last_activity),
            // everything still waiting is no newer than anything emitted
            forall|a: int, b: int|
                0 <= a < out@.len() && 0 <= b < remaining@.len() ==> (
                #[trigger] out@[a].last_activity) >= (#[trigger] remaining@[b].last_activity),
            // ids stay pairwise distinct, within and across the two halves
            forall|a: int, b: int|
                0 <= a < b < out@.len() ==> (#[trigger] out@[a].id@) != (#[trigger] out@[b].id@),
            forall|a: int, b: int|
                0 <= a < b < remaining@.len() ==> (#[trigger] remaining@[a].id@) != (
                #[trigger] remaining@[b].id@),
            forall|a: int, b: int|
                0 <= a < out@.len() && 0 <= b < remaining@.len() ==> (#[trigger] out@[a].id@) != (
                #[trigger] remaining@[b].id@),
            // provenance and coverage
            forall|k: int| 0 <= k < out@.len() ==> orig.contains(#[trigger] out@[k]),
            forall|k: int| 0 <= k < remaining@.len() ==> orig.contains(#[trigger] remaining@[k]),
            forall|k0: int|
                0 <= k0 < orig.len() ==> out@.contains(#[trigger] orig[k0]) || remaining@.contains(
                    orig[k0],
                ),
        ensures
            remaining@.len() == 0,
        decreases remaining@.len(),
    {
        if remaining.len() == 0 {
            break;
        }
        // pick the newest of what remains
        let mut best: usize = 0;
        let mut i: usize = 1;
        while i < remaining.len()
            invariant
                best < i <= remaining@.len(),
                remaining@.len() > 0,
                forall|j: int|
                    0 <= j < i ==> (#[trigger] remaining@[j].last_activity)
                        <= remaining@[best as int].last_activity,
            decreases remaining@.len() - i,
        {
            if remaining[i].last_activity > remaining[best].last_activity {
                best = i;
            }
            i = i + 1;
        }
        let ghost rem_before = remaining@;
        let el = remaining.remove(best);
        let ghost out_before = out@;
        out.push(el);
        proof {
            assert(remaining@ =~= rem_before.remove(best as int));
            assert forall|k: int| 0 <= k < remaining@.len() implies orig.contains(
                #[trigger] remaining@[k],
            ) by {
                if k < best {
                    assert(remaining@[k] == rem_before[k]);
                } else {
                    assert(remaining@[k] == rem_before[k + 1]);
                }
            }
            assert forall|k: int| 0 <= k < out@.len() implies orig.contains(
                #[trigger] out@[k],
            ) by {
                if k < out_before.len() {
                    assert(out@[k] == out_before[k]);
                } else {
                    assert(out@[k] == rem_before[best as int]);
                }
            }
            assert forall|k0: int| 0 <= k0 < orig.len() implies out@.contains(#[trigger] orig[k0])
                || remaining@.contains(orig[k0]) by {
                if out_before.contains(orig[k0]) {
                    let k = choose|k: int| 0 <= k < out_before.len() && out_before[k] == orig[k0];
                    assert(out@[k] == orig[k0]);
                } else {
                    let k = choose|k: int|
                        0 <= k < rem_before.len() && rem_before[k] == orig[k0];
                    if k == best {
                        assert(out@[out@.len() - 1] == orig[k0]);
                    } else if k < best {
                        assert(remaining@[k] == orig[k0]);
                    } else {
                        assert(remaining@[k - 1] == orig[k0]);
                    }
                }
            }
            assert forall|a: int, b: int|
                0 <= a < b < remaining@.len() implies (#[trigger] remaining@[a].id@) != (
            #[trigger] remaining@[b].id@) by {
                let a0: int = if a < best { a } else { a + 1 };
                let b0: int = if b < best { b } else { b + 1 };
                assert(remaining@[a] == rem_before[a0]);
                assert(remaining@[b] == rem_before[b0]);
            }
            assert forall|a: int, b: int|
                0 <= a < out@.len() && 0 <= b < remaining@.len() implies (#[trigger] out@[a].id@)
                != (#[trigger] remaining@[b].id@) by {
                let b0: int = if b < best { b } else { b + 1 };
                assert(remaining@[b] == rem_before[b0]);
            }
            assert forall|a: int, b: int|
                0 <= a < out@.len() && 0 <= b < remaining@.len() implies (
            #[trigger] out@[a].last_activity) >= (#[trigger] remaining@[b].last_activity) by {
                let b0: int = if b < best { b } else { b + 1 };
                assert(remaining@[b] == rem_before[b0]);
            }
        }
    }
    out
}

/// The views of a session vector.
pub open spec fn sessions_view(v: Seq<Session>) -> Seq<SpecSession> {
    v.map_values(|s: Session| s@)
}

/// The count the cache policy yields for a session whose file shows `fact`:
/// the cached count while the size still matches, a recount of the content
/// otherwise, and zero where the file is gone or unreadable.
pub open spec fn spec_count_of(
    cache: Map<Seq<char>, (usize, u64)>,
    id: Seq<char>,
    fact: Option<SpecFileFacts>,
) -> int {
    match fact {
        Option::None => 0,
        Option::Some(f) => if cache.contains_key(id) && cache[id].1 == f.size {
            cache[id].0 as int
        } else {
            match f.content {
                Option::Some(c) => conv_count(spec_lines(c, 0)),
                Option::None => 0,
            }
        },
    }
}

/// The cache-derived fields every listed session carries: status, pane
/// binding, pending permission and question, slug and summary, each straight
/// out of its cache.
pub open spec fn session_common_ok(st: SessionStore, s: SpecSession) -> bool {
    &&& s.status == (if st.statuses@.contains_key(s.id) {
        Option::Some(st.statuses@[s.id])
    } else {
        Option::None::<SessionStatusValue>
    })
    &&& (if st.panes@.contains_key(s.id) {
        s.pane_id == Option::Some(st.panes@[s.id].pane_id@) && s.pane_verified == Option::Some(
            st.panes@[s.id].verified,
        ) && s.mux_session == opt_view(st.panes@[s.id].mux_session)
    } else {
        s.pane_id is None && s.pane_verified is None && s.mux_session is None
    })
    &&& s.permission_message == (if st.permission_messages@.contains_key(s.id) {
        Option::Some(st.permission_messages@[s.id]@)
    } else {
        Option::None::<Seq<char>>
    })
    &&& s.question_data == (if st.question_data@.contains_key(s.id) {
        Option::Some(st.question_data@[s.id]@)
    } else {
        Option::None::<Seq<char>>
    })
    &&& s.slug == (if st.slug_cache@.contains_key(s.id) {
        opt_view(st.slug_cache@[s.id])
    } else {
        Option::None::<Seq<char>>
    })
    &&& s.summary == (if st.summary_cache@.contains_key(s.id) {
        Option::Some(st.summary_cache@[s.id].0@)
    } else {
        Option::None::<Seq<char>>
    })
}

/// What a session listed from roster entry `e` holds: the entry's display
/// exactly as the roster records it (no marker text is rewritten), the
/// entry's timestamp and project; the file's modification time as last
/// activity when the file exists, else the entry's timestamp; and the
/// policy count.
pub open spec fn roster_session_ok(
    st: SessionStore,
    fs: Seq<SpecFileFacts>,
    e: SpecHistoryEntry,
    s: SpecSession,
) -> bool {
    &&& s.display == e.display
    &&& s.timestamp == e.timestamp
    &&& s.project == e.project
    &&& s.project_name == spec_project_name(e.project)
    &&& s.last_activity == (match find_fact(fs, s.id) {
        Option::Some(f) => f.mtime_ms,
        Option::None => e.timestamp,
    })
    &&& s.message_count == spec_count_of(st.count_cache@, s.id, find_fact(fs, s.id))
    &&& session_common_ok(st, s)
}

/// What an orphan session holds: data derived from its file alone, its
/// display from the first user message, and a count that is never zero.
pub open spec fn orphan_session_ok(st: SessionStore, fs: Seq<SpecFileFacts>, s: SpecSession) -> bool {
    &&& find_fact(fs, s.id) is Some
    &&& ({
        let f = find_fact(fs, s.id)->Some_0;
        &&& s.display == (match f.content {
            Option::Some(c) => (match first_user_text(spec_lines(c, 0)) {
                Option::Some(t) => spec_truncate(t, 100),
                Option::None => s.id,
            }),
            Option::None => s.id,
        })
        &&& s.timestamp == f.created_ms
        &&& s.last_activity == f.mtime_ms
        &&& s.project == spec_decode_project(f.encoded_project)
        &&& s.project_name == spec_project_name(spec_decode_project(f.encoded_project))
    })
    &&& s.message_count == spec_count_of(st.count_cache@, s.id, find_fact(fs, s.id))
    &&& s.message_count > 0
    &&& session_common_ok(st, s)
}

/// Every listed session is either the first roster occurrence of its id or a
/// non-empty orphan from the file index.
pub open spec fn listed_ok(
    st: SessionStore,
    rs: Seq<SpecHistoryEntry>,
    fs: Seq<SpecFileFacts>,
    s: SpecSession,
) -> bool {
    ||| (exists|j: int| #[trigger] first_resolving(rs, fs, j, s.id) && roster_session_ok(
        st,
        fs,
        rs[j],
        s,
    ))
    ||| ((forall|j: int| 0 <= j < rs.len() ==> resolve_entry(#[trigger] rs[j], fs) != Option::Some(
        s.id,
    )) && st.file_index@.contains_key(s.id) && orphan_session_ok(st, fs, s))
}

/// Clone an optional string exactly.
pub fn clone_opt_string(o: &Option<String>) -> (r: Option<String>)
    ensures
        opt_view(r) == opt_view(*o),
{
    match o {
        Option::Some(x) => Option::Some(x.clone()),
        Option::None => Option::None,
    }
}

/// Copy roster entry `j` out of the store.
fn roster_entry_clone(store: &SessionStore, j: usize) -> (r: HistoryEntry)
    requires
        store.roster is Some,
        j < store.roster->Some_0@.len(),
    ensures
        r@ == entries_view(store.roster->Some_0@)[j as int],
{
    match &store.roster {
        Option::Some(es) => {
            let e = &es[j];
            HistoryEntry {
                display: e.display.clone(),
                timestamp: e.timestamp,
                project: e.project.clone(),
                session_id: clone_opt_string(&e.session_id),
            }
        },
        Option::None => vstd::pervasive::unreached(),
    }
}

/// Copy the indexed session ids out of the store.
fn index_ids(store: &SessionStore) -> (r: Vec<String>)
    requires
        store.wf(),
    ensures
        forall|k: int| 0 <= k < r@.len() ==> store.file_index@.contains_key(#[trigger] (r@[k]@)),
        forall|id: Seq<char>|
            store.file_index@.contains_key(id) ==> exists|k: int|
                0 <= k < r@.len() && #[trigger] (r@[k]@) == id,
        forall|a: int, b: int| 0 <= a < b < r@.len() ==> (#[trigger] r@[a]@) != (#[trigger] r@[b]@),
{
    let ghost ps = store.file_index.pairs@;
    let mut out: Vec<String> = Vec::new();
    let mut i: usize = 0;
    while i < store.file_index.pairs.len()
        invariant
            i <= ps.len(),
            store.file_index.pairs@ == ps,
            store.wf(),
            out@.len() == i,
            forall|k: int| 0 <= k < i ==> (#[trigger] (out@[k]@)) == ps[k].0@,
        decreases ps.len() - i,
    {
        out.push(store.file_index.pairs[i].0.clone());
        i = i + 1;
    }
    proof {
        assert forall|k: int| 0 <= k < out@.len() implies store.file_index@.contains_key(
            #[trigger] (out@[k]@),
        ) by {
            crate::alist::lemma_pairs_map_index(ps, k);
        }
        assert forall|id: Seq<char>| store.file_index@.contains_key(id) implies exists|k: int|
            0 <= k < out@.len() && #[trigger] (out@[k]@) == id by {
            crate::alist::lemma_pairs_map_contains(ps, id);
            let k = choose|k: int| 0 <= k < ps.len() && #[trigger] (ps[k].0@) == id;
            assert(out@[k]@ == id);
        }
    }
    out
}

/// Assemble one session from its identity, file-derived data, and the caches.
fn build_session(
    store: &SessionStore,
    id: String,
    display: String,
    timestamp: u64,
    last_activity: u64,
    project: String,
    message_count: usize,
) -> (s: Session)
    requires
        store.wf(),
    ensures
        s@.id == id@,
        s@.display == display@,
        s@.timestamp == timestamp,
        s@.last_activity == last_activity,
        s@.project == project@,
        s@.project_name == spec_project_name(project@),
        s@.message_count == message_count,
        session_common_ok(*store, s@),
{
    let project_name = get_project_name(project.as_str());
    let status = store.get_session_status(&id);
    let (pane_id, pane_verified, mux_session) = match store.get_session_pane(&id) {
        Option::Some(p) => (
            Option::Some(p.pane_id.clone()),
            Option::Some(p.verified),
            clone_opt_string(&p.mux_session),
        ),
        Option::None => (Option::None, Option::None, Option::None),
    };
    let permission_message = match store.permission_messages.get(&id) {
        Option::Some(m) => Option::Some(m.clone()),
        Option::None => Option::None,
    };
    let question_data = match store.question_data.get(&id) {
        Option::Some(m) => Option::Some(m.clone()),
        Option::None => Option::None,
    };
    let slug = match store.slug_cache.get(&id) {
        Option::Some(sl) => clone_opt_string(sl),
        Option::None => Option::None,
    };
    let summary = match store.summary_cache.get(&id) {
        Option::Some(sm) => Option::Some(sm.0.clone()),
        Option::None => Option::None,
    };
    Session {
        id,
        display,
        timestamp,
        last_activity,
        project,
        project_name,
        message_count,
        status,
        pane_id,
        pane_verified,
        mux_session,
        permission_message,
        question_data,
        slug,
        summary,
    }
}

/// List the sessions: the reload-clean roster first (the first occurrence of
/// an id wins, hidden ids never appear), then orphans from the file index
/// that have conversational content, everything sorted by last activity,
/// newest first.  Only the count cache changes.  A roster entry's display
/// text is listed verbatim; no launcher-marker text is rewritten.
#[verifier::rlimit(100)]
pub fn list_sessions(store: &mut SessionStore, files: &Vec<FileFacts>) -> (out: Vec<Session>)
    requires
        old(store).wf(),
        old(store).roster is Some,
    ensures
        final(store).wf(),
        final(store).file_index@ == old(store).file_index@,
        final(store).statuses@ == old(store).statuses@,
        final(store).panes@ == old(store).panes@,
        final(store).permission_messages@ == old(store).permission_messages@,
        final(store).question_data@ == old(store).question_data@,
        final(store).slug_cache@ == old(store).slug_cache@,
        final(store).summary_cache@ == old(store).summary_cache@,
        final(store).summary_pending@ == old(store).summary_pending@,
        final(store).hidden@ == old(store).hidden@,
        final(store).roster == old(store).roster,
        final(store).roster_dirty == old(store).roster_dirty,
        ({
            let rs = entries_view(old(store).roster->Some_0@);
            let fs = facts_view(files@);
            let sv = sessions_view(out@);
            &&& (forall|a: int, b: int|
                0 <= a <= b < sv.len() ==> (#[trigger] sv[a].last_activity) >= (
                #[trigger] sv[b].last_activity))
            &&& (forall|a: int, b: int|
                0 <= a < b < sv.len() ==> (#[trigger] sv[a].id) != (#[trigger] sv[b].id))
            &&& (forall|k: int|
                0 <= k < sv.len() ==> !old(store).hidden@.contains_key((#[trigger] sv[k]).id))
            &&& (forall|k: int|
                0 <= k < sv.len() ==> listed_ok(*old(store), rs, fs, #[trigger] sv[k]))
            &&& (forall|j: int|
                0 <= j < rs.len() ==> match resolve_entry(#[trigger] rs[j], fs) {
                    Option::Some(id) => old(store).hidden@.contains_key(id) || exists|k: int|
                        0 <= k < sv.len() && (#[trigger] sv[k]).id == id,
                    Option::None => true,
                })
            &&& (forall|id: Seq<char>|
                (#[trigger] old(store).file_index@.contains_key(id) && !old(
                    store,
                ).hidden@.contains_key(id) && (forall|j: int|
                    0 <= j < rs.len() ==> resolve_entry(#[trigger] rs[j], fs) != Option::Some(id))
                    && spec_count_of(old(store).count_cache@, id, find_fact(fs, id)) > 0)
                    ==> exists|k: int| 0 <= k < sv.len() && (#[trigger] sv[k]).id == id)
        }),
{
    let ghost rs = entries_view(old(store).roster->Some_0@);
    let ghost fs = facts_view(files@);
    let mut out: Vec<Session> = Vec::new();
    let mut seen: Vec<String> = Vec::new();
    let ghost mut seen_set: Set<Seq<char>> = Set::empty();
    let n: usize = match &store.roster {
        Option::Some(es) => es.len(),
        Option::None => 0,
    };
    let mut j: usize = 0;
    while j < n
        invariant
            store.wf(),
            store.roster is Some,
            n == store.roster->Some_0@.len(),
            rs == entries_view(old(store).roster->Some_0@),
            fs == facts_view(files@),
            j <= n,
            store.file_index@ == old(store).file_index@,
            store.statuses@ == old(store).statuses@,
            store.panes@ == old(store).panes@,
            store.permission_messages@ == old(store).permission_messages@,
            store.question_data@ == old(store).question_data@,
            store.slug_cache@ == old(store).slug_cache@,
            store.summary_cache@ == old(store).summary_cache@,
            store.summary_pending@ == old(store).summary_pending@,
            store.hidden@ == old(store).hidden@,
            store.roster == old(store).roster,
            store.roster_dirty == old(store).roster_dirty,
            crate::tail::ids_match(seen@, seen_set),
            forall|x: Seq<char>|
                !seen_set.contains(x) ==> ((store.count_cache@.contains_key(x) <==> old(
                    store,
                ).count_cache@.contains_key(x)) && (old(store).count_cache@.contains_key(x)
                    ==> store.count_cache@[x] == old(store).count_cache@[x])),
            forall|x: Seq<char>|
                #[trigger] seen_set.contains(x) <==> exists|k: int|
                    0 <= k < sessions_view(out@).len() && (#[trigger] sessions_view(out@)[k]).id
                        == x,
            forall|a: int, b: int|
                0 <= a < b < sessions_view(out@).len() ==> (#[trigger] sessions_view(out@)[a].id)
                    != (#[trigger] sessions_view(out@)[b].id),
            forall|k: int|
                0 <= k < sessions_view(out@).len() ==> !old(store).hidden@.contains_key(
                    (#[trigger] sessions_view(out@)[k]).id,
                ),
            forall|k: int|
                0 <= k < sessions_view(out@).len() ==> listed_ok(
                    *old(store),
                    rs,
                    fs,
                    #[trigger] sessions_view(out@)[k],
                ),
            forall|j2: int|
                0 <= j2 < j ==> match resolve_entry(#[trigger] rs[j2], fs) {
                    Option::Some(id) => old(store).hidden@.contains_key(id) || seen_set.contains(
                        id,
                    ),
                    Option::None => true,
                },
        decreases n - j,
    {
        let entry = roster_entry_clone(store, j);
        let rid: Option<String> = match &entry.session_id {
            Option::Some(sid) => Option::Some(sid.clone()),
            Option::None => {
                let enc = encode_project_path(entry.project.as_str());
                let cands = project_files_exec(files, &enc);
                nearest_by_mtime(&cands, entry.timestamp)
            },
        };
        proof {
            assert(match rid {
                Option::Some(id) => resolve_entry(rs[j as int], fs) == Option::Some(id@),
                Option::None => resolve_entry(rs[j as int], fs) is None,
            });
        }
        match rid {
            Option::None => {},
            Option::Some(id) => {
                let already = crate::tail::contains_string(&seen, &id);
                let hidden_now = store.hidden.contains(&id);
                if !already && !hidden_now {
                    let ghost seen_before = seen_set;
                    let ghost cc0 = store.count_cache@;
                    proof {
                        assert(!seen_before.contains(id@));
                        assert(cc0.contains_key(id@) <==> old(store).count_cache@.contains_key(
                            id@,
                        ));
                        assert(old(store).count_cache@.contains_key(id@) ==> cc0[id@] == old(
                            store,
                        ).count_cache@[id@]);
                        crate::tail::lemma_ids_push(seen@, seen_set, id);
                        seen_set = seen_set.insert(id@);
                    }
                    seen.push(id.clone());
                    let fact = find_fact_exec(files, &id);
                    let count: usize = match fact {
                        Option::Some(f) => {
                            match &f.content {
                                Option::Some(c) => store.message_count(
                                    &id,
                                    f.size,
                                    Option::Some(c),
                                ),
                                Option::None => store.message_count(&id, f.size, Option::None),
                            }
                        },
                        Option::None => 0,
                    };
                    proof {
                        assert(count == spec_count_of(cc0, id@, find_fact(fs, id@)));
                        assert(count == spec_count_of(
                            old(store).count_cache@,
                            id@,
                            find_fact(fs, id@),
                        ));
                        assert forall|x: Seq<char>| !seen_set.contains(x) implies ((
                        store.count_cache@.contains_key(x) <==> old(
                            store,
                        ).count_cache@.contains_key(x)) && (old(store).count_cache@.contains_key(x)
                            ==> store.count_cache@[x] == old(store).count_cache@[x])) by {
                            assert(x != id@);
                        }
                    }
                    let last_activity: u64 = match fact {
                        Option::Some(f) => f.mtime_ms,
                        Option::None => entry.timestamp,
                    };
                    let sess = build_session(
                        &*store,
                        id,
                        entry.display,
                        entry.timestamp,
                        last_activity,
                        entry.project,
                        count,
                    );
                    proof {
                        assert(session_common_ok(*old(store), sess@));
                        assert forall|j2: int| 0 <= j2 < j implies resolve_entry(
                            #[trigger] rs[j2],
                            fs,
                        ) != Option::Some(sess@.id) by {
                            if resolve_entry(rs[j2], fs) == Option::Some(sess@.id) {
                                assert(old(store).hidden@.contains_key(sess@.id)
                                    || seen_before.contains(sess@.id));
                            }
                        }
                        assert(first_resolving(rs, fs, j as int, sess@.id));
                        assert(roster_session_ok(*old(store), fs, rs[j as int], sess@));
                        assert(listed_ok(*old(store), rs, fs, sess@));
                    }
                    let ghost old_sv = sessions_view(out@);
                    out.push(sess);
                    proof {
                        assert(sessions_view(out@) =~= old_sv.push(sess@));
                        assert forall|x: Seq<char>| #[trigger] seen_set.contains(x) implies exists|
                            k: int,
                        |
                            0 <= k < sessions_view(out@).len() && (#[trigger] sessions_view(
                                out@,
                            )[k]).id == x by {
                            if x == sess@.id {
                                assert(sessions_view(out@)[old_sv.len() as int].id == x);
                            } else {
                                let k = choose|k: int|
                                    0 <= k < old_sv.len() && (#[trigger] old_sv[k]).id == x;
                                assert(sessions_view(out@)[k].id == x);
                            }
                        }
                        assert forall|x: Seq<char>|
                            (exists|k: int|
                                0 <= k < sessions_view(out@).len() && (#[trigger] sessions_view(
                                    out@,
                                )[k]).id == x) implies seen_set.contains(x) by {
                            let k = choose|k: int|
                                0 <= k < sessions_view(out@).len() && (#[trigger] sessions_view(
                                    out@,
                                )[k]).id == x;
                            if k < old_sv.len() {
                                assert(old_sv[k].id == x);
                            } else {
                                assert(x == sess@.id);
                            }
                        }
                    }
                }
            },
        }
        j = j + 1;
    }
    // orphan pass: indexed files absent from the roster, with content
    proof {
        assert forall|j2: int| 0 <= j2 < rs.len() implies match resolve_entry(
            #[trigger] rs[j2],
            fs,
        ) {
            Option::Some(id) => old(store).hidden@.contains_key(id) || exists|k: int|
                0 <= k < sessions_view(out@).len() && (#[trigger] sessions_view(out@)[k]).id == id,
            Option::None => true,
        } by {
            match resolve_entry(rs[j2], fs) {
                Option::Some(id) => {
                    if !old(store).hidden@.contains_key(id) {
                        assert(seen_set.contains(id));
                    }
                },
                Option::None => {},
            }
        }
    }
    let ids = index_ids(&*store);
    let mut i: usize = 0;
    while i < ids.len()
        invariant
            store.wf(),
            store.roster is Some,
            rs == entries_view(old(store).roster->Some_0@),
            fs == facts_view(files@),
            i <= ids@.len(),
            forall|k: int|
                0 <= k < ids@.len() ==> old(store).file_index@.contains_key(#[trigger] (ids@[k]@)),
            forall|id: Seq<char>|
                old(store).file_index@.contains_key(id) ==> exists|k: int|
                    0 <= k < ids@.len() && #[trigger] (ids@[k]@) == id,
            store.file_index@ == old(store).file_index@,
            store.statuses@ == old(store).statuses@,
            store.panes@ == old(store).panes@,
            store.permission_messages@ == old(store).permission_messages@,
            store.question_data@ == old(store).question_data@,
            store.slug_cache@ == old(store).slug_cache@,
            store.summary_cache@ == old(store).summary_cache@,
            store.summary_pending@ == old(store).summary_pending@,
            store.hidden@ == old(store).hidden@,
            store.roster == old(store).roster,
            store.roster_dirty == old(store).roster_dirty,
            crate::tail::ids_match(seen@, seen_set),
            forall|x: Seq<char>|
                !seen_set.contains(x) ==> ((store.count_cache@.contains_key(x) <==> old(
                    store,
                ).count_cache@.contains_key(x)) && (old(store).count_cache@.contains_key(x)
                    ==> store.count_cache@[x] == old(store).count_cache@[x])),
            // everything emitted is seen; everything seen is either emitted or
            // known empty
            forall|k: int|
                0 <= k < sessions_view(out@).len() ==> seen_set.contains(
                    (#[trigger] sessions_view(out@)[k]).id,
                ),
            forall|x: Seq<char>|
                #[trigger] seen_set.contains(x) ==> (exists|k: int|
                    0 <= k < sessions_view(out@).len() && (#[trigger] sessions_view(out@)[k]).id
                        == x) || spec_count_of(old(store).count_cache@, x, find_fact(fs, x)) <= 0,
            forall|a: int, b: int|
                0 <= a < b < sessions_view(out@).len() ==> (#[trigger] sessions_view(out@)[a].id)
                    != (#[trigger] sessions_view(out@)[b].id),
            forall|k: int|
                0 <= k < sessions_view(out@).len() ==> !old(store).hidden@.contains_key(
                    (#[trigger] sessions_view(out@)[k]).id,
                ),
            forall|k: int|
                0 <= k < sessions_view(out@).len() ==> listed_ok(
                    *old(store),
                    rs,
                    fs,
                    #[trigger] sessions_view(out@)[k],
                ),
            forall|j2: int|
                0 <= j2 < rs.len() ==> match resolve_entry(#[trigger] rs[j2], fs) {
                    Option::Some(id) => old(store).hidden@.contains_key(id) || exists|k: int|
                        0 <= k < sessions_view(out@).len() && (#[trigger] sessions_view(out@)[k]).id
                            == id,
                    Option::None => true,
                },
            forall|k: int|
                0 <= k < i ==> ({
                    let id = #[trigger] (ids@[k]@);
                    (!old(store).hidden@.contains_key(id) && (forall|j2: int|
                        0 <= j2 < rs.len() ==> resolve_entry(#[trigger] rs[j2], fs)
                            != Option::Some(id)) && spec_count_of(
                        old(store).count_cache@,
                        id,
                        find_fact(fs, id),
                    ) > 0) ==> exists|k2: int|
                        0 <= k2 < sessions_view(out@).len() && (#[trigger] sessions_view(
                            out@,
                        )[k2]).id == id
                }),
        decreases ids@.len() - i,
    {
        let id = ids[i].clone();
        let already = crate::tail::contains_string(&seen, &id);
        let hidden_now = store.hidden.contains(&id);
        if !already && !hidden_now {
            let ghost seen_before = seen_set;
            let ghost cc0 = store.count_cache@;
            proof {
                assert(!seen_before.contains(id@));
                assert(cc0.contains_key(id@) <==> old(store).count_cache@.contains_key(id@));
                assert(old(store).count_cache@.contains_key(id@) ==> cc0[id@] == old(
                    store,
                ).count_cache@[id@]);
                crate::tail::lemma_ids_push(seen@, seen_set, id);
                seen_set = seen_set.insert(id@);
            }
            seen.push(id.clone());
            let fact = find_fact_exec(files, &id);
            let count: usize = match fact {
                Option::Some(f) => {
                    match &f.content {
                        Option::Some(c) => store.message_count(&id, f.size, Option::Some(c)),
                        Option::None => store.message_count(&id, f.size, Option::None),
                    }
                },
                Option::None => 0,
            };
            proof {
                assert(count == spec_count_of(cc0, id@, find_fact(fs, id@)));
                assert(count == spec_count_of(old(store).count_cache@, id@, find_fact(fs, id@)));
                assert forall|x: Seq<char>| !seen_set.contains(x) implies ((
                store.count_cache@.contains_key(x) <==> old(store).count_cache@.contains_key(x)) && (
                old(store).count_cache@.contains_key(x) ==> store.count_cache@[x] == old(
                    store,
                ).count_cache@[x])) by {
                    assert(x != id@);
                }
            }
            if count > 0 {
                let f = match fact {
                    Option::Some(f) => f,
                    Option::None => vstd::pervasive::unreached(),
                };
                let display: String = match &f.content {
                    Option::Some(c) => first_user_display(c.as_slice(), id.as_str()),
                    Option::None => id.clone(),
                };
                let project = decode_project_path(f.encoded_project.as_str());
                let sess = build_session(
                    &*store,
                    id,
                    display,
                    f.created_ms,
                    f.mtime_ms,
                    project,
                    count,
                );
                proof {
                    assert(session_common_ok(*old(store), sess@));
                    assert forall|j2: int| 0 <= j2 < rs.len() implies resolve_entry(
                        #[trigger] rs[j2],
                        fs,
                    ) != Option::Some(sess@.id) by {
                        if resolve_entry(rs[j2], fs) == Option::Some(sess@.id) {
                            assert(old(store).hidden@.contains_key(sess@.id)
                                || seen_before.contains(sess@.id));
                        }
                    }
                    assert(find_fact(fs, sess@.id) matches Option::Some(ff) && ff == f@);
                    assert(orphan_session_ok(*old(store), fs, sess@));
                    assert(listed_ok(*old(store), rs, fs, sess@));
                }
                let ghost old_sv = sessions_view(out@);
                out.push(sess);
                proof {
                    assert(sessions_view(out@) =~= old_sv.push(sess@));
                    assert forall|x: Seq<char>| #[trigger] seen_set.contains(x) implies (exists|
                        k: int,
                    |
                        0 <= k < sessions_view(out@).len() && (#[trigger] sessions_view(out@)[k]).id
                            == x) || spec_count_of(old(store).count_cache@, x, find_fact(fs, x))
                        <= 0 by {
                        if x == sess@.id {
                            assert(sessions_view(out@)[old_sv.len() as int].id == x);
                        } else if seen_before.contains(x) {
                            if exists|k: int|
                                0 <= k < old_sv.len() && (#[trigger] old_sv[k]).id == x {
                                let k = choose|k: int|
                                    0 <= k < old_sv.len() && (#[trigger] old_sv[k]).id == x;
                                assert(sessions_view(out@)[k].id == x);
                            }
                        }
                    }
                    assert forall|j2: int| 0 <= j2 < rs.len() implies match resolve_entry(
                        #[trigger] rs[j2],
                        fs,
                    ) {
                        Option::Some(rid2) => old(store).hidden@.contains_key(rid2) || exists|
                            k: int,
                        |
                            0 <= k < sessions_view(out@).len() && (#[trigger] sessions_view(
                                out@,
                            )[k]).id == rid2,
                        Option::None => true,
                    } by {
                        match resolve_entry(rs[j2], fs) {
                            Option::Some(rid2) => {
                                if !old(store).hidden@.contains_key(rid2) {
                                    let k = choose|k: int|
                                        0 <= k < old_sv.len() && (#[trigger] old_sv[k]).id == rid2;
                                    assert(sessions_view(out@)[k].id == rid2);
                                }
                            },
                            Option::None => {},
                        }
                    }
                    assert forall|k: int| 0 <= k < i + 1 implies ({
                        let oid = #[trigger] (ids@[k]@);
                        (!old(store).hidden@.contains_key(oid) && (forall|j2: int|
                            0 <= j2 < rs.len() ==> resolve_entry(#[trigger] rs[j2], fs)
                                != Option::Some(oid)) && spec_count_of(
                            old(store).count_cache@,
                            oid,
                            find_fact(fs, oid),
                        ) > 0) ==> exists|k2: int|
                            0 <= k2 < sessions_view(out@).len() && (#[trigger] sessions_view(
                                out@,
                            )[k2]).id == oid
                    }) by {
                        let oid = ids@[k]@;
                        if k < i {
                            if !old(store).hidden@.contains_key(oid) && (forall|j2: int|
                                0 <= j2 < rs.len() ==> resolve_entry(#[trigger] rs[j2], fs)
                                    != Option::Some(oid)) && spec_count_of(
                                old(store).count_cache@,
                                oid,
                                find_fact(fs, oid),
                            ) > 0 {
                                let k2 = choose|k2: int|
                                    0 <= k2 < old_sv.len() && (#[trigger] old_sv[k2]).id == oid;
                                assert(sessions_view(out@)[k2].id == oid);
                            }
                        } else {
                            assert(sessions_view(out@)[old_sv.len() as int].id == sess@.id);
                        }
                    }
                }
            } else {
                proof {
                    assert(spec_count_of(old(store).count_cache@, id@, find_fact(fs, id@)) <= 0);
                }
            }
        } else {
            proof {
                if !hidden_now {
                    // a seen id is either already listed or known empty
                    assert(seen_set.contains(id@));
                }
            }
        }
        i = i + 1;
    }
    let ghost pre = out@;
    proof {
        assert forall|a: int, b: int| 0 <= a < b < pre.len() implies (#[trigger] pre[a].id@) != (
        #[trigger] pre[b].id@) by {
            assert(sessions_view(pre)[a].id == pre[a].id@);
            assert(sessions_view(pre)[b].id == pre[b].id@);
        }
    }
    let sorted = sort_sessions(out);
    proof {
        let sv = sessions_view(sorted@);
        let pv = sessions_view(pre);
        assert forall|a: int, b: int| 0 <= a <= b < sv.len() implies (
        #[trigger] sv[a].last_activity) >= (#[trigger] sv[b].last_activity) by {
            assert(sv[a] == sorted@[a]@);
            assert(sv[b] == sorted@[b]@);
        }
        assert forall|a: int, b: int| 0 <= a < b < sv.len() implies (#[trigger] sv[a].id) != (
        #[trigger] sv[b].id) by {
            assert(sv[a] == sorted@[a]@);
            assert(sv[b] == sorted@[b]@);
        }
        assert forall|k: int|
            0 <= k < sv.len() implies !old(store).hidden@.contains_key((#[trigger] sv[k]).id)
            && listed_ok(*old(store), rs, fs, sv[k]) by {
            assert(pre.contains(sorted@[k]));
            let k0 = choose|k0: int| 0 <= k0 < pre.len() && pre[k0] == sorted@[k];
            assert(pv[k0] == sv[k]);
        }
        assert forall|j2: int| 0 <= j2 < rs.len() implies match resolve_entry(
            #[trigger] rs[j2],
            fs,
        ) {
            Option::Some(id) => old(store).hidden@.contains_key(id) || exists|k: int|
                0 <= k < sv.len() && (#[trigger] sv[k]).id == id,
            Option::None => true,
        } by {
            match resolve_entry(rs[j2], fs) {
                Option::Some(id) => {
                    if !old(store).hidden@.contains_key(id) {
                        let k0 = choose|k0: int|
                            0 <= k0 < pv.len() && (#[trigger] pv[k0]).id == id;
                        assert(sorted@.contains(pre[k0]));
                        let k = choose|k: int| 0 <= k < sorted@.len() && sorted@[k] == pre[k0];
                        assert(sv[k].id == id);
                    }
                },
                Option::None => {},
            }
        }
        assert forall|id: Seq<char>|
            (#[trigger] old(store).file_index@.contains_key(id) && !old(
                store,
            ).hidden@.contains_key(id) && (forall|j2: int|
                0 <= j2 < rs.len() ==> resolve_entry(#[trigger] rs[j2], fs) != Option::Some(id))
                && spec_count_of(old(store).count_cache@, id, find_fact(fs, id)) > 0) implies exists|
            k: int,
        | 0 <= k < sv.len() && (#[trigger] sv[k]).id == id by {
            let k0 = choose|k0: int| 0 <= k0 < pv.len() && (#[trigger] pv[k0]).id == id;
            assert(sorted@.contains(pre[k0]));
            let k = choose|k: int| 0 <= k < sorted@.len() && sorted@[k] == pre[k0];
            assert(sv[k].id == id);
        }
    }
    sorted
}

/// A deleted session never comes back: deletion hides its id, no listing
/// holds a hidden id, so the id never appears in any later listing; the
/// hidden list is persisted append-only, so this survives a restart.
pub proof fn lemma_hidden_never_listed(st: SessionStore, sv: Seq<SpecSession>, id: Seq<char>)
    requires
        st.hidden@.contains_key(id),
        forall|k: int| 0 <= k < sv.len() ==> !st.hidden@.contains_key((#[trigger] sv[k]).id),
    ensures
        forall|k: int| 0 <= k < sv.len() ==> (#[trigger] sv[k]).id != id,
{
}

/// An exact copy of a listed session.
pub fn clone_session(s: &Session) -> (r: Session)
    ensures
        r@ == s@,
{
    Session {
        id: s.id.clone(),
        display: s.display.clone(),
        timestamp: s.timestamp,
        last_activity: s.last_activity,
        project: s.project.clone(),
        project_name: s.project_name.clone(),
        message_count: s.message_count,
        status: s.status,
        pane_id: clone_opt_string(&s.pane_id),
        pane_verified: s.pane_verified,
        mux_session: clone_opt_string(&s.mux_session),
        permission_message: clone_opt_string(&s.permission_message),
        question_data: clone_opt_string(&s.question_data),
        slug: clone_opt_string(&s.slug),
        summary: clone_opt_string(&s.summary),
    }
}

/// The views of the (id, last activity, status) snapshots a stream keeps.
pub open spec fn known_view(v: Seq<(String, u64, Option<SessionStatusValue>)>) -> Seq<
    (Seq<char>, u64, Option<SessionStatusValue>),
> {
    v.map_values(|k: (String, u64, Option<SessionStatusValue>)| (k.0@, k.1, k.2))
}

/// The snapshot recorded for `id`, the first entry winning.
pub open spec fn known_entry(
    ks: Seq<(Seq<char>, u64, Option<SessionStatusValue>)>,
    id: Seq<char>,
) -> Option<(u64, Option<SessionStatusValue>)>
    decreases ks.len(),
{
    if ks.len() == 0 {
        Option::None
    } else if ks.first().0 == id {
        Option::Some((ks.first().1, ks.first().2))
    } else {
        known_entry(ks.drop_first(), id)
    }
}

/// The sessions whose recorded snapshot is missing or differs, in order.
pub open spec fn spec_changed(
    ks: Seq<(Seq<char>, u64, Option<SessionStatusValue>)>,
    cur: Seq<SpecSession>,
) -> Seq<SpecSession>
    decreases cur.len(),
{
    if cur.len() == 0 {
        Seq::empty()
    } else {
        spec_changed(ks, cur.drop_last()) + (if known_entry(ks, cur.last().id) == Option::Some(
            (cur.last().last_activity, cur.last().status),
        ) {
            Seq::empty()
        } else {
            seq![cur.last()]
        })
    }
}

/// Whether two statuses are the same.
fn status_eq(a: Option<SessionStatusValue>, b: Option<SessionStatusValue>) -> (r: bool)
    ensures
        r == (a == b),
{
    match (a, b) {
        (Option::None, Option::None) => true,
        (Option::Some(x), Option::Some(y)) => x == y,
        _ => false,
    }
}

/// Look an id up among the recorded snapshots.
fn known_lookup(known: &Vec<(String, u64, Option<SessionStatusValue>)>, id: &String) -> (r: Option<
    (u64, Option<SessionStatusValue>),
>)
    ensures
        r == known_entry(known_view(known@), id@),
{
    let ghost ks = known_view(known@);
    let mut i: usize = 0;
    proof {
        assert(ks.skip(0) =~= ks);
    }
    while i < known.len()
        invariant
            i <= known@.len(),
            ks == known_view(known@),
            known_entry(ks, id@) == known_entry(ks.skip(i as int), id@),
        decreases known@.len() - i,
    {
        proof {
            assert(ks.skip(i as int).first() == ks[i as int]);
            assert(ks.skip(i as int).drop_first() =~= ks.skip(i + 1));
        }
        if str_eq(known[i].0.as_str(), id.as_str()) {
            return Option::Some((known[i].1, known[i].2));
        }
        i = i + 1;
    }
    proof {
        assert(ks.skip(ks.len() as int) =~= Seq::<
            (Seq<char>, u64, Option<SessionStatusValue>),
        >::empty());
    }
    Option::None
}

/// The (id, last activity, status) snapshot of each session, in order.
pub open spec fn snaps_of(cur: Seq<SpecSession>) -> Seq<
    (Seq<char>, u64, Option<SessionStatusValue>),
> {
    cur.map_values(|s: SpecSession| (s.id, s.last_activity, s.status))
}

/// Whether some current session carries this id.
pub open spec fn has_id(cur: Seq<SpecSession>, id: Seq<char>) -> bool {
    exists|j: int| 0 <= j < cur.len() && (#[trigger] cur[j]).id == id
}

/// The recorded snapshots whose session is absent from the current listing,
/// in recorded order: a vanished session keeps its snapshot, so it is not
/// re-emitted should it reappear unchanged.
pub open spec fn kept_known(
    ks: Seq<(Seq<char>, u64, Option<SessionStatusValue>)>,
    cur: Seq<SpecSession>,
) -> Seq<(Seq<char>, u64, Option<SessionStatusValue>)>
    decreases ks.len(),
{
    if ks.len() == 0 {
        Seq::empty()
    } else {
        kept_known(ks.drop_last(), cur) + (if has_id(cur, ks.last().0) {
            Seq::empty()
        } else {
            seq![ks.last()]
        })
    }
}

/// Whether the current listing carries this id.
fn id_listed(current: &Vec<Session>, id: &String) -> (r: bool)
    ensures
        r == has_id(sessions_view(current@), id@),
{
    let ghost cv = sessions_view(current@);
    let mut j: usize = 0;
    while j < current.len()
        invariant
            j <= current@.len(),
            cv == sessions_view(current@),
            forall|j2: int| 0 <= j2 < j ==> (#[trigger] cv[j2]).id != id@,
        decreases current@.len() - j,
    {
        if str_eq(current[j].id.as_str(), id.as_str()) {
            proof {
                assert(cv[j as int].id == id@);
            }
            return true;
        }
        j = j + 1;
    }
    false
}

/// One roster-stream step: the sessions whose last activity or status
/// changed since the snapshots in `known` were taken (or which are new),
/// in listing order, together with the snapshots to keep: the fresh ones of
/// every current session, overlaid on the old ones of every session absent
/// from the listing — a vanished session that reappears unchanged is not
/// re-emitted.
pub fn session_updates(
    known: &Vec<(String, u64, Option<SessionStatusValue>)>,
    current: &Vec<Session>,
) -> (r: (Vec<Session>, Vec<(String, u64, Option<SessionStatusValue>)>))
    ensures
        sessions_view(r.0@) == spec_changed(known_view(known@), sessions_view(current@)),
        known_view(r.1@) == snaps_of(sessions_view(current@)) + kept_known(
            known_view(known@),
            sessions_view(current@),
        ),
{
    let ghost ks = known_view(known@);
    let ghost cv = sessions_view(current@);
    let mut changed: Vec<Session> = Vec::new();
    let mut fresh: Vec<(String, u64, Option<SessionStatusValue>)> = Vec::new();
    let mut i: usize = 0;
    while i < current.len()
        invariant
            i <= current@.len(),
            ks == known_view(known@),
            cv == sessions_view(current@),
            sessions_view(changed@) == spec_changed(ks, cv.take(i as int)),
            known_view(fresh@) =~= snaps_of(cv).take(i as int),
        decreases current@.len() - i,
    {
        let s = &current[i];
        proof {
            assert(cv.take(i + 1).drop_last() =~= cv.take(i as int));
            assert(cv.take(i + 1).last() == cv[i as int]);
            assert(cv[i as int] == current@[i as int]@);
        }
        let same: bool = match known_lookup(known, &s.id) {
            Option::Some((la, st)) => la == s.last_activity && status_eq(st, s.status),
            Option::None => false,
        };
        if !same {
            let ghost old_changed = sessions_view(changed@);
            changed.push(clone_session(s));
            proof {
                assert(sessions_view(changed@) =~= old_changed.push(cv[i as int]));
                assert(old_changed + seq![cv[i as int]] =~= sessions_view(changed@));
            }
        } else {
            proof {
                assert(spec_changed(ks, cv.take(i + 1)) =~= spec_changed(ks, cv.take(i as int)));
            }
        }
        let ghost old_fresh = known_view(fresh@);
        fresh.push((s.id.clone(), s.last_activity, s.status));
        proof {
            assert(known_view(fresh@) =~= old_fresh.push(snaps_of(cv)[i as int]));
            assert(known_view(fresh@) =~= snaps_of(cv).take(i + 1));
        }
        i = i + 1;
    }
    proof {
        assert(cv.take(cv.len() as int) =~= cv);
        assert(snaps_of(cv).take(snaps_of(cv).len() as int) =~= snaps_of(cv));
    }
    // keep the snapshot of every session the listing no longer shows
    let mut k: usize = 0;
    while k < known.len()
        invariant
            k <= known@.len(),
            ks == known_view(known@),
            cv == sessions_view(current@),
            sessions_view(changed@) == spec_changed(ks, cv),
            known_view(fresh@) =~= snaps_of(cv) + kept_known(ks.take(k as int), cv),
        decreases known@.len() - k,
    {
        proof {
            assert(ks.take(k + 1).drop_last() =~= ks.take(k as int));
            assert(ks.take(k + 1).last() == ks[k as int]);
        }
        if !id_listed(current, &known[k].0) {
            let ghost old_fresh = known_view(fresh@);
            fresh.push((known[k].0.clone(), known[k].1, known[k].2));
            proof {
                assert(known_view(fresh@) =~= old_fresh.push(ks[k as int]));
                assert(known_view(fresh@) =~= snaps_of(cv) + kept_known(ks.take(k + 1), cv));
            }
        } else {
            proof {
                assert(kept_known(ks.take(k + 1), cv) =~= kept_known(ks.take(k as int), cv));
            }
        }
        k = k + 1;
    }
    proof {
        assert(ks.take(ks.len() as int) =~= ks);
    }
    (changed, fresh)
}

} // verus!
