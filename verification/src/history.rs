//! The roster log: parsing its entries, encoding project paths into
//! filesystem-safe directory names, resolving entries without a session id by
//! nearest file-modification time, rewriting the log on deletion, and the
//! durable hidden-session list.
//!
//! Timestamps are integer milliseconds throughout.

use vstd::prelude::*;
use crate::json::{json_str_field, json_u64_field, json_wf, json_get_str, json_get_u64,
    json_is_valid};
use crate::tail::{is_blank_line, is_ascii_blank};
use crate::convo::{lines_view, spec_lines, split_lines};
use crate::text::{bytes_to_string, chars_of, lemma_str_le_refl, lemma_str_le_total,
    lemma_str_le_trans, str_eq, str_le, str_le_exec, string_of};
use crate::tail::contains_string;
use vstd::string::StringSliceAdditionalSpecFns;

verus! {

/// One roster-log line: display text, timestamp, project path, and the
/// session id that newer entries carry.
pub struct HistoryEntry {
    pub display: String,
    pub timestamp: u64,
    pub project: String,
    pub session_id: Option<String>,
}

/// The mathematical image of a roster entry.
pub ghost struct SpecHistoryEntry {
    pub display: Seq<char>,
    pub timestamp: u64,
    pub project: Seq<char>,
    pub session_id: Option<Seq<char>>,
}

impl View for HistoryEntry {
    type V = SpecHistoryEntry;

    open spec fn view(&self) -> SpecHistoryEntry {
        SpecHistoryEntry {
            display: self.display@,
            timestamp: self.timestamp,
            project: self.project@,
            session_id: match self.session_id {
                Option::Some(s) => Option::Some(s@),
                Option::None => Option::None,
            },
        }
    }
}

/// The views of an entry vector.
pub open spec fn entries_view(v: Seq<HistoryEntry>) -> Seq<SpecHistoryEntry> {
    v.map_values(|e: HistoryEntry| e@)
}

/// The roster entry a line holds: it must be a JSON document with string
/// `display` and `project` and an integer `timestamp`; `sessionId` is
/// optional.
pub open spec fn entry_of(l: Seq<u8>) -> Option<SpecHistoryEntry> {
    if !json_wf(l) {
        Option::None
    } else {
        match (json_str_field(l, "display"@), json_str_field(l, "project"@), json_u64_field(
            l,
            "timestamp"@,
        )) {
            (Option::Some(d), Option::Some(p), Option::Some(t)) => Option::Some(
                SpecHistoryEntry {
                    display: d,
                    timestamp: t,
                    project: p,
                    session_id: json_str_field(l, "sessionId"@),
                },
            ),
            _ => Option::None,
        }
    }
}

/// Parse one roster-log line.
pub fn parse_history_line(l: &[u8]) -> (r: Option<HistoryEntry>)
    ensures
        r is Some <==> entry_of(l@) is Some,
        r matches Some(e) ==> entry_of(l@) == Some(e@),
{
    if !json_is_valid(l) {
        return Option::None;
    }
    let display = json_get_str(l, "display");
    let project = json_get_str(l, "project");
    let timestamp = json_get_u64(l, "timestamp");
    match (display, project, timestamp) {
        (Option::Some(d), Option::Some(p), Option::Some(t)) => Option::Some(
            HistoryEntry {
                display: d,
                timestamp: t,
                project: p,
                session_id: json_get_str(l, "sessionId"),
            },
        ),
        _ => Option::None,
    }
}

/// The entries of the roster-log lines, in order, lines that do not parse
/// skipped.
pub open spec fn hist_entries(ls: Seq<Seq<u8>>) -> Seq<SpecHistoryEntry>
    decreases ls.len(),
{
    if ls.len() == 0 {
        Seq::empty()
    } else {
        hist_entries(ls.drop_last()) + match entry_of(ls.last()) {
            Option::Some(e) => seq![e],
            Option::None => Seq::empty(),
        }
    }
}

/// Parse the whole roster log.
pub fn parse_history(content: &[u8]) -> (r: Vec<HistoryEntry>)
    ensures
        entries_view(r@) == hist_entries(spec_lines(content@, 0)),
{
    let lines = split_lines(content);
    let ghost lsv = lines_view(lines@);
    let mut out: Vec<HistoryEntry> = Vec::new();
    let mut i: usize = 0;
    while i < lines.len()
        invariant
            i <= lines@.len(),
            lsv == lines_view(lines@),
            entries_view(out@) == hist_entries(lsv.take(i as int)),
        decreases lines@.len() - i,
    {
        proof {
            assert(lsv.take(i + 1).drop_last() =~= lsv.take(i as int));
            assert(lsv.take(i + 1).last() == lsv[i as int]);
        }
        match parse_history_line(lines[i].as_slice()) {
            Option::Some(e) => {
                let ghost old_out = out@;
                out.push(e);
                proof {
                    assert(entries_view(out@) =~= entries_view(old_out).push(
                        entry_of(lsv[i as int])->Some_0,
                    ));
                    assert(entries_view(old_out) + seq![entry_of(lsv[i as int])->Some_0]
                        =~= entries_view(out@));
                }
            },
            Option::None => {
                proof {
                    assert(hist_entries(lsv.take(i + 1)) =~= hist_entries(lsv.take(i as int)));
                }
            },
        }
        i = i + 1;
    }
    proof {
        assert(lsv.take(lsv.len() as int) =~= lsv);
    }
    out
}

/// A project path as a filesystem-safe directory name: every separator and
/// every dot becomes a dash.  Decoding is lossy for paths that already held
/// a dash, a known approximation of the on-disk format.
pub open spec fn spec_encode_project(s: Seq<char>) -> Seq<char> {
    s.map_values(
        |c: char|
            if c == '/' || c == '.' {
                '-'
            } else {
                c
            },
    )
}

/// Encode a project path into the directory name that stores its sessions.
pub fn encode_project_path(path: &str) -> (r: String)
    ensures
        r@ == spec_encode_project(path@),
{
    let cs = chars_of(path);
    let mut out: Vec<char> = Vec::new();
    let mut i: usize = 0;
    while i < cs.len()
        invariant
            i <= cs@.len(),
            cs@ == path@,
            out@ =~= spec_encode_project(path@.subrange(0, i as int)),
        decreases cs@.len() - i,
    {
        let c = cs[i];
        if c == '/' || c == '.' {
            out.push('-');
        } else {
            out.push(c);
        }
        proof {
            assert(path@.subrange(0, i + 1).drop_last() =~= path@.subrange(0, i as int));
            assert(out@ =~= spec_encode_project(path@.subrange(0, i + 1)));
        }
        i = i + 1;
    }
    proof {
        assert(path@.subrange(0, path@.len() as int) =~= path@);
    }
    string_of(&out)
}

/// Decoding turns every dash of an encoded name back into a separator; a dot
/// that was encoded is not recovered.
pub open spec fn spec_decode_project(s: Seq<char>) -> Seq<char> {
    if s.len() > 0 && s.first() == '-' {
        s.map_values(
            |c: char|
                if c == '-' {
                    '/'
                } else {
                    c
                },
        )
    } else {
        s
    }
}

/// Decode an encoded project directory name back into a path.
pub fn decode_project_path(encoded: &str) -> (r: String)
    ensures
        r@ == spec_decode_project(encoded@),
{
    let cs = chars_of(encoded);
    if cs.len() == 0 || cs[0] != '-' {
        return encoded.to_owned();
    }
    let mut out: Vec<char> = Vec::new();
    let mut i: usize = 0;
    while i < cs.len()
        invariant
            i <= cs@.len(),
            cs@ == encoded@,
            out@ =~= encoded@.subrange(0, i as int).map_values(
                |c: char|
                    if c == '-' {
                        '/'
                    } else {
                        c
                    },
            ),
        decreases cs@.len() - i,
    {
        let c = cs[i];
        if c == '-' {
            out.push('/');
        } else {
            out.push(c);
        }
        proof {
            assert(encoded@.subrange(0, i + 1).drop_last() =~= encoded@.subrange(0, i as int));
            assert(out@ =~= encoded@.subrange(0, i + 1).map_values(
                |c: char|
                    if c == '-' {
                        '/'
                    } else {
                        c
                    },
            ));
        }
        i = i + 1;
    }
    proof {
        assert(encoded@.subrange(0, encoded@.len() as int) =~= encoded@);
    }
    string_of(&out)
}

/// The position of the last character that is not a separator.
pub open spec fn last_non_slash(s: Seq<char>, i: int) -> Option<int>
    decreases i when i <= s.len()
{
    if i <= 0 {
        Option::None
    } else if s[i - 1] != '/' {
        Option::Some(i - 1)
    } else {
        last_non_slash(s, i - 1)
    }
}

/// The start of the separator-free segment that ends at `e`.
pub open spec fn seg_start(s: Seq<char>, e: int) -> int
    decreases e when 0 <= e <= s.len()
{
    if e <= 0 {
        0
    } else if s[e - 1] == '/' {
        e
    } else {
        seg_start(s, e - 1)
    }
}

/// The name of a project: the last non-empty segment of its path, or the
/// path itself when every segment is empty.
pub open spec fn spec_project_name(s: Seq<char>) -> Seq<char> {
    match last_non_slash(s, s.len() as int) {
        Option::None => s,
        Option::Some(e) => s.subrange(seg_start(s, e + 1), e + 1),
    }
}

/// Derive the short project name from a project path.
pub fn get_project_name(project_path: &str) -> (r: String)
    ensures
        r@ == spec_project_name(project_path@),
{
    let cs = chars_of(project_path);
    let ghost s = project_path@;
    let mut i: usize = cs.len();
    while i > 0 && cs[i - 1] == '/'
        invariant
            i <= cs@.len(),
            cs@ == s,
            last_non_slash(s, s.len() as int) == last_non_slash(s, i as int),
        decreases i,
    {
        i = i - 1;
    }
    if i == 0 {
        return project_path.to_owned();
    }
    let e: usize = i - 1;
    let mut b: usize = i;
    while b > 0 && cs[b - 1] != '/'
        invariant
            b <= i <= cs@.len(),
            cs@ == s,
            seg_start(s, e + 1) == seg_start(s, b as int),
        decreases b,
    {
        b = b - 1;
    }
    let mut out: Vec<char> = Vec::new();
    let mut k: usize = b;
    while k <= e
        invariant
            b <= k <= e + 1,
            e < cs@.len() <= usize::MAX,
            cs@ == s,
            out@ =~= s.subrange(b as int, k as int),
        decreases e + 1 - k,
    {
        out.push(cs[k]);
        k = k + 1;
    }
    proof {
        assert(last_non_slash(s, s.len() as int) == Option::Some(e as int));
        assert(seg_start(s, e + 1) == b as int);
        assert(out@ =~= s.subrange(b as int, e + 1));
    }
    string_of(&out)
}

/// The absolute difference of two timestamps.
pub open spec fn abs_diff(a: u64, b: u64) -> int {
    if a >= b {
        a - b
    } else {
        b - a
    }
}

/// Fold over the candidate files: keep the earliest one whose modification
/// time lies strictly closest to `ts`.
pub open spec fn nearest_from(fs: Seq<(Seq<char>, u64)>, ts: u64, i: int, best: Option<
    (Seq<char>, u64),
>) -> Option<(Seq<char>, u64)>
    decreases fs.len() - i when 0 <= i <= fs.len()
{
    if i >= fs.len() {
        best
    } else {
        let better = match best {
            Option::None => true,
            Option::Some(b) => abs_diff(fs[i].1, ts) < abs_diff(b.1, ts),
        };
        nearest_from(
            fs,
            ts,
            i + 1,
            if better {
                Option::Some(fs[i])
            } else {
                best
            },
        )
    }
}

/// The views of a candidate vector.
pub open spec fn pairs_view(v: Seq<(String, u64)>) -> Seq<(Seq<char>, u64)> {
    v.map_values(|p: (String, u64)| (p.0@, p.1))
}

/// Resolve a roster entry that carries no session id: among the session files
/// of its project directory, the one whose modification time lies closest to
/// the entry's timestamp, the earliest candidate winning ties.
pub fn nearest_by_mtime(files: &Vec<(String, u64)>, ts: u64) -> (r: Option<String>)
    ensures
        r is Some <==> nearest_from(pairs_view(files@), ts, 0, Option::None) is Some,
        r matches Some(name) ==> nearest_from(pairs_view(files@), ts, 0, Option::None) matches Some(
            b,
        ) && b.0 == name@,
{
    let ghost fs = pairs_view(files@);
    let mut best: Option<(String, u64)> = Option::None;
    let mut i: usize = 0;
    while i < files.len()
        invariant
            i <= files@.len(),
            fs == pairs_view(files@),
            nearest_from(fs, ts, 0, Option::None) == nearest_from(
                fs,
                ts,
                i as int,
                match best {
                    Option::Some(b) => Option::Some((b.0@, b.1)),
                    Option::None => Option::None::<(Seq<char>, u64)>,
                },
            ),
        decreases files@.len() - i,
    {
        let better = match &best {
            Option::None => true,
            Option::Some(b) => {
                let cand = &files[i];
                let d_new: u64 = if cand.1 >= ts {
                    cand.1 - ts
                } else {
                    ts - cand.1
                };
                let d_old: u64 = if b.1 >= ts {
                    b.1 - ts
                } else {
                    ts - b.1
                };
                d_new < d_old
            },
        };
        if better {
            best = Option::Some((files[i].0.clone(), files[i].1));
            proof {
                assert(best matches Option::Some(b) && (b.0@, b.1) == fs[i as int]);
            }
        }
        i = i + 1;
    }
    match best {
        Option::Some(b) => Option::Some(b.0),
        Option::None => Option::None,
    }
}

/// Whether a roster line names the deleted session.
pub open spec fn line_matches_id(l: Seq<u8>, id: Seq<char>) -> bool {
    match entry_of(l) {
        Option::Some(e) => e.session_id == Option::Some(id),
        Option::None => false,
    }
}

/// The non-blank roster lines.
pub open spec fn nonblank_lines(ls: Seq<Seq<u8>>) -> Seq<Seq<u8>>
    decreases ls.len(),
{
    if ls.len() == 0 {
        Seq::empty()
    } else {
        nonblank_lines(ls.drop_last()) + if is_blank_line(ls.last()) {
            Seq::empty()
        } else {
            seq![ls.last()]
        }
    }
}

/// The roster lines kept when session `id` is deleted.
pub open spec fn kept_lines(ls: Seq<Seq<u8>>, id: Seq<char>) -> Seq<Seq<u8>>
    decreases ls.len(),
{
    if ls.len() == 0 {
        Seq::empty()
    } else {
        kept_lines(ls.drop_last(), id) + if is_blank_line(ls.last()) || line_matches_id(
            ls.last(),
            id,
        ) {
            Seq::empty()
        } else {
            seq![ls.last()]
        }
    }
}

/// Lines joined by single line breaks, without a trailing one.
pub open spec fn join_lines(ls: Seq<Seq<u8>>) -> Seq<u8>
    decreases ls.len(),
{
    if ls.len() == 0 {
        Seq::empty()
    } else if ls.len() == 1 {
        ls.last()
    } else {
        join_lines(ls.drop_last()) + seq![10u8] + ls.last()
    }
}

/// Rewrite the roster log without the lines that name session `id`.  The new
/// bytes always come back; whether any line was dropped comes back beside
/// them, so the caller can skip the write when nothing changed.
pub fn rewrite_history(content: &[u8], id: &str) -> (r: (Vec<u8>, bool))
    ensures
        ({
            let ls = spec_lines(content@, 0);
            &&& r.0@ == join_lines(kept_lines(ls, id@)) + seq![10u8]
            &&& (r.1 <==> kept_lines(ls, id@).len() != nonblank_lines(ls).len())
        }),
{
    let lines = split_lines(content);
    let ghost lsv = lines_view(lines@);
    let mut kept: Vec<Vec<u8>> = Vec::new();
    let mut nonblank: usize = 0;
    let mut i: usize = 0;
    while i < lines.len()
        invariant
            i <= lines@.len(),
            lsv == lines_view(lines@),
            nonblank == nonblank_lines(lsv.take(i as int)).len(),
            nonblank <= i,
            lines_view(kept@) == kept_lines(lsv.take(i as int), id@),
        decreases lines@.len() - i,
    {
        proof {
            assert(lsv.take(i + 1).drop_last() =~= lsv.take(i as int));
            assert(lsv.take(i + 1).last() == lsv[i as int]);
        }
        let line = lines[i].as_slice();
        if !crate::tail::is_blank(line) {
            nonblank = nonblank + 1;
            let drop_it: bool = match parse_history_line(line) {
                Option::Some(e) => match &e.session_id {
                    Option::Some(sid) => str_eq(sid.as_str(), id),
                    Option::None => false,
                },
                Option::None => false,
            };
            if !drop_it {
                let ghost old_kept = kept@;
                kept.push(vstd::slice::slice_to_vec(line));
                proof {
                    assert(lines_view(kept@) =~= lines_view(old_kept).push(lsv[i as int]));
                    assert(lines_view(old_kept) + seq![lsv[i as int]] =~= lines_view(kept@));
                }
            } else {
                proof {
                    assert(kept_lines(lsv.take(i + 1), id@) =~= kept_lines(
                        lsv.take(i as int),
                        id@,
                    ));
                }
            }
        } else {
            proof {
                assert(kept_lines(lsv.take(i + 1), id@) =~= kept_lines(lsv.take(i as int), id@));
                assert(nonblank_lines(lsv.take(i + 1)) =~= nonblank_lines(lsv.take(i as int)));
            }
        }
        i = i + 1;
    }
    proof {
        assert(lsv.take(lsv.len() as int) =~= lsv);
    }
    let changed: bool = kept.len() != nonblank;
    let ghost kv = lines_view(kept@);
    let mut out: Vec<u8> = Vec::new();
    let mut i: usize = 0;
    while i < kept.len()
        invariant
            i <= kept@.len(),
            kv == lines_view(kept@),
            out@ == join_lines(kv.take(i as int)),
        decreases kept@.len() - i,
    {
        proof {
            assert(kv.take(i + 1).drop_last() =~= kv.take(i as int));
            assert(kv.take(i + 1).last() == kv[i as int]);
        }
        if i > 0 {
            out.push(10);
        }
        let ghost mid = out@;
        out.extend_from_slice(kept[i].as_slice());
        proof {
            if i == 0 {
                assert(out@ =~= kv[0]);
                assert(join_lines(kv.take(1)) == kv.take(1).last());
                assert(kv.take(1).last() == kv[0]);
            } else {
                assert(out@ =~= join_lines(kv.take(i as int)) + seq![10u8] + kv[i as int]);
            }
        }
        i = i + 1;
    }
    proof {
        assert(kv.take(kv.len() as int) =~= kv);
    }
    out.push(10);
    proof {
        assert(out@ =~= join_lines(kv) + seq![10u8]);
    }
    (out, changed)
}

/// Leading whitespace removed.
pub open spec fn trim_front(l: Seq<u8>) -> Seq<u8>
    decreases l.len(),
{
    if l.len() > 0 && is_ascii_blank(l.first()) {
        trim_front(l.drop_first())
    } else {
        l
    }
}

/// Trailing whitespace removed.
pub open spec fn trim_back(l: Seq<u8>) -> Seq<u8>
    decreases l.len(),
{
    if l.len() > 0 && is_ascii_blank(l.last()) {
        trim_back(l.drop_last())
    } else {
        l
    }
}

/// Whitespace removed from both ends.
pub open spec fn trim_blank(l: Seq<u8>) -> Seq<u8> {
    trim_back(trim_front(l))
}

/// Trim ASCII whitespace off both ends of a byte string.
pub fn trim_bytes(l: &[u8]) -> (r: Vec<u8>)
    ensures
        r@ == trim_blank(l@),
{
    let n: usize = l.len();
    let mut a: usize = 0;
    proof {
        assert(l@.skip(0) =~= l@);
    }
    loop
        invariant
            a <= n,
            n == l@.len(),
            trim_front(l@) == trim_front(l@.skip(a as int)),
        ensures
            trim_front(l@) == l@.skip(a as int),
        decreases n - a,
    {
        if a >= n {
            proof {
                assert(l@.skip(a as int) =~= Seq::<u8>::empty());
            }
            break;
        }
        let c: u8 = *vstd::slice::slice_index_get(l, a);
        proof {
            assert(l@.skip(a as int).first() == l@[a as int]);
            assert(l@.skip(a as int).drop_first() =~= l@.skip(a + 1));
        }
        if !(c == 32 || (9 <= c && c <= 13)) {
            break;
        }
        a = a + 1;
    }
    let ghost m = l@.skip(a as int);
    let mut b: usize = n;
    proof {
        assert(m.take(n - a) =~= m);
    }
    loop
        invariant
            a <= b <= n,
            n == l@.len(),
            m == l@.skip(a as int),
            trim_back(m) == trim_back(m.take(b - a)),
        ensures
            a <= b <= n,
            trim_back(m) == m.take(b - a),
        decreases b,
    {
        if b <= a {
            proof {
                assert(m.take(b - a) =~= Seq::<u8>::empty());
            }
            break;
        }
        let c: u8 = *vstd::slice::slice_index_get(l, b - 1);
        proof {
            assert(m.take(b - a).last() == l@[b - 1]);
            assert(m.take(b - a).drop_last() =~= m.take(b - 1 - a));
        }
        if !(c == 32 || (9 <= c && c <= 13)) {
            break;
        }
        b = b - 1;
    }
    let r = vstd::slice::slice_to_vec(vstd::slice::slice_subrange(l, a, b));
    proof {
        assert(r@ =~= m.take(b - a));
        assert(trim_blank(l@) == trim_back(m));
    }
    r
}

/// The hidden session identifiers of the deleted-sessions file: one per
/// line, whitespace trimmed, empty and undecodable lines skipped.
pub open spec fn hidden_ids(ls: Seq<Seq<u8>>) -> Seq<Seq<char>>
    decreases ls.len(),
{
    if ls.len() == 0 {
        Seq::empty()
    } else {
        hidden_ids(ls.drop_last()) + {
            let t = trim_blank(ls.last());
            if t.len() > 0 && vstd::utf8::valid_utf8(t) {
                seq![vstd::utf8::decode_utf8(t)]
            } else {
                Seq::empty()
            }
        }
    }
}

/// The views of an identifier vector.
pub open spec fn strings_view(v: Seq<String>) -> Seq<Seq<char>> {
    v.map_values(|s: String| s@)
}

/// Parse the persisted hidden-session list.
pub fn parse_hidden(content: &[u8]) -> (r: Vec<String>)
    ensures
        strings_view(r@) == hidden_ids(spec_lines(content@, 0)),
{
    let lines = split_lines(content);
    let ghost lsv = lines_view(lines@);
    let mut out: Vec<String> = Vec::new();
    let mut i: usize = 0;
    while i < lines.len()
        invariant
            i <= lines@.len(),
            lsv == lines_view(lines@),
            strings_view(out@) == hidden_ids(lsv.take(i as int)),
        decreases lines@.len() - i,
    {
        proof {
            assert(lsv.take(i + 1).drop_last() =~= lsv.take(i as int));
            assert(lsv.take(i + 1).last() == lsv[i as int]);
        }
        let t = trim_bytes(lines[i].as_slice());
        if t.len() > 0 {
            match bytes_to_string(t.as_slice()) {
                Option::Some(id) => {
                    let ghost old_out = out@;
                    out.push(id);
                    proof {
                        assert(strings_view(out@) =~= strings_view(old_out).push(
                            vstd::utf8::decode_utf8(trim_blank(lsv[i as int])),
                        ));
                        assert(strings_view(old_out) + seq![vstd::utf8::decode_utf8(
                            trim_blank(lsv[i as int]),
                        )] =~= strings_view(out@));
                    }
                },
                Option::None => {
                    proof {
                        assert(hidden_ids(lsv.take(i + 1)) =~= hidden_ids(lsv.take(i as int)));
                    }
                },
            }
        } else {
            proof {
                assert(hidden_ids(lsv.take(i + 1)) =~= hidden_ids(lsv.take(i as int)));
            }
        }
        i = i + 1;
    }
    proof {
        assert(lsv.take(lsv.len() as int) =~= lsv);
    }
    out
}

/// The line appended to the deleted-sessions file for one hidden id.
pub fn hidden_line(id: &str) -> (r: Vec<u8>)
    ensures
        r@ == id.spec_bytes() + seq![10u8],
{
    let mut r = id.as_bytes_vec();
    r.push(10);
    proof {
        assert(r@ =~= id.spec_bytes() + seq![10u8]);
    }
    r
}

/// Hidden identifiers distribute over line concatenation.
pub proof fn lemma_hidden_ids_concat(xs: Seq<Seq<u8>>, ys: Seq<Seq<u8>>)
    ensures
        hidden_ids(xs + ys) == hidden_ids(xs) + hidden_ids(ys),
    decreases ys.len(),
{
    if ys.len() == 0 {
        assert(xs + ys =~= xs);
        assert(hidden_ids(xs) + hidden_ids(ys) =~= hidden_ids(xs));
    } else {
        lemma_hidden_ids_concat(xs, ys.drop_last());
        assert((xs + ys).drop_last() =~= xs + ys.drop_last());
        assert((xs + ys).last() == ys.last());
        assert(hidden_ids(xs + ys) =~= hidden_ids(xs) + hidden_ids(ys));
    }
}

/// Appending one well-formed line to the deleted-sessions file adds exactly
/// that one identifier: a deletion is durable across a restart.
pub proof fn lemma_hidden_append(a: Seq<u8>, idb: Seq<u8>)
    requires
        a.len() > 0 ==> a[a.len() - 1] == 10,
        forall|k: int| 0 <= k < idb.len() ==> idb[k] != 10,
        trim_blank(idb) == idb,
        idb.len() > 0,
        vstd::utf8::valid_utf8(idb),
    ensures
        hidden_ids(spec_lines(a + (idb + seq![10u8]), 0)) == hidden_ids(spec_lines(a, 0)) + seq![
            vstd::utf8::decode_utf8(idb),
        ],
{
    let b = idb + seq![10u8];
    crate::convo::lemma_lines_concat(a, b);
    crate::tail::lemma_find_nl_value(b, 0, idb.len() as int);
    assert(b.subrange(0, idb.len() as int) =~= idb);
    assert(spec_lines(b, idb.len() as int + 1) =~= Seq::<Seq<u8>>::empty());
    assert(spec_lines(b, 0) =~= seq![idb]);
    lemma_hidden_ids_concat(spec_lines(a, 0), seq![idb]);
    assert(hidden_ids(seq![idb]) =~= seq![vstd::utf8::decode_utf8(idb)]) by {
        let one = seq![idb];
        assert(one.drop_last() =~= Seq::<Seq<u8>>::empty());
        assert(hidden_ids(one.drop_last()) =~= Seq::<Seq<char>>::empty());
        assert(one.last() == idb);
        assert(trim_blank(one.last()).len() > 0 && vstd::utf8::valid_utf8(trim_blank(one.last())));
        assert(hidden_ids(one) == hidden_ids(one.drop_last()) + seq![
            vstd::utf8::decode_utf8(trim_blank(one.last())),
        ]);
    }
}

/// The project list of the roster: every non-empty project path, each once,
/// in code-point order — whether or not its sessions resolve.
#[verifier::rlimit(60)]
pub fn project_list(entries: &Vec<HistoryEntry>) -> (r: Vec<String>)
    ensures
        forall|a: int, b: int| 0 <= a < b < r@.len() ==> str_le(#[trigger] (r@[a]@), #[trigger] (r@[b]@)),
        forall|a: int, b: int| 0 <= a < b < r@.len() ==> (#[trigger] (r@[a]@)) != (#[trigger] (r@[b]@)),
        forall|k: int|
            0 <= k < r@.len() ==> (#[trigger] (r@[k]@)).len() > 0 && exists|j: int|
                0 <= j < entries@.len() && (#[trigger] (entries@[j].project@)) == r@[k]@,
        forall|j: int|
            0 <= j < entries@.len() && (#[trigger] (entries@[j].project@)).len() > 0 ==> exists|
                k: int,
            | 0 <= k < r@.len() && (#[trigger] (r@[k]@)) == entries@[j].project@,
{
    let mut uniq: Vec<String> = Vec::new();
    let mut j: usize = 0;
    while j < entries.len()
        invariant
            j <= entries@.len(),
            forall|a: int, b: int|
                0 <= a < b < uniq@.len() ==> (#[trigger] (uniq@[a]@)) != (#[trigger] (uniq@[b]@)),
            forall|k: int|
                0 <= k < uniq@.len() ==> (#[trigger] (uniq@[k]@)).len() > 0 && exists|j2: int|
                    0 <= j2 < entries@.len() && (#[trigger] (entries@[j2].project@)) == uniq@[k]@,
            forall|j2: int|
                0 <= j2 < j && (#[trigger] (entries@[j2].project@)).len() > 0 ==> exists|k: int|
                    0 <= k < uniq@.len() && (#[trigger] (uniq@[k]@)) == entries@[j2].project@,
        decreases entries@.len() - j,
    {
        let p = &entries[j].project;
        if !p.as_str().is_empty() {
            if !contains_string(&uniq, p) {
                let ghost old_uniq = uniq@;
                uniq.push(p.clone());
                proof {
                    assert(uniq@[old_uniq.len() as int]@ == entries@[j as int].project@);
                    assert forall|a: int, b: int| 0 <= a < b < uniq@.len() implies (
                    #[trigger] (uniq@[a]@)) != (#[trigger] (uniq@[b]@)) by {
                        if b < old_uniq.len() {
                            assert(uniq@[a] == old_uniq[a] && uniq@[b] == old_uniq[b]);
                        } else {
                            assert(uniq@[a] == old_uniq[a]);
                        }
                    }
                    assert forall|j2: int|
                        0 <= j2 < j + 1 && (#[trigger] (entries@[j2].project@)).len()
                            > 0 implies exists|k: int|
                        0 <= k < uniq@.len() && (#[trigger] (uniq@[k]@))
                            == entries@[j2].project@ by {
                        if j2 == j {
                            assert(uniq@[old_uniq.len() as int]@ == entries@[j2].project@);
                        } else {
                            let k = choose|k: int|
                                0 <= k < old_uniq.len() && (#[trigger] (old_uniq[k]@))
                                    == entries@[j2].project@;
                            assert(uniq@[k]@ == entries@[j2].project@);
                        }
                    }
                }
            } else {
                proof {
                    assert(exists|k: int|
                        0 <= k < uniq@.len() && (#[trigger] (uniq@[k]@))
                            == entries@[j as int].project@);
                }
            }
        }
        j = j + 1;
    }
    // code-point order, smallest first
    let ghost pool = uniq@;
    let mut remaining = uniq;
    let mut out: Vec<String> = Vec::new();
    proof {
        assert forall|k: int| 0 <= k < remaining@.len() implies pool.contains(
            #[trigger] remaining@[k],
        ) by {
            assert(pool[k] == remaining@[k]);
        }
        assert forall|k0: int| 0 <= k0 < pool.len() implies out@.contains(#[trigger] pool[k0])
            || remaining@.contains(pool[k0]) by {
            assert(remaining@[k0] == pool[k0]);
        }
    }
    loop
        invariant
            forall|a: int, b: int|
                0 <= a < b < out@.len() ==> str_le(#[trigger] (out@[a]@), #[trigger] (out@[b]@)),
            forall|a: int, b: int|
                0 <= a < out@.len() && 0 <= b < remaining@.len() ==> str_le(
                    #[trigger] (out@[a]@),
                    #[trigger] (remaining@[b]@),
                ),
            forall|a: int, b: int|
                0 <= a < b < out@.len() ==> (#[trigger] (out@[a]@)) != (#[trigger] (out@[b]@)),
            forall|a: int, b: int|
                0 <= a < b < remaining@.len() ==> (#[trigger] (remaining@[a]@)) != (
                #[trigger] (remaining@[b]@)),
            forall|a: int, b: int|
                0 <= a < out@.len() && 0 <= b < remaining@.len() ==> (#[trigger] (out@[a]@)) != (
                #[trigger] (remaining@[b]@)),
            forall|k: int| 0 <= k < out@.len() ==> pool.contains(#[trigger] out@[k]),
            forall|k: int| 0 <= k < remaining@.len() ==> pool.contains(#[trigger] remaining@[k]),
            forall|k0: int|
                0 <= k0 < pool.len() ==> out@.contains(#[trigger] pool[k0]) || remaining@.contains(
                    pool[k0],
                ),
        ensures
            remaining@.len() == 0,
        decreases remaining@.len(),
    {
        if remaining.len() == 0 {
            break;
        }
        let mut best: usize = 0;
        let mut i: usize = 1;
        proof {
            lemma_str_le_refl(remaining@[0]@);
        }
        while i < remaining.len()
            invariant
                best < i <= remaining@.len(),
                remaining@.len() > 0,
                forall|k: int|
                    0 <= k < i ==> str_le(remaining@[best as int]@, #[trigger] (remaining@[k]@)),
            decreases remaining@.len() - i,
        {
            proof {
                lemma_str_le_total(remaining@[i as int]@, remaining@[best as int]@);
            }
            if str_le_exec(remaining[i].as_str(), remaining[best].as_str()) {
                let ghost old_best = best as int;
                best = i;
                proof {
                    assert forall|k: int| 0 <= k < i + 1 implies str_le(
                        remaining@[best as int]@,
                        #[trigger] (remaining@[k]@),
                    ) by {
                        if k < i {
                            lemma_str_le_trans(
                                remaining@[best as int]@,
                                remaining@[old_best]@,
                                remaining@[k]@,
                            );
                        } else {
                            lemma_str_le_refl(remaining@[k]@);
                        }
                    }
                }
            }
            i = i + 1;
        }
        let ghost rem_before = remaining@;
        let el = remaining.remove(best);
        let ghost out_before = out@;
        out.push(el);
        proof {
            assert(remaining@ =~= rem_before.remove(best as int));
            assert forall|k: int| 0 <= k < remaining@.len() implies pool.contains(
                #[trigger] remaining@[k],
            ) by {
                if k < best {
                    assert(remaining@[k] == rem_before[k]);
                } else {
                    assert(remaining@[k] == rem_before[k + 1]);
                }
            }
            assert forall|k: int| 0 <= k < out@.len() implies pool.contains(
                #[trigger] out@[k],
            ) by {
                if k < out_before.len() {
                    assert(out@[k] == out_before[k]);
                } else {
                    assert(out@[k] == rem_before[best as int]);
                }
            }
            assert forall|k0: int| 0 <= k0 < pool.len() implies out@.contains(#[trigger] pool[k0])
                || remaining@.contains(pool[k0]) by {
                if out_before.contains(pool[k0]) {
                    let k = choose|k: int| 0 <= k < out_before.len() && out_before[k] == pool[k0];
                    assert(out@[k] == pool[k0]);
                } else {
                    let k = choose|k: int|
                        0 <= k < rem_before.len() && rem_before[k] == pool[k0];
                    if k == best {
                        assert(out@[out@.len() - 1] == pool[k0]);
                    } else if k < best {
                        assert(remaining@[k] == pool[k0]);
                    } else {
                        assert(remaining@[k - 1] == pool[k0]);
                    }
                }
            }
            assert forall|a: int, b: int|
                0 <= a < b < remaining@.len() implies (#[trigger] (remaining@[a]@)) != (
            #[trigger] (remaining@[b]@)) by {
                let a0: int = if a < best { a } else { a + 1 };
                let b0: int = if b < best { b } else { b + 1 };
                assert(remaining@[a] == rem_before[a0]);
                assert(remaining@[b] == rem_before[b0]);
            }
            assert forall|a: int, b: int|
                0 <= a < out@.len() && 0 <= b < remaining@.len() implies (#[trigger] (out@[a]@))
                != (#[trigger] (remaining@[b]@)) by {
                let b0: int = if b < best { b } else { b + 1 };
                assert(remaining@[b] == rem_before[b0]);
            }
            assert forall|a: int, b: int|
                0 <= a < out@.len() && 0 <= b < remaining@.len() implies str_le(
                #[trigger] (out@[a]@),
                #[trigger] (remaining@[b]@),
            ) by {
                let b0: int = if b < best { b } else { b + 1 };
                assert(remaining@[b] == rem_before[b0]);
            }
        }
    }
    proof {
        assert forall|k: int|
            0 <= k < out@.len() implies (#[trigger] (out@[k]@)).len() > 0 && exists|j2: int|
            0 <= j2 < entries@.len() && (#[trigger] (entries@[j2].project@)) == out@[k]@ by {
            let k0 = choose|k0: int| 0 <= k0 < pool.len() && pool[k0] == out@[k];
            assert(pool[k0]@ == out@[k]@);
        }
        assert forall|j2: int|
            0 <= j2 < entries@.len() && (#[trigger] (entries@[j2].project@)).len() > 0 implies
            exists|k: int| 0 <= k < out@.len() && (#[trigger] (out@[k]@)) == entries@[j2].project@ by {
            let k0 = choose|k0: int|
                0 <= k0 < pool.len() && (#[trigger] (pool[k0]@)) == entries@[j2].project@;
            assert(out@.contains(pool[k0]) || remaining@.contains(pool[k0]));
            let k = choose|k: int| 0 <= k < out@.len() && out@[k] == pool[k0];
            assert(out@[k]@ == entries@[j2].project@);
        }
    }
    out
}

} // verus!
