//! The change-detection pipeline: classify a changed path, and coalesce
//! bursts of raw filesystem events into one notification per distinct path
//! after a quiescence window.

use vstd::prelude::*;
use crate::alist::{lemma_pairs_map_contains, pairs_map, pairs_unique, AList};
use crate::history::seg_start;
use crate::text::{chars_of, contains_seq, find_chars_from, string_of};

verus! {

/// What a changed path means to the index and the caches.
pub enum PathClass {
    /// The roster log itself changed.
    Roster,
    /// A session log changed; its id is the file stem.
    SessionFile { id: String },
    /// Anything else; ignored.
    Ignored,
}

/// `suf` is a suffix of `s`.
pub open spec fn ends_with_seq(s: Seq<char>, suf: Seq<char>) -> bool {
    s.len() >= suf.len() && s.subrange(s.len() - suf.len(), s.len() as int) == suf
}

/// Whether `hay` ends with `suf`.
pub fn ends_with_chars(hay: &Vec<char>, suf: &Vec<char>) -> (r: bool)
    ensures
        r == ends_with_seq(hay@, suf@),
{
    if hay.len() < suf.len() {
        return false;
    }
    let off: usize = hay.len() - suf.len();
    let mut k: usize = 0;
    while k < suf.len()
        invariant
            k <= suf@.len(),
            suf@.len() <= hay@.len() <= usize::MAX,
            off == hay@.len() - suf@.len(),
            forall|m: int| 0 <= m < k ==> hay@[off + m] == suf@[m],
        decreases suf@.len() - k,
    {
        if hay[off + k] != suf[k] {
            proof {
                assert(hay@.subrange(off as int, hay@.len() as int)[k as int] != suf@[k as int]);
            }
            return false;
        }
        k = k + 1;
    }
    proof {
        assert(hay@.subrange(off as int, hay@.len() as int) =~= suf@);
    }
    true
}

/// The stem of a session-file path: the final path segment without its
/// `.jsonl` extension.
pub open spec fn spec_stem(s: Seq<char>) -> Seq<char>
    recommends
        ends_with_seq(s, ".jsonl"@),
{
    s.subrange(seg_start(s, s.len() as int), s.len() - ".jsonl"@.len())
}

/// Classify one changed path: the roster log fires a roster notification, a
/// session log outside any subagents directory fires a session notification
/// carrying the file stem as id, everything else is ignored.
pub fn classify_path(path: &str) -> (r: PathClass)
    ensures
        r is Roster <==> ends_with_seq(path@, "history.jsonl"@),
        r is SessionFile <==> (!ends_with_seq(path@, "history.jsonl"@) && ends_with_seq(
            path@,
            ".jsonl"@,
        ) && !contains_seq(path@, "/subagents/"@)),
        r matches PathClass::SessionFile { id } ==> id@ == spec_stem(path@),
{
    let cs = chars_of(path);
    if ends_with_chars(&cs, &chars_of("history.jsonl")) {
        return PathClass::Roster;
    }
    if !ends_with_chars(&cs, &chars_of(".jsonl")) {
        return PathClass::Ignored;
    }
    if find_chars_from(&cs, &chars_of("/subagents/"), 0).is_some() {
        return PathClass::Ignored;
    }
    let ghost s = path@;
    // the final segment starts after the last separator
    let mut b: usize = cs.len();
    while b > 0 && cs[b - 1] != '/'
        invariant
            b <= cs@.len(),
            cs@ == s,
            seg_start(s, s.len() as int) == seg_start(s, b as int),
        decreases b,
    {
        b = b - 1;
    }
    proof {
        assert(seg_start(s, b as int) == b as int);
    }
    let suffix_len: usize = chars_of(".jsonl").len();
    let end: usize = cs.len() - suffix_len;
    proof {
        reveal_strlit(".jsonl");
        if b > 0 && b as int > end as int {
            assert(s.subrange(s.len() - ".jsonl"@.len(), s.len() as int)[b - 1 - end] == s[b
                - 1]);
            assert(false);
        }
    }
    let mut out: Vec<char> = Vec::new();
    let mut k: usize = b;
    while k < end
        invariant
            b <= k <= end,
            end <= cs@.len(),
            cs@ == s,
            out@ =~= s.subrange(b as int, k as int),
        decreases end - k,
    {
        out.push(cs[k]);
        k = k + 1;
    }
    proof {
        assert(out@ =~= s.subrange(b as int, end as int));
    }
    PathClass::SessionFile { id: string_of(&out) }
}

/// The debounce stage: each path remembers the time of its last raw event,
/// and fires once it has been quiet for the window.
pub struct Debouncer {
    /// the quiescence window, in milliseconds
    pub window_ms: u64,
    /// path → time of its last raw event
    pub pending: AList<u64>,
}

impl Debouncer {
    /// The pending map has unique keys.
    pub open spec fn wf(&self) -> bool {
        self.pending.wf()
    }

    /// A debouncer with nothing pending.
    pub fn new(window_ms: u64) -> (r: Self)
        ensures
            r.wf(),
            r.window_ms == window_ms,
            r.pending@ == Map::<Seq<char>, u64>::empty(),
    {
        Debouncer { window_ms, pending: AList::new() }
    }

    /// Record a raw event for a path: its quiescence clock restarts.
    pub fn record(&mut self, path: String, now_ms: u64)
        requires
            old(self).wf(),
        ensures
            final(self).wf(),
            final(self).window_ms == old(self).window_ms,
            final(self).pending@ == old(self).pending@.insert(path@, now_ms),
    {
        self.pending.insert(path, now_ms);
    }

    /// Fire the paths that have been quiet for the whole window: they leave
    /// the pending map and come back, each exactly once; everything younger
    /// stays pending with its time untouched.
    pub fn due(&mut self, now_ms: u64) -> (r: Vec<String>)
        requires
            old(self).wf(),
        ensures
            final(self).wf(),
            final(self).window_ms == old(self).window_ms,
            forall|k: int|
                0 <= k < r@.len() ==> old(self).pending@.contains_key(#[trigger] (r@[k]@)) && now_ms
                    - old(self).pending@[r@[k]@] >= old(self).window_ms,
            forall|x: Seq<char>|
                (#[trigger] old(self).pending@.contains_key(x) && now_ms - old(self).pending@[x]
                    >= old(self).window_ms) ==> exists|k: int|
                    0 <= k < r@.len() && #[trigger] (r@[k]@) == x,
            forall|a: int, b: int| 0 <= a < b < r@.len() ==> (#[trigger] r@[a]@) != (#[trigger] r@[b]@),
            forall|x: Seq<char>|
                #[trigger] final(self).pending@.contains_key(x) <==> (old(
                    self,
                ).pending@.contains_key(x) && now_ms - old(self).pending@[x] < old(self).window_ms),
            forall|x: Seq<char>|
                final(self).pending@.contains_key(x) ==> #[trigger] final(self).pending@[x] == old(
                    self,
                ).pending@[x],
    {
        let ghost ps = self.pending.pairs@;
        let w: u64 = self.window_ms;
        let mut fired: Vec<String> = Vec::new();
        let mut kept: Vec<(String, u64)> = Vec::new();
        let mut i: usize = 0;
        while i < self.pending.pairs.len()
            invariant
                i <= ps.len(),
                self.pending.pairs@ == ps,
                self.window_ms == w,
                strings_of(fired@) == fired_of(ps.take(i as int), now_ms, w),
                kept@ == kept_of(ps.take(i as int), now_ms, w),
            decreases ps.len() - i,
        {
            proof {
                assert(ps.take(i + 1).drop_last() =~= ps.take(i as int));
                assert(ps.take(i + 1).last() == ps[i as int]);
            }
            let t: u64 = self.pending.pairs[i].1;
            let path: String = self.pending.pairs[i].0.clone();
            let is_due: bool = now_ms >= t && now_ms - t >= w;
            proof {
                assert(is_due == due_at(ps[i as int], now_ms, w));
            }
            if is_due {
                let ghost oldf = fired@;
                fired.push(path);
                proof {
                    assert(strings_of(fired@) =~= strings_of(oldf).push(ps[i as int].0@));
                    assert(strings_of(oldf) + seq![ps[i as int].0@] =~= strings_of(fired@));
                    assert(kept_of(ps.take(i + 1), now_ms, w) =~= kept_of(
                        ps.take(i as int),
                        now_ms,
                        w,
                    ));
                }
            } else {
                let ghost oldk = kept@;
                kept.push((path, t));
                proof {
                    assert(kept@.last().0@ == ps[i as int].0@);
                    assert(kept@.last().1 == ps[i as int].1);
                    assert(kept@.drop_last() =~= oldk);
                    assert(kept@ =~= oldk + seq![(kept@.last().0, kept@.last().1)]);
                    assert(kept_of(ps.take(i + 1), now_ms, w) =~= oldk.push(kept@.last()));
                    assert(fired_of(ps.take(i + 1), now_ms, w) =~= fired_of(
                        ps.take(i as int),
                        now_ms,
                        w,
                    ));
                }
            }
            i = i + 1;
        }
        proof {
            assert(ps.take(ps.len() as int) =~= ps);
            lemma_due_partition(ps, now_ms, w);
            assert forall|k: int| 0 <= k < fired@.len() implies pairs_map(ps).contains_key(
                #[trigger] (fired@[k]@),
            ) && now_ms - pairs_map(ps)[fired@[k]@] >= w by {
                assert(strings_of(fired@)[k] == fired@[k]@);
            }
            assert forall|a: int, b: int| 0 <= a < b < fired@.len() implies (
            #[trigger] fired@[a]@) != (#[trigger] fired@[b]@) by {
                assert(strings_of(fired@)[a] == fired@[a]@);
                assert(strings_of(fired@)[b] == fired@[b]@);
            }
            assert forall|x: Seq<char>|
                (#[trigger] pairs_map(ps).contains_key(x) && now_ms - pairs_map(ps)[x]
                    >= w) implies exists|k: int| 0 <= k < fired@.len() && #[trigger] (fired@[k]@)
                == x by {
                let k = choose|k: int|
                    0 <= k < strings_of(fired@).len() && #[trigger] strings_of(fired@)[k] == x;
                assert(fired@[k]@ == x);
            }
        }
        self.pending = AList { pairs: kept };
        fired
    }
}

/// Whether a pending entry has been quiet for the whole window.
pub open spec fn due_at(p: (String, u64), now_ms: u64, w: u64) -> bool {
    now_ms - p.1 >= w
}

/// The views of a string vector.
pub open spec fn strings_of(v: Seq<String>) -> Seq<Seq<char>> {
    v.map_values(|s: String| s@)
}

/// The paths of the quiet entries, in map order.
pub open spec fn fired_of(ps: Seq<(String, u64)>, now_ms: u64, w: u64) -> Seq<Seq<char>>
    decreases ps.len(),
{
    if ps.len() == 0 {
        Seq::empty()
    } else {
        fired_of(ps.drop_last(), now_ms, w) + if due_at(ps.last(), now_ms, w) {
            seq![ps.last().0@]
        } else {
            Seq::empty()
        }
    }
}

/// The entries still pending, in map order.
pub open spec fn kept_of(ps: Seq<(String, u64)>, now_ms: u64, w: u64) -> Seq<(String, u64)>
    decreases ps.len(),
{
    if ps.len() == 0 {
        Seq::empty()
    } else {
        kept_of(ps.drop_last(), now_ms, w) + if due_at(ps.last(), now_ms, w) {
            Seq::empty()
        } else {
            seq![ps.last()]
        }
    }
}

/// The partition is faithful: the kept entries are exactly the young ones
/// with their times, and the fired paths are exactly the quiet keys, each
/// once.
proof fn lemma_due_partition(ps: Seq<(String, u64)>, now_ms: u64, w: u64)
    requires
        pairs_unique(ps),
    ensures
        pairs_unique(kept_of(ps, now_ms, w)),
        forall|x: Seq<char>|
            #[trigger] pairs_map(kept_of(ps, now_ms, w)).contains_key(x) <==> (pairs_map(
                ps,
            ).contains_key(x) && now_ms - pairs_map(ps)[x] < w),
        forall|x: Seq<char>|
            pairs_map(kept_of(ps, now_ms, w)).contains_key(x) ==> #[trigger] pairs_map(
                kept_of(ps, now_ms, w),
            )[x] == pairs_map(ps)[x],
        forall|k: int|
            0 <= k < fired_of(ps, now_ms, w).len() ==> pairs_map(ps).contains_key(
                #[trigger] fired_of(ps, now_ms, w)[k],
            ) && now_ms - pairs_map(ps)[fired_of(ps, now_ms, w)[k]] >= w,
        forall|x: Seq<char>|
            (#[trigger] pairs_map(ps).contains_key(x) && now_ms - pairs_map(ps)[x] >= w) ==> exists|
                k: int,
            | 0 <= k < fired_of(ps, now_ms, w).len() && #[trigger] fired_of(ps, now_ms, w)[k] == x,
        forall|a: int, b: int|
            0 <= a < b < fired_of(ps, now_ms, w).len() ==> (#[trigger] fired_of(ps, now_ms, w)[a])
                != (#[trigger] fired_of(ps, now_ms, w)[b]),
    decreases ps.len(),
{
    if ps.len() == 0 {
        assert(kept_of(ps, now_ms, w) =~= Seq::<(String, u64)>::empty());
    } else {
        let ps0 = ps.drop_last();
        let p = ps.last();
        assert(pairs_unique(ps0)) by {
            assert(forall|a: int, b: int|
                0 <= a < b < ps0.len() ==> (#[trigger] ps0[a].0@) == ps[a].0@ && (
                #[trigger] ps0[b].0@) == ps[b].0@);
        }
        lemma_due_partition(ps0, now_ms, w);
        lemma_pairs_map_contains(ps0, p.0@);
        assert(!pairs_map(ps0).contains_key(p.0@)) by {
            if pairs_map(ps0).contains_key(p.0@) {
                let j = choose|j: int| 0 <= j < ps0.len() && #[trigger] (ps0[j].0@) == p.0@;
                assert(ps[j].0@ == ps[ps.len() - 1].0@);
            }
        }
        let kept0 = kept_of(ps0, now_ms, w);
        let fired0 = fired_of(ps0, now_ms, w);
        if due_at(p, now_ms, w) {
            assert(kept_of(ps, now_ms, w) =~= kept0);
            assert(fired_of(ps, now_ms, w) =~= fired0.push(p.0@));
            assert forall|x: Seq<char>| #[trigger] pairs_map(
                kept_of(ps, now_ms, w),
            ).contains_key(x) implies (pairs_map(ps).contains_key(x) && now_ms - pairs_map(ps)[x]
                < w) by {
                assert(x != p.0@);
            }
            assert forall|x: Seq<char>|
                (#[trigger] pairs_map(ps).contains_key(x) && now_ms - pairs_map(ps)[x] < w) implies
                pairs_map(kept_of(ps, now_ms, w)).contains_key(x) by {
                assert(x != p.0@);
            }
            assert forall|x: Seq<char>|
                (#[trigger] pairs_map(ps).contains_key(x) && now_ms - pairs_map(ps)[x]
                    >= w) implies exists|k: int|
                0 <= k < fired_of(ps, now_ms, w).len() && #[trigger] fired_of(ps, now_ms, w)[k]
                    == x by {
                if x == p.0@ {
                    assert(fired_of(ps, now_ms, w)[fired0.len() as int] == x);
                } else {
                    let k = choose|k: int|
                        0 <= k < fired0.len() && #[trigger] fired0[k] == x;
                    assert(fired_of(ps, now_ms, w)[k] == x);
                }
            }
            assert forall|k: int| 0 <= k < fired_of(ps, now_ms, w).len() implies pairs_map(
                ps,
            ).contains_key(#[trigger] fired_of(ps, now_ms, w)[k]) && now_ms - pairs_map(
                ps,
            )[fired_of(ps, now_ms, w)[k]] >= w by {
                if k < fired0.len() {
                    assert(fired_of(ps, now_ms, w)[k] == fired0[k]);
                    assert(fired0[k] != p.0@);
                } else {
                    assert(fired_of(ps, now_ms, w)[k] == p.0@);
                }
            }
            assert forall|a: int, b: int|
                0 <= a < b < fired_of(ps, now_ms, w).len() implies (#[trigger] fired_of(
                ps,
                now_ms,
                w,
            )[a]) != (#[trigger] fired_of(ps, now_ms, w)[b]) by {
                if b == fired0.len() {
                    assert(fired_of(ps, now_ms, w)[a] == fired0[a]);
                    assert(fired0[a] != p.0@);
                }
            }
        } else {
            assert(kept_of(ps, now_ms, w) =~= kept0.push(p));
            assert(fired_of(ps, now_ms, w) =~= fired0);
            assert(kept_of(ps, now_ms, w).drop_last() =~= kept0);
            assert(pairs_map(kept_of(ps, now_ms, w)) == pairs_map(kept0).insert(p.0@, p.1));
            assert(pairs_unique(kept_of(ps, now_ms, w))) by {
                assert forall|a: int, b: int|
                    0 <= a < b < kept_of(ps, now_ms, w).len() implies (#[trigger] kept_of(
                    ps,
                    now_ms,
                    w,
                )[a].0@) != (#[trigger] kept_of(ps, now_ms, w)[b].0@) by {
                    if b == kept0.len() {
                        assert(kept_of(ps, now_ms, w)[a] == kept0[a]);
                        assert(pairs_map(kept0).contains_key(kept0[a].0@)) by {
                            lemma_pairs_map_contains(kept0, kept0[a].0@);
                        }
                        assert(kept0[a].0@ != p.0@);
                    } else {
                        assert(kept_of(ps, now_ms, w)[a] == kept0[a]);
                        assert(kept_of(ps, now_ms, w)[b] == kept0[b]);
                    }
                }
            }
            assert forall|x: Seq<char>| #[trigger] pairs_map(
                kept_of(ps, now_ms, w),
            ).contains_key(x) implies (pairs_map(ps).contains_key(x) && now_ms - pairs_map(ps)[x]
                < w) && pairs_map(kept_of(ps, now_ms, w))[x] == pairs_map(ps)[x] by {
                if x != p.0@ {
                    assert(pairs_map(kept0).contains_key(x));
                }
            }
            assert forall|x: Seq<char>|
                (#[trigger] pairs_map(ps).contains_key(x) && now_ms - pairs_map(ps)[x] < w) implies
                pairs_map(kept_of(ps, now_ms, w)).contains_key(x) by {
                if x != p.0@ {
                    assert(pairs_map(ps0).contains_key(x));
                }
            }
            assert forall|x: Seq<char>|
                (#[trigger] pairs_map(ps).contains_key(x) && now_ms - pairs_map(ps)[x]
                    >= w) implies exists|k: int|
                0 <= k < fired_of(ps, now_ms, w).len() && #[trigger] fired_of(ps, now_ms, w)[k]
                    == x by {
                assert(x != p.0@);
                let k = choose|k: int| 0 <= k < fired0.len() && #[trigger] fired0[k] == x;
                assert(fired_of(ps, now_ms, w)[k] == x);
            }
            assert forall|k: int| 0 <= k < fired_of(ps, now_ms, w).len() implies pairs_map(
                ps,
            ).contains_key(#[trigger] fired_of(ps, now_ms, w)[k]) && now_ms - pairs_map(
                ps,
            )[fired_of(ps, now_ms, w)[k]] >= w by {
                assert(fired_of(ps, now_ms, w)[k] == fired0[k]);
                assert(fired0[k] != p.0@);
            }
        }
    }
}

} // verus!
