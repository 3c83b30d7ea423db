//! The notification bus: a bounded broadcast ring.  Every subscriber holds
//! its own cursor and receives every notice published after it subscribed,
//! independent of the others; when the ring overwrites notices a subscriber
//! has not read yet, the subscriber receives an explicit lag signal instead
//! of silently missing them, and can resync from authoritative state.

use vstd::prelude::*;
use crate::store::SessionStatusValue;

verus! {

/// One notice on the bus.
pub enum Notice {
    /// The roster log changed.
    RosterChanged,
    /// A session log changed.
    SessionChanged { id: String, path: String },
    /// A session's live status changed.
    StatusChanged { id: String, status: Option<SessionStatusValue> },
    /// A request to open a URL on a connected viewer.
    OpenUrl { url: String },
}

/// The mathematical image of a notice.
pub ghost enum SpecNotice {
    RosterChanged,
    SessionChanged { id: Seq<char>, path: Seq<char> },
    StatusChanged { id: Seq<char>, status: Option<SessionStatusValue> },
    OpenUrl { url: Seq<char> },
}

impl View for Notice {
    type V = SpecNotice;

    open spec fn view(&self) -> SpecNotice {
        match self {
            Notice::RosterChanged => SpecNotice::RosterChanged,
            Notice::SessionChanged { id, path } => SpecNotice::SessionChanged {
                id: id@,
                path: path@,
            },
            Notice::StatusChanged { id, status } => SpecNotice::StatusChanged {
                id: id@,
                status: *status,
            },
            Notice::OpenUrl { url } => SpecNotice::OpenUrl { url: url@ },
        }
    }
}

impl Notice {
    /// An exact copy.
    pub fn duplicate(&self) -> (r: Notice)
        ensures
            r@ == self@,
    {
        match self {
            Notice::RosterChanged => Notice::RosterChanged,
            Notice::SessionChanged { id, path } => Notice::SessionChanged {
                id: id.clone(),
                path: path.clone(),
            },
            Notice::StatusChanged { id, status } => Notice::StatusChanged {
                id: id.clone(),
                status: *status,
            },
            Notice::OpenUrl { url } => Notice::OpenUrl { url: url.clone() },
        }
    }
}

/// The notice every status change must put on the bus, so that stream
/// subscribers learn of the change without waiting for a file event.
pub fn make_status_notice(id: &String, status: Option<crate::store::SessionStatusValue>) -> (n:
    Notice)
    ensures
        n@ == (SpecNotice::StatusChanged { id: id@, status }),
{
    Notice::StatusChanged { id: id.clone(), status }
}

/// A bounded broadcast topic: the ring holds the most recent notices; `start`
/// is the sequence number of the oldest one still held.
pub struct Broadcast {
    pub buf: Vec<Notice>,
    pub start: u64,
    pub cap: usize,
}

/// A subscriber's cursor: the sequence number of the next notice it reads.
pub struct Subscriber {
    pub next: u64,
}

/// What a subscriber observes on one receive.
pub enum RecvOutcome {
    /// Nothing new.
    Empty,
    /// The ring overwrote `missed` unread notices; resync from authoritative
    /// state, then continue from the oldest notice still held.
    Lagged { missed: u64 },
    /// The next notice.
    Msg(Notice),
}

impl Broadcast {
    /// The ring never outgrows its bound and sequence numbers cannot wrap.
    pub open spec fn wf(&self) -> bool {
        &&& self.cap >= 1
        &&& self.buf@.len() <= self.cap
        &&& self.start + self.buf@.len() <= u64::MAX
    }

    /// The sequence number of the next notice to be published.
    pub open spec fn head(&self) -> int {
        self.start + self.buf@.len()
    }

    /// A subscriber cursor is valid for this topic.
    pub open spec fn sub_ok(&self, sub: Subscriber) -> bool {
        sub.next <= self.head()
    }

    /// An empty topic with room for `cap` notices.
    pub fn new(cap: usize) -> (r: Broadcast)
        requires
            cap >= 1,
        ensures
            r.wf(),
            r.buf@.len() == 0,
            r.start == 0,
            r.cap == cap,
    {
        Broadcast { buf: Vec::new(), start: 0, cap }
    }

    /// Publish a notice: it is appended to the ring; when the ring is full
    /// the oldest notice is dropped to make room, and slow subscribers will
    /// see a lag signal rather than a stall.  Publishing never blocks; at the
    /// end of the sequence-number space — unreachable in any real run — the
    /// notice is dropped rather than wrapping a subscriber's cursor.
    pub fn publish(&mut self, n: Notice)
        requires
            old(self).wf(),
        ensures
            final(self).wf(),
            final(self).cap == old(self).cap,
            old(self).head() < u64::MAX ==> ({
                &&& final(self).head() == old(self).head() + 1
                &&& (old(self).buf@.len() < old(self).cap ==> final(self).buf@ == old(
                    self,
                ).buf@.push(n) && final(self).start == old(self).start)
                &&& (old(self).buf@.len() == old(self).cap ==> final(self).buf@ == old(
                    self,
                ).buf@.remove(0).push(n) && final(self).start == old(self).start + 1)
            }),
            old(self).head() == u64::MAX ==> *final(self) == *old(self),
    {
        if self.start == u64::MAX - self.buf.len() as u64 {
            return;
        }
        if self.buf.len() >= self.cap {
            let _oldest = self.buf.remove(0);
            self.start = self.start + 1;
        }
        self.buf.push(n);
    }

    /// Subscribe: the cursor starts at the head, so the subscriber sees
    /// exactly the notices published after this call.
    pub fn subscribe(&self) -> (r: Subscriber)
        requires
            self.wf(),
        ensures
            r.next == self.head(),
            self.sub_ok(r),
    {
        Subscriber { next: self.start + self.buf.len() as u64 }
    }

    /// Receive the next notice for `sub`: the notice at its cursor when the
    /// ring still holds it, a lag signal counting the overwritten notices
    /// when it does not, and nothing when the subscriber is caught up.
    pub fn recv(&self, sub: &mut Subscriber) -> (r: RecvOutcome)
        requires
            self.wf(),
            self.sub_ok(*old(sub)),
        ensures
            self.sub_ok(*final(sub)),
            old(sub).next < self.start ==> (r matches RecvOutcome::Lagged { missed } && missed
                == self.start - old(sub).next && final(sub).next == self.start),
            self.start <= old(sub).next < self.head() ==> (r matches RecvOutcome::Msg(n) && n@
                == self.buf@[old(sub).next - self.start]@ && final(sub).next == old(sub).next + 1),
            old(sub).next == self.head() ==> r is Empty && final(sub).next == old(sub).next,
    {
        if sub.next < self.start {
            let missed: u64 = self.start - sub.next;
            sub.next = self.start;
            RecvOutcome::Lagged { missed }
        } else {
            let idx_u64: u64 = sub.next - self.start;
            if idx_u64 < self.buf.len() as u64 {
                let idx: usize = idx_u64 as usize;
                let n = self.buf[idx].duplicate();
                sub.next = sub.next + 1;
                RecvOutcome::Msg(n)
            } else {
                RecvOutcome::Empty
            }
        }
    }
}

} // verus!
