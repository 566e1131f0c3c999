//! The state of the signaling core as mathematical values, and what each
//! operation does to it. The executable server is proved against these
//! functions.

use vstd::prelude::*;
use crate::message::{MessageKind, MessageView, SignalError};

verus! {

/// Where a connection stands in its lifecycle.
#[derive(Clone, Copy, Debug, PartialEq, Eq, Structural)]
pub enum Liveness {
    Active,
    Idle,
    Disconnected,
}

/// Where a session stands: open to joiners, full, or destroyed.
#[derive(Clone, Copy, Debug, PartialEq, Eq, Structural)]
pub enum SessionState {
    Open,
    Full,
    Closed,
}

/// What a routed message brought about, acknowledged to its sender.
#[derive(Clone, Copy, Debug, PartialEq, Eq, Structural)]
pub enum RouteOutcome {
    /// The message was relayed to the other members of its session.
    Relayed,
    /// The sender is a member of the session, which is now in this state.
    Joined(SessionState),
    /// The sender left the session, which is now in this state.
    Left(SessionState),
}

pub ghost struct ConnectionView {
    pub session: Option<Seq<char>>,
    pub last_activity: u64,
    pub liveness: Liveness,
    /// The messages handed to this connection's transport, oldest first.
    pub outbox: Seq<MessageView>,
}

pub ghost struct SessionView {
    /// Members in the order in which they joined.
    pub members: Seq<u64>,
    pub capacity: nat,
    pub created_at: u64,
}

pub ghost struct ServerView {
    pub conns: Map<u64, ConnectionView>,
    pub sessions: Map<Seq<char>, SessionView>,
    /// The id that the next registered connection receives.
    pub next_id: u64,
    /// The capacity of sessions created from now on.
    pub capacity: nat,
    pub idle_after: u64,
    pub disconnect_after: u64,
}

pub open spec fn session_state(s: SessionView) -> SessionState {
    if s.members.len() >= s.capacity {
        SessionState::Full
    } else {
        SessionState::Open
    }
}

/// The step of the lifecycle state machine at a sweep, after `silent` units
/// of time without traffic.
pub open spec fn next_liveness(l: Liveness, silent: int, idle_after: int, disconnect_after: int) -> Liveness {
    match l {
        Liveness::Active => if silent >= idle_after {
            Liveness::Idle
        } else {
            Liveness::Active
        },
        Liveness::Idle => if silent >= idle_after + disconnect_after {
            Liveness::Disconnected
        } else {
            Liveness::Idle
        },
        Liveness::Disconnected => Liveness::Disconnected,
    }
}

/// Time passed since `since`; none where the clock stands before it.
pub open spec fn silence(now: u64, since: u64) -> int {
    if now >= since {
        now - since
    } else {
        0
    }
}

impl ServerView {
    /// The state invariant: every session has between one member and its
    /// capacity, no member twice; a connection names a session exactly when
    /// it is one of that session's members; ids come from the counter.
    pub open spec fn consistent(self) -> bool {
        &&& forall|id: u64| #[trigger] self.conns.contains_key(id) ==> id < self.next_id
        &&& forall|id: u64| #[trigger] self.conns.contains_key(id) ==> self.conns[id].liveness != Liveness::Disconnected
        &&& forall|sid: Seq<char>| #[trigger] self.sessions.contains_key(sid) ==> {
            let s = self.sessions[sid];
            &&& 1 <= s.members.len() <= s.capacity
            &&& s.members.no_duplicates()
        }
        &&& forall|sid: Seq<char>, i: int|
            self.sessions.contains_key(sid) && 0 <= i < self.sessions[sid].members.len() ==> {
                let m = #[trigger] self.sessions[sid].members[i];
                self.conns.contains_key(m) && self.conns[m].session == Some(sid)
            }
        &&& forall|id: u64| #[trigger] self.conns.contains_key(id) && self.conns[id].session is Some ==> {
            let sid = self.conns[id].session->0;
            self.sessions.contains_key(sid) && self.sessions[sid].members.contains(id)
        }
    }

    /// A server with no connection and no session.
    pub open spec fn initial(capacity: nat, idle_after: u64, disconnect_after: u64) -> ServerView {
        ServerView {
            conns: Map::empty(),
            sessions: Map::empty(),
            next_id: 0,
            capacity,
            idle_after,
            disconnect_after,
        }
    }

    /// The id that `register` hands out: none once the counter is spent.
    pub open spec fn register_result(self) -> Option<u64> {
        if self.next_id == u64::MAX {
            None
        } else {
            Some(self.next_id)
        }
    }

    pub open spec fn register(self, now: u64) -> ServerView {
        if self.next_id == u64::MAX {
            self
        } else {
            ServerView {
                conns: self.conns.insert(
                    self.next_id,
                    ConnectionView {
                        session: None,
                        last_activity: now,
                        liveness: Liveness::Active,
                        outbox: Seq::empty(),
                    },
                ),
                next_id: (self.next_id + 1) as u64,
                ..self
            }
        }
    }

    /// The sessions after `id` is taken out of session `sid`; a session left
    /// without members is destroyed.
    pub open spec fn without_member(self, sid: Seq<char>, id: u64) -> Map<Seq<char>, SessionView> {
        let s = self.sessions[sid];
        let rest = without(s.members, id);
        if rest.len() == 0 {
            self.sessions.remove(sid)
        } else {
            self.sessions.insert(sid, SessionView { members: rest, ..s })
        }
    }

    /// Unregistering releases the connection and takes it out of its
    /// session; an id that is not registered leaves everything as it is.
    pub open spec fn unregister(self, id: u64) -> ServerView {
        if !self.conns.contains_key(id) {
            self
        } else {
            match self.conns[id].session {
                None => ServerView { conns: self.conns.remove(id), ..self },
                Some(sid) => ServerView {
                    conns: self.conns.remove(id),
                    sessions: self.without_member(sid, id),
                    ..self
                },
            }
        }
    }

    pub open spec fn send_result(self, id: u64) -> Result<(), SignalError> {
        if self.conns.contains_key(id) {
            Ok(())
        } else {
            Err(SignalError::SendError)
        }
    }

    pub open spec fn send(self, id: u64, m: MessageView) -> ServerView {
        if self.conns.contains_key(id) {
            let c = self.conns[id];
            ServerView {
                conns: self.conns.insert(id, ConnectionView { outbox: c.outbox.push(m), ..c }),
                ..self
            }
        } else {
            self
        }
    }

    /// Traffic from a connection makes it active again.
    pub open spec fn touch(self, id: u64, now: u64) -> ServerView {
        if self.conns.contains_key(id) {
            let c = self.conns[id];
            ServerView {
                conns: self.conns.insert(
                    id,
                    ConnectionView { last_activity: now, liveness: Liveness::Active, ..c },
                ),
                ..self
            }
        } else {
            self
        }
    }

    /// The session that `join` would make of `sid` with `cid` added.
    pub open spec fn joined_session(self, sid: Seq<char>, cid: u64, now: u64) -> SessionView {
        if self.sessions.contains_key(sid) {
            let s = self.sessions[sid];
            SessionView { members: s.members.push(cid), ..s }
        } else {
            SessionView { members: seq![cid], capacity: self.capacity, created_at: now }
        }
    }

    pub open spec fn join_result(self, sid: Seq<char>, cid: u64, now: u64) -> Result<SessionState, SignalError> {
        if !self.conns.contains_key(cid) {
            Err(SignalError::UnknownConnection)
        } else if self.conns[cid].session == Some(sid) {
            Ok(session_state(self.sessions[sid]))
        } else if self.conns[cid].session is Some {
            Err(SignalError::AlreadyInSession)
        } else if self.joined_session(sid, cid, now).members.len() > self.joined_session(sid, cid, now).capacity {
            Err(SignalError::SessionFull)
        } else {
            Ok(session_state(self.joined_session(sid, cid, now)))
        }
    }

    /// The first joiner creates the session; a joiner that is already a
    /// member changes nothing; a rejected join changes nothing.
    pub open spec fn join(self, sid: Seq<char>, cid: u64, now: u64) -> ServerView {
        if self.join_result(sid, cid, now) is Ok && self.conns[cid].session is None {
            ServerView {
                conns: self.conns.insert(cid, ConnectionView { session: Some(sid), ..self.conns[cid] }),
                sessions: self.sessions.insert(sid, self.joined_session(sid, cid, now)),
                ..self
            }
        } else {
            self
        }
    }

    pub open spec fn leave_result(self, sid: Seq<char>, cid: u64) -> Result<SessionState, SignalError> {
        if !self.sessions.contains_key(sid) {
            Err(SignalError::UnknownSession)
        } else if !self.sessions[sid].members.contains(cid) {
            Err(SignalError::NotAMember)
        } else if self.sessions[sid].members.len() == 1 {
            Ok(SessionState::Closed)
        } else {
            Ok(SessionState::Open)
        }
    }

    pub open spec fn leave(self, sid: Seq<char>, cid: u64) -> ServerView {
        if self.leave_result(sid, cid) is Ok {
            ServerView {
                conns: self.conns.insert(cid, ConnectionView { session: None, ..self.conns[cid] }),
                sessions: self.without_member(sid, cid),
                ..self
            }
        } else {
            self
        }
    }

    /// Whether `k` receives a relayed message `m`: every member of the
    /// message's session but its sender.
    pub open spec fn recipient(self, m: MessageView, k: u64) -> bool {
        &&& self.sessions.contains_key(m.session_id)
        &&& self.sessions[m.session_id].members.contains(k)
        &&& k != m.sender_id
    }

    pub open spec fn relay(self, m: MessageView) -> ServerView {
        ServerView {
            conns: Map::new(
                |k: u64| self.conns.contains_key(k),
                |k: u64|
                    if self.recipient(m, k) {
                        ConnectionView { outbox: self.conns[k].outbox.push(m), ..self.conns[k] }
                    } else {
                        self.conns[k]
                    },
            ),
            ..self
        }
    }

    pub open spec fn route_result(self, m: MessageView, now: u64) -> Result<RouteOutcome, SignalError> {
        match m.kind {
            MessageKind::Join => match self.join_result(m.session_id, m.sender_id, now) {
                Ok(st) => Ok(RouteOutcome::Joined(st)),
                Err(e) => Err(e),
            },
            MessageKind::Leave => match self.leave_result(m.session_id, m.sender_id) {
                Ok(st) => Ok(RouteOutcome::Left(st)),
                Err(e) => Err(e),
            },
            _ => if m.payload.len() == 0 {
                Err(SignalError::MalformedMessage)
            } else if !self.sessions.contains_key(m.session_id) {
                Err(SignalError::UnknownSession)
            } else if !self.sessions[m.session_id].members.contains(m.sender_id) {
                Err(SignalError::NotAMember)
            } else {
                Ok(RouteOutcome::Relayed)
            },
        }
    }

    pub open spec fn route(self, m: MessageView, now: u64) -> ServerView {
        match m.kind {
            MessageKind::Join => self.join(m.session_id, m.sender_id, now),
            MessageKind::Leave => self.leave(m.session_id, m.sender_id),
            _ => if self.route_result(m, now) is Ok {
                self.relay(m)
            } else {
                self
            },
        }
    }

    /// The lifecycle step of connection `id` at a sweep at time `now`.
    pub open spec fn swept_liveness(self, id: u64, now: u64) -> Liveness {
        next_liveness(
            self.conns[id].liveness,
            silence(now, self.conns[id].last_activity),
            self.idle_after as int,
            self.disconnect_after as int,
        )
    }
}

/// The sequence without any occurrence of `x`, the others in their order.
pub open spec fn without(s: Seq<u64>, x: u64) -> Seq<u64> {
    s.filter(other_than(x))
}

pub open spec fn other_than(x: u64) -> spec_fn(u64) -> bool {
    |m: u64| m != x
}

/// Taking every occurrence of `x` out of a sequence without duplicates keeps
/// the other elements, and shortens it by one where `x` was there.
pub proof fn lemma_without(s: Seq<u64>, x: u64)
    requires
        s.no_duplicates(),
    ensures
        without(s, x).no_duplicates(),
        forall|y: u64| #[trigger] without(s, x).contains(y) <==> (s.contains(y) && y != x),
        without(s, x).len() == if s.contains(x) {
            s.len() - 1
        } else {
            s.len() as int
        },
    decreases s.len(),
{
    if s.len() == 0 {
        reveal(Seq::filter);
        assert(without(s, x) =~= s);
    } else {
        let t = s.drop_last();
        let e = s.last();
        assert(t.push(e) =~= s);
        assert(t.no_duplicates()) by {
            assert forall|i: int, j: int| 0 <= i < t.len() && 0 <= j < t.len() && i != j implies t[i] != t[j] by {
                assert(t[i] == s[i] && t[j] == s[j]);
            }
        }
        lemma_without(t, x);
        t.lemma_filter_push(e, other_than(x));
        assert(without(s, x) == if e != x {
            without(t, x).push(e)
        } else {
            without(t, x)
        });
        assert(!t.contains(e)) by {
            if t.contains(e) {
                let k = choose|k: int| 0 <= k < t.len() && t[k] == e;
                assert(s[k] == e && s[s.len() - 1] == e);
            }
        }
        assert forall|y: u64| s.contains(y) <==> (t.contains(y) || y == e) by {
            if s.contains(y) {
                let k = choose|k: int| 0 <= k < s.len() && s[k] == y;
                if k < s.len() - 1 {
                    assert(t[k] == y);
                }
            }
            if t.contains(y) {
                let k = choose|k: int| 0 <= k < t.len() && t[k] == y;
                assert(s[k] == y);
            }
            if y == e {
                assert(s[s.len() - 1] == y);
            }
        }
        if e != x {
            let f = without(t, x);
            assert(f.push(e).no_duplicates()) by {
                assert forall|i: int, j: int| 0 <= i < f.push(e).len() && 0 <= j < f.push(e).len() && i != j implies f.push(e)[i] != f.push(e)[j] by {
                    if i < f.len() {
                        assert(f.contains(f[i]));
                        assert(t.contains(f[i]));
                    }
                    if j < f.len() {
                        assert(f.contains(f[j]));
                        assert(t.contains(f[j]));
                    }
                }
            }
            assert forall|y: u64| #[trigger] f.push(e).contains(y) <==> (f.contains(y) || y == e) by {
                if f.push(e).contains(y) {
                    let k = choose|k: int| 0 <= k < f.push(e).len() && f.push(e)[k] == y;
                    if k < f.len() {
                        assert(f[k] == y);
                    }
                }
                if f.contains(y) {
                    let k = choose|k: int| 0 <= k < f.len() && f[k] == y;
                    assert(f.push(e)[k] == y);
                }
                if y == e {
                    assert(f.push(e)[f.len() as int] == y);
                }
            }
        }
    }
}

/// What taking a member out of its session leaves: the session's other
/// members, or no session.
pub proof fn lemma_without_member(v: ServerView, sid: Seq<char>, id: u64)
    requires
        v.consistent(),
        v.sessions.contains_key(sid),
        v.sessions[sid].members.contains(id),
    ensures
        forall|sid2: Seq<char>| sid2 != sid ==> (#[trigger] v.without_member(sid, id).contains_key(sid2)
            <==> v.sessions.contains_key(sid2)),
        forall|sid2: Seq<char>| sid2 != sid && v.sessions.contains_key(sid2) ==> #[trigger] v.without_member(
            sid,
            id,
        )[sid2] == v.sessions[sid2],
        v.without_member(sid, id).contains_key(sid) <==> v.sessions[sid].members.len() > 1,
        v.without_member(sid, id).contains_key(sid) ==> {
            let s = v.without_member(sid, id)[sid];
            &&& s.members == without(v.sessions[sid].members, id)
            &&& s.capacity == v.sessions[sid].capacity
            &&& s.created_at == v.sessions[sid].created_at
        },
        without(v.sessions[sid].members, id).no_duplicates(),
        forall|y: u64| #[trigger] without(v.sessions[sid].members, id).contains(y) <==> (v.sessions[
            sid].members.contains(y) && y != id),
        without(v.sessions[sid].members, id).len() == v.sessions[sid].members.len() - 1,
{
    lemma_without(v.sessions[sid].members, id);
}

/// Unregistering keeps the state invariant.
pub proof fn lemma_unregister_consistent(v: ServerView, id: u64)
    requires
        v.consistent(),
    ensures
        v.unregister(id).consistent(),
{
    let w = v.unregister(id);
    if v.conns.contains_key(id) {
        match v.conns[id].session {
            None => {
                assert forall|sid2: Seq<char>, i: int|
                    w.sessions.contains_key(sid2) && 0 <= i < w.sessions[sid2].members.len() implies {
                        let m = #[trigger] w.sessions[sid2].members[i];
                        w.conns.contains_key(m) && w.conns[m].session == Some(sid2)
                    } by {
                    let m = v.sessions[sid2].members[i];
                    assert(v.conns[m].session == Some(sid2));
                }
            },
            Some(sid) => {
                let mem = v.sessions[sid].members;
                lemma_without_member(v, sid, id);
                assert forall|sid2: Seq<char>, i: int|
                    w.sessions.contains_key(sid2) && 0 <= i < w.sessions[sid2].members.len() implies {
                        let m = #[trigger] w.sessions[sid2].members[i];
                        w.conns.contains_key(m) && w.conns[m].session == Some(sid2)
                    } by {
                    let m = w.sessions[sid2].members[i];
                    if sid2 == sid {
                        assert(without(mem, id).contains(m));
                        let k = choose|k: int| 0 <= k < mem.len() && mem[k] == m;
                        assert(v.conns[mem[k]].session == Some(sid));
                    } else {
                        assert(v.conns[v.sessions[sid2].members[i]].session == Some(sid2));
                    }
                }
                assert forall|id2: u64| #[trigger] w.conns.contains_key(id2) && w.conns[id2].session is Some implies {
                    let sid2 = w.conns[id2].session->0;
                    w.sessions.contains_key(sid2) && w.sessions[sid2].members.contains(id2)
                } by {
                    let sid2 = v.conns[id2].session->0;
                    if sid2 == sid {
                        assert(without(mem, id).contains(id2));
                        let k = choose|k: int| 0 <= k < without(mem, id).len() && without(mem, id)[k] == id2;
                        assert(mem.len() > 1);
                    }
                }
            },
        }
    }
}

/// Leaving a session keeps the state invariant.
pub proof fn lemma_leave_consistent(v: ServerView, sid: Seq<char>, cid: u64)
    requires
        v.consistent(),
    ensures
        v.leave(sid, cid).consistent(),
{
    let w = v.leave(sid, cid);
    if v.leave_result(sid, cid) is Ok {
        let mem = v.sessions[sid].members;
        let k0 = choose|k: int| 0 <= k < mem.len() && mem[k] == cid;
        assert(v.conns[mem[k0]].session == Some(sid));
        lemma_without_member(v, sid, cid);
        assert forall|sid2: Seq<char>, i: int|
            w.sessions.contains_key(sid2) && 0 <= i < w.sessions[sid2].members.len() implies {
                let m = #[trigger] w.sessions[sid2].members[i];
                w.conns.contains_key(m) && w.conns[m].session == Some(sid2)
            } by {
            let m = w.sessions[sid2].members[i];
            if sid2 == sid {
                assert(without(mem, cid).contains(m));
                let k = choose|k: int| 0 <= k < mem.len() && mem[k] == m;
                assert(v.conns[mem[k]].session == Some(sid));
            } else {
                assert(v.conns[v.sessions[sid2].members[i]].session == Some(sid2));
            }
        }
        assert forall|id2: u64| #[trigger] w.conns.contains_key(id2) && w.conns[id2].session is Some implies {
            let sid2 = w.conns[id2].session->0;
            w.sessions.contains_key(sid2) && w.sessions[sid2].members.contains(id2)
        } by {
            let sid2 = v.conns[id2].session->0;
            if sid2 == sid {
                assert(without(mem, cid).contains(id2));
                let k = choose|k: int| 0 <= k < without(mem, cid).len() && without(mem, cid)[k] == id2;
                assert(mem.len() > 1);
            }
        }
    }
}

} // verus!
