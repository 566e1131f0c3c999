//! The signaling server: the connection registry, the session manager and
//! the message router over one explicitly owned state object. Every change
//! goes through `&mut self`, so joins on a session are serialized.

use vstd::prelude::*;
use crate::keyed::{keyed, lemma_keyed, lemma_keyed_push, lemma_keyed_remove, lemma_keyed_update, unique_keys};
use crate::lifecycle::{silence_since, step};
use crate::message::{MessageKind, SignalError, SignalingMessage};
use crate::wire::{parse, parse_frame};
use crate::model::{
    lemma_leave_consistent, lemma_unregister_consistent, lemma_without_member, other_than, session_state, without,
    ConnectionView, Liveness, RouteOutcome, ServerView, SessionState, SessionView,
};

verus! {

/// A live transport connection, owned by the registry.
pub struct Connection {
    pub id: u64,
    pub session: Option<String>,
    pub last_activity: u64,
    pub liveness: Liveness,
    /// Messages handed to the transport, oldest first.
    pub outbox: Vec<SignalingMessage>,
}

pub open spec fn session_view(s: Option<String>) -> Option<Seq<char>> {
    match s {
        Some(x) => Some(x@),
        None => None,
    }
}

impl View for Connection {
    type V = ConnectionView;

    open spec fn view(&self) -> ConnectionView {
        ConnectionView {
            session: session_view(self.session),
            last_activity: self.last_activity,
            liveness: self.liveness,
            outbox: self.outbox@.map_values(|m: SignalingMessage| m@),
        }
    }
}

/// A group of connections that exchange signaling messages.
pub struct Session {
    pub id: String,
    pub members: Vec<u64>,
    pub capacity: usize,
    pub created_at: u64,
}

impl View for Session {
    type V = SessionView;

    open spec fn view(&self) -> SessionView {
        SessionView {
            members: self.members@,
            capacity: self.capacity as nat,
            created_at: self.created_at,
        }
    }
}

pub open spec fn conn_key(c: Connection) -> u64 {
    c.id
}

pub open spec fn conn_val(c: Connection) -> ConnectionView {
    c@
}

pub open spec fn session_key(s: Session) -> Seq<char> {
    s.id@
}

pub open spec fn session_val(s: Session) -> SessionView {
    s@
}

/// The process-wide signaling state.
pub struct Server {
    conns: Vec<Connection>,
    sessions: Vec<Session>,
    next_id: u64,
    capacity: usize,
    idle_after: u64,
    disconnect_after: u64,
}

impl View for Server {
    type V = ServerView;

    closed spec fn view(&self) -> ServerView {
        ServerView {
            conns: keyed(self.conns@, |c: Connection| conn_key(c), |c: Connection| conn_val(c)),
            sessions: keyed(self.sessions@, |s: Session| session_key(s), |s: Session| session_val(s)),
            next_id: self.next_id,
            capacity: self.capacity as nat,
            idle_after: self.idle_after,
            disconnect_after: self.disconnect_after,
        }
    }
}

impl Server {
    pub closed spec fn wf(&self) -> bool {
        &&& unique_keys(self.conns@, |c: Connection| conn_key(c))
        &&& unique_keys(self.sessions@, |s: Session| session_key(s))
        &&& self@.consistent()
    }

    proof fn lemma_views(&self)
        ensures
            forall|i: int| 0 <= i < self.conns@.len() ==> #[trigger] self@.conns.contains_key(self.conns@[i].id),
            forall|i: int| 0 <= i < self.sessions@.len() ==> #[trigger] self@.sessions.contains_key(
                self.sessions@[i].id@,
            ),
            forall|k: u64| #[trigger] self@.conns.contains_key(k) ==> exists|i: int|
                0 <= i < self.conns@.len() && self.conns@[i].id == k,
            forall|k: Seq<char>| #[trigger] self@.sessions.contains_key(k) ==> exists|i: int|
                0 <= i < self.sessions@.len() && self.sessions@[i].id@ == k,
            self.wf() ==> forall|i: int| 0 <= i < self.conns@.len() ==> #[trigger] self@.conns[self.conns@[i].id]
                == self.conns@[i]@,
            self.wf() ==> forall|i: int| 0 <= i < self.sessions@.len() ==> #[trigger] self@.sessions[
                self.sessions@[i].id@] == self.sessions@[i]@,
    {
        let ck = |c: Connection| conn_key(c);
        let cv = |c: Connection| conn_val(c);
        let sk = |s: Session| session_key(s);
        let sv = |s: Session| session_val(s);
        lemma_keyed(self.conns@, ck, cv);
        lemma_keyed(self.sessions@, sk, sv);
        assert forall|i: int| 0 <= i < self.conns@.len() implies #[trigger] self@.conns.contains_key(
            self.conns@[i].id,
        ) by {
            assert(ck(self.conns@[i]) == self.conns@[i].id);
        }
        assert forall|i: int| 0 <= i < self.sessions@.len() implies #[trigger] self@.sessions.contains_key(
            self.sessions@[i].id@,
        ) by {
            assert(sk(self.sessions@[i]) == self.sessions@[i].id@);
        }
        if self.wf() {
            assert forall|i: int| 0 <= i < self.conns@.len() implies #[trigger] self@.conns[
                self.conns@[i].id] == self.conns@[i]@ by {
                assert(ck(self.conns@[i]) == self.conns@[i].id);
            }
            assert forall|i: int| 0 <= i < self.sessions@.len() implies #[trigger] self@.sessions[
                self.sessions@[i].id@] == self.sessions@[i]@ by {
                assert(sk(self.sessions@[i]) == self.sessions@[i].id@);
            }
        }
    }

    /// A server with no connection and no session. Sessions it creates hold
    /// up to `capacity` members (with none, every join fails); a connection goes idle after `idle_after`
    /// units of silence and is disconnected `disconnect_after` units later.
    pub fn new(capacity: usize, idle_after: u64, disconnect_after: u64) -> (r: Server)
        ensures
            r.wf(),
            r@ == ServerView::initial(capacity as nat, idle_after, disconnect_after),
    {
        let r = Server {
            conns: Vec::new(),
            sessions: Vec::new(),
            next_id: 0,
            capacity,
            idle_after,
            disconnect_after,
        };
        assert(r@.conns =~= Map::empty());
        assert(r@.sessions =~= Map::empty());
        r
    }

    fn find_conn(&self, id: u64) -> (r: Option<usize>)
        requires
            self.wf(),
        ensures
            match r {
                Some(i) => i < self.conns@.len() && self.conns@[i as int].id == id && self@.conns.contains_key(id)
                    && self@.conns[id] == self.conns@[i as int]@,
                None => !self@.conns.contains_key(id),
            },
    {
        proof {
            self.lemma_views();
        }
        let mut i: usize = 0;
        while i < self.conns.len()
            invariant
                self.wf(),
                i <= self.conns@.len(),
                forall|j: int| 0 <= j < i ==> self.conns@[j].id != id,
            decreases self.conns@.len() - i,
        {
            if self.conns[i].id == id {
                proof {
                    self.lemma_views();
                    assert(self@.conns.contains_key(self.conns@[i as int].id));
                    assert(self@.conns[self.conns@[i as int].id] == self.conns@[i as int]@);
                }
                return Some(i);
            }
            i = i + 1;
        }
        None
    }

    fn find_session(&self, sid: &String) -> (r: Option<usize>)
        requires
            self.wf(),
        ensures
            match r {
                Some(i) => i < self.sessions@.len() && self.sessions@[i as int].id@ == sid@
                    && self@.sessions.contains_key(sid@) && self@.sessions[sid@] == self.sessions@[i as int]@,
                None => !self@.sessions.contains_key(sid@),
            },
    {
        proof {
            self.lemma_views();
        }
        let mut i: usize = 0;
        while i < self.sessions.len()
            invariant
                self.wf(),
                i <= self.sessions@.len(),
                forall|j: int| 0 <= j < i ==> self.sessions@[j].id@ != sid@,
            decreases self.sessions@.len() - i,
        {
            if self.sessions[i].id == *sid {
                proof {
                    self.lemma_views();
                    assert(self@.sessions.contains_key(self.sessions@[i as int].id@));
                    assert(self@.sessions[self.sessions@[i as int].id@] == self.sessions@[i as int]@);
                }
                return Some(i);
            }
            i = i + 1;
        }
        None
    }

    /// Registers a new connection at time `now` and returns its id, unique
    /// over the server's life; none once the id counter is spent.
    pub fn register(&mut self, now: u64) -> (r: Option<u64>)
        requires
            old(self).wf(),
        ensures
            final(self).wf(),
            r == old(self)@.register_result(),
            final(self)@ == old(self)@.register(now),
    {
        if self.next_id == u64::MAX {
            return None;
        }
        let id = self.next_id;
        let c = Connection {
            id,
            session: None,
            last_activity: now,
            liveness: Liveness::Active,
            outbox: Vec::new(),
        };
        proof {
            self.lemma_views();
            assert(!self@.conns.contains_key(id));
            lemma_keyed_push(self.conns@, |c: Connection| conn_key(c), |c: Connection| conn_val(c), c);
            assert(c@.outbox =~= Seq::empty());
        }
        self.conns.push(c);
        self.next_id = id + 1;
        proof {
            let ghost ck = |c: Connection| conn_key(c);
            assert(unique_keys(self.conns@, ck)) by {
                assert forall|a: int, b: int|
                    0 <= a < self.conns@.len() && 0 <= b < self.conns@.len() && a != b implies ck(
                        self.conns@[a],
                    ) != ck(self.conns@[b]) by {
                    if a < self.conns@.len() - 1 && b < self.conns@.len() - 1 {
                        assert(self.conns@[a] == old(self).conns@[a]);
                        assert(self.conns@[b] == old(self).conns@[b]);
                    } else if a < self.conns@.len() - 1 {
                        assert(old(self)@.conns.contains_key(self.conns@[a].id));
                    } else {
                        assert(old(self)@.conns.contains_key(self.conns@[b].id));
                    }
                }
            }
            assert(old(self).conns@.push(c) == self.conns@);
            assert(self@ == old(self)@.register(now));
        }
        Some(id)
    }

    /// The connection registered under `id`, if any.
    pub fn lookup(&self, id: u64) -> (r: Option<&Connection>)
        requires
            self.wf(),
        ensures
            match r {
                Some(c) => self@.conns.contains_key(id) && c.id == id && c@ == self@.conns[id],
                None => !self@.conns.contains_key(id),
            },
    {
        match self.find_conn(id) {
            Some(i) => Some(&self.conns[i]),
            None => None,
        }
    }

    /// Hands `m` to the transport of connection `id`; fails with
    /// `SendError` where that transport is closed and released.
    pub fn send(&mut self, id: u64, m: SignalingMessage) -> (r: Result<(), SignalError>)
        requires
            old(self).wf(),
        ensures
            final(self).wf(),
            r == old(self)@.send_result(id),
            final(self)@ == old(self)@.send(id, m@),
    {
        match self.find_conn(id) {
            None => Err(SignalError::SendError),
            Some(i) => {
                let ghost mv = m@;
                self.conns[i].outbox.push(m);
                proof {
                    let ghost c = self.conns@[i as int];
                    assert(self.conns@ == old(self).conns@.update(i as int, c));
                    lemma_keyed_update(old(self).conns@, |c: Connection| conn_key(c), |c: Connection| conn_val(c), i as int, c);
                    assert(c@.outbox =~= old(self).conns@[i as int]@.outbox.push(mv));
                    assert(c@ == ConnectionView { outbox: old(self)@.conns[id].outbox.push(mv), ..old(self)@.conns[id] });
                    assert(self@ =~= old(self)@.send(id, mv));
                    assert(self@.consistent());
                }
                Ok(())
            },
        }
    }

    /// Records traffic from connection `id` at time `now`: the connection is
    /// active again. An unknown id is ignored.
    pub fn touch(&mut self, id: u64, now: u64)
        requires
            old(self).wf(),
        ensures
            final(self).wf(),
            final(self)@ == old(self)@.touch(id, now),
    {
        if let Some(i) = self.find_conn(id) {
            self.conns[i].last_activity = now;
            self.conns[i].liveness = Liveness::Active;
            proof {
                let ghost c = self.conns@[i as int];
                assert(self.conns@ == old(self).conns@.update(i as int, c));
                lemma_keyed_update(old(self).conns@, |c: Connection| conn_key(c), |c: Connection| conn_val(c), i as int, c);
                assert(self@ =~= old(self)@.touch(id, now));
                assert(self@.consistent());
            }
        }
    }

    fn state_of(s: &Session) -> (r: SessionState)
        ensures
            r == session_state(s@),
    {
        if s.members.len() >= s.capacity {
            SessionState::Full
        } else {
            SessionState::Open
        }
    }

    /// Adds connection `cid` to session `sid`, creating the session at time
    /// `now` if it does not exist, and returns the session's state. Fails
    /// with `SessionFull` where the session holds as many members as its
    /// capacity. A member joining again changes nothing.
    pub fn create_or_join(&mut self, sid: &String, cid: u64, now: u64) -> (r: Result<SessionState, SignalError>)
        requires
            old(self).wf(),
        ensures
            final(self).wf(),
            r == old(self)@.join_result(sid@, cid, now),
            final(self)@ == old(self)@.join(sid@, cid, now),
    {
        let ghost v = self@;
        let ci = match self.find_conn(cid) {
            None => return Err(SignalError::UnknownConnection),
            Some(i) => i,
        };
        if let Some(cur) = &self.conns[ci].session {
            if *cur == *sid {
                proof {
                    assert(v.sessions.contains_key(sid@));
                }
                let si = self.find_session(sid).unwrap();
                return Ok(Self::state_of(&self.sessions[si]));
            } else {
                return Err(SignalError::AlreadyInSession);
            }
        }
        let ghost joined = v.joined_session(sid@, cid, now);
        let st;
        match self.find_session(sid) {
            Some(si) => {
                if self.sessions[si].members.len() >= self.sessions[si].capacity {
                    return Err(SignalError::SessionFull);
                }
                proof {
                    if v.sessions[sid@].members.contains(cid) {
                        let k = choose|k: int| 0 <= k < v.sessions[sid@].members.len() && v.sessions[sid@].members[k] == cid;
                        assert(v.conns[v.sessions[sid@].members[k]].session == Some(sid@));
                    }
                }
                self.sessions[si].members.push(cid);
                proof {
                    let ghost s = self.sessions@[si as int];
                    assert(self.sessions@ == old(self).sessions@.update(si as int, s));
                    lemma_keyed_update(old(self).sessions@, |s: Session| session_key(s), |s: Session| session_val(s), si as int, s);
                    assert(s@ == joined);
                }
                st = Self::state_of(&self.sessions[si]);
            },
            None => {
                if self.capacity == 0 {
                    return Err(SignalError::SessionFull);
                }
                let s = Session { id: sid.clone(), members: vec![cid], capacity: self.capacity, created_at: now };
                proof {
                    self.lemma_views();
                    assert(s@.members =~= seq![cid]);
                    assert(s@ == joined);
                    lemma_keyed_push(self.sessions@, |s: Session| session_key(s), |s: Session| session_val(s), s);
                }
                st = Self::state_of(&s);
                self.sessions.push(s);
                proof {
                    let ghost sk = |s: Session| session_key(s);
                    assert(old(self).sessions@.push(s) == self.sessions@);
                    assert(unique_keys(self.sessions@, sk)) by {
                        assert forall|a: int, b: int|
                            0 <= a < self.sessions@.len() && 0 <= b < self.sessions@.len() && a != b implies sk(
                                self.sessions@[a],
                            ) != sk(self.sessions@[b]) by {
                            if a < self.sessions@.len() - 1 && b < self.sessions@.len() - 1 {
                                assert(self.sessions@[a] == old(self).sessions@[a]);
                                assert(self.sessions@[b] == old(self).sessions@[b]);
                            } else if a < self.sessions@.len() - 1 {
                                assert(self.sessions@[a] == old(self).sessions@[a]);
                                old(self).lemma_views();
                                assert(old(self)@.sessions.contains_key(self.sessions@[a].id@));
                            } else {
                                assert(self.sessions@[b] == old(self).sessions@[b]);
                                old(self).lemma_views();
                                assert(old(self)@.sessions.contains_key(self.sessions@[b].id@));
                            }
                        }
                    }
                }
            },
        }
        let ghost mid = self.conns@;
        self.conns[ci].session = Some(sid.clone());
        proof {
            let ghost c = self.conns@[ci as int];
            assert(self.conns@ == mid.update(ci as int, c));
            lemma_keyed_update(mid, |c: Connection| conn_key(c), |c: Connection| conn_val(c), ci as int, c);
            assert(self@.sessions == v.sessions.insert(sid@, joined));
            assert(self@ =~= v.join(sid@, cid, now));
            let w = self@;
            assert forall|sid2: Seq<char>, i: int|
                w.sessions.contains_key(sid2) && 0 <= i < w.sessions[sid2].members.len() implies {
                    let m = #[trigger] w.sessions[sid2].members[i];
                    w.conns.contains_key(m) && w.conns[m].session == Some(sid2)
                } by {
                if sid2 != sid@ {
                    assert(w.sessions[sid2] == v.sessions[sid2]);
                    let m = v.sessions[sid2].members[i];
                    assert(v.conns.contains_key(m) && v.conns[m].session == Some(sid2));
                } else if i < joined.members.len() - 1 {
                    assert(v.sessions.contains_key(sid@));
                    assert(joined.members[i] == v.sessions[sid@].members[i]);
                }
            }
            assert forall|id: u64| #[trigger] w.conns.contains_key(id) && w.conns[id].session is Some implies {
                let sid2 = w.conns[id].session->0;
                w.sessions.contains_key(sid2) && w.sessions[sid2].members.contains(id)
            } by {
                if id == cid {
                    assert(joined.members[joined.members.len() - 1] == cid);
                } else {
                    let sid2 = v.conns[id].session->0;
                    if sid2 == sid@ {
                        let k = choose|k: int| 0 <= k < v.sessions[sid@].members.len() && v.sessions[sid@].members[k] == id;
                        assert(joined.members[k] == id);
                    }
                }
            }
            assert(w.consistent());
        }
        Ok(st)
    }

    /// Takes `cid` out of the session at index `si`, and destroys the session
    /// where no member is left.
    fn drop_member(&mut self, si: usize, cid: u64)
        requires
            unique_keys(old(self).sessions@, |s: Session| session_key(s)),
            si < old(self).sessions@.len(),
        ensures
            unique_keys(final(self).sessions@, |s: Session| session_key(s)),
            final(self).conns@ == old(self).conns@,
            final(self)@ == (ServerView {
                sessions: old(self)@.without_member(old(self).sessions@[si as int].id@, cid),
                ..old(self)@
            }),
    {
        let ghost sk = |s: Session| session_key(s);
        let ghost sv = |s: Session| session_val(s);
        let ghost mem = self.sessions@[si as int].members@;
        let mut rest: Vec<u64> = Vec::new();
        let n = self.sessions[si].members.len();
        let mut j: usize = 0;
        while j < n
            invariant
                self.sessions@ == old(self).sessions@,
                si < self.sessions@.len(),
                mem == self.sessions@[si as int].members@,
                n == mem.len(),
                j <= n,
                rest@ == without(mem.subrange(0, j as int), cid),
            decreases n - j,
        {
            let m = self.sessions[si].members[j];
            proof {
                mem.subrange(0, j as int).lemma_filter_push(m, other_than(cid));
                assert(mem.subrange(0, j + 1) =~= mem.subrange(0, j as int).push(m));
            }
            if m != cid {
                rest.push(m);
            }
            j = j + 1;
        }
        proof {
            assert(mem.subrange(0, n as int) =~= mem);
            lemma_keyed(old(self).sessions@, sk, sv);
            assert(sk(old(self).sessions@[si as int]) == old(self).sessions@[si as int].id@);
        }
        if rest.len() == 0 {
            self.sessions.remove(si);
            proof {
                lemma_keyed_remove(old(self).sessions@, sk, sv, si as int);
                assert(self@ =~= (ServerView {
                    sessions: old(self)@.without_member(old(self).sessions@[si as int].id@, cid),
                    ..old(self)@
                }));
            }
        } else {
            self.sessions[si].members = rest;
            proof {
                let ghost s = self.sessions@[si as int];
                assert(self.sessions@ == old(self).sessions@.update(si as int, s));
                lemma_keyed_update(old(self).sessions@, sk, sv, si as int, s);
                assert(self@ =~= (ServerView {
                    sessions: old(self)@.without_member(old(self).sessions@[si as int].id@, cid),
                    ..old(self)@
                }));
            }
        }
    }

    /// Releases connection `id` and takes it out of its session, which is
    /// destroyed where it was the last member. Unregistering an id that is
    /// not registered changes nothing.
    pub fn unregister(&mut self, id: u64)
        requires
            old(self).wf(),
        ensures
            final(self).wf(),
            final(self)@ == old(self)@.unregister(id),
    {
        let ghost v = self@;
        let ci = match self.find_conn(id) {
            None => return,
            Some(i) => i,
        };
        let si = match &self.conns[ci].session {
            None => None,
            Some(sid) => {
                proof {
                    assert(v.sessions.contains_key(sid@));
                }
                self.find_session(sid)
            },
        };
        self.conns.remove(ci);
        proof {
            lemma_keyed_remove(old(self).conns@, |c: Connection| conn_key(c), |c: Connection| conn_val(c), ci as int);
        }
        if let Some(si) = si {
            self.drop_member(si, id);
        }
        proof {
            assert(self@ =~= v.unregister(id));
            lemma_unregister_consistent(v, id);
        }
    }

    /// Takes connection `cid` out of session `sid`; the session is destroyed
    /// where it was the last member. Returns the session's state after.
    pub fn leave(&mut self, sid: &String, cid: u64) -> (r: Result<SessionState, SignalError>)
        requires
            old(self).wf(),
        ensures
            final(self).wf(),
            r == old(self)@.leave_result(sid@, cid),
            final(self)@ == old(self)@.leave(sid@, cid),
    {
        let ghost v = self@;
        let si = match self.find_session(sid) {
            None => return Err(SignalError::UnknownSession),
            Some(i) => i,
        };
        let found = self.has_member(si, cid);
        if !found {
            return Err(SignalError::NotAMember);
        }
        let last = self.sessions[si].members.len() == 1;
        let ghost mem = v.sessions[sid@].members;
        proof {
            let k = choose|k: int| 0 <= k < mem.len() && mem[k] == cid;
            assert(v.conns[mem[k]].session == Some(sid@));
        }
        let ci = self.find_conn(cid).unwrap();
        self.conns[ci].session = None;
        proof {
            let ghost c = self.conns@[ci as int];
            assert(self.conns@ == old(self).conns@.update(ci as int, c));
            lemma_keyed_update(old(self).conns@, |c: Connection| conn_key(c), |c: Connection| conn_val(c), ci as int, c);
        }
        self.drop_member(si, cid);
        proof {
            assert(self@ =~= v.leave(sid@, cid));
            lemma_leave_consistent(v, sid@, cid);
        }
        if last {
            Ok(SessionState::Closed)
        } else {
            Ok(SessionState::Open)
        }
    }

    /// The members of session `sid` in the order in which they joined; none
    /// where there is no such session.
    pub fn members(&self, sid: &String) -> (r: Vec<u64>)
        requires
            self.wf(),
        ensures
            r@ == if self@.sessions.contains_key(sid@) {
                self@.sessions[sid@].members
            } else {
                Seq::empty()
            },
    {
        match self.find_session(sid) {
            Some(si) => self.sessions[si].members.clone(),
            None => Vec::new(),
        }
    }

    /// Hands `m` to every member of the session at index `si` but its sender,
    /// in the order in which they joined.
    fn relay(&mut self, si: usize, m: &SignalingMessage)
        requires
            old(self).wf(),
            si < old(self).sessions@.len(),
            old(self).sessions@[si as int].id@ == m.session_id@,
        ensures
            final(self).wf(),
            final(self)@ == old(self)@.relay(m@),
    {
        let ghost v = self@;
        let ghost mv = m@;
        let ghost sid = m.session_id@;
        let ghost mem = self.sessions@[si as int].members@;
        proof {
            self.lemma_views();
            assert(v.sessions[sid] == self.sessions@[si as int]@);
        }
        let members = self.members(&m.session_id);
        let n = members.len();
        let mut j: usize = 0;
        while j < n
            invariant
                self.wf(),
                mv == m@,
                members@ == mem,
                v.sessions.contains_key(sid),
                mem == v.sessions[sid].members,
                v.consistent(),
                n == mem.len(),
                j <= n,
                self@ == (ServerView { conns: self@.conns, ..v }),
                self@.conns =~= Map::new(
                    |k: u64| v.conns.contains_key(k),
                    |k: u64|
                        if mem.subrange(0, j as int).contains(k) && k != mv.sender_id {
                            ConnectionView { outbox: v.conns[k].outbox.push(mv), ..v.conns[k] }
                        } else {
                            v.conns[k]
                        },
                ),
            decreases n - j,
        {
            let k = members[j];
            let ghost before = mem.subrange(0, j as int);
            let ghost after = mem.subrange(0, j + 1);
            proof {
                assert(after =~= before.push(k));
                assert forall|x: u64| after.contains(x) <==> (before.contains(x) || x == k) by {
                    if after.contains(x) {
                        let q = choose|q: int| 0 <= q < after.len() && after[q] == x;
                        if q < j {
                            assert(before[q] == x);
                        }
                    }
                    if before.contains(x) {
                        let q = choose|q: int| 0 <= q < before.len() && before[q] == x;
                        assert(after[q] == x);
                    }
                    if x == k {
                        assert(after[j as int] == x);
                    }
                }
                assert(!before.contains(k)) by {
                    if before.contains(k) {
                        let q = choose|q: int| 0 <= q < before.len() && before[q] == k;
                        assert(mem[q] == mem[j as int]);
                    }
                }
                assert(v.conns.contains_key(mem[j as int]));
            }
            let ghost prev = self@.conns;
            proof {
                assert(v.conns.contains_key(k));
                assert(prev.contains_key(k));
            }
            if k != m.sender_id {
                let d = m.duplicate();
                let ghost pv = self@;
                let _ = self.send(k, d);
                proof {
                    assert(d@ == mv);
                    assert(pv.conns == prev);
                    assert(self@ == pv.send(k, mv));
                    assert(pv.conns.contains_key(k));
                    assert(self@.conns == prev.insert(k, ConnectionView { outbox: prev[k].outbox.push(mv), ..prev[k] }));
                }
            }
            proof {
                if k == mv.sender_id {
                    assert(self@.conns == prev);
                }
                assert forall|x: u64| #[trigger] v.conns.contains_key(x) implies self@.conns.contains_key(x)
                    && self@.conns[x] == (if after.contains(x) && x != mv.sender_id {
                        ConnectionView { outbox: v.conns[x].outbox.push(mv), ..v.conns[x] }
                    } else {
                        v.conns[x]
                    }) by {
                    assert(prev.contains_key(x));
                    assert(prev[x] == (if before.contains(x) && x != mv.sender_id {
                        ConnectionView { outbox: v.conns[x].outbox.push(mv), ..v.conns[x] }
                    } else {
                        v.conns[x]
                    }));
                    if x != k {
                        assert(after.contains(x) == before.contains(x));
                    } else {
                        assert(after.contains(x));
                        assert(prev[x] == v.conns[x]);
                    }
                }
                assert forall|x: u64| #[trigger] self@.conns.contains_key(x) implies v.conns.contains_key(x) by {
                    assert(prev.contains_key(x));
                }
            }
            j = j + 1;
        }
        proof {
            assert(mem.subrange(0, n as int) =~= mem);
            assert forall|x: u64| #[trigger] v.conns.contains_key(x) implies self@.conns[x] == v.relay(mv).conns[x] by {
                assert(v.recipient(mv, x) == (mem.contains(x) && x != mv.sender_id));
            }
            assert(self@.conns =~= v.relay(mv).conns);
            assert(self@ =~= v.relay(mv));
        }
    }

    /// Routes message `m`, received at time `now`. Offers, answers and ICE
    /// candidates are relayed verbatim to the other members of the sender's
    /// session; joins and leaves act on the session and are acknowledged to
    /// the sender alone, in the result.
    pub fn route(&mut self, m: SignalingMessage, now: u64) -> (r: Result<RouteOutcome, SignalError>)
        requires
            old(self).wf(),
        ensures
            final(self).wf(),
            r == old(self)@.route_result(m@, now),
            final(self)@ == old(self)@.route(m@, now),
    {
        match m.kind {
            MessageKind::Join => match self.create_or_join(&m.session_id, m.sender_id, now) {
                Ok(st) => Ok(RouteOutcome::Joined(st)),
                Err(e) => Err(e),
            },
            MessageKind::Leave => match self.leave(&m.session_id, m.sender_id) {
                Ok(st) => Ok(RouteOutcome::Left(st)),
                Err(e) => Err(e),
            },
            _ => {
                if m.payload.as_str().is_empty() {
                    return Err(SignalError::MalformedMessage);
                }
                let si = match self.find_session(&m.session_id) {
                    None => return Err(SignalError::UnknownSession),
                    Some(i) => i,
                };
                let is_member = self.has_member(si, m.sender_id);
                if !is_member {
                    return Err(SignalError::NotAMember);
                }
                self.relay(si, &m);
                Ok(RouteOutcome::Relayed)
            },
        }
    }

    /// The ids of all registered connections, in registration order.
    fn ids(&self) -> (r: Vec<u64>)
        requires
            self.wf(),
        ensures
            r@.no_duplicates(),
            forall|k: u64| r@.contains(k) <==> #[trigger] self@.conns.contains_key(k),
    {
        proof {
            self.lemma_views();
        }
        let mut r: Vec<u64> = Vec::new();
        let mut i: usize = 0;
        while i < self.conns.len()
            invariant
                self.wf(),
                i <= self.conns@.len(),
                r@.len() == i,
                forall|j: int| 0 <= j < i ==> r@[j] == #[trigger] self.conns@[j].id,
            decreases self.conns@.len() - i,
        {
            r.push(self.conns[i].id);
            i = i + 1;
        }
        proof {
            self.lemma_views();
            let ghost ck = |c: Connection| conn_key(c);
            assert forall|a: int, b: int| 0 <= a < r@.len() && 0 <= b < r@.len() && a != b implies r@[a] != r@[b] by {
                assert(ck(self.conns@[a]) != ck(self.conns@[b]));
            }
            assert forall|k: u64| r@.contains(k) <==> #[trigger] self@.conns.contains_key(k) by {
                if self@.conns.contains_key(k) {
                    let j = choose|j: int| 0 <= j < self.conns@.len() && self.conns@[j].id == k;
                    assert(r@[j] == k);
                }
                if r@.contains(k) {
                    let j = choose|j: int| 0 <= j < r@.len() && r@[j] == k;
                    assert(self.conns@[j].id == k);
                    assert(self@.conns.contains_key(self.conns@[j].id));
                }
            }
        }
        r
    }

    fn set_liveness(&mut self, id: u64, l: Liveness)
        requires
            old(self).wf(),
            l != Liveness::Disconnected,
        ensures
            final(self).wf(),
            final(self)@ == (ServerView {
                conns: if old(self)@.conns.contains_key(id) {
                    old(self)@.conns.insert(id, ConnectionView { liveness: l, ..old(self)@.conns[id] })
                } else {
                    old(self)@.conns
                },
                ..old(self)@
            }),
    {
        if let Some(i) = self.find_conn(id) {
            self.conns[i].liveness = l;
            proof {
                let ghost c = self.conns@[i as int];
                assert(self.conns@ == old(self).conns@.update(i as int, c));
                lemma_keyed_update(old(self).conns@, |c: Connection| conn_key(c), |c: Connection| conn_val(c), i as int, c);
                assert(self@.consistent());
            }
        } else {
            proof {
                assert(self@ =~= (ServerView { conns: old(self)@.conns, ..old(self)@ }));
            }
        }
    }

    /// One supervisor sweep at time `now`: each connection takes one step of
    /// its lifecycle; those that reach `Disconnected` are unregistered and
    /// taken out of their sessions. Returns their ids.
    pub fn sweep(&mut self, now: u64) -> (r: Vec<u64>)
        requires
            old(self).wf(),
        ensures
            final(self).wf(),
            forall|k: u64| #[trigger] r@.contains(k) <==> (old(self)@.conns.contains_key(k)
                && old(self)@.swept_liveness(k, now) == Liveness::Disconnected),
            forall|k: u64| #[trigger] final(self)@.conns.contains_key(k) <==> (old(self)@.conns.contains_key(k)
                && !r@.contains(k)),
            forall|k: u64| #[trigger] final(self)@.conns.contains_key(k) ==> final(self)@.conns[k] == (ConnectionView {
                liveness: old(self)@.swept_liveness(k, now),
                ..old(self)@.conns[k]
            }),
            forall|sid: Seq<char>| #[trigger] final(self)@.sessions.contains_key(sid) ==> {
                &&& old(self)@.sessions.contains_key(sid)
                &&& final(self)@.sessions[sid].capacity == old(self)@.sessions[sid].capacity
                &&& final(self)@.sessions[sid].created_at == old(self)@.sessions[sid].created_at
            },
            forall|sid: Seq<char>, m: u64| #[trigger] final(self)@.sessions.contains_key(sid) ==> (
                #[trigger] final(self)@.sessions[sid].members.contains(m) <==> (old(self)@.sessions[sid].members.contains(m)
                && !r@.contains(m))),
            forall|sid: Seq<char>, m: u64| #[trigger] old(self)@.sessions.contains_key(sid)
                && #[trigger] old(self)@.sessions[sid].members.contains(m) && !r@.contains(m)
                ==> final(self)@.sessions.contains_key(sid),
            final(self)@.next_id == old(self)@.next_id,
    {
        let ghost v = self@;
        let ids = self.ids();
        let mut gone: Vec<u64> = Vec::new();
        let mut i: usize = 0;
        while i < ids.len()
            invariant
                self.wf(),
                v.consistent(),
                ids@.no_duplicates(),
                forall|k: u64| ids@.contains(k) <==> #[trigger] v.conns.contains_key(k),
                i <= ids@.len(),
                self@.next_id == v.next_id,
                self@.idle_after == v.idle_after,
                self@.disconnect_after == v.disconnect_after,
                forall|k: u64| #[trigger] gone@.contains(k) <==> (ids@.subrange(0, i as int).contains(k)
                    && v.swept_liveness(k, now) == Liveness::Disconnected),
                forall|k: u64| #[trigger] self@.conns.contains_key(k) <==> (v.conns.contains_key(k) && !gone@.contains(k)),
                forall|k: u64| #[trigger] self@.conns.contains_key(k) ==> self@.conns[k] == (if ids@.subrange(0, i as int).contains(k) {
                    ConnectionView { liveness: v.swept_liveness(k, now), ..v.conns[k] }
                } else {
                    v.conns[k]
                }),
                forall|sid: Seq<char>| #[trigger] self@.sessions.contains_key(sid) ==> {
                    &&& v.sessions.contains_key(sid)
                    &&& self@.sessions[sid].capacity == v.sessions[sid].capacity
                    &&& self@.sessions[sid].created_at == v.sessions[sid].created_at
                },
                forall|sid: Seq<char>, m: u64| #[trigger] self@.sessions.contains_key(sid) ==> (
                    #[trigger] self@.sessions[sid].members.contains(m) <==> (v.sessions[sid].members.contains(m)
                    && !gone@.contains(m))),
                forall|sid: Seq<char>, m: u64| #[trigger] v.sessions.contains_key(sid)
                    && #[trigger] v.sessions[sid].members.contains(m) && !gone@.contains(m)
                    ==> self@.sessions.contains_key(sid),
            decreases ids@.len() - i,
        {
            let k = ids[i];
            let ghost before = ids@.subrange(0, i as int);
            let ghost after = ids@.subrange(0, i + 1);
            let ghost cur = self@;
            proof {
                assert(after =~= before.push(k));
                assert forall|x: u64| after.contains(x) <==> (before.contains(x) || x == k) by {
                    if after.contains(x) {
                        let q = choose|q: int| 0 <= q < after.len() && after[q] == x;
                        if q < i {
                            assert(before[q] == x);
                        }
                    }
                    if before.contains(x) {
                        let q = choose|q: int| 0 <= q < before.len() && before[q] == x;
                        assert(after[q] == x);
                    }
                    if x == k {
                        assert(after[i as int] == x);
                    }
                }
                assert(!before.contains(k)) by {
                    if before.contains(k) {
                        let q = choose|q: int| 0 <= q < before.len() && before[q] == k;
                        assert(ids@[q] == ids@[i as int]);
                    }
                }
                assert(ids@.contains(k)) by {
                    assert(ids@[i as int] == k);
                }
                assert(!gone@.contains(k));
                assert(self@.conns.contains_key(k));
                assert(self@.conns[k] == v.conns[k]);
            }
            let c = self.lookup(k).unwrap();
            let silent = silence_since(now, c.last_activity);
            let nl = step(c.liveness, silent, self.idle_after, self.disconnect_after);
            if nl == Liveness::Disconnected {
                proof {
                    if cur.conns[k].session is Some {
                        let sid = cur.conns[k].session->0;
                        lemma_without_member(cur, sid, k);
                    }
                }
                let ghost g = gone@;
                self.unregister(k);
                gone.push(k);
                proof {
                    assert(self@ == cur.unregister(k));
                    assert(gone@ == g.push(k));
                    assert forall|x: u64| #[trigger] gone@.contains(x) <==> (g.contains(x) || x == k) by {
                        if gone@.contains(x) {
                            let q = choose|q: int| 0 <= q < gone@.len() && gone@[q] == x;
                            if q < g.len() {
                                assert(g[q] == x);
                            }
                        }
                        if g.contains(x) {
                            let q = choose|q: int| 0 <= q < g.len() && g[q] == x;
                            assert(gone@[q] == x);
                        }
                        if x == k {
                            assert(gone@[g.len() as int] == x);
                        }
                    }
                    let w = self@;
                    assert(forall|x: u64| #[trigger] g.contains(x) <==> (before.contains(x)
                        && v.swept_liveness(x, now) == Liveness::Disconnected));
                    assert forall|x: u64| #[trigger] w.conns.contains_key(x) <==> (v.conns.contains_key(x) && !gone@.contains(x)) by {
                        assert(w.conns.contains_key(x) == (cur.conns.contains_key(x) && x != k));
                        assert(cur.conns.contains_key(x) == (v.conns.contains_key(x) && !g.contains(x)));
                    }
                    match cur.conns[k].session {
                        None => {
                            assert(w.sessions == cur.sessions);
                            assert forall|sid: Seq<char>, m: u64| #[trigger] w.sessions.contains_key(sid) implies (
                                #[trigger] w.sessions[sid].members.contains(m) <==> (v.sessions[sid].members.contains(m)
                                && !gone@.contains(m))) by {
                                if m == k && w.sessions[sid].members.contains(m) {
                                    let q = choose|q: int| 0 <= q < w.sessions[sid].members.len() && w.sessions[sid].members[q] == m;
                                    assert(cur.conns[cur.sessions[sid].members[q]].session == Some(sid));
                                }
                            }
                        },
                        Some(sid) => {
                            assert(w.sessions == cur.without_member(sid, k));
                            assert forall|sid2: Seq<char>, m: u64| #[trigger] w.sessions.contains_key(sid2) implies (
                                #[trigger] w.sessions[sid2].members.contains(m) <==> (v.sessions[sid2].members.contains(m)
                                && !gone@.contains(m))) by {
                                if sid2 != sid {
                                    assert(cur.sessions.contains_key(sid2));
                                    assert(w.sessions[sid2] == cur.sessions[sid2]);
                                    if m == k && cur.sessions[sid2].members.contains(m) {
                                        let q = choose|q: int| 0 <= q < cur.sessions[sid2].members.len() && cur.sessions[sid2].members[q] == m;
                                        assert(cur.conns[cur.sessions[sid2].members[q]].session == Some(sid2));
                                    }
                                } else {
                                    assert(w.sessions[sid].members == without(cur.sessions[sid].members, k));
                                    assert(without(cur.sessions[sid].members, k).contains(m) == (cur.sessions[sid].members.contains(m) && m != k));
                                }
                            }
                            assert forall|sid2: Seq<char>, m: u64| #[trigger] v.sessions.contains_key(sid2)
                                && #[trigger] v.sessions[sid2].members.contains(m) && !gone@.contains(m)
                                implies w.sessions.contains_key(sid2) by {
                                assert(!g.contains(m));
                                assert(cur.sessions.contains_key(sid2));
                                if sid2 == sid {
                                    assert(cur.sessions[sid].members.contains(m));
                                    assert(without(cur.sessions[sid].members, k).contains(m));
                                }
                            }
                        },
                    }
                }
            } else {
                proof {
                    assert(nl == v.swept_liveness(k, now));
                }
                self.set_liveness(k, nl);
            }
            i = i + 1;
        }
        proof {
            assert(ids@.subrange(0, i as int) =~= ids@);
        }
        gone
    }

    /// The state of session `sid`: `Closed` where there is no such session.
    pub fn session_state(&self, sid: &String) -> (r: SessionState)
        requires
            self.wf(),
        ensures
            r == if self@.sessions.contains_key(sid@) {
                session_state(self@.sessions[sid@])
            } else {
                SessionState::Closed
            },
    {
        match self.find_session(sid) {
            Some(si) => Self::state_of(&self.sessions[si]),
            None => SessionState::Closed,
        }
    }

    fn has_member(&self, si: usize, id: u64) -> (r: bool)
        requires
            si < self.sessions@.len(),
        ensures
            r == self.sessions@[si as int].members@.contains(id),
    {
        let ghost mem = self.sessions@[si as int].members@;
        let mut j: usize = 0;
        while j < self.sessions[si].members.len()
            invariant
                si < self.sessions@.len(),
                mem == self.sessions@[si as int].members@,
                j <= mem.len(),
                !mem.subrange(0, j as int).contains(id),
            decreases mem.len() - j,
        {
            if self.sessions[si].members[j] == id {
                return true;
            }
            proof {
                let next = mem.subrange(0, j + 1);
                if next.contains(id) {
                    let k = choose|k: int| 0 <= k < next.len() && next[k] == id;
                    assert(mem.subrange(0, j as int)[k] == id);
                }
            }
            j = j + 1;
        }
        proof {
            assert(mem.subrange(0, j as int) =~= mem);
        }
        false
    }

    /// Handles frame `f` that arrived on connection `from` at time `now`:
    /// the traffic keeps the connection active, and the message the frame
    /// carries is routed. A frame that carries no message, or that names
    /// another sender than its connection, is refused with
    /// `MalformedMessage`.
    pub fn receive(&mut self, from: u64, f: &str, now: u64) -> (r: Result<RouteOutcome, SignalError>)
        requires
            old(self).wf(),
        ensures
            final(self).wf(),
            r == match parse(f@) {
                Some(m) => if m.sender_id == from {
                    old(self)@.touch(from, now).route_result(m, now)
                } else {
                    Err(SignalError::MalformedMessage)
                },
                None => Err(SignalError::MalformedMessage),
            },
            final(self)@ == match parse(f@) {
                Some(m) => if m.sender_id == from {
                    old(self)@.touch(from, now).route(m, now)
                } else {
                    old(self)@.touch(from, now)
                },
                None => old(self)@.touch(from, now),
            },
    {
        self.touch(from, now);
        match parse_frame(f) {
            Some(m) => {
                if m.sender_id != from {
                    return Err(SignalError::MalformedMessage);
                }
                self.route(m, now)
            },
            None => Err(SignalError::MalformedMessage),
        }
    }
}

} // verus!
