//! Properties of the signaling core that relate several operations.

use vstd::prelude::*;
use crate::message::{MessageView, SignalError};
use crate::model::{lemma_unregister_consistent, ConnectionView, RouteOutcome, ServerView, SessionState};

verus! {

/// Joins are serialized: on a new session of capacity two, of three
/// distinct unattached connections the first two joins succeed, each adding
/// its connection once, and the third fails with `SessionFull` and changes
/// nothing.
pub proof fn law_third_join_is_full(
    v: ServerView,
    sid: Seq<char>,
    a: u64,
    b: u64,
    c: u64,
    t1: u64,
    t2: u64,
    t3: u64,
)
    requires
        v.consistent(),
        v.capacity == 2,
        !v.sessions.contains_key(sid),
        a != b && b != c && a != c,
        v.conns.contains_key(a) && v.conns[a].session is None,
        v.conns.contains_key(b) && v.conns[b].session is None,
        v.conns.contains_key(c) && v.conns[c].session is None,
    ensures
        v.join_result(sid, a, t1) == Ok::<SessionState, SignalError>(SessionState::Open),
        v.join(sid, a, t1).join_result(sid, b, t2) == Ok::<SessionState, SignalError>(SessionState::Full),
        v.join(sid, a, t1).join(sid, b, t2).join_result(sid, c, t3) == Err::<SessionState, SignalError>(
            SignalError::SessionFull,
        ),
        v.join(sid, a, t1).join(sid, b, t2).join(sid, c, t3) == v.join(sid, a, t1).join(sid, b, t2),
        v.join(sid, a, t1).join(sid, b, t2).sessions[sid].members == seq![a, b],
{
    let v1 = v.join(sid, a, t1);
    assert(v1.sessions[sid].members == seq![a]);
    let v2 = v1.join(sid, b, t2);
    assert(v2.sessions[sid].members =~= seq![a, b]);
}

/// After a connection is unregistered, it is neither registered nor a
/// member of any session.
pub proof fn law_unregistered_is_gone(v: ServerView, id: u64)
    requires
        v.consistent(),
    ensures
        v.unregister(id).consistent(),
        !v.unregister(id).conns.contains_key(id),
        forall|sid: Seq<char>| #[trigger] v.unregister(id).sessions.contains_key(sid)
            ==> !v.unregister(id).sessions[sid].members.contains(id),
{
    lemma_unregister_consistent(v, id);
    let w = v.unregister(id);
    assert forall|sid: Seq<char>| #[trigger] w.sessions.contains_key(sid) implies !w.sessions[sid].members.contains(id) by {
        if w.sessions[sid].members.contains(id) {
            let i = choose|i: int| 0 <= i < w.sessions[sid].members.len() && w.sessions[sid].members[i] == id;
            assert(w.conns.contains_key(w.sessions[sid].members[i]));
        }
    }
}

/// Unregistering is idempotent: an id that is not registered changes
/// nothing, so a second unregister is a no-op.
pub proof fn law_unregister_idempotent(v: ServerView, id: u64)
    ensures
        !v.conns.contains_key(id) ==> v.unregister(id) == v,
        v.unregister(id).unregister(id) == v.unregister(id),
{
}

/// The state after the connections `ids` join session `sid` one after the
/// other, all at time `now`.
pub open spec fn joins(v: ServerView, sid: Seq<char>, ids: Seq<u64>, now: u64) -> ServerView
    decreases ids.len(),
{
    if ids.len() == 0 {
        v
    } else {
        joins(v, sid, ids.drop_last(), now).join(sid, ids.last(), now)
    }
}

/// For every sequence of joins of distinct unattached connections on a new
/// session, the first joins up to the capacity succeed, each adding its
/// connection once and in turn, and every later one fails with
/// `SessionFull`.
pub proof fn law_joins_up_to_capacity(v: ServerView, sid: Seq<char>, ids: Seq<u64>, now: u64)
    requires
        v.consistent(),
        !v.sessions.contains_key(sid),
        ids.no_duplicates(),
        forall|i: int| 0 <= i < ids.len() ==> v.conns.contains_key(#[trigger] ids[i]),
        forall|i: int| 0 <= i < ids.len() ==> v.conns[#[trigger] ids[i]].session is None,
    ensures
        forall|i: int| 0 <= i < ids.len() ==> #[trigger] joins(v, sid, ids.take(i), now).join_result(sid, ids[i], now)
            == if i < v.capacity {
            Ok::<SessionState, SignalError>(if i + 1 == v.capacity { SessionState::Full } else { SessionState::Open })
        } else {
            Err::<SessionState, SignalError>(SignalError::SessionFull)
        },
        ids.len() > 0 && v.capacity > 0 ==> joins(v, sid, ids, now).sessions[sid].members == ids.take(
            if ids.len() < v.capacity { ids.len() as int } else { v.capacity as int },
        ),
{
    if v.capacity == 0 {
        assert forall|i: int| 0 <= i < ids.len() implies #[trigger] joins(v, sid, ids.take(i), now).join_result(sid, ids[i], now)
            == Err::<SessionState, SignalError>(SignalError::SessionFull) by {
            lemma_joins_none(v, sid, ids, now, i);
        }
    } else {
        lemma_joins_prefix(v, sid, ids, now, ids.len() as int);
        assert(ids.take(ids.len() as int) =~= ids);
        assert forall|i: int| 0 <= i < ids.len() implies #[trigger] joins(v, sid, ids.take(i), now).join_result(sid, ids[i], now)
            == if i < v.capacity {
            Ok::<SessionState, SignalError>(if i + 1 == v.capacity { SessionState::Full } else { SessionState::Open })
        } else {
            Err::<SessionState, SignalError>(SignalError::SessionFull)
        } by {
            lemma_joins_prefix(v, sid, ids, now, i);
            let w = joins(v, sid, ids.take(i), now);
            assert(!ids.take(i).contains(ids[i])) by {
                if ids.take(i).contains(ids[i]) {
                    let k = choose|k: int| 0 <= k < i && ids.take(i)[k] == ids[i];
                    assert(ids[k] == ids[i]);
                }
            }
            assert(w.conns[ids[i]] == v.conns[ids[i]]);
            if i > 0 && i < v.capacity {
                assert(w.sessions[sid].members.push(ids[i]).len() == i + 1);
            }
        }
    }
}

proof fn lemma_joins_none(v: ServerView, sid: Seq<char>, ids: Seq<u64>, now: u64, n: int)
    requires
        v.capacity == 0,
        !v.sessions.contains_key(sid),
        forall|i: int| 0 <= i < ids.len() ==> v.conns.contains_key(#[trigger] ids[i]),
        forall|i: int| 0 <= i < ids.len() ==> v.conns[#[trigger] ids[i]].session is None,
        0 <= n <= ids.len(),
    ensures
        joins(v, sid, ids.take(n), now) == v,
    decreases n,
{
    if n == 0 {
        assert(ids.take(0) =~= Seq::<u64>::empty());
    } else {
        lemma_joins_none(v, sid, ids, now, n - 1);
        assert(ids.take(n).drop_last() =~= ids.take(n - 1));
        assert(ids.take(n).last() == ids[n - 1]);
    }
}

proof fn lemma_joins_prefix(v: ServerView, sid: Seq<char>, ids: Seq<u64>, now: u64, n: int)
    requires
        v.consistent(),
        !v.sessions.contains_key(sid),
        ids.no_duplicates(),
        forall|i: int| 0 <= i < ids.len() ==> v.conns.contains_key(#[trigger] ids[i]),
        forall|i: int| 0 <= i < ids.len() ==> v.conns[#[trigger] ids[i]].session is None,
        0 <= n <= ids.len(),
        v.capacity >= 1,
    ensures
        joins(v, sid, ids.take(n), now).capacity == v.capacity,
        forall|y: u64| #[trigger] joins(v, sid, ids.take(n), now).conns.contains_key(y) == v.conns.contains_key(y),
        forall|y: u64| !ids.take(n).contains(y) ==> #[trigger] joins(v, sid, ids.take(n), now).conns[y] == v.conns[y],
        n == 0 ==> !joins(v, sid, ids.take(n), now).sessions.contains_key(sid),
        n > 0 ==> joins(v, sid, ids.take(n), now).sessions.contains_key(sid),
        n > 0 ==> joins(v, sid, ids.take(n), now).sessions[sid].capacity == v.capacity,
        n > 0 ==> joins(v, sid, ids.take(n), now).sessions[sid].members == ids.take(
            if n < v.capacity { n } else { v.capacity as int },
        ),
    decreases n,
{
    if n == 0 {
        assert(ids.take(0) =~= Seq::<u64>::empty());
    } else {
        lemma_joins_prefix(v, sid, ids, now, n - 1);
        let pre = ids.take(n - 1);
        assert(ids.take(n).drop_last() =~= pre);
        assert(ids.take(n).last() == ids[n - 1]);
        let x = ids[n - 1];
        let w = joins(v, sid, pre, now);
        assert(!pre.contains(x)) by {
            if pre.contains(x) {
                let k = choose|k: int| 0 <= k < n - 1 && pre[k] == x;
                assert(ids[k] == x);
            }
        }
        assert(w.conns[x] == v.conns[x]);
        assert(v.conns.contains_key(x));
        assert forall|y: u64| !ids.take(n).contains(y) implies #[trigger] joins(v, sid, ids.take(n), now).conns[y] == v.conns[y] by {
            if pre.contains(y) {
                let k = choose|k: int| 0 <= k < n - 1 && pre[k] == y;
                assert(ids.take(n)[k] == y);
            }
            assert(ids.take(n)[n - 1] == x);
        }
        if n - 1 < v.capacity {
            if n - 1 > 0 {
                assert(ids.take(n - 1).push(x) =~= ids.take(n));
            } else {
                assert(seq![x] =~= ids.take(n));
            }
        }
    }
}

/// The state after the messages `ms` are routed one after the other, all
/// at time `now`.
pub open spec fn routes(v: ServerView, ms: Seq<MessageView>, now: u64) -> ServerView
    decreases ms.len(),
{
    if ms.len() == 0 {
        v
    } else {
        routes(v, ms.drop_last(), now).route(ms.last(), now)
    }
}

/// The messages of `ms` that are not from `k`.
pub open spec fn not_from(ms: Seq<MessageView>, k: u64) -> Seq<MessageView> {
    ms.filter(|m: MessageView| m.sender_id != k)
}

/// Any sequence of offers, answers and candidates sent by members of one
/// session reaches each member of that session, but for the messages it
/// sent itself, in the order in which they were sent; no connection outside
/// the session sees any of them, and the sessions do not change.
pub proof fn law_session_order(v: ServerView, sid: Seq<char>, ms: Seq<MessageView>, now: u64)
    requires
        v.consistent(),
        v.sessions.contains_key(sid),
        forall|i: int| 0 <= i < ms.len() ==> (#[trigger] ms[i]).kind.relayed() && ms[i].session_id == sid
            && ms[i].payload.len() > 0 && v.sessions[sid].members.contains(ms[i].sender_id),
    ensures
        routes(v, ms, now).sessions == v.sessions,
        forall|k: u64| #[trigger] routes(v, ms, now).conns.contains_key(k) <==> v.conns.contains_key(k),
        forall|k: u64|
            #![trigger routes(v, ms, now).conns[k]]
            v.conns.contains_key(k) && v.sessions[sid].members.contains(k) ==> routes(v, ms, now).conns[k]
                == (ConnectionView { outbox: v.conns[k].outbox + not_from(ms, k), ..v.conns[k] }),
        forall|k: u64|
            #![trigger routes(v, ms, now).conns[k]]
            v.conns.contains_key(k) && !v.sessions[sid].members.contains(k) ==> routes(v, ms, now).conns[k]
                == v.conns[k],
    decreases ms.len(),
{
    if ms.len() == 0 {
        assert forall|k: u64| #![trigger routes(v, ms, now).conns[k]] v.conns.contains_key(k)
            && v.sessions[sid].members.contains(k) implies routes(v, ms, now).conns[k] == (ConnectionView {
            outbox: v.conns[k].outbox + not_from(ms, k),
            ..v.conns[k]
        }) by {
            reveal(Seq::filter);
            assert(not_from(ms, k) =~= Seq::<MessageView>::empty());
            assert(v.conns[k].outbox + not_from(ms, k) =~= v.conns[k].outbox);
        }
    } else {
        let pre = ms.drop_last();
        let m = ms.last();
        assert forall|i: int| 0 <= i < pre.len() implies (#[trigger] pre[i]).kind.relayed() && pre[i].session_id
            == sid && pre[i].payload.len() > 0 && v.sessions[sid].members.contains(pre[i].sender_id) by {
            assert(pre[i] == ms[i]);
        }
        law_session_order(v, sid, pre, now);
        let w = routes(v, pre, now);
        assert(ms[ms.len() - 1] == m);
        assert(w.route_result(m, now) is Ok);
        assert(routes(v, ms, now) == w.relay(m));
        assert forall|k: u64| #![trigger routes(v, ms, now).conns[k]] v.conns.contains_key(k)
            && v.sessions[sid].members.contains(k) implies routes(v, ms, now).conns[k] == (ConnectionView {
            outbox: v.conns[k].outbox + not_from(ms, k),
            ..v.conns[k]
        }) by {
            pre.lemma_filter_push(m, |x: MessageView| x.sender_id != k);
            assert(pre.push(m) =~= ms);
            assert(w.conns[k] == (ConnectionView { outbox: v.conns[k].outbox + not_from(pre, k), ..v.conns[k] }));
            if m.sender_id != k {
                assert(v.conns[k].outbox + not_from(pre, k).push(m) =~= (v.conns[k].outbox + not_from(pre, k)).push(m));
            }
        }
        assert forall|k: u64| #![trigger routes(v, ms, now).conns[k]] v.conns.contains_key(k)
            && !v.sessions[sid].members.contains(k) implies routes(v, ms, now).conns[k] == v.conns[k] by {
            assert(w.conns[k] == v.conns[k]);
        }
    }
}

} // verus!
