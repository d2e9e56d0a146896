//! The processor: a single-owner state machine holding all pub/sub state of
//! one session pool.
//!
//! The pool owns connection entries (pending until authorized, then
//! active), the per-topic and per-namespace subscriber indices, the session
//! index used for per-user delivery and presence, and the lattices.  Every
//! mutating operation states its exact effect as a function on the pool's
//! mathematical view, and preserves the pool invariant: the subscriber
//! indices and the per-connection subscription sets mirror each other
//! exactly, and every session's connection list names exactly its live,
//! active connections.

use crate::alist::{
    al_map, al_unique, find_bytes, lemma_al_absent, lemma_al_contains, lemma_al_get,
    lemma_al_push, lemma_al_push_unique, lemma_al_remove, pairs_view,
};
use crate::connection::{
    flush_view, Channel, CloseReason, Connection, ConnectionMessage, MsgV, NewConnection,
};
use crate::ids::{clone_bytes, Cid, SessionId, Topic};
use crate::lattice::{bset_unique, set_view, NsMap};
use vstd::prelude::*;

verus! {

/// One connection entry of the pool: pending until `Hello`, then active.
#[derive(Debug)]
pub enum ConnectionEntry {
    Pending(NewConnection),
    Active(Connection),
}

/// Mathematical value of one connection entry.
#[verifier::ext_equal]
pub struct ConnV {
    pub cid: Cid,
    pub active: bool,
    pub session_id: Seq<u8>,
    pub topics: Set<Seq<u8>>,
    pub lattices: Set<Seq<u8>>,
    pub users: bool,
    pub watches: Set<Seq<u8>>,
    pub buffer: Seq<(Seq<u8>, Seq<u8>)>,
    pub queue: Seq<MsgV>,
}

impl View for ConnectionEntry {
    type V = ConnV;

    open spec fn view(&self) -> ConnV {
        match self {
            ConnectionEntry::Pending(n) => ConnV {
                cid: n.cid,
                active: false,
                session_id: Seq::empty(),
                topics: set_view(n.topics@),
                lattices: set_view(n.lattices@),
                users: false,
                watches: set_view(n.users_lattice@),
                buffer: pairs_view(n.message_buffer@),
                queue: n.channel@,
            },
            ConnectionEntry::Active(c) => ConnV {
                cid: c.cid,
                active: true,
                session_id: c.session_id@,
                topics: set_view(c.topics@),
                lattices: set_view(c.lattices@),
                users: c.users_lattice,
                watches: set_view(c.watches@),
                buffer: Seq::empty(),
                queue: c.channel@,
            },
        }
    }
}

impl ConnectionEntry {
    /// The connection id of this entry.
    pub fn conn_cid(&self) -> (c: Cid)
        ensures
            c == self@.cid,
    {
        match self {
            ConnectionEntry::Pending(n) => n.cid,
            ConnectionEntry::Active(c) => c.cid,
        }
    }

    /// Inner sets of the entry hold no duplicates.
    pub open spec fn wf(&self) -> bool {
        match self {
            ConnectionEntry::Pending(n) => n.wf(),
            ConnectionEntry::Active(c) => c.wf(),
        }
    }
}

/// One session's record: its live connections and its latest metadata.
#[derive(Debug)]
pub struct SessionEntry {
    pub cids: Vec<Cid>,
    pub metadata: Vec<u8>,
}

/// Mathematical value of one session record.
#[verifier::ext_equal]
pub struct SessV {
    pub cids: Seq<Cid>,
    pub metadata: Seq<u8>,
}

impl View for SessionEntry {
    type V = SessV;

    open spec fn view(&self) -> SessV {
        SessV { cids: self.cids@, metadata: self.metadata@ }
    }
}

/// One lattice of the pool: its cells and its subscribers, in attach order.
#[derive(Debug)]
pub struct LatticeState {
    pub values: Vec<(Vec<u8>, crate::lattice::Values)>,
    pub subscribers: Vec<Cid>,
}

/// Mathematical value of one lattice.
#[verifier::ext_equal]
pub struct LatV {
    pub values: NsMap,
    pub subscribers: Seq<Cid>,
}

impl View for LatticeState {
    type V = LatV;

    open spec fn view(&self) -> LatV {
        LatV { values: crate::lattice::ns_view(self.values@), subscribers: self.subscribers@ }
    }
}

/// Per-pool state, owned by one processor.
#[derive(Debug)]
pub struct Pool {
    /// High-water mark: a connection whose queue has this many undelivered
    /// frames when a publish is fanned out is dropped as overloaded.  The
    /// mark is counted in frames; the configured byte bound is applied by
    /// the socket writer, which owns the wire encoding of each frame and
    /// so its size.
    pub hwm: usize,
    pub connections: Vec<ConnectionEntry>,
    pub sessions: Vec<(Vec<u8>, SessionEntry)>,
    pub topics: Vec<(Vec<u8>, Vec<Cid>)>,
    pub lattices: Vec<(Vec<u8>, LatticeState)>,
    /// Last known presence of each session: a version and the online flag.
    pub presence: Vec<(Vec<u8>, (u64, bool))>,
    /// Logical clock versioning the presence registers.
    pub clock: u64,
}

/// Mathematical value of the whole pool.
#[verifier::ext_equal]
pub struct PoolV {
    pub hwm: int,
    pub connections: Map<Cid, ConnV>,
    pub sessions: Map<Seq<u8>, SessV>,
    pub topics: Map<Seq<u8>, Seq<Cid>>,
    pub lattices: Map<Seq<u8>, LatV>,
    pub presence: Map<Seq<u8>, (u64, bool)>,
    pub clock: u64,
}

/// The entries of the connection list, keyed by connection id.
pub open spec fn conns_pairs(s: Seq<ConnectionEntry>) -> Seq<(Cid, ConnV)> {
    s.map_values(|e: ConnectionEntry| (e@.cid, e@))
}

impl View for Pool {
    type V = PoolV;

    open spec fn view(&self) -> PoolV {
        PoolV {
            hwm: self.hwm as int,
            connections: al_map(conns_pairs(self.connections@)),
            sessions: al_map(pairs_view(self.sessions@)),
            topics: al_map(pairs_view(self.topics@)),
            lattices: al_map(pairs_view(self.lattices@)),
            presence: al_map(pairs_view(self.presence@)),
            clock: self.clock,
        }
    }
}

/// The cross-index relations the pool maintains (the bidirectional-index
/// invariant of the fabric), stated over the pool's view.
pub open spec fn pool_linked(v: PoolV) -> bool {
    // Topic index entries are nonempty, duplicate-free delivery lists.
    &&& forall|t: Seq<u8>|
        #[trigger] v.topics.contains_key(t) ==> v.topics[t].len() > 0
            && v.topics[t].no_duplicates()
    // Every cid listed under a topic is a live connection subscribed to it.
    &&& forall|t: Seq<u8>, c: Cid|
        v.topics.contains_key(t) && #[trigger] v.topics[t].contains(c)
            ==> v.connections.contains_key(c) && v.connections[c].topics.contains(t)
    // Every topic a live connection holds lists that connection.
    &&& forall|c: Cid, t: Seq<u8>|
        v.connections.contains_key(c) && #[trigger] v.connections[c].topics.contains(t)
            ==> v.topics.contains_key(t) && v.topics[t].contains(c)
    // Lattice subscriber lists are duplicate-free.
    &&& forall|n: Seq<u8>|
        #[trigger] v.lattices.contains_key(n) ==> v.lattices[n].subscribers.no_duplicates()
    // Every cid subscribed to a lattice is a live connection attached to it.
    &&& forall|n: Seq<u8>, c: Cid|
        v.lattices.contains_key(n) && #[trigger] v.lattices[n].subscribers.contains(c)
            ==> v.connections.contains_key(c) && v.connections[c].lattices.contains(n)
    // Every namespace a live connection holds lists that connection.
    &&& forall|c: Cid, n: Seq<u8>|
        v.connections.contains_key(c) && #[trigger] v.connections[c].lattices.contains(n)
            ==> v.lattices.contains_key(n) && v.lattices[n].subscribers.contains(c)
    // Session records are nonempty, duplicate-free connection lists.
    &&& forall|s: Seq<u8>|
        #[trigger] v.sessions.contains_key(s) ==> v.sessions[s].cids.len() > 0
            && v.sessions[s].cids.no_duplicates()
    // Every cid a session lists is a live, active connection of that session.
    &&& forall|s: Seq<u8>, c: Cid|
        v.sessions.contains_key(s) && #[trigger] v.sessions[s].cids.contains(c)
            ==> v.connections.contains_key(c) && v.connections[c].active
            && v.connections[c].session_id == s
    // Every active connection is listed under its session.
    &&& forall|c: Cid|
        v.connections.contains_key(c) && (#[trigger] v.connections[c]).active
            ==> v.sessions.contains_key(v.connections[c].session_id)
            && v.sessions[v.connections[c].session_id].cids.contains(c)
    // Lattice cells are well-formed.
    &&& forall|n: Seq<u8>|
        #[trigger] v.lattices.contains_key(n) ==> crate::lattice::wf_ns(v.lattices[n].values)
}

impl Pool {
    /// Key lists are duplicate-free and entries are well-formed.
    pub open spec fn wf_lists(&self) -> bool {
        &&& al_unique(conns_pairs(self.connections@))
        &&& al_unique(pairs_view(self.sessions@))
        &&& al_unique(pairs_view(self.topics@))
        &&& al_unique(pairs_view(self.lattices@))
        &&& al_unique(pairs_view(self.presence@))
        &&& forall|i: int|
            0 <= i < self.connections@.len() ==> (#[trigger] self.connections@[i]).wf()
        &&& forall|i: int|
            0 <= i < self.lattices@.len() ==> crate::lattice::ns_entries_wf(
                (#[trigger] self.lattices@[i]).1.values@,
            )
    }

    /// The pool invariant.
    pub open spec fn inv(&self) -> bool {
        self.wf_lists() && pool_linked(self@)
    }

    /// A fresh pool with the given high-water mark.
    pub fn new(hwm: usize) -> (r: Pool)
        ensures
            r.inv(),
            r@.connections == Map::<Cid, ConnV>::empty(),
            r@.sessions == Map::<Seq<u8>, SessV>::empty(),
            r@.topics == Map::<Seq<u8>, Seq<Cid>>::empty(),
            r@.lattices == Map::<Seq<u8>, LatV>::empty(),
            r@.presence == Map::<Seq<u8>, (u64, bool)>::empty(),
            r@.clock == 0,
            r@.hwm == hwm as int,
    {
        let r = Pool {
            hwm,
            connections: Vec::new(),
            sessions: Vec::new(),
            topics: Vec::new(),
            lattices: Vec::new(),
            presence: Vec::new(),
            clock: 0,
        };
        proof {
            assert(conns_pairs(r.connections@) =~= Seq::<(Cid, ConnV)>::empty());
            assert(pairs_view(r.sessions@) =~= Seq::<(Seq<u8>, SessV)>::empty());
            assert(pairs_view(r.topics@) =~= Seq::<(Seq<u8>, Seq<Cid>)>::empty());
            assert(pairs_view(r.lattices@) =~= Seq::<(Seq<u8>, LatV)>::empty());
            assert(pairs_view(r.presence@) =~= Seq::<(Seq<u8>, (u64, bool))>::empty());
        }
        r
    }

    /// Find the list position of a connection.
    fn find_conn(&self, cid: Cid) -> (r: Option<usize>)
        requires
            al_unique(conns_pairs(self.connections@)),
        ensures
            match r {
                Some(i) => i < self.connections@.len() && self.connections@[i as int]@.cid == cid
                    && self@.connections.contains_key(cid) && self@.connections[cid]
                    == self.connections@[i as int]@,
                None => !self@.connections.contains_key(cid),
            },
    {
        let mut i: usize = 0;
        while i < self.connections.len()
            invariant
                al_unique(conns_pairs(self.connections@)),
                i <= self.connections@.len(),
                forall|j: int| 0 <= j < i ==> (#[trigger] self.connections@[j])@.cid != cid,
            decreases self.connections@.len() - i,
        {
            if self.connections[i].conn_cid() == cid {
                proof {
                    lemma_al_get(conns_pairs(self.connections@), i as int);
                }
                return Some(i);
            }
            i = i + 1;
        }
        proof {
            lemma_al_absent(conns_pairs(self.connections@), cid);
        }
        None
    }
}

/// The entry a freshly accepted, unauthorized connection gets.
pub open spec fn fresh_conn(c: Cid) -> ConnV {
    ConnV {
        cid: c,
        active: false,
        session_id: Seq::empty(),
        topics: Set::empty(),
        lattices: Set::empty(),
        users: false,
        watches: Set::empty(),
        buffer: Seq::empty(),
        queue: Seq::empty(),
    }
}

/// Effect of registering a new connection: a pending entry is added; a
/// connection id already present is left untouched.
pub open spec fn spec_new_connection(v: PoolV, c: Cid) -> PoolV {
    if v.connections.contains_key(c) {
        v
    } else {
        PoolV { connections: v.connections.insert(c, fresh_conn(c)), ..v }
    }
}

/// Effect of `Subscribe(c, t)`: the topic joins the connection's set and the
/// connection joins the end of the topic's delivery list.  A subscribe for
/// an unknown connection is silently dropped.
pub open spec fn spec_subscribe(v: PoolV, c: Cid, t: Seq<u8>) -> PoolV {
    if !v.connections.contains_key(c) {
        v
    } else {
        let e = v.connections[c];
        let e2 = ConnV { topics: e.topics.insert(t), ..e };
        let tl = if v.topics.contains_key(t) {
            v.topics[t]
        } else {
            Seq::empty()
        };
        let tl2 = if tl.contains(c) {
            tl
        } else {
            tl.push(c)
        };
        PoolV { connections: v.connections.insert(c, e2), topics: v.topics.insert(t, tl2), ..v }
    }
}

/// A delivery list with the first occurrence of one cid removed.
pub open spec fn remove_cid(s: Seq<Cid>, c: Cid) -> Seq<Cid>
    decreases s.len(),
{
    if s.len() == 0 {
        s
    } else if s[0] == c {
        s.skip(1)
    } else {
        seq![s[0]] + remove_cid(s.skip(1), c)
    }
}

/// Effect of `Unsubscribe(c, t)`: the inverse of `spec_subscribe`; a topic
/// whose delivery list empties is dropped from the index.
pub open spec fn spec_unsubscribe(v: PoolV, c: Cid, t: Seq<u8>) -> PoolV {
    if !v.connections.contains_key(c) {
        v
    } else {
        let e = v.connections[c];
        let e2 = ConnV { topics: e.topics.remove(t), ..e };
        let topics2 = if v.topics.contains_key(t) {
            let tl2 = remove_cid(v.topics[t], c);
            if tl2.len() == 0 {
                v.topics.remove(t)
            } else {
                v.topics.insert(t, tl2)
            }
        } else {
            v.topics
        };
        PoolV { connections: v.connections.insert(c, e2), topics: topics2, ..v }
    }
}

/// Removing an absent cid changes nothing.
pub proof fn lemma_remove_cid_absent(s: Seq<Cid>, c: Cid)
    requires
        !s.contains(c),
    ensures
        remove_cid(s, c) == s,
    decreases s.len(),
{
    if s.len() > 0 {
        assert(s[0] != c);
        assert(forall|i: int| 0 <= i < s.skip(1).len() ==> #[trigger] s.skip(1)[i] == s[i + 1]);
        lemma_remove_cid_absent(s.skip(1), c);
        assert(seq![s[0]] + s.skip(1) =~= s);
    }
}

/// What removal of one cid does to a duplicate-free delivery list.
pub proof fn lemma_remove_cid(s: Seq<Cid>, c: Cid)
    requires
        s.no_duplicates(),
    ensures
        !remove_cid(s, c).contains(c),
        forall|x: Cid| x != c ==> remove_cid(s, c).contains(x) == s.contains(x),
        remove_cid(s, c).no_duplicates(),
        s.contains(c) ==> remove_cid(s, c).len() == s.len() - 1,
        !s.contains(c) ==> remove_cid(s, c) == s,
    decreases s.len(),
{
    if !s.contains(c) {
        lemma_remove_cid_absent(s, c);
        assert(forall|x: Cid| remove_cid(s, c).contains(x) == s.contains(x));
    } else if s.len() > 0 {
        let rest = s.skip(1);
        assert(forall|i: int| 0 <= i < rest.len() ==> #[trigger] rest[i] == s[i + 1]);
        if s[0] == c {
            assert(remove_cid(s, c) == rest);
            assert(!rest.contains(c)) by {
                if rest.contains(c) {
                    let i = choose|i: int| 0 <= i < rest.len() && rest[i] == c;
                    assert(s[i + 1] == c && s[0] == c);
                }
            }
            assert forall|x: Cid| x != c implies rest.contains(x) == s.contains(x) by {
                if s.contains(x) {
                    let i = choose|i: int| 0 <= i < s.len() && s[i] == x;
                    assert(i != 0);
                    assert(rest[i - 1] == x);
                }
                if rest.contains(x) {
                    let i = choose|i: int| 0 <= i < rest.len() && rest[i] == x;
                    assert(s[i + 1] == x);
                }
            }
        } else {
            lemma_remove_cid(rest, c);
            let r = seq![s[0]] + remove_cid(rest, c);
            assert(rest.contains(c)) by {
                let i = choose|i: int| 0 <= i < s.len() && s[i] == c;
                assert(i != 0);
                assert(rest[i - 1] == c);
            }
            assert forall|x: Cid| #[trigger] r.contains(x) implies x == s[0] || remove_cid(
                rest,
                c,
            ).contains(x) by {
                let i = choose|i: int| 0 <= i < r.len() && r[i] == x;
                if i > 0 {
                    assert(remove_cid(rest, c)[i - 1] == x);
                }
            }
            assert forall|x: Cid| x == s[0] || remove_cid(rest, c).contains(x) implies
                #[trigger] r.contains(x) by {
                if x == s[0] {
                    assert(r[0] == x);
                } else {
                    let i = choose|i: int|
                        0 <= i < remove_cid(rest, c).len() && remove_cid(rest, c)[i] == x;
                    assert(r[i + 1] == x);
                }
            }
            assert(!r.contains(c)) by {
                assert(!s.no_duplicates() || s[0] != c);
            }
            assert forall|x: Cid| x != c implies r.contains(x) == s.contains(x) by {
                if x == s[0] {
                    assert(s.contains(x)) by {
                        assert(s[0] == x);
                    }
                    assert(r.contains(x)) by {
                        assert(r[0] == x);
                    }
                } else {
                    if s.contains(x) {
                        let i = choose|i: int| 0 <= i < s.len() && s[i] == x;
                        assert(i != 0);
                        assert(rest[i - 1] == x);
                        assert(rest.contains(x));
                        assert(remove_cid(rest, c).contains(x));
                        assert(r.contains(x));
                    }
                    if r.contains(x) {
                        assert(remove_cid(rest, c).contains(x));
                        assert(rest.contains(x));
                        let i = choose|i: int| 0 <= i < rest.len() && rest[i] == x;
                        assert(s[i + 1] == x);
                        assert(s.contains(x));
                    }
                }
            }
            assert(r.no_duplicates()) by {
                let rr = remove_cid(rest, c);
                assert(forall|i: int| 0 <= i < rr.len() ==> #[trigger] r[i + 1] == rr[i]);
                assert(r[0] == s[0]);
                assert(!rr.contains(s[0])) by {
                    if rr.contains(s[0]) {
                        assert(rest.contains(s[0]));
                        let i = choose|i: int| 0 <= i < rest.len() && rest[i] == s[0];
                        assert(s[i + 1] == s[0]);
                    }
                }
                assert forall|i: int, j: int| 0 <= i < j < r.len() implies r[i] != r[j] by {
                    if i == 0 {
                        assert(rr[j - 1] == r[j]);
                        if r[0] == r[j] {
                            assert(rr.contains(s[0]));
                        }
                    } else {
                        assert(rr[i - 1] == r[i] && rr[j - 1] == r[j]);
                    }
                }
            }
        }
    }
}

/// Removing the first occurrence is removal at its position.
pub proof fn lemma_remove_cid_first(s: Seq<Cid>, c: Cid, i: int)
    requires
        0 <= i < s.len(),
        s[i] == c,
        forall|j: int| 0 <= j < i ==> s[j] != c,
    ensures
        remove_cid(s, c) == s.remove(i),
    decreases i,
{
    if i == 0 {
        assert(remove_cid(s, c) == s.skip(1));
        assert(s.skip(1) =~= s.remove(0));
    } else {
        let rest = s.skip(1);
        assert(forall|j: int| 0 <= j < rest.len() ==> #[trigger] rest[j] == s[j + 1]);
        assert(rest[i - 1] == c);
        lemma_remove_cid_first(rest, c, i - 1);
        assert(seq![s[0]] + rest.remove(i - 1) =~= s.remove(i));
    }
}

/// Decide membership in a delivery list.
pub fn cid_list_contains(l: &Vec<Cid>, c: Cid) -> (r: bool)
    ensures
        r == l@.contains(c),
{
    let mut i: usize = 0;
    while i < l.len()
        invariant
            i <= l@.len(),
            forall|j: int| 0 <= j < i ==> l@[j] != c,
        decreases l@.len() - i,
    {
        if l[i] == c {
            return true;
        }
        i = i + 1;
    }
    false
}

/// Remove the first occurrence of a cid from a delivery list.
pub fn cid_list_remove(l: &mut Vec<Cid>, c: Cid)
    ensures
        final(l)@ == remove_cid(old(l)@, c),
{
    let mut i: usize = 0;
    while i < l.len()
        invariant
            l@ == old(l)@,
            i <= l@.len(),
            forall|j: int| 0 <= j < i ==> l@[j] != c,
        decreases l@.len() - i,
    {
        if l[i] == c {
            proof {
                lemma_remove_cid_first(l@, c, i as int);
            }
            l.remove(i);
            return;
        }
        i = i + 1;
    }
    proof {
        lemma_remove_cid_absent(l@, c);
    }
}

/// Subscribing keeps the pool linked.
proof fn lemma_subscribe_linked(v: PoolV, c: Cid, t: Seq<u8>)
    requires
        pool_linked(v),
    ensures
        pool_linked(spec_subscribe(v, c, t)),
{
    if v.connections.contains_key(c) {
        let w = spec_subscribe(v, c, t);
        let tl = if v.topics.contains_key(t) {
            v.topics[t]
        } else {
            Seq::empty()
        };
        let tl2 = if tl.contains(c) {
            tl
        } else {
            tl.push(c)
        };
        assert(w.topics[t] == tl2);
        assert(tl2.no_duplicates() && tl2.len() > 0) by {
            if !tl.contains(c) {
                assert(forall|i: int| 0 <= i < tl.len() ==> #[trigger] tl2[i] == tl[i]);
                assert(tl2[tl.len() as int] == c);
                if v.topics.contains_key(t) {
                    assert(tl.no_duplicates());
                }
            }
        }
        assert forall|t2: Seq<u8>, c2: Cid|
            w.topics.contains_key(t2) && #[trigger] w.topics[t2].contains(c2) implies
            w.connections.contains_key(c2) && w.connections[c2].topics.contains(t2) by {
            if t2 == t {
                if tl.contains(c2) {
                    assert(v.topics.contains_key(t) && v.topics[t].contains(c2));
                } else {
                    let i = choose|i: int| 0 <= i < tl2.len() && tl2[i] == c2;
                    if i < tl.len() {
                        assert(tl.contains(c2));
                        assert(v.topics.contains_key(t) && v.topics[t].contains(c2));
                    } else {
                        assert(c2 == c);
                    }
                }
            }
        }
        assert forall|c2: Cid, t2: Seq<u8>|
            w.connections.contains_key(c2) && #[trigger] w.connections[c2].topics.contains(t2)
            implies w.topics.contains_key(t2) && w.topics[t2].contains(c2) by {
            if c2 == c {
                if t2 == t {
                    if tl.contains(c) {
                    } else {
                        assert(tl2[tl.len() as int] == c);
                    }
                } else {
                    assert(v.connections[c].topics.contains(t2));
                    assert(v.topics[t2].contains(c));
                    if t2 == t {
                    } else {
                        assert(w.topics.contains_key(t2) && w.topics[t2] == v.topics[t2]);
                    }
                }
            } else {
                if t2 == t {
                    assert(v.topics.contains_key(t2) ==> v.topics[t2] == tl);
                    assert(v.topics[t2].contains(c2) ==> tl2.contains(c2)) by {
                        if v.topics.contains_key(t2) && v.topics[t2].contains(c2) && !tl.contains(
                            c,
                        ) {
                            let i = choose|i: int| 0 <= i < tl.len() && tl[i] == c2;
                            assert(tl2[i] == c2);
                        }
                    }
                }
            }
        }
    }
}

/// Unsubscribing keeps the pool linked.
proof fn lemma_unsubscribe_linked(v: PoolV, c: Cid, t: Seq<u8>)
    requires
        pool_linked(v),
    ensures
        pool_linked(spec_unsubscribe(v, c, t)),
{
    if v.connections.contains_key(c) {
        let w = spec_unsubscribe(v, c, t);
        if v.topics.contains_key(t) {
            lemma_remove_cid(v.topics[t], c);
        }
        assert forall|t2: Seq<u8>, c2: Cid|
            w.topics.contains_key(t2) && #[trigger] w.topics[t2].contains(c2) implies
            w.connections.contains_key(c2) && w.connections[c2].topics.contains(t2) by {
            if t2 == t {
                assert(v.topics.contains_key(t));
                assert(remove_cid(v.topics[t], c).contains(c2));
                assert(c2 != c);
                assert(v.topics[t].contains(c2));
            } else {
                assert(v.topics.contains_key(t2) && v.topics[t2].contains(c2));
            }
        }
        assert forall|c2: Cid, t2: Seq<u8>|
            w.connections.contains_key(c2) && #[trigger] w.connections[c2].topics.contains(t2)
            implies w.topics.contains_key(t2) && w.topics[t2].contains(c2) by {
            if c2 == c {
                assert(t2 != t);
                assert(v.connections[c].topics.contains(t2));
                assert(v.topics.contains_key(t2) && v.topics[t2].contains(c));
                if t2 == t {
                } else {
                    assert(w.topics.contains_key(t2) && w.topics[t2] == v.topics[t2]);
                }
            } else {
                assert(v.connections[c2].topics.contains(t2));
                assert(v.topics.contains_key(t2) && v.topics[t2].contains(c2));
                if t2 == t {
                    assert(c2 != c);
                    assert(remove_cid(v.topics[t], c).contains(c2));
                    assert(remove_cid(v.topics[t], c).len() > 0);
                }
            }
        }
        assert forall|t2: Seq<u8>| #[trigger] w.topics.contains_key(t2) implies w.topics[t2].len()
            > 0 && w.topics[t2].no_duplicates() by {
            if t2 == t {
                assert(w.topics[t2] == remove_cid(v.topics[t], c));
            }
        }
    }
}

/// Registering a connection keeps the pool linked.
proof fn lemma_new_connection_linked(v: PoolV, c: Cid)
    requires
        pool_linked(v),
    ensures
        pool_linked(spec_new_connection(v, c)),
{
    if !v.connections.contains_key(c) {
        let w = spec_new_connection(v, c);
        assert forall|t2: Seq<u8>, c2: Cid|
            w.topics.contains_key(t2) && #[trigger] w.topics[t2].contains(c2) implies
            w.connections.contains_key(c2) && w.connections[c2].topics.contains(t2) by {
            assert(v.connections.contains_key(c2));
        }
        assert forall|n2: Seq<u8>, c2: Cid|
            w.lattices.contains_key(n2) && #[trigger] w.lattices[n2].subscribers.contains(c2)
            implies w.connections.contains_key(c2) && w.connections[c2].lattices.contains(
            n2,
        ) by {
            assert(v.connections.contains_key(c2));
        }
        assert forall|s2: Seq<u8>, c2: Cid|
            w.sessions.contains_key(s2) && #[trigger] w.sessions[s2].cids.contains(c2) implies
            w.connections.contains_key(c2) && w.connections[c2].active && w.connections[
            c2].session_id == s2 by {
            assert(v.connections.contains_key(c2));
        }
    }
}

impl Pool {
    /// Register a connection that was just accepted (`NewConnection`).
    pub fn new_connection(&mut self, cid: Cid)
        requires
            old(self).inv(),
        ensures
            final(self).inv(),
            final(self)@ == spec_new_connection(old(self)@, cid),
    {
        let found = self.find_conn(cid);
        if found.is_none() {
            let ghost pre = conns_pairs(self.connections@);
            let entry = ConnectionEntry::Pending(NewConnection::new(cid));
            proof {
                assert(entry@ =~= fresh_conn(cid)) by {
                    assert(entry@.topics =~= Set::<Seq<u8>>::empty());
                    assert(entry@.lattices =~= Set::<Seq<u8>>::empty());
                    assert(entry@.watches =~= Set::<Seq<u8>>::empty());
                    assert(entry@.buffer =~= Seq::<(Seq<u8>, Seq<u8>)>::empty());
                }
            }
            self.connections.push(entry);
            proof {
                assert(conns_pairs(self.connections@) =~= pre.push((cid, fresh_conn(cid))));
                lemma_al_push(pre, cid, fresh_conn(cid));
                lemma_al_contains(pre, cid);
                assert forall|j: int| 0 <= j < pre.len() implies (#[trigger] pre[j]).0 != cid by {}
                lemma_al_push_unique(pre, cid, fresh_conn(cid));
                lemma_new_connection_linked(old(self)@, cid);
                assert(self@ =~= spec_new_connection(old(self)@, cid));
            }
        } else {
            proof {
                assert(self@ =~= spec_new_connection(old(self)@, cid));
            }
        }
    }

    /// Handle `Subscribe(cid, topic)`.
    ///
    /// Unknown connection ids are silently dropped: the connection may
    /// already have been closed when the control plane's request arrives.
    pub fn subscribe(&mut self, cid: Cid, topic: &[u8])
        requires
            old(self).inv(),
        ensures
            final(self).inv(),
            final(self)@ == spec_subscribe(old(self)@, cid, topic@),
    {
        let found = self.find_conn(cid);
        let idx = match found {
            None => {
                proof {
                    assert(self@ =~= spec_subscribe(old(self)@, cid, topic@));
                }
                return;
            },
            Some(i) => i,
        };
        let ghost v0 = old(self)@;
        let ghost e0 = self.connections@[idx as int]@;
        let ghost cpre = conns_pairs(self.connections@);
        let e = self.connections.remove(idx);
        let e2 = match e {
            ConnectionEntry::Pending(mut nc) => {
                crate::lattice::add_bytes(&mut nc.topics, topic);
                ConnectionEntry::Pending(nc)
            },
            ConnectionEntry::Active(mut c) => {
                crate::lattice::add_bytes(&mut c.topics, topic);
                ConnectionEntry::Active(c)
            },
        };
        proof {
            assert(e2@ =~= ConnV { topics: e0.topics.insert(topic@), ..e0 });
        }
        self.connections.push(e2);
        proof {
            lemma_al_remove(cpre, idx as int);
            assert(conns_pairs(self.connections@) =~= cpre.remove(idx as int).push(
                (cid, e2@),
            ));
            lemma_al_push(cpre.remove(idx as int), cid, e2@);
            assert forall|j: int| 0 <= j < cpre.remove(idx as int).len() implies (
            #[trigger] cpre.remove(idx as int)[j]).0 != cid by {
                if j < idx {
                    assert(cpre.remove(idx as int)[j] == cpre[j]);
                } else {
                    assert(cpre.remove(idx as int)[j] == cpre[j + 1]);
                }
            }
            lemma_al_push_unique(cpre.remove(idx as int), cid, e2@);
            assert(al_map(conns_pairs(self.connections@)) =~= v0.connections.insert(cid, e2@));
        }
        let tfound = find_bytes(&self.topics, topic);
        match tfound {
            Some(ti) => {
                proof {
                    lemma_al_get(pairs_view(self.topics@), ti as int);
                }
                let ghost tpre = pairs_view(self.topics@);
                let (tkey, mut list) = self.topics.remove(ti);
                let ghost l0 = list@;
                if !cid_list_contains(&list, cid) {
                    list.push(cid);
                }
                self.topics.push((tkey, list));
                proof {
                    lemma_al_remove(tpre, ti as int);
                    assert(pairs_view(self.topics@) =~= tpre.remove(ti as int).push(
                        (topic@, list@),
                    ));
                    lemma_al_push(tpre.remove(ti as int), topic@, list@);
                    assert forall|j: int| 0 <= j < tpre.remove(ti as int).len() implies (
                    #[trigger] tpre.remove(ti as int)[j]).0 != topic@ by {
                        if j < ti {
                            assert(tpre.remove(ti as int)[j] == tpre[j]);
                        } else {
                            assert(tpre.remove(ti as int)[j] == tpre[j + 1]);
                        }
                    }
                    lemma_al_push_unique(tpre.remove(ti as int), topic@, list@);
                    assert(al_map(pairs_view(self.topics@)) =~= v0.topics.insert(topic@, list@));
                    assert(self@ =~= spec_subscribe(v0, cid, topic@));
                    lemma_subscribe_linked(v0, cid, topic@);
                }
            },
            None => {
                proof {
                    lemma_al_absent(pairs_view(self.topics@), topic@);
                }
                let ghost tpre = pairs_view(self.topics@);
                let mut list: Vec<Cid> = Vec::new();
                list.push(cid);
                self.topics.push((clone_bytes(topic), list));
                proof {
                    assert(pairs_view(self.topics@) =~= tpre.push((topic@, seq![cid])));
                    lemma_al_push(tpre, topic@, seq![cid]);
                    lemma_al_push_unique(tpre, topic@, seq![cid]);
                    assert(seq![cid] =~= Seq::<Cid>::empty().push(cid));
                    assert(al_map(pairs_view(self.topics@)) =~= v0.topics.insert(
                        topic@,
                        seq![cid],
                    ));
                    assert(self@ =~= spec_subscribe(v0, cid, topic@));
                    lemma_subscribe_linked(v0, cid, topic@);
                }
            },
        }
    }

    /// Handle `Unsubscribe(cid, topic)`.
    pub fn unsubscribe(&mut self, cid: Cid, topic: &[u8])
        requires
            old(self).inv(),
        ensures
            final(self).inv(),
            final(self)@ == spec_unsubscribe(old(self)@, cid, topic@),
    {
        let found = self.find_conn(cid);
        let idx = match found {
            None => {
                proof {
                    assert(self@ =~= spec_unsubscribe(old(self)@, cid, topic@));
                }
                return;
            },
            Some(i) => i,
        };
        let ghost v0 = old(self)@;
        let ghost e0 = self.connections@[idx as int]@;
        let ghost cpre = conns_pairs(self.connections@);
        let e = self.connections.remove(idx);
        let e2 = match e {
            ConnectionEntry::Pending(mut nc) => {
                crate::lattice::remove_bytes(&mut nc.topics, topic);
                ConnectionEntry::Pending(nc)
            },
            ConnectionEntry::Active(mut c) => {
                crate::lattice::remove_bytes(&mut c.topics, topic);
                ConnectionEntry::Active(c)
            },
        };
        proof {
            assert(e2@ =~= ConnV { topics: e0.topics.remove(topic@), ..e0 });
        }
        self.connections.push(e2);
        proof {
            lemma_al_remove(cpre, idx as int);
            assert(conns_pairs(self.connections@) =~= cpre.remove(idx as int).push(
                (cid, e2@),
            ));
            lemma_al_push(cpre.remove(idx as int), cid, e2@);
            assert forall|j: int| 0 <= j < cpre.remove(idx as int).len() implies (
            #[trigger] cpre.remove(idx as int)[j]).0 != cid by {
                if j < idx {
                    assert(cpre.remove(idx as int)[j] == cpre[j]);
                } else {
                    assert(cpre.remove(idx as int)[j] == cpre[j + 1]);
                }
            }
            lemma_al_push_unique(cpre.remove(idx as int), cid, e2@);
            assert(al_map(conns_pairs(self.connections@)) =~= v0.connections.insert(cid, e2@));
        }
        let tfound = find_bytes(&self.topics, topic);
        match tfound {
            Some(ti) => {
                proof {
                    lemma_al_get(pairs_view(self.topics@), ti as int);
                }
                let ghost tpre = pairs_view(self.topics@);
                let (tkey, mut list) = self.topics.remove(ti);
                cid_list_remove(&mut list, cid);
                proof {
                    lemma_al_remove(tpre, ti as int);
                }
                if list.len() > 0 {
                    self.topics.push((tkey, list));
                    proof {
                        assert(pairs_view(self.topics@) =~= tpre.remove(ti as int).push(
                            (topic@, list@),
                        ));
                        lemma_al_push(tpre.remove(ti as int), topic@, list@);
                        assert forall|j: int| 0 <= j < tpre.remove(ti as int).len() implies (
                        #[trigger] tpre.remove(ti as int)[j]).0 != topic@ by {
                            if j < ti {
                                assert(tpre.remove(ti as int)[j] == tpre[j]);
                            } else {
                                assert(tpre.remove(ti as int)[j] == tpre[j + 1]);
                            }
                        }
                        lemma_al_push_unique(tpre.remove(ti as int), topic@, list@);
                        assert(al_map(pairs_view(self.topics@)) =~= v0.topics.insert(
                            topic@,
                            list@,
                        ));
                        assert(self@ =~= spec_unsubscribe(v0, cid, topic@));
                        lemma_unsubscribe_linked(v0, cid, topic@);
                    }
                } else {
                    proof {
                        assert(pairs_view(self.topics@) =~= tpre.remove(ti as int));
                        assert(al_map(pairs_view(self.topics@)) =~= v0.topics.remove(topic@));
                        assert(self@ =~= spec_unsubscribe(v0, cid, topic@));
                        lemma_unsubscribe_linked(v0, cid, topic@);
                    }
                }
            },
            None => {
                proof {
                    lemma_al_absent(pairs_view(self.topics@), topic@);
                    assert(self@ =~= spec_unsubscribe(v0, cid, topic@));
                    lemma_unsubscribe_linked(v0, cid, topic@);
                }
            },
        }
    }
}

/// Subscribe then unsubscribe restores the pool exactly.
///
/// For a connection that does not yet hold the topic, `Unsubscribe(c, t)`
/// right after `Subscribe(c, t)` leaves every index, every connection entry
/// and every outbound queue as it was.
pub proof fn lemma_subscribe_roundtrip(v: PoolV, c: Cid, t: Seq<u8>)
    requires
        pool_linked(v),
        v.connections.contains_key(c) ==> !v.connections[c].topics.contains(t),
    ensures
        spec_unsubscribe(spec_subscribe(v, c, t), c, t) == v,
{
    if v.connections.contains_key(c) {
        let w = spec_subscribe(v, c, t);
        let e = v.connections[c];
        let e2 = ConnV { topics: e.topics.insert(t), ..e };
        assert(!v.topics.contains_key(t) || !v.topics[t].contains(c));
        let tl = if v.topics.contains_key(t) {
            v.topics[t]
        } else {
            Seq::empty()
        };
        let tl2 = tl.push(c);
        assert(w.topics[t] == tl2);
        assert(w.connections.contains_key(c));
        assert(w.connections[c] == e2);
        let u = spec_unsubscribe(w, c, t);
        assert(remove_cid(tl2, c) == tl) by {
            assert(forall|j: int| 0 <= j < tl.len() ==> tl2[j] == #[trigger] tl[j]);
            assert(tl2[tl.len() as int] == c);
            assert forall|j: int| 0 <= j < tl.len() implies tl2[j] != c by {
                assert(tl.contains(tl[j]) == tl.contains(tl2[j]));
                if tl2[j] == c {
                    assert(tl.contains(c));
                }
            }
            lemma_remove_cid_first(tl2, c, tl.len() as int);
            assert(tl2.remove(tl.len() as int) =~= tl);
        }
        assert(e2.topics.remove(t) =~= e.topics);
        assert(u.connections =~= v.connections) by {
            assert(w.connections.insert(c, ConnV { topics: e2.topics.remove(t), ..e2 })
                =~= v.connections.insert(c, ConnV { topics: e.topics, ..e }));
            assert(ConnV { topics: e.topics, ..e } =~= e);
        }
        if tl.len() == 0 {
            assert(!v.topics.contains_key(t)) by {
                if v.topics.contains_key(t) {
                    assert(v.topics[t].len() > 0);
                }
            }
            assert(u.topics =~= v.topics);
        } else {
            assert(v.topics.contains_key(t)) by {
                if !v.topics.contains_key(t) {
                    assert(tl == Seq::<Cid>::empty());
                }
            }
            assert(u.topics =~= v.topics);
        }
        assert(u =~= v);
    }
}

/// The next presence version; the clock holds at its ceiling.
pub open spec fn bump(c: u64) -> u64 {
    if c == u64::MAX {
        c
    } else {
        (c + 1) as u64
    }
}

/// The reserved namespace presence updates are delivered on: `swindon.user`.
pub open spec fn users_ns() -> Seq<u8> {
    seq![115u8, 119u8, 105u8, 110u8, 100u8, 111u8, 110u8, 46u8, 117u8, 115u8, 101u8, 114u8]
}

/// The field key of a presence register: `status_register`.
pub open spec fn status_key() -> Seq<u8> {
    seq![
        115u8,
        116u8,
        97u8,
        116u8,
        117u8,
        115u8,
        95u8,
        114u8,
        101u8,
        103u8,
        105u8,
        115u8,
        116u8,
        101u8,
        114u8,
    ]
}

/// The register value `online`.
pub open spec fn online_bytes() -> Seq<u8> {
    seq![111u8, 110u8, 108u8, 105u8, 110u8, 101u8]
}

/// The register value `offline`.
pub open spec fn offline_bytes() -> Seq<u8> {
    seq![111u8, 102u8, 102u8, 108u8, 105u8, 110u8, 101u8]
}

/// The presence cell of one session at one version.
pub open spec fn presence_cell(ver: u64, online: bool) -> crate::lattice::CellMap {
    Map::empty().insert(
        status_key(),
        crate::lattice::FieldV::Register(
            ver,
            if online {
                online_bytes()
            } else {
                offline_bytes()
            },
        ),
    )
}

/// The users-lattice delta announcing one session's presence.
pub open spec fn presence_delta(sid: Seq<u8>, ver: u64, online: bool) -> NsMap {
    Map::empty().insert(sid, presence_cell(ver, online))
}

/// A presence update lands on the queue of a connection watching the session.
pub open spec fn notify_entry(e: ConnV, sid: Seq<u8>, ver: u64, online: bool) -> ConnV {
    if e.active && e.users && e.watches.contains(sid) {
        ConnV { queue: e.queue.push(MsgV::Lattice(users_ns(), presence_delta(sid, ver, online))), ..e }
    } else {
        e
    }
}

/// Deliver a presence update to every watcher of the session.
pub open spec fn notify_watchers(m: Map<Cid, ConnV>, sid: Seq<u8>, ver: u64, online: bool) -> Map<
    Cid,
    ConnV,
> {
    Map::new(|c: Cid| m.contains_key(c), |c: Cid| notify_entry(m[c], sid, ver, online))
}

/// Topic index after one connection leaves: it is struck from every delivery
/// list, and topics left without subscribers are dropped.
pub open spec fn scrub_topics(m: Map<Seq<u8>, Seq<Cid>>, c: Cid) -> Map<Seq<u8>, Seq<Cid>> {
    Map::new(
        |t: Seq<u8>| m.contains_key(t) && remove_cid(m[t], c).len() > 0,
        |t: Seq<u8>| remove_cid(m[t], c),
    )
}

/// Lattice index after one connection leaves: it is struck from every
/// subscriber list; the lattices themselves stay.
pub open spec fn scrub_lattices(m: Map<Seq<u8>, LatV>, c: Cid) -> Map<Seq<u8>, LatV> {
    Map::new(
        |n: Seq<u8>| m.contains_key(n),
        |n: Seq<u8>| LatV { values: m[n].values, subscribers: remove_cid(m[n].subscribers, c) },
    )
}

/// Effect of `Disconnect(c)`: the entry is removed and struck from every
/// index.  If it was the last connection of its session, the session record
/// goes away and a user-offline presence update is fanned out to watchers.
pub open spec fn spec_disconnect(v: PoolV, c: Cid) -> PoolV {
    if !v.connections.contains_key(c) {
        v
    } else {
        let e = v.connections[c];
        let conns1 = v.connections.remove(c);
        let topics1 = scrub_topics(v.topics, c);
        let lats1 = scrub_lattices(v.lattices, c);
        if e.active && v.sessions.contains_key(e.session_id) {
            let cids2 = remove_cid(v.sessions[e.session_id].cids, c);
            if cids2.len() == 0 {
                let clock2 = bump(v.clock);
                PoolV {
                    hwm: v.hwm,
                    connections: notify_watchers(conns1, e.session_id, clock2, false),
                    sessions: v.sessions.remove(e.session_id),
                    topics: topics1,
                    lattices: lats1,
                    presence: v.presence.insert(e.session_id, (clock2, false)),
                    clock: clock2,
                }
            } else {
                PoolV {
                    hwm: v.hwm,
                    connections: conns1,
                    sessions: v.sessions.insert(
                        e.session_id,
                        SessV { cids: cids2, metadata: v.sessions[e.session_id].metadata },
                    ),
                    topics: topics1,
                    lattices: lats1,
                    presence: v.presence,
                    clock: v.clock,
                }
            }
        } else {
            PoolV {
                hwm: v.hwm,
                connections: conns1,
                sessions: v.sessions,
                topics: topics1,
                lattices: lats1,
                presence: v.presence,
                clock: v.clock,
            }
        }
    }
}

/// Disconnecting keeps the pool linked.
proof fn lemma_disconnect_linked(v: PoolV, c: Cid)
    requires
        pool_linked(v),
    ensures
        pool_linked(spec_disconnect(v, c)),
{
    if v.connections.contains_key(c) {
        let e = v.connections[c];
        let w = spec_disconnect(v, c);
        assert forall|t: Seq<u8>| #[trigger] w.topics.contains_key(t) implies w.topics[t].len() > 0
            && w.topics[t].no_duplicates() by {
            lemma_remove_cid(v.topics[t], c);
        }
        assert forall|t: Seq<u8>, c2: Cid|
            w.topics.contains_key(t) && #[trigger] w.topics[t].contains(c2) implies
            w.connections.contains_key(c2) && w.connections[c2].topics.contains(t) by {
            lemma_remove_cid(v.topics[t], c);
            assert(c2 != c);
            assert(v.topics[t].contains(c2));
        }
        assert forall|c2: Cid, t: Seq<u8>|
            w.connections.contains_key(c2) && #[trigger] w.connections[c2].topics.contains(t)
            implies w.topics.contains_key(t) && w.topics[t].contains(c2) by {
            assert(c2 != c);
            assert(v.connections[c2].topics.contains(t));
            assert(v.topics.contains_key(t) && v.topics[t].contains(c2));
            lemma_remove_cid(v.topics[t], c);
        }
        assert forall|n: Seq<u8>| #[trigger] w.lattices.contains_key(n) implies w.lattices[
        n].subscribers.no_duplicates() by {
            lemma_remove_cid(v.lattices[n].subscribers, c);
        }
        assert forall|n: Seq<u8>, c2: Cid|
            w.lattices.contains_key(n) && #[trigger] w.lattices[n].subscribers.contains(c2)
            implies w.connections.contains_key(c2) && w.connections[c2].lattices.contains(n) by {
            lemma_remove_cid(v.lattices[n].subscribers, c);
            assert(c2 != c);
            assert(v.lattices[n].subscribers.contains(c2));
        }
        assert forall|c2: Cid, n: Seq<u8>|
            w.connections.contains_key(c2) && #[trigger] w.connections[c2].lattices.contains(n)
            implies w.lattices.contains_key(n) && w.lattices[n].subscribers.contains(c2) by {
            assert(c2 != c);
            assert(v.connections[c2].lattices.contains(n));
            lemma_remove_cid(v.lattices[n].subscribers, c);
        }
        assert forall|s: Seq<u8>| #[trigger] w.sessions.contains_key(s) implies w.sessions[
        s].cids.len() > 0 && w.sessions[s].cids.no_duplicates() by {
            if e.active && v.sessions.contains_key(e.session_id) && s == e.session_id {
                lemma_remove_cid(v.sessions[e.session_id].cids, c);
            }
        }
        assert forall|s: Seq<u8>, c2: Cid|
            w.sessions.contains_key(s) && #[trigger] w.sessions[s].cids.contains(c2) implies
            w.connections.contains_key(c2) && w.connections[c2].active && w.connections[
        c2].session_id == s by {
            if e.active && v.sessions.contains_key(e.session_id) && s == e.session_id {
                lemma_remove_cid(v.sessions[e.session_id].cids, c);
                assert(c2 != c);
                assert(v.sessions[s].cids.contains(c2));
            } else {
                assert(v.sessions[s].cids.contains(c2));
                assert(c2 != c) by {
                    if c2 == c {
                        assert(v.connections[c].session_id == s && v.connections[c].active);
                        assert(v.sessions.contains_key(e.session_id));
                        assert(s == e.session_id);
                    }
                }
            }
        }
        assert forall|c2: Cid|
            w.connections.contains_key(c2) && (#[trigger] w.connections[c2]).active implies
            w.sessions.contains_key(w.connections[c2].session_id) && w.sessions[w.connections[
        c2].session_id].cids.contains(c2) by {
            assert(c2 != c);
            let sid2 = v.connections[c2].session_id;
            assert(v.sessions.contains_key(sid2) && v.sessions[sid2].cids.contains(c2));
            assert(w.connections[c2].session_id == sid2);
            assert(w.connections[c2].active);
            if e.active && v.sessions.contains_key(e.session_id) && sid2 == e.session_id {
                lemma_remove_cid(v.sessions[e.session_id].cids, c);
                let cids2 = remove_cid(v.sessions[e.session_id].cids, c);
                assert(cids2.contains(c2));
            }
        }
    }
}

/// After `Disconnect(c)`, the connection id appears in no index.
pub proof fn lemma_disconnect_scrubbed(v: PoolV, c: Cid)
    requires
        pool_linked(v),
    ensures
        !spec_disconnect(v, c).connections.contains_key(c),
        forall|t: Seq<u8>|
            #[trigger] spec_disconnect(v, c).topics.contains_key(t) ==> !spec_disconnect(
                v,
                c,
            ).topics[t].contains(c),
        forall|n: Seq<u8>|
            #[trigger] spec_disconnect(v, c).lattices.contains_key(n) ==> !spec_disconnect(
                v,
                c,
            ).lattices[n].subscribers.contains(c),
        forall|s: Seq<u8>|
            #[trigger] spec_disconnect(v, c).sessions.contains_key(s) ==> !spec_disconnect(
                v,
                c,
            ).sessions[s].cids.contains(c),
{
    let w = spec_disconnect(v, c);
    if v.connections.contains_key(c) {
        let e = v.connections[c];
        assert forall|t: Seq<u8>| #[trigger] w.topics.contains_key(t) implies !w.topics[
        t].contains(c) by {
            lemma_remove_cid(v.topics[t], c);
        }
        assert forall|n: Seq<u8>| #[trigger] w.lattices.contains_key(n) implies !w.lattices[
        n].subscribers.contains(c) by {
            lemma_remove_cid(v.lattices[n].subscribers, c);
        }
        assert forall|s: Seq<u8>| #[trigger] w.sessions.contains_key(s) implies !w.sessions[
        s].cids.contains(c) by {
            if e.active && v.sessions.contains_key(e.session_id) && s == e.session_id {
                lemma_remove_cid(v.sessions[e.session_id].cids, c);
            } else {
                if w.sessions[s].cids.contains(c) {
                    assert(v.sessions[s].cids.contains(c));
                    assert(v.connections[c].active && v.connections[c].session_id == s);
                }
            }
        }
    } else {
        assert forall|t: Seq<u8>| #[trigger] w.topics.contains_key(t) implies !w.topics[
        t].contains(c) by {
            if w.topics[t].contains(c) {
                assert(v.connections.contains_key(c));
            }
        }
        assert forall|n: Seq<u8>| #[trigger] w.lattices.contains_key(n) implies !w.lattices[
        n].subscribers.contains(c) by {
            if w.lattices[n].subscribers.contains(c) {
                assert(v.connections.contains_key(c));
            }
        }
        assert forall|s: Seq<u8>| #[trigger] w.sessions.contains_key(s) implies !w.sessions[
        s].cids.contains(c) by {
            if w.sessions[s].cids.contains(c) {
                assert(v.connections.contains_key(c));
            }
        }
    }
}

fn users_ns_vec() -> (v: Vec<u8>)
    ensures
        v@ =~= users_ns(),
{
    let mut v: Vec<u8> = Vec::new();
    v.push(115);
    v.push(119);
    v.push(105);
    v.push(110);
    v.push(100);
    v.push(111);
    v.push(110);
    v.push(46);
    v.push(117);
    v.push(115);
    v.push(101);
    v.push(114);
    v
}

fn status_key_vec() -> (v: Vec<u8>)
    ensures
        v@ =~= status_key(),
{
    let mut v: Vec<u8> = Vec::new();
    v.push(115);
    v.push(116);
    v.push(97);
    v.push(116);
    v.push(117);
    v.push(115);
    v.push(95);
    v.push(114);
    v.push(101);
    v.push(103);
    v.push(105);
    v.push(115);
    v.push(116);
    v.push(101);
    v.push(114);
    v
}

fn status_value_vec(online: bool) -> (v: Vec<u8>)
    ensures
        online ==> v@ =~= online_bytes(),
        !online ==> v@ =~= offline_bytes(),
{
    let mut v: Vec<u8> = Vec::new();
    v.push(111);
    if online {
        v.push(110);
        v.push(108);
        v.push(105);
        v.push(110);
        v.push(101);
    } else {
        v.push(102);
        v.push(102);
        v.push(108);
        v.push(105);
        v.push(110);
        v.push(101);
    }
    v
}

/// Build the presence cell of one session at one version.
fn presence_cell_exec(ver: u64, online: bool) -> (cell: crate::lattice::Values)
    ensures
        cell@ == presence_cell(ver, online),
        cell.wf(),
{
    let value = status_value_vec(online);
    let mut fields: Vec<(Vec<u8>, crate::lattice::FieldValue)> = Vec::new();
    fields.push((status_key_vec(), crate::lattice::FieldValue::Register(ver, value)));
    let cell = crate::lattice::Values { fields };
    proof {
        assert(pairs_view(cell.fields@) =~= seq![
            (status_key(), crate::lattice::FieldV::Register(ver, if online { online_bytes() } else { offline_bytes() })),
        ]);
        assert(cell@ =~= presence_cell(ver, online)) by {
            let entry = (
                status_key(),
                crate::lattice::FieldV::Register(
                    ver,
                    if online {
                        online_bytes()
                    } else {
                        offline_bytes()
                    },
                ),
            );
            assert(pairs_view(cell.fields@) =~= Seq::<
                (Seq<u8>, crate::lattice::FieldV),
            >::empty().push(entry));
            lemma_al_push(Seq::<(Seq<u8>, crate::lattice::FieldV)>::empty(), entry.0, entry.1);
        }
        assert(cell.wf()) by {
            assert(crate::lattice::kind_of(status_key())
                == crate::lattice::KeyKind::KindRegister) by {
                assert(status_key().skip(6) =~= crate::lattice::sfx_register());
                assert(!crate::lattice::has_suffix(
                    status_key(),
                    crate::lattice::sfx_counter(),
                )) by {
                    assert(status_key().skip(7)[0] == 114u8);
                    assert(crate::lattice::sfx_counter()[0] == 95u8);
                }
                assert(!crate::lattice::has_suffix(status_key(), crate::lattice::sfx_set())) by {
                    assert(status_key().skip(11)[0] == 115u8);
                    assert(crate::lattice::sfx_set()[0] == 95u8);
                }
            }
        }
    }
    cell
}

/// Build the users-lattice delta announcing one session's presence.
fn presence_delta_exec(sid: &[u8], ver: u64, online: bool) -> (d: crate::lattice::Delta)
    ensures
        d@ == presence_delta(sid@, ver, online),
        d.wf(),
{
    let cell = presence_cell_exec(ver, online);
    let mut items: Vec<(Vec<u8>, crate::lattice::Values)> = Vec::new();
    items.push((clone_bytes(sid), cell));
    let d = crate::lattice::Delta { items };
    proof {
        assert(pairs_view(d.items@) =~= seq![(sid@, presence_cell(ver, online))]);
        assert(d@ =~= presence_delta(sid@, ver, online)) by {
            let entry = (sid@, presence_cell(ver, online));
            assert(pairs_view(d.items@) =~= Seq::<
                (Seq<u8>, crate::lattice::CellMap),
            >::empty().push(entry));
            lemma_al_push(Seq::<(Seq<u8>, crate::lattice::CellMap)>::empty(), entry.0, entry.1);
        }
    }
    d
}

/// The topic index rebuilt after one connection leaves.
fn scrub_topic_index(topics: &mut Vec<(Vec<u8>, Vec<Cid>)>, cid: Cid)
    requires
        al_unique(pairs_view(old(topics)@)),
    ensures
        al_unique(pairs_view(final(topics)@)),
        al_map(pairs_view(final(topics)@)) == scrub_topics(al_map(pairs_view(old(topics)@)), cid),
{
    let ghost orig = pairs_view(topics@);
    let mut kept: Vec<(Vec<u8>, Vec<Cid>)> = Vec::new();
    let ghost mut done: int = 0;
    proof {
        assert(pairs_view(kept@) =~= Seq::<(Seq<u8>, Seq<Cid>)>::empty());
        assert(al_map(orig.take(0)) =~= Map::<Seq<u8>, Seq<Cid>>::empty());
        assert(scrub_topics(al_map(orig.take(0)), cid) =~= Map::<Seq<u8>, Seq<Cid>>::empty());
    }
    while topics.len() > 0
        invariant
            0 <= done <= orig.len(),
            done + topics@.len() == orig.len(),
            pairs_view(topics@) =~= orig.skip(done),
            al_unique(orig),
            al_unique(pairs_view(kept@)),
            al_map(pairs_view(kept@)) == scrub_topics(al_map(orig.take(done)), cid),
            forall|j: int|
                0 <= j < kept@.len() ==> al_map(orig.take(done)).contains_key(
                    (#[trigger] pairs_view(kept@)[j]).0,
                ),
        decreases topics@.len(),
    {
        let ghost k = orig[done].0;
        let ghost l = orig[done].1;
        proof {
            assert(orig.skip(done)[0] == orig[done]);
            assert(orig.take(done + 1) =~= orig.take(done).push(orig[done]));
            lemma_al_push(orig.take(done), k, l);
            assert forall|j: int| 0 <= j < done implies (#[trigger] orig.take(done)[j]).0 != k by {
                assert(orig[j].0 != orig[done].0);
            }
            lemma_al_absent(orig.take(done), k);
            assert(scrub_topics(al_map(orig.take(done)).insert(k, l), cid) =~= (
            if remove_cid(l, cid).len() > 0 {
                scrub_topics(al_map(orig.take(done)), cid).insert(k, remove_cid(l, cid))
            } else {
                scrub_topics(al_map(orig.take(done)), cid)
            }));
        }
        let ghost tpre = topics@;
        let (key, mut list) = topics.remove(0);
        proof {
            assert(pairs_view(topics@) =~= orig.skip(done + 1)) by {
                assert forall|j: int| 0 <= j < topics@.len() implies pairs_view(topics@)[j]
                    == orig.skip(done + 1)[j] by {
                    assert(topics@[j] == tpre[j + 1]);
                    assert(pairs_view(topics@)[j] == pairs_view(tpre)[j + 1]);
                    assert(orig.skip(done + 1)[j] == orig.skip(done)[j + 1]);
                }
            }
        }
        cid_list_remove(&mut list, cid);
        if list.len() > 0 {
            let ghost kpre = pairs_view(kept@);
            kept.push((key, list));
            proof {
                assert(pairs_view(kept@) =~= kpre.push((k, remove_cid(l, cid))));
                lemma_al_push(kpre, k, remove_cid(l, cid));
                assert forall|j: int| 0 <= j < kpre.len() implies (#[trigger] kpre[j]).0 != k by {
                    assert(al_map(orig.take(done)).contains_key(kpre[j].0));
                    lemma_al_absent(orig.take(done), k);
                }
                lemma_al_push_unique(kpre, k, remove_cid(l, cid));
            }
        }
        proof {
            done = done + 1;
        }
    }
    proof {
        assert(orig.take(done) =~= orig) by {
            assert(orig.skip(done).len() == 0);
        }
    }
    *topics = kept;
}

/// The lattice index after one connection leaves.
fn scrub_lattice_index(lattices: &mut Vec<(Vec<u8>, LatticeState)>, cid: Cid)
    requires
        al_unique(pairs_view(old(lattices)@)),
        forall|i: int|
            0 <= i < old(lattices)@.len() ==> crate::lattice::ns_entries_wf(
                (#[trigger] old(lattices)@[i]).1.values@,
            ),
    ensures
        al_unique(pairs_view(final(lattices)@)),
        forall|i: int|
            0 <= i < final(lattices)@.len() ==> crate::lattice::ns_entries_wf(
                (#[trigger] final(lattices)@[i]).1.values@,
            ),
        al_map(pairs_view(final(lattices)@)) == scrub_lattices(
            al_map(pairs_view(old(lattices)@)),
            cid,
        ),
{
    let ghost orig = pairs_view(lattices@);
    let mut kept: Vec<(Vec<u8>, LatticeState)> = Vec::new();
    let ghost mut done: int = 0;
    proof {
        assert(pairs_view(kept@) =~= Seq::<(Seq<u8>, LatV)>::empty());
        assert(al_map(orig.take(0)) =~= Map::<Seq<u8>, LatV>::empty());
        assert(scrub_lattices(al_map(orig.take(0)), cid) =~= Map::<Seq<u8>, LatV>::empty());
    }
    while lattices.len() > 0
        invariant
            0 <= done <= orig.len(),
            done + lattices@.len() == orig.len(),
            pairs_view(lattices@) =~= orig.skip(done),
            forall|i: int|
                0 <= i < lattices@.len() ==> crate::lattice::ns_entries_wf(
                    (#[trigger] lattices@[i]).1.values@,
                ),
            al_unique(orig),
            al_unique(pairs_view(kept@)),
            kept@.len() == done,
            forall|i: int|
                0 <= i < kept@.len() ==> crate::lattice::ns_entries_wf(
                    (#[trigger] kept@[i]).1.values@,
                ),
            al_map(pairs_view(kept@)) == scrub_lattices(al_map(orig.take(done)), cid),
            forall|j: int|
                0 <= j < kept@.len() ==> (#[trigger] pairs_view(kept@)[j]).0 == orig[j].0,
        decreases lattices@.len(),
    {
        let ghost k = orig[done].0;
        let ghost lv = orig[done].1;
        proof {
            assert(orig.skip(done)[0] == orig[done]);
            assert(orig.take(done + 1) =~= orig.take(done).push(orig[done]));
            lemma_al_push(orig.take(done), k, lv);
            assert(scrub_lattices(al_map(orig.take(done)).insert(k, lv), cid) =~= scrub_lattices(
                al_map(orig.take(done)),
                cid,
            ).insert(
                k,
                LatV { values: lv.values, subscribers: remove_cid(lv.subscribers, cid) },
            ));
        }
        let ghost lpre = lattices@;
        let (key, mut state) = lattices.remove(0);
        proof {
            assert(pairs_view(lattices@) =~= orig.skip(done + 1)) by {
                assert forall|j: int| 0 <= j < lattices@.len() implies pairs_view(lattices@)[j]
                    == orig.skip(done + 1)[j] by {
                    assert(lattices@[j] == lpre[j + 1]);
                    assert(pairs_view(lattices@)[j] == pairs_view(lpre)[j + 1]);
                    assert(orig.skip(done + 1)[j] == orig.skip(done)[j + 1]);
                }
            }
            assert forall|i: int| 0 <= i < lattices@.len() implies crate::lattice::ns_entries_wf(
                (#[trigger] lattices@[i]).1.values@,
            ) by {}
        }
        cid_list_remove(&mut state.subscribers, cid);
        let ghost kpre = pairs_view(kept@);
        kept.push((key, state));
        proof {
            assert(pairs_view(kept@) =~= kpre.push(
                (k, LatV { values: lv.values, subscribers: remove_cid(lv.subscribers, cid) }),
            ));
            lemma_al_push(kpre, k, LatV { values: lv.values, subscribers: remove_cid(lv.subscribers, cid) });
            assert forall|j: int| 0 <= j < kpre.len() implies (#[trigger] kpre[j]).0 != k by {
                assert(kpre[j].0 == orig[j].0);
                assert(orig[j].0 != orig[done].0);
            }
            lemma_al_push_unique(
                kpre,
                k,
                LatV { values: lv.values, subscribers: remove_cid(lv.subscribers, cid) },
            );
            done = done + 1;
        }
    }
    proof {
        assert(orig.take(done) =~= orig) by {
            assert(orig.skip(done).len() == 0);
        }
    }
    *lattices = kept;
}

/// Deliver a presence update to every watching connection's queue.
fn notify_watchers_exec(conns: &mut Vec<ConnectionEntry>, sid: &[u8], ver: u64, online: bool)
    requires
        al_unique(conns_pairs(old(conns)@)),
        forall|i: int| 0 <= i < old(conns)@.len() ==> (#[trigger] old(conns)@[i]).wf(),
    ensures
        al_unique(conns_pairs(final(conns)@)),
        forall|i: int| 0 <= i < final(conns)@.len() ==> (#[trigger] final(conns)@[i]).wf(),
        al_map(conns_pairs(final(conns)@)) == notify_watchers(
            al_map(conns_pairs(old(conns)@)),
            sid@,
            ver,
            online,
        ),
{
    let ghost orig = conns_pairs(conns@);
    let ghost f = |e: ConnV| notify_entry(e, sid@, ver, online);
    let mut kept: Vec<ConnectionEntry> = Vec::new();
    let ghost mut done: int = 0;
    while conns.len() > 0
        invariant
            0 <= done <= orig.len(),
            done + conns@.len() == orig.len(),
            conns_pairs(conns@) =~= orig.skip(done),
            forall|i: int| 0 <= i < conns@.len() ==> (#[trigger] conns@[i]).wf(),
            forall|i: int| 0 <= i < kept@.len() ==> (#[trigger] kept@[i]).wf(),
            f == (|e: ConnV| notify_entry(e, sid@, ver, online)),
            conns_pairs(kept@) =~= orig.take(done).map_values(
                |p: (Cid, ConnV)| (p.0, f(p.1)),
            ),
        decreases conns@.len(),
    {
        let ghost k = orig[done].0;
        let ghost ev = orig[done].1;
        proof {
            assert(orig.skip(done)[0] == orig[done]);
        }
        let ghost cpre = conns@;
        let e = conns.remove(0);
        proof {
            assert(conns_pairs(conns@) =~= orig.skip(done + 1)) by {
                assert forall|j: int| 0 <= j < conns@.len() implies conns_pairs(conns@)[j]
                    == orig.skip(done + 1)[j] by {
                    assert(conns@[j] == cpre[j + 1]);
                    assert(conns_pairs(conns@)[j] == conns_pairs(cpre)[j + 1]);
                    assert(orig.skip(done + 1)[j] == orig.skip(done)[j + 1]);
                }
            }
            assert(conns_pairs(cpre)[0] == orig.skip(done)[0]);
            assert(e@ == ev && e@.cid == k);
        }
        let e2 = match e {
            ConnectionEntry::Active(mut c) => {
                if c.users_lattice && crate::lattice::set_contains(&c.watches, sid) {
                    let d = presence_delta_exec(sid, ver, online);
                    c.channel.send(
                        ConnectionMessage::Lattice(crate::ids::Namespace(users_ns_vec()), d),
                    );
                }
                ConnectionEntry::Active(c)
            },
            p => p,
        };
        proof {
            assert(e2@ =~= f(ev));
            assert(e2@.cid == k);
        }
        let ghost kpre = conns_pairs(kept@);
        kept.push(e2);
        proof {
            assert(conns_pairs(kept@) =~= kpre.push((k, f(ev))));
            assert(orig.take(done + 1).map_values(|p: (Cid, ConnV)| (p.0, f(p.1))) =~= orig.take(
                done,
            ).map_values(|p: (Cid, ConnV)| (p.0, f(p.1))).push((k, f(ev)))) by {
                assert(orig.take(done + 1) =~= orig.take(done).push(orig[done]));
            }
            done = done + 1;
        }
    }
    proof {
        assert(orig.take(done) =~= orig) by {
            assert(orig.skip(done).len() == 0);
        }
        crate::alist::lemma_al_transform(orig, f);
        assert(notify_watchers(al_map(orig), sid@, ver, online) =~= Map::new(
            |k: Cid| al_map(orig).contains_key(k),
            |k: Cid| f(al_map(orig)[k]),
        ));
        assert(al_unique(conns_pairs(kept@))) by {
            let mapped = orig.map_values(|p: (Cid, ConnV)| (p.0, f(p.1)));
            assert(conns_pairs(kept@) =~= mapped);
            assert forall|i: int, j: int| 0 <= i < j < mapped.len() implies (
            #[trigger] mapped[i]).0 != (#[trigger] mapped[j]).0 by {
                assert(orig[i].0 != orig[j].0);
            }
        }
    }
    *conns = kept;
}

impl Pool {
    /// Handle `Disconnect(cid)`: remove the connection from the pool and
    /// from every index.  If it was the last connection of its session, the
    /// session record is dropped and a user-offline presence update goes
    /// out to every watcher of that session.
    ///
    /// Returns the dropped connection's outbound queue, whose undelivered
    /// frames the socket writer still owns.
    pub fn disconnect(&mut self, cid: Cid) -> (r: Option<Channel>)
        requires
            old(self).inv(),
        ensures
            final(self).inv(),
            final(self)@ == spec_disconnect(old(self)@, cid),
            match r {
                Some(ch) => old(self)@.connections.contains_key(cid) && ch@ == old(
                    self,
                )@.connections[cid].queue,
                None => !old(self)@.connections.contains_key(cid),
            },
    {
        let ghost v0 = old(self)@;
        let found = self.find_conn(cid);
        let idx = match found {
            None => {
                proof {
                    assert(self@ =~= spec_disconnect(v0, cid));
                }
                return None;
            },
            Some(i) => i,
        };
        let ghost e0 = self.connections@[idx as int]@;
        let ghost cpairs = conns_pairs(self.connections@);
        let e = self.connections.remove(idx);
        proof {
            lemma_al_remove(cpairs, idx as int);
            assert(conns_pairs(self.connections@) =~= cpairs.remove(idx as int));
            assert(al_map(conns_pairs(self.connections@)) =~= v0.connections.remove(cid));
            assert(e@ == e0);
        }
        scrub_topic_index(&mut self.topics, cid);
        scrub_lattice_index(&mut self.lattices, cid);
        match e {
            ConnectionEntry::Pending(nc) => {
                proof {
                    assert(!e0.active);
                    assert(self@ =~= spec_disconnect(v0, cid));
                    lemma_disconnect_linked(v0, cid);
                }
                return Some(nc.channel);
            },
            ConnectionEntry::Active(conn) => {
                let sid = conn.session_id;
                let ch = conn.channel;
                proof {
                    assert(e0.active && e0.session_id == sid@);
                    assert(ch@ == e0.queue);
                }
                let sfound = find_bytes(&self.sessions, sid.as_slice());
                match sfound {
                    None => {
                        proof {
                            lemma_al_absent(pairs_view(self.sessions@), sid@);
                            assert(!v0.sessions.contains_key(sid@));
                            assert(self@ =~= spec_disconnect(v0, cid));
                            lemma_disconnect_linked(v0, cid);
                        }
                    },
                    Some(si) => {
                        let ghost spre = pairs_view(self.sessions@);
                        proof {
                            lemma_al_get(spre, si as int);
                            lemma_al_remove(spre, si as int);
                        }
                        let (skey, mut sess) = self.sessions.remove(si);
                        proof {
                            assert(pairs_view(self.sessions@) =~= spre.remove(si as int));
                        }
                        cid_list_remove(&mut sess.cids, cid);
                        let ghost cids2 = remove_cid(v0.sessions[sid@].cids, cid);
                        if sess.cids.len() > 0 {
                            let ghost s2pre = pairs_view(self.sessions@);
                            self.sessions.push((skey, sess));
                            proof {
                                assert(pairs_view(self.sessions@) =~= s2pre.push(
                                    (sid@, SessV { cids: cids2, metadata: v0.sessions[sid@].metadata }),
                                ));
                                lemma_al_push(
                                    s2pre,
                                    sid@,
                                    SessV { cids: cids2, metadata: v0.sessions[sid@].metadata },
                                );
                                assert forall|j: int| 0 <= j < s2pre.len() implies (
                                #[trigger] s2pre[j]).0 != sid@ by {
                                    if j < si {
                                        assert(s2pre[j] == spre[j]);
                                    } else {
                                        assert(s2pre[j] == spre[j + 1]);
                                    }
                                }
                                lemma_al_push_unique(
                                    s2pre,
                                    sid@,
                                    SessV { cids: cids2, metadata: v0.sessions[sid@].metadata },
                                );
                                assert(al_map(pairs_view(self.sessions@)) =~= v0.sessions.insert(
                                    sid@,
                                    SessV { cids: cids2, metadata: v0.sessions[sid@].metadata },
                                ));
                                assert(self@ =~= spec_disconnect(v0, cid));
                                lemma_disconnect_linked(v0, cid);
                            }
                        } else {
                            let ver = if self.clock < u64::MAX {
                                self.clock + 1
                            } else {
                                self.clock
                            };
                            self.clock = ver;
                            proof {
                                assert(ver == bump(v0.clock));
                            }
                            let pfound = find_bytes(&self.presence, sid.as_slice());
                            let ghost ppre = pairs_view(self.presence@);
                            match pfound {
                                Some(pi) => {
                                    proof {
                                        lemma_al_remove(ppre, pi as int);
                                    }
                                    self.presence.remove(pi);
                                    proof {
                                        assert(pairs_view(self.presence@) =~= ppre.remove(
                                            pi as int,
                                        ));
                                    }
                                },
                                None => {},
                            }
                            let ghost p2pre = pairs_view(self.presence@);
                            proof {
                                assert forall|j: int| 0 <= j < p2pre.len() implies (
                                #[trigger] p2pre[j]).0 != sid@ by {
                                    if pfound is Some {
                                        let pi = pfound->0;
                                        if j < pi {
                                            assert(p2pre[j] == ppre[j]);
                                        } else {
                                            assert(p2pre[j] == ppre[j + 1]);
                                        }
                                    }
                                }
                            }
                            self.presence.push((skey, (ver, false)));
                            proof {
                                assert(pairs_view(self.presence@) =~= p2pre.push(
                                    (sid@, (ver, false)),
                                ));
                                lemma_al_push(p2pre, sid@, (ver, false));
                                lemma_al_push_unique(p2pre, sid@, (ver, false));
                                assert(al_map(pairs_view(self.presence@)) =~= v0.presence.insert(
                                    sid@,
                                    (ver, false),
                                ));
                            }
                            notify_watchers_exec(&mut self.connections, sid.as_slice(), ver, false);
                            proof {
                                assert(al_map(pairs_view(self.sessions@)) =~= v0.sessions.remove(
                                    sid@,
                                ));
                                assert(self@ =~= spec_disconnect(v0, cid));
                                lemma_disconnect_linked(v0, cid);
                            }
                        }
                    },
                }
                Some(ch)
            },
        }
    }
}

/// Changing only a connection's outbound queue keeps the pool linked.
proof fn lemma_linked_requeue(v: PoolV, c: Cid, q: Seq<MsgV>)
    requires
        pool_linked(v),
        v.connections.contains_key(c),
    ensures
        pool_linked(
            PoolV {
                connections: v.connections.insert(c, ConnV { queue: q, ..v.connections[c] }),
                ..v
            },
        ),
{
    let w = PoolV {
        connections: v.connections.insert(c, ConnV { queue: q, ..v.connections[c] }),
        ..v
    };
    assert forall|c2: Cid, t: Seq<u8>|
        w.connections.contains_key(c2) && #[trigger] w.connections[c2].topics.contains(t) implies
        w.topics.contains_key(t) && w.topics[t].contains(c2) by {
        assert(v.connections[c2].topics.contains(t));
    }
    assert forall|c2: Cid, n: Seq<u8>|
        w.connections.contains_key(c2) && #[trigger] w.connections[c2].lattices.contains(n)
        implies w.lattices.contains_key(n) && w.lattices[n].subscribers.contains(c2) by {
        assert(v.connections[c2].lattices.contains(n));
    }
    assert forall|c2: Cid|
        w.connections.contains_key(c2) && (#[trigger] w.connections[c2]).active implies
        w.sessions.contains_key(w.connections[c2].session_id) && w.sessions[w.connections[
    c2].session_id].cids.contains(c2) by {
        assert(v.connections[c2].active && v.connections[c2].session_id == w.connections[
        c2].session_id);
    }
}

/// Effect of delivering one published message to one subscriber: an
/// active connection below the high-water mark gets the frame queued, a
/// pending one buffers it until `Hello`; a connection at the mark is
/// ordered closed as overloaded and dropped from the pool.  The second
/// component reports the dropped connection's queue, if any.  The mark
/// counts undelivered frames (queued plus buffered); the byte-based bound
/// is enforced where the frames are encoded, outside the pool.
pub open spec fn spec_deliver(v: PoolV, c: Cid, t: Seq<u8>, data: Seq<u8>) -> (
    PoolV,
    Option<(Cid, Seq<MsgV>)>,
) {
    if !v.connections.contains_key(c) {
        (v, None)
    } else {
        let e = v.connections[c];
        if e.queue.len() + e.buffer.len() < v.hwm {
            (
                PoolV {
                    connections: v.connections.insert(
                        c,
                        if e.active {
                            ConnV { queue: e.queue.push(MsgV::Publish(t, data)), ..e }
                        } else {
                            ConnV { buffer: e.buffer.push((t, data)), ..e }
                        },
                    ),
                    ..v
                },
                None,
            )
        } else {
            let q2 = e.queue.push(MsgV::StopSock(CloseReason::Overloaded));
            let v1 = PoolV {
                connections: v.connections.insert(c, ConnV { queue: q2, ..e }),
                ..v
            };
            (spec_disconnect(v1, c), Some((c, q2)))
        }
    }
}

/// Deliver one published message to a list of subscribers, in order.
pub open spec fn spec_publish_list(v: PoolV, subs: Seq<Cid>, t: Seq<u8>, data: Seq<u8>) -> (
    PoolV,
    Seq<(Cid, Seq<MsgV>)>,
)
    decreases subs.len(),
{
    if subs.len() == 0 {
        (v, Seq::empty())
    } else {
        let step = spec_deliver(v, subs[0], t, data);
        let rest = spec_publish_list(step.0, subs.skip(1), t, data);
        (
            rest.0,
            match step.1 {
                Some(d) => seq![d] + rest.1,
                None => rest.1,
            },
        )
    }
}

/// Effect of `Publish(t, data)`: the message is queued for every subscriber
/// of the topic, in the delivery list's order; subscribers past the
/// high-water mark are dropped as overloaded.
pub open spec fn spec_publish(v: PoolV, t: Seq<u8>, data: Seq<u8>) -> (
    PoolV,
    Seq<(Cid, Seq<MsgV>)>,
) {
    if v.topics.contains_key(t) {
        spec_publish_list(v, v.topics[t], t, data)
    } else {
        (v, Seq::empty())
    }
}

/// The queues handed back with the connections a publish dropped.
pub open spec fn dropped_view(s: Seq<(Cid, Channel)>) -> Seq<(Cid, Seq<MsgV>)> {
    s.map_values(|p: (Cid, Channel)| (p.0, p.1@))
}

impl Pool {
    /// Handle `Publish(topic, data)`.
    ///
    /// Enqueues the message for every connection in the topic's delivery
    /// list, in insertion order.  A subscriber already at the high-water
    /// mark is sent `StopSock(Overloaded)`, removed from the pool, and its
    /// queue is handed back for its socket writer.
    pub fn publish(&mut self, topic: &[u8], data: &[u8]) -> (dropped: Vec<(Cid, Channel)>)
        requires
            old(self).inv(),
        ensures
            final(self).inv(),
            final(self)@ == spec_publish(old(self)@, topic@, data@).0,
            dropped_view(dropped@) == spec_publish(old(self)@, topic@, data@).1,
    {
        let ghost v0 = old(self)@;
        let mut dropped: Vec<(Cid, Channel)> = Vec::new();
        let tf = find_bytes(&self.topics, topic);
        let ti = match tf {
            None => {
                proof {
                    lemma_al_absent(pairs_view(self.topics@), topic@);
                    assert(dropped_view(dropped@) =~= Seq::<(Cid, Seq<MsgV>)>::empty());
                }
                return dropped;
            },
            Some(i) => i,
        };
        proof {
            lemma_al_get(pairs_view(self.topics@), ti as int);
        }
        let subs = vstd::slice::slice_to_vec(self.topics[ti].1.as_slice());
        let ghost full = spec_publish_list(v0, subs@, topic@, data@);
        let mut i: usize = 0;
        proof {
            assert(subs@.skip(0) =~= subs@);
        }
        while i < subs.len()
            invariant
                i <= subs@.len(),
                self.inv(),
                full == spec_publish_list(v0, subs@, topic@, data@),
                spec_publish_list(self@, subs@.skip(i as int), topic@, data@).0 == full.0,
                dropped_view(dropped@) + spec_publish_list(
                    self@,
                    subs@.skip(i as int),
                    topic@,
                    data@,
                ).1 == full.1,
            decreases subs@.len() - i,
        {
            let c = subs[i];
            let ghost vi = self@;
            let ghost rem = subs@.skip(i as int);
            proof {
                assert(rem[0] == subs@[i as int]);
                assert(rem.skip(1) =~= subs@.skip(i as int + 1));
            }
            let found = self.find_conn(c);
            match found {
                None => {
                    proof {
                        assert(spec_deliver(vi, c, topic@, data@) == (
                            vi,
                            None::<(Cid, Seq<MsgV>)>,
                        ));
                    }
                },
                Some(eidx) => {
                    let under = match &self.connections[eidx] {
                        ConnectionEntry::Pending(nc) => {
                            let ql = nc.channel.len();
                            ql < self.hwm && nc.message_buffer.len() < self.hwm - ql
                        },
                        ConnectionEntry::Active(cn) => cn.channel.len() < self.hwm,
                    };
                    let ghost e0 = vi.connections[c];
                    let ghost cpre = conns_pairs(self.connections@);
                    if under {
                        let e = self.connections.remove(eidx);
                        let e2 = match e {
                            ConnectionEntry::Pending(mut nc) => {
                                nc.message(clone_bytes(topic), clone_bytes(data));
                                ConnectionEntry::Pending(nc)
                            },
                            ConnectionEntry::Active(mut cn) => {
                                cn.channel.send(
                                    ConnectionMessage::Publish(
                                        Topic(clone_bytes(topic)),
                                        clone_bytes(data),
                                    ),
                                );
                                ConnectionEntry::Active(cn)
                            },
                        };
                        proof {
                            if e0.active {
                                assert(e2@ =~= ConnV {
                                    queue: e0.queue.push(MsgV::Publish(topic@, data@)),
                                    ..e0
                                });
                            } else {
                                assert(e2@ =~= ConnV {
                                    buffer: e0.buffer.push((topic@, data@)),
                                    ..e0
                                });
                            }
                        }
                        self.connections.push(e2);
                        proof {
                            lemma_al_remove(cpre, eidx as int);
                            assert(conns_pairs(self.connections@) =~= cpre.remove(
                                eidx as int,
                            ).push((c, e2@)));
                            lemma_al_push(cpre.remove(eidx as int), c, e2@);
                            assert forall|j: int| 0 <= j < cpre.remove(eidx as int).len() implies (
                            #[trigger] cpre.remove(eidx as int)[j]).0 != c by {
                                if j < eidx {
                                    assert(cpre.remove(eidx as int)[j] == cpre[j]);
                                } else {
                                    assert(cpre.remove(eidx as int)[j] == cpre[j + 1]);
                                }
                            }
                            lemma_al_push_unique(cpre.remove(eidx as int), c, e2@);
                            assert(al_map(conns_pairs(self.connections@)) =~= vi.connections.insert(
                                c,
                                e2@,
                            ));
                            assert(self@ =~= spec_deliver(vi, c, topic@, data@).0);
                            lemma_linked_requeue(vi, c, e0.queue.push(MsgV::Publish(topic@, data@)));
                        }
                    } else {
                        let e = self.connections.remove(eidx);
                        let e2 = match e {
                            ConnectionEntry::Pending(mut nc) => {
                                nc.stop(CloseReason::Overloaded);
                                ConnectionEntry::Pending(nc)
                            },
                            ConnectionEntry::Active(mut cn) => {
                                cn.stop(CloseReason::Overloaded);
                                ConnectionEntry::Active(cn)
                            },
                        };
                        let ghost q2 = e0.queue.push(MsgV::StopSock(CloseReason::Overloaded));
                        proof {
                            assert(e2@ =~= ConnV { queue: q2, ..e0 });
                        }
                        self.connections.push(e2);
                        proof {
                            lemma_al_remove(cpre, eidx as int);
                            assert(conns_pairs(self.connections@) =~= cpre.remove(
                                eidx as int,
                            ).push((c, e2@)));
                            lemma_al_push(cpre.remove(eidx as int), c, e2@);
                            assert forall|j: int| 0 <= j < cpre.remove(eidx as int).len() implies (
                            #[trigger] cpre.remove(eidx as int)[j]).0 != c by {
                                if j < eidx {
                                    assert(cpre.remove(eidx as int)[j] == cpre[j]);
                                } else {
                                    assert(cpre.remove(eidx as int)[j] == cpre[j + 1]);
                                }
                            }
                            lemma_al_push_unique(cpre.remove(eidx as int), c, e2@);
                            assert(al_map(conns_pairs(self.connections@)) =~= vi.connections.insert(
                                c,
                                e2@,
                            ));
                            lemma_linked_requeue(vi, c, q2);
                        }
                        let ghost v1 = self@;
                        let ch = self.disconnect(c);
                        match ch {
                            Some(chan) => {
                                let ghost dpre = dropped@;
                                dropped.push((c, chan));
                                proof {
                                    assert(v1.connections[c].queue == q2);
                                    assert(dropped_view(dropped@) =~= dropped_view(dpre).push(
                                        (c, q2),
                                    ));
                                    assert(spec_deliver(vi, c, topic@, data@).1 == Some::<
                                        (Cid, Seq<MsgV>),
                                    >((c, q2)));
                                    assert(dropped_view(dpre).push((c, q2)) + spec_publish_list(
                                        self@,
                                        subs@.skip(i as int + 1),
                                        topic@,
                                        data@,
                                    ).1 =~= dropped_view(dpre) + (seq![(c, q2)]
                                        + spec_publish_list(
                                        self@,
                                        subs@.skip(i as int + 1),
                                        topic@,
                                        data@,
                                    ).1));
                                }
                            },
                            None => {
                                proof {
                                    assert(false);
                                }
                            },
                        }
                    }
                },
            }
            i = i + 1;
        }
        proof {
            assert(subs@.skip(subs@.len() as int) =~= Seq::<Cid>::empty());
            assert(dropped_view(dropped@) + Seq::<(Cid, Seq<MsgV>)>::empty() =~= dropped_view(
                dropped@,
            ));
            assert(spec_publish(v0, topic@, data@) == full) by {
                assert(v0.topics.contains_key(topic@) && v0.topics[topic@] == subs@);
            }
        }
        dropped
    }
}

/// The lattice the pool holds under a namespace, or a fresh empty one.
pub open spec fn lat_at(v: PoolV, ns: Seq<u8>) -> LatV {
    if v.lattices.contains_key(ns) {
        v.lattices[ns]
    } else {
        LatV { values: Map::empty(), subscribers: Seq::empty() }
    }
}

/// Effect of `Attach(ns, c)`: the connection subscribes to the namespace
/// and is immediately sent a snapshot of the namespace's current state.
pub open spec fn spec_attach(v: PoolV, ns: Seq<u8>, c: Cid) -> PoolV {
    if !v.connections.contains_key(c) {
        v
    } else {
        let e = v.connections[c];
        let lat = lat_at(v, ns);
        let subs2 = if lat.subscribers.contains(c) {
            lat.subscribers
        } else {
            lat.subscribers.push(c)
        };
        let e2 = ConnV {
            lattices: e.lattices.insert(ns),
            queue: e.queue.push(MsgV::Lattice(ns, lat.values)),
            ..e
        };
        PoolV {
            connections: v.connections.insert(c, e2),
            lattices: v.lattices.insert(ns, LatV { values: lat.values, subscribers: subs2 }),
            ..v
        }
    }
}

/// Effect of `Detach(ns, c)`: the inverse of `spec_attach`, except that no
/// snapshot is sent and the lattice itself stays (cells never shrink until
/// the namespace is collected).
pub open spec fn spec_detach(v: PoolV, ns: Seq<u8>, c: Cid) -> PoolV {
    if !v.connections.contains_key(c) {
        v
    } else {
        let e = v.connections[c];
        let e2 = ConnV { lattices: e.lattices.remove(ns), ..e };
        let lats2 = if v.lattices.contains_key(ns) {
            v.lattices.insert(
                ns,
                LatV {
                    values: v.lattices[ns].values,
                    subscribers: remove_cid(v.lattices[ns].subscribers, c),
                },
            )
        } else {
            v.lattices
        };
        PoolV { connections: v.connections.insert(c, e2), lattices: lats2, ..v }
    }
}

/// A lattice fan-out frame lands on the queues of the namespace's
/// subscribers.
pub open spec fn fanout_entry(e: ConnV, subs: Seq<Cid>, ns: Seq<u8>, diff: NsMap) -> ConnV {
    if subs.contains(e.cid) {
        ConnV { queue: e.queue.push(MsgV::Lattice(ns, diff)), ..e }
    } else {
        e
    }
}

/// Effect of `Lattice(ns, d)`: the delta is merged into the namespace
/// (creating it if needed), and the changed cells — exactly the diff — are
/// fanned out to the namespace's subscribers.  An empty diff sends nothing.
pub open spec fn spec_lattice(v: PoolV, ns: Seq<u8>, d: NsMap) -> PoolV {
    let lat = lat_at(v, ns);
    let vals2 = crate::lattice::ns_join(lat.values, d);
    let diff = crate::lattice::ns_diff(lat.values, d);
    let conns2 = if diff == Map::<Seq<u8>, crate::lattice::CellMap>::empty() {
        v.connections
    } else {
        Map::new(
            |c: Cid| v.connections.contains_key(c),
            |c: Cid| fanout_entry(v.connections[c], lat.subscribers, ns, diff),
        )
    };
    PoolV {
        connections: conns2,
        lattices: v.lattices.insert(ns, LatV { values: vals2, subscribers: lat.subscribers }),
        ..v
    }
}

/// Attaching keeps the pool linked.
proof fn lemma_attach_linked(v: PoolV, ns: Seq<u8>, c: Cid)
    requires
        pool_linked(v),
    ensures
        pool_linked(spec_attach(v, ns, c)),
{
    if v.connections.contains_key(c) {
        let w = spec_attach(v, ns, c);
        let lat = lat_at(v, ns);
        let subs2 = if lat.subscribers.contains(c) {
            lat.subscribers
        } else {
            lat.subscribers.push(c)
        };
        assert(subs2.no_duplicates()) by {
            if !lat.subscribers.contains(c) {
                assert(forall|i: int|
                    0 <= i < lat.subscribers.len() ==> #[trigger] subs2[i] == lat.subscribers[i]);
                assert(subs2[lat.subscribers.len() as int] == c);
            }
        }
        assert forall|n2: Seq<u8>, c2: Cid|
            w.lattices.contains_key(n2) && #[trigger] w.lattices[n2].subscribers.contains(c2)
            implies w.connections.contains_key(c2) && w.connections[c2].lattices.contains(n2) by {
            if n2 == ns {
                if lat.subscribers.contains(c2) {
                    assert(v.lattices.contains_key(ns) && v.lattices[ns].subscribers.contains(c2));
                } else {
                    let i = choose|i: int| 0 <= i < subs2.len() && subs2[i] == c2;
                    if i < lat.subscribers.len() {
                        assert(lat.subscribers.contains(c2));
                        assert(v.lattices.contains_key(ns) && v.lattices[ns].subscribers.contains(
                            c2,
                        ));
                    } else {
                        assert(c2 == c);
                    }
                }
            }
        }
        assert forall|c2: Cid, n2: Seq<u8>|
            w.connections.contains_key(c2) && #[trigger] w.connections[c2].lattices.contains(n2)
            implies w.lattices.contains_key(n2) && w.lattices[n2].subscribers.contains(c2) by {
            if c2 == c {
                if n2 == ns {
                    if lat.subscribers.contains(c) {
                    } else {
                        assert(subs2[lat.subscribers.len() as int] == c);
                    }
                } else {
                    assert(v.connections[c].lattices.contains(n2));
                    assert(v.lattices[n2].subscribers.contains(c));
                    assert(w.lattices.contains_key(n2) && w.lattices[n2] == v.lattices[n2]);
                }
            } else {
                if n2 == ns {
                    assert(v.lattices.contains_key(n2) ==> v.lattices[n2] == lat);
                    assert(v.lattices[n2].subscribers.contains(c2) ==> subs2.contains(c2)) by {
                        if v.lattices.contains_key(n2) && v.lattices[n2].subscribers.contains(c2)
                            && !lat.subscribers.contains(c) {
                            let i = choose|i: int|
                                0 <= i < lat.subscribers.len() && lat.subscribers[i] == c2;
                            assert(subs2[i] == c2);
                        }
                    }
                }
            }
        }
        assert forall|n2: Seq<u8>| #[trigger] w.lattices.contains_key(n2) implies
            crate::lattice::wf_ns(w.lattices[n2].values) by {
            if n2 == ns && !v.lattices.contains_key(ns) {
                assert(forall|k: Seq<u8>|
                    !(#[trigger] Map::<Seq<u8>, crate::lattice::CellMap>::empty().contains_key(
                        k,
                    )));
            }
        }
    }
}

/// Detaching keeps the pool linked.
proof fn lemma_detach_linked(v: PoolV, ns: Seq<u8>, c: Cid)
    requires
        pool_linked(v),
    ensures
        pool_linked(spec_detach(v, ns, c)),
{
    if v.connections.contains_key(c) {
        let w = spec_detach(v, ns, c);
        if v.lattices.contains_key(ns) {
            lemma_remove_cid(v.lattices[ns].subscribers, c);
        }
        assert forall|n2: Seq<u8>, c2: Cid|
            w.lattices.contains_key(n2) && #[trigger] w.lattices[n2].subscribers.contains(c2)
            implies w.connections.contains_key(c2) && w.connections[c2].lattices.contains(n2) by {
            if n2 == ns && v.lattices.contains_key(ns) {
                assert(remove_cid(v.lattices[ns].subscribers, c).contains(c2));
                assert(c2 != c);
                assert(v.lattices[ns].subscribers.contains(c2));
            } else {
                assert(v.lattices.contains_key(n2) && v.lattices[n2].subscribers.contains(c2));
            }
        }
        assert forall|c2: Cid, n2: Seq<u8>|
            w.connections.contains_key(c2) && #[trigger] w.connections[c2].lattices.contains(n2)
            implies w.lattices.contains_key(n2) && w.lattices[n2].subscribers.contains(c2) by {
            if c2 == c {
                assert(n2 != ns);
                assert(v.connections[c].lattices.contains(n2));
            } else {
                assert(v.connections[c2].lattices.contains(n2));
                if n2 == ns && v.lattices.contains_key(ns) {
                    assert(v.lattices[ns].subscribers.contains(c2));
                    assert(c2 != c);
                }
            }
        }
    }
}

/// Merging a delta keeps the pool linked.
proof fn lemma_lattice_linked(v: PoolV, ns: Seq<u8>, d: NsMap)
    requires
        pool_linked(v),
        crate::lattice::wf_ns(d),
    ensures
        pool_linked(spec_lattice(v, ns, d)),
{
    let w = spec_lattice(v, ns, d);
    let lat = lat_at(v, ns);
    assert(crate::lattice::wf_ns(lat.values)) by {
        if !v.lattices.contains_key(ns) {
            assert(forall|k: Seq<u8>|
                !(#[trigger] Map::<Seq<u8>, crate::lattice::CellMap>::empty().contains_key(k)));
        }
    }
    crate::lattice::lemma_ns_join_wf(lat.values, d);
    assert forall|c2: Cid, t2: Seq<u8>|
        w.connections.contains_key(c2) && #[trigger] w.connections[c2].topics.contains(t2)
        implies w.topics.contains_key(t2) && w.topics[t2].contains(c2) by {
        assert(v.connections[c2].topics.contains(t2));
    }
    assert forall|n2: Seq<u8>, c2: Cid|
        w.lattices.contains_key(n2) && #[trigger] w.lattices[n2].subscribers.contains(c2) implies
        w.connections.contains_key(c2) && w.connections[c2].lattices.contains(n2) by {
        if n2 == ns {
            assert(v.lattices.contains_key(ns) && v.lattices[ns].subscribers.contains(c2));
        } else {
            assert(v.lattices[n2].subscribers.contains(c2));
        }
        assert(v.connections[c2].lattices.contains(n2));
    }
    assert forall|c2: Cid, n2: Seq<u8>|
        w.connections.contains_key(c2) && #[trigger] w.connections[c2].lattices.contains(n2)
        implies w.lattices.contains_key(n2) && w.lattices[n2].subscribers.contains(c2) by {
        assert(v.connections[c2].lattices.contains(n2));
        if n2 == ns {
            assert(v.lattices.contains_key(ns));
            assert(v.lattices[ns].subscribers.contains(c2));
        }
    }
    assert forall|c2: Cid|
        w.connections.contains_key(c2) && (#[trigger] w.connections[c2]).active implies
        w.sessions.contains_key(w.connections[c2].session_id) && w.sessions[w.connections[
    c2].session_id].cids.contains(c2) by {
        assert(v.connections[c2].active && v.connections[c2].session_id == w.connections[
        c2].session_id);
    }
}

/// Attaching with an empty delta delivers exactly a snapshot of the
/// namespace's current state: the merge changes nothing, fans out nothing,
/// and the attach queues one frame carrying the namespace as it stands.
pub proof fn lemma_attach_empty_delta(v: PoolV, ns: Seq<u8>, c: Cid)
    requires
        pool_linked(v),
        v.connections.contains_key(c),
        v.lattices.contains_key(ns),
    ensures
        spec_lattice(v, ns, Map::<Seq<u8>, crate::lattice::CellMap>::empty()) == v,
        spec_attach(v, ns, c).connections[c].queue == v.connections[c].queue.push(
            MsgV::Lattice(ns, lat_at(v, ns).values),
        ),
{
    let lat = lat_at(v, ns);
    crate::lattice::lemma_ns_join_empty(lat.values);
    let w = spec_lattice(v, ns, Map::<Seq<u8>, crate::lattice::CellMap>::empty());
    assert(w.lattices =~= v.lattices) by {
        assert(LatV { values: lat.values, subscribers: lat.subscribers } =~= v.lattices[ns]);
    }
    assert(w =~= v);
}

/// The next lattice fan-out carries only changed cells: what `Lattice(ns,
/// d)` queues for a subscriber is the diff of the merge, never the whole
/// namespace, and nothing at all when the merge changed nothing.
pub proof fn lemma_lattice_fanout_diff(v: PoolV, ns: Seq<u8>, d: NsMap, c: Cid)
    requires
        pool_linked(v),
        v.connections.contains_key(c),
        lat_at(v, ns).subscribers.contains(v.connections[c].cid),
    ensures
        crate::lattice::ns_diff(lat_at(v, ns).values, d) == Map::<
            Seq<u8>,
            crate::lattice::CellMap,
        >::empty() ==> spec_lattice(v, ns, d).connections[c].queue == v.connections[c].queue,
        crate::lattice::ns_diff(lat_at(v, ns).values, d) != Map::<
            Seq<u8>,
            crate::lattice::CellMap,
        >::empty() ==> spec_lattice(v, ns, d).connections[c].queue == v.connections[c].queue.push(
            MsgV::Lattice(ns, crate::lattice::ns_diff(lat_at(v, ns).values, d)),
        ),
{
}

/// Queue a lattice fan-out frame for every subscriber of a namespace.
fn fanout_lattice(
    conns: &mut Vec<ConnectionEntry>,
    subs: &Vec<Cid>,
    ns: &[u8],
    diff: &crate::lattice::Delta,
)
    requires
        al_unique(conns_pairs(old(conns)@)),
        forall|i: int| 0 <= i < old(conns)@.len() ==> (#[trigger] old(conns)@[i]).wf(),
    ensures
        al_unique(conns_pairs(final(conns)@)),
        forall|i: int| 0 <= i < final(conns)@.len() ==> (#[trigger] final(conns)@[i]).wf(),
        al_map(conns_pairs(final(conns)@)) == Map::new(
            |c: Cid| al_map(conns_pairs(old(conns)@)).contains_key(c),
            |c: Cid| fanout_entry(al_map(conns_pairs(old(conns)@))[c], subs@, ns@, diff@),
        ),
{
    let ghost orig = conns_pairs(conns@);
    let ghost f = |e: ConnV| fanout_entry(e, subs@, ns@, diff@);
    let mut kept: Vec<ConnectionEntry> = Vec::new();
    let ghost mut done: int = 0;
    while conns.len() > 0
        invariant
            0 <= done <= orig.len(),
            done + conns@.len() == orig.len(),
            conns_pairs(conns@) =~= orig.skip(done),
            forall|i: int| 0 <= i < conns@.len() ==> (#[trigger] conns@[i]).wf(),
            forall|i: int| 0 <= i < kept@.len() ==> (#[trigger] kept@[i]).wf(),
            f == (|e: ConnV| fanout_entry(e, subs@, ns@, diff@)),
            conns_pairs(kept@) =~= orig.take(done).map_values(|p: (Cid, ConnV)| (p.0, f(p.1))),
        decreases conns@.len(),
    {
        let ghost k = orig[done].0;
        let ghost ev = orig[done].1;
        proof {
            assert(orig.skip(done)[0] == orig[done]);
        }
        let ghost cpre = conns@;
        let e = conns.remove(0);
        proof {
            assert(conns_pairs(conns@) =~= orig.skip(done + 1)) by {
                assert forall|j: int| 0 <= j < conns@.len() implies conns_pairs(conns@)[j]
                    == orig.skip(done + 1)[j] by {
                    assert(conns@[j] == cpre[j + 1]);
                    assert(conns_pairs(conns@)[j] == conns_pairs(cpre)[j + 1]);
                    assert(orig.skip(done + 1)[j] == orig.skip(done)[j + 1]);
                }
            }
            assert(conns_pairs(cpre)[0] == orig.skip(done)[0]);
            assert(e@ == ev && e@.cid == k);
        }
        let listed = cid_list_contains(subs, e.conn_cid());
        let e2 = if listed {
            match e {
                ConnectionEntry::Pending(mut nc) => {
                    nc.channel.send(
                        ConnectionMessage::Lattice(
                            crate::ids::Namespace(clone_bytes(ns)),
                            crate::lattice::clone_delta(diff),
                        ),
                    );
                    ConnectionEntry::Pending(nc)
                },
                ConnectionEntry::Active(mut cn) => {
                    cn.channel.send(
                        ConnectionMessage::Lattice(
                            crate::ids::Namespace(clone_bytes(ns)),
                            crate::lattice::clone_delta(diff),
                        ),
                    );
                    ConnectionEntry::Active(cn)
                },
            }
        } else {
            e
        };
        proof {
            assert(e2@ =~= f(ev));
            assert(e2@.cid == k);
        }
        let ghost kpre = conns_pairs(kept@);
        kept.push(e2);
        proof {
            assert(conns_pairs(kept@) =~= kpre.push((k, f(ev))));
            assert(orig.take(done + 1).map_values(|p: (Cid, ConnV)| (p.0, f(p.1))) =~= orig.take(
                done,
            ).map_values(|p: (Cid, ConnV)| (p.0, f(p.1))).push((k, f(ev)))) by {
                assert(orig.take(done + 1) =~= orig.take(done).push(orig[done]));
            }
            done = done + 1;
        }
    }
    proof {
        assert(orig.take(done) =~= orig) by {
            assert(orig.skip(done).len() == 0);
        }
        crate::alist::lemma_al_transform(orig, f);
        assert(al_unique(conns_pairs(kept@))) by {
            let mapped = orig.map_values(|p: (Cid, ConnV)| (p.0, f(p.1)));
            assert(conns_pairs(kept@) =~= mapped);
            assert forall|i: int, j: int| 0 <= i < j < mapped.len() implies (
            #[trigger] mapped[i]).0 != (#[trigger] mapped[j]).0 by {
                assert(orig[i].0 != orig[j].0);
            }
        }
    }
    *conns = kept;
}

impl Pool {
    /// Handle `Attach(namespace, cid)`: subscribe the connection to the
    /// lattice (creating an empty one if none exists) and deliver a
    /// snapshot of the namespace's current cells to it.
    pub fn attach(&mut self, namespace: &[u8], cid: Cid)
        requires
            old(self).inv(),
        ensures
            final(self).inv(),
            final(self)@ == spec_attach(old(self)@, namespace@, cid),
    {
        let ghost v0 = old(self)@;
        let found = self.find_conn(cid);
        let idx = match found {
            None => {
                proof {
                    assert(self@ =~= spec_attach(v0, namespace@, cid));
                }
                return;
            },
            Some(i) => i,
        };
        let ghost e0 = self.connections@[idx as int]@;
        // Update (or create) the lattice's subscriber list, taking the
        // snapshot of its current cells along the way.
        let lfound = find_bytes(&self.lattices, namespace);
        let snapshot = match lfound {
            Some(li) => {
                let ghost lpre = pairs_view(self.lattices@);
                proof {
                    lemma_al_get(lpre, li as int);
                    lemma_al_remove(lpre, li as int);
                }
                let (lkey, mut state) = self.lattices.remove(li);
                proof {
                    assert(pairs_view(self.lattices@) =~= lpre.remove(li as int));
                }
                let snap = crate::lattice::snapshot_delta(&state.values);
                if !cid_list_contains(&state.subscribers, cid) {
                    state.subscribers.push(cid);
                }
                let ghost l2pre = pairs_view(self.lattices@);
                let ghost lv2 = state@;
                self.lattices.push((lkey, state));
                proof {
                    assert(pairs_view(self.lattices@) =~= l2pre.push((namespace@, lv2)));
                    lemma_al_push(l2pre, namespace@, lv2);
                    assert forall|j: int| 0 <= j < l2pre.len() implies (#[trigger] l2pre[j]).0
                        != namespace@ by {
                        if j < li {
                            assert(l2pre[j] == lpre[j]);
                        } else {
                            assert(l2pre[j] == lpre[j + 1]);
                        }
                    }
                    lemma_al_push_unique(l2pre, namespace@, lv2);
                    assert(al_map(pairs_view(self.lattices@)) =~= v0.lattices.insert(
                        namespace@,
                        lv2,
                    ));
                }
                snap
            },
            None => {
                proof {
                    lemma_al_absent(pairs_view(self.lattices@), namespace@);
                }
                let ghost lpre = pairs_view(self.lattices@);
                let mut subs: Vec<Cid> = Vec::new();
                subs.push(cid);
                let state = LatticeState { values: Vec::new(), subscribers: subs };
                proof {
                    assert(state@ =~= LatV {
                        values: Map::empty(),
                        subscribers: Seq::<Cid>::empty().push(cid),
                    }) by {
                        assert(pairs_view(state.values@) =~= Seq::<
                            (Seq<u8>, crate::lattice::CellMap),
                        >::empty());
                        assert(state.subscribers@ =~= Seq::<Cid>::empty().push(cid));
                    }
                }
                let ghost lv2 = state@;
                self.lattices.push((clone_bytes(namespace), state));
                proof {
                    assert(pairs_view(self.lattices@) =~= lpre.push((namespace@, lv2)));
                    lemma_al_push(lpre, namespace@, lv2);
                    lemma_al_push_unique(lpre, namespace@, lv2);
                    assert(al_map(pairs_view(self.lattices@)) =~= v0.lattices.insert(
                        namespace@,
                        lv2,
                    ));
                }
                crate::lattice::Delta { items: Vec::new() }
            },
        };
        proof {
            if lfound is None {
                assert(snapshot@ =~= lat_at(v0, namespace@).values) by {
                    assert(pairs_view(snapshot.items@) =~= Seq::<
                        (Seq<u8>, crate::lattice::CellMap),
                    >::empty());
                }
            }
            assert(snapshot@ == lat_at(v0, namespace@).values);
        }
        // Update the connection: record the namespace and queue the snapshot.
        let ghost cpre = conns_pairs(self.connections@);
        let e = self.connections.remove(idx);
        let e2 = match e {
            ConnectionEntry::Pending(mut nc) => {
                crate::lattice::add_bytes(&mut nc.lattices, namespace);
                nc.channel.send(
                    ConnectionMessage::Lattice(
                        crate::ids::Namespace(clone_bytes(namespace)),
                        snapshot,
                    ),
                );
                ConnectionEntry::Pending(nc)
            },
            ConnectionEntry::Active(mut cn) => {
                crate::lattice::add_bytes(&mut cn.lattices, namespace);
                cn.channel.send(
                    ConnectionMessage::Lattice(
                        crate::ids::Namespace(clone_bytes(namespace)),
                        snapshot,
                    ),
                );
                ConnectionEntry::Active(cn)
            },
        };
        proof {
            assert(e2@ =~= ConnV {
                lattices: e0.lattices.insert(namespace@),
                queue: e0.queue.push(MsgV::Lattice(namespace@, lat_at(v0, namespace@).values)),
                ..e0
            });
        }
        self.connections.push(e2);
        proof {
            lemma_al_remove(cpre, idx as int);
            assert(conns_pairs(self.connections@) =~= cpre.remove(idx as int).push((cid, e2@)));
            lemma_al_push(cpre.remove(idx as int), cid, e2@);
            assert forall|j: int| 0 <= j < cpre.remove(idx as int).len() implies (
            #[trigger] cpre.remove(idx as int)[j]).0 != cid by {
                if j < idx {
                    assert(cpre.remove(idx as int)[j] == cpre[j]);
                } else {
                    assert(cpre.remove(idx as int)[j] == cpre[j + 1]);
                }
            }
            lemma_al_push_unique(cpre.remove(idx as int), cid, e2@);
            assert(al_map(conns_pairs(self.connections@)) =~= v0.connections.insert(cid, e2@));
            assert(self@ =~= spec_attach(v0, namespace@, cid));
            lemma_attach_linked(v0, namespace@, cid);
        }
    }

    /// Handle `Detach(namespace, cid)`: drop the connection from the
    /// lattice's subscribers.  The lattice and its cells stay.
    pub fn detach(&mut self, namespace: &[u8], cid: Cid)
        requires
            old(self).inv(),
        ensures
            final(self).inv(),
            final(self)@ == spec_detach(old(self)@, namespace@, cid),
    {
        let ghost v0 = old(self)@;
        let found = self.find_conn(cid);
        let idx = match found {
            None => {
                proof {
                    assert(self@ =~= spec_detach(v0, namespace@, cid));
                }
                return;
            },
            Some(i) => i,
        };
        let ghost e0 = self.connections@[idx as int]@;
        let ghost cpre = conns_pairs(self.connections@);
        let e = self.connections.remove(idx);
        let e2 = match e {
            ConnectionEntry::Pending(mut nc) => {
                crate::lattice::remove_bytes(&mut nc.lattices, namespace);
                ConnectionEntry::Pending(nc)
            },
            ConnectionEntry::Active(mut cn) => {
                crate::lattice::remove_bytes(&mut cn.lattices, namespace);
                ConnectionEntry::Active(cn)
            },
        };
        proof {
            assert(e2@ =~= ConnV { lattices: e0.lattices.remove(namespace@), ..e0 });
        }
        self.connections.push(e2);
        proof {
            lemma_al_remove(cpre, idx as int);
            assert(conns_pairs(self.connections@) =~= cpre.remove(idx as int).push((cid, e2@)));
            lemma_al_push(cpre.remove(idx as int), cid, e2@);
            assert forall|j: int| 0 <= j < cpre.remove(idx as int).len() implies (
            #[trigger] cpre.remove(idx as int)[j]).0 != cid by {
                if j < idx {
                    assert(cpre.remove(idx as int)[j] == cpre[j]);
                } else {
                    assert(cpre.remove(idx as int)[j] == cpre[j + 1]);
                }
            }
            lemma_al_push_unique(cpre.remove(idx as int), cid, e2@);
            assert(al_map(conns_pairs(self.connections@)) =~= v0.connections.insert(cid, e2@));
        }
        let lfound = find_bytes(&self.lattices, namespace);
        match lfound {
            Some(li) => {
                let ghost lpre = pairs_view(self.lattices@);
                proof {
                    lemma_al_get(lpre, li as int);
                    lemma_al_remove(lpre, li as int);
                }
                let (lkey, mut state) = self.lattices.remove(li);
                proof {
                    assert(pairs_view(self.lattices@) =~= lpre.remove(li as int));
                }
                cid_list_remove(&mut state.subscribers, cid);
                let ghost l2pre = pairs_view(self.lattices@);
                let ghost lv2 = state@;
                self.lattices.push((lkey, state));
                proof {
                    assert(pairs_view(self.lattices@) =~= l2pre.push((namespace@, lv2)));
                    lemma_al_push(l2pre, namespace@, lv2);
                    assert forall|j: int| 0 <= j < l2pre.len() implies (#[trigger] l2pre[j]).0
                        != namespace@ by {
                        if j < li {
                            assert(l2pre[j] == lpre[j]);
                        } else {
                            assert(l2pre[j] == lpre[j + 1]);
                        }
                    }
                    lemma_al_push_unique(l2pre, namespace@, lv2);
                    assert(al_map(pairs_view(self.lattices@)) =~= v0.lattices.insert(
                        namespace@,
                        lv2,
                    ));
                    assert(self@ =~= spec_detach(v0, namespace@, cid));
                    lemma_detach_linked(v0, namespace@, cid);
                }
            },
            None => {
                proof {
                    lemma_al_absent(pairs_view(self.lattices@), namespace@);
                    assert(self@ =~= spec_detach(v0, namespace@, cid));
                    lemma_detach_linked(v0, namespace@, cid);
                }
            },
        }
    }

    /// Handle `Lattice(namespace, delta)`: merge the delta into the
    /// namespace and fan the changed cells out to its subscribers.
    pub fn lattice(&mut self, namespace: &[u8], delta: &crate::lattice::Delta)
        requires
            old(self).inv(),
            delta.wf(),
        ensures
            final(self).inv(),
            final(self)@ == spec_lattice(old(self)@, namespace@, delta@),
    {
        let ghost v0 = old(self)@;
        proof {
            crate::lattice::lemma_ns_entries_wf(delta.items@);
        }
        let lfound = find_bytes(&self.lattices, namespace);
        let (subs, diff) = match lfound {
            Some(li) => {
                let ghost lpre = pairs_view(self.lattices@);
                proof {
                    lemma_al_get(lpre, li as int);
                    lemma_al_remove(lpre, li as int);
                }
                let (lkey, mut state) = self.lattices.remove(li);
                proof {
                    assert(pairs_view(self.lattices@) =~= lpre.remove(li as int));
                }
                let diff = crate::lattice::merge_delta(&mut state.values, delta);
                let subs = vstd::slice::slice_to_vec(state.subscribers.as_slice());
                let ghost l2pre = pairs_view(self.lattices@);
                let ghost lv2 = state@;
                self.lattices.push((lkey, state));
                proof {
                    assert(pairs_view(self.lattices@) =~= l2pre.push((namespace@, lv2)));
                    lemma_al_push(l2pre, namespace@, lv2);
                    assert forall|j: int| 0 <= j < l2pre.len() implies (#[trigger] l2pre[j]).0
                        != namespace@ by {
                        if j < li {
                            assert(l2pre[j] == lpre[j]);
                        } else {
                            assert(l2pre[j] == lpre[j + 1]);
                        }
                    }
                    lemma_al_push_unique(l2pre, namespace@, lv2);
                    assert(al_map(pairs_view(self.lattices@)) =~= v0.lattices.insert(
                        namespace@,
                        lv2,
                    ));
                }
                (subs, diff)
            },
            None => {
                proof {
                    lemma_al_absent(pairs_view(self.lattices@), namespace@);
                }
                let ghost lpre = pairs_view(self.lattices@);
                let mut values: Vec<(Vec<u8>, crate::lattice::Values)> = Vec::new();
                proof {
                    assert(crate::lattice::ns_entries_wf(values@));
                    assert(crate::lattice::ns_view(values@) =~= Map::<
                        Seq<u8>,
                        crate::lattice::CellMap,
                    >::empty()) by {
                        assert(pairs_view(values@) =~= Seq::<
                            (Seq<u8>, crate::lattice::CellMap),
                        >::empty());
                    }
                }
                let diff = crate::lattice::merge_delta(&mut values, delta);
                let state = LatticeState { values, subscribers: Vec::new() };
                let ghost lv2 = state@;
                proof {
                    assert(lv2.subscribers =~= Seq::<Cid>::empty());
                }
                self.lattices.push((clone_bytes(namespace), state));
                proof {
                    assert(pairs_view(self.lattices@) =~= lpre.push((namespace@, lv2)));
                    lemma_al_push(lpre, namespace@, lv2);
                    lemma_al_push_unique(lpre, namespace@, lv2);
                    assert(al_map(pairs_view(self.lattices@)) =~= v0.lattices.insert(
                        namespace@,
                        lv2,
                    ));
                }
                let subs: Vec<Cid> = Vec::new();
                (subs, diff)
            },
        };
        proof {
            assert(diff@ == crate::lattice::ns_diff(lat_at(v0, namespace@).values, delta@));
            assert(subs@ == lat_at(v0, namespace@).subscribers);
        }
        if diff.items.len() > 0 {
            proof {
                crate::lattice::lemma_delta_nonempty(diff);
            }
            fanout_lattice(&mut self.connections, &subs, namespace, &diff);
            proof {
                assert(self@ =~= spec_lattice(v0, namespace@, delta@));
                lemma_lattice_linked(v0, namespace@, delta@);
            }
        } else {
            proof {
                assert(diff@ =~= Map::<Seq<u8>, crate::lattice::CellMap>::empty()) by {
                    assert(pairs_view(diff.items@) =~= Seq::<
                        (Seq<u8>, crate::lattice::CellMap),
                    >::empty());
                }
                assert(self@ =~= spec_lattice(v0, namespace@, delta@));
                lemma_lattice_linked(v0, namespace@, delta@);
            }
        }
    }
}

/// The frames buffered publishes turn into when they are flushed.
pub open spec fn flush_msgs(b: Seq<(Seq<u8>, Seq<u8>)>) -> Seq<MsgV> {
    b.map_values(|p: (Seq<u8>, Seq<u8>)| MsgV::Publish(p.0, p.1))
}

/// The presence snapshot a connection watching some sessions is sent:
/// the last known presence cell of every watched session the pool knows.
pub open spec fn users_snapshot(presence: Map<Seq<u8>, (u64, bool)>, watches: Set<Seq<u8>>) -> NsMap {
    Map::new(
        |k: Seq<u8>| watches.contains(k) && presence.contains_key(k),
        |k: Seq<u8>| presence_cell(presence[k].0, presence[k].1),
    )
}

/// Effect of `Associate(c, sid, metadata)`: the pending entry becomes
/// active.  `Hello` is queued first, then the buffered publishes in arrival
/// order, then — if session ids were being watched — a presence snapshot.
/// The session index gains the connection; a session coming online bumps
/// the presence clock and notifies its watchers.  An unknown or already
/// active connection id is left untouched.
pub open spec fn spec_associate(v: PoolV, c: Cid, sid: Seq<u8>, metadata: Seq<u8>) -> PoolV {
    if !v.connections.contains_key(c) || v.connections[c].active {
        v
    } else {
        let e = v.connections[c];
        let users = e.watches != Set::<Seq<u8>>::empty();
        let q1 = e.queue.push(MsgV::Hello(sid, metadata)) + flush_msgs(e.buffer);
        let q2 = if users {
            q1.push(MsgV::Lattice(users_ns(), users_snapshot(v.presence, e.watches)))
        } else {
            q1
        };
        let e2 = ConnV {
            active: true,
            session_id: sid,
            users: users,
            buffer: Seq::empty(),
            queue: q2,
            ..e
        };
        let conns1 = v.connections.insert(c, e2);
        if v.sessions.contains_key(sid) {
            PoolV {
                connections: conns1,
                sessions: v.sessions.insert(
                    sid,
                    SessV { cids: v.sessions[sid].cids.push(c), metadata: metadata },
                ),
                ..v
            }
        } else {
            let ver = bump(v.clock);
            PoolV {
                connections: notify_watchers(conns1, sid, ver, true),
                sessions: v.sessions.insert(sid, SessV { cids: seq![c], metadata: metadata }),
                presence: v.presence.insert(sid, (ver, true)),
                clock: ver,
                ..v
            }
        }
    }
}

/// Effect of `AttachUsers(c, watchset)`: the connection's watched-session
/// set is replaced.  An active connection is sent the current presence
/// snapshot of the new set at once; a pending one keeps the set until
/// `Hello` arrives.
pub open spec fn spec_attach_users(v: PoolV, c: Cid, watchset: Set<Seq<u8>>) -> PoolV {
    if !v.connections.contains_key(c) {
        v
    } else {
        let e = v.connections[c];
        let e2 = if e.active {
            ConnV {
                users: true,
                watches: watchset,
                queue: e.queue.push(
                    MsgV::Lattice(users_ns(), users_snapshot(v.presence, watchset)),
                ),
                ..e
            }
        } else {
            ConnV { watches: watchset, ..e }
        };
        PoolV { connections: v.connections.insert(c, e2), ..v }
    }
}

/// Effect of `DetachUsers(c)`: the connection stops watching any session.
pub open spec fn spec_detach_users(v: PoolV, c: Cid) -> PoolV {
    if !v.connections.contains_key(c) {
        v
    } else {
        let e = v.connections[c];
        let e2 = ConnV { users: false, watches: Set::empty(), ..e };
        PoolV { connections: v.connections.insert(c, e2), ..v }
    }
}

/// Effect of `UpdateUsers(sid, watchset)`: every connection of the session
/// gets the new watched set (and, being active, a fresh snapshot), in the
/// session's connection-list order.
pub open spec fn spec_update_users_list(v: PoolV, cids: Seq<Cid>, ws: Set<Seq<u8>>) -> PoolV
    decreases cids.len(),
{
    if cids.len() == 0 {
        v
    } else {
        spec_update_users_list(spec_attach_users(v, cids[0], ws), cids.skip(1), ws)
    }
}

/// Effect of `UpdateUsers(sid, watchset)` on the pool.
pub open spec fn spec_update_users(v: PoolV, sid: Seq<u8>, ws: Set<Seq<u8>>) -> PoolV {
    if v.sessions.contains_key(sid) {
        spec_update_users_list(v, v.sessions[sid].cids, ws)
    } else {
        v
    }
}

/// Effect of the authorization timeout firing for a still-pending
/// connection: it is sent a fatal error and a close order, and removed
/// from the pool.  Active or unknown connections are left untouched.
pub open spec fn spec_auth_timeout(v: PoolV, c: Cid) -> PoolV {
    if v.connections.contains_key(c) && !v.connections[c].active {
        let e = v.connections[c];
        let q2 = e.queue.push(MsgV::FatalError(crate::connection::ErrV::AuthTimeout)).push(
            MsgV::StopSock(CloseReason::AuthTimeout),
        );
        spec_disconnect(
            PoolV { connections: v.connections.insert(c, ConnV { queue: q2, ..e }), ..v },
            c,
        )
    } else {
        v
    }
}

/// Replacing one connection's watch state (and queue) keeps the pool
/// linked: no index clause reads the watched-session set.
proof fn lemma_watch_update_linked(v: PoolV, c: Cid, e2: ConnV)
    requires
        pool_linked(v),
        v.connections.contains_key(c),
        e2.cid == v.connections[c].cid,
        e2.active == v.connections[c].active,
        e2.session_id == v.connections[c].session_id,
        e2.topics == v.connections[c].topics,
        e2.lattices == v.connections[c].lattices,
    ensures
        pool_linked(PoolV { connections: v.connections.insert(c, e2), ..v }),
{
    let w = PoolV { connections: v.connections.insert(c, e2), ..v };
    assert forall|c2: Cid, t: Seq<u8>|
        w.connections.contains_key(c2) && #[trigger] w.connections[c2].topics.contains(t) implies
        w.topics.contains_key(t) && w.topics[t].contains(c2) by {
        assert(v.connections[c2].topics.contains(t));
    }
    assert forall|c2: Cid, n: Seq<u8>|
        w.connections.contains_key(c2) && #[trigger] w.connections[c2].lattices.contains(n)
        implies w.lattices.contains_key(n) && w.lattices[n].subscribers.contains(c2) by {
        assert(v.connections[c2].lattices.contains(n));
    }
    assert forall|c2: Cid|
        w.connections.contains_key(c2) && (#[trigger] w.connections[c2]).active implies
        w.sessions.contains_key(w.connections[c2].session_id) && w.sessions[w.connections[
    c2].session_id].cids.contains(c2) by {
        assert(v.connections[c2].active && v.connections[c2].session_id == w.connections[
        c2].session_id);
    }
}

/// Connection maps that differ only in queues.
pub open spec fn same_but_queues(m1: Map<Cid, ConnV>, m2: Map<Cid, ConnV>) -> bool {
    m2.dom() == m1.dom() && forall|c: Cid|
        m1.contains_key(c) ==> (#[trigger] m2[c]) == ConnV { queue: m2[c].queue, ..m1[c] }
}

/// Changing only queues keeps the pool linked.
proof fn lemma_linked_same_but_queues(v: PoolV, m2: Map<Cid, ConnV>)
    requires
        pool_linked(v),
        same_but_queues(v.connections, m2),
    ensures
        pool_linked(PoolV { connections: m2, ..v }),
{
    let w = PoolV { connections: m2, ..v };
    assert forall|t: Seq<u8>, c2: Cid|
        w.topics.contains_key(t) && #[trigger] w.topics[t].contains(c2) implies
        w.connections.contains_key(c2) && w.connections[c2].topics.contains(t) by {
        assert(v.connections.contains_key(c2) && v.connections[c2].topics.contains(t));
        assert(v.connections.dom().contains(c2));
        assert(m2.dom().contains(c2));
        assert(m2[c2].topics == v.connections[c2].topics);
    }
    assert forall|c2: Cid, t: Seq<u8>|
        w.connections.contains_key(c2) && #[trigger] w.connections[c2].topics.contains(t) implies
        w.topics.contains_key(t) && w.topics[t].contains(c2) by {
        assert(m2.dom().contains(c2));
        assert(v.connections.dom().contains(c2));
        assert(v.connections[c2].topics.contains(t));
    }
    assert forall|n: Seq<u8>, c2: Cid|
        w.lattices.contains_key(n) && #[trigger] w.lattices[n].subscribers.contains(c2) implies
        w.connections.contains_key(c2) && w.connections[c2].lattices.contains(n) by {
        assert(v.connections.contains_key(c2) && v.connections[c2].lattices.contains(n));
        assert(m2.dom().contains(c2));
        assert(m2[c2].lattices == v.connections[c2].lattices);
    }
    assert forall|c2: Cid, n: Seq<u8>|
        w.connections.contains_key(c2) && #[trigger] w.connections[c2].lattices.contains(n)
        implies w.lattices.contains_key(n) && w.lattices[n].subscribers.contains(c2) by {
        assert(m2.dom().contains(c2));
        assert(v.connections.dom().contains(c2));
        assert(v.connections[c2].lattices.contains(n));
    }
    assert forall|s: Seq<u8>, c2: Cid|
        w.sessions.contains_key(s) && #[trigger] w.sessions[s].cids.contains(c2) implies
        w.connections.contains_key(c2) && w.connections[c2].active && w.connections[
    c2].session_id == s by {
        assert(v.connections.contains_key(c2) && v.connections[c2].active && v.connections[
        c2].session_id == s);
        assert(v.connections.dom().contains(c2));
        assert(m2.dom().contains(c2));
    }
    assert forall|c2: Cid|
        w.connections.contains_key(c2) && (#[trigger] w.connections[c2]).active implies
        w.sessions.contains_key(w.connections[c2].session_id) && w.sessions[w.connections[
    c2].session_id].cids.contains(c2) by {
        assert(m2.dom().contains(c2));
        assert(v.connections.dom().contains(c2));
        assert(v.connections[c2].active && v.connections[c2].session_id == w.connections[
        c2].session_id);
    }
}

/// Associating keeps the pool linked.
proof fn lemma_associate_linked(v: PoolV, c: Cid, sid: Seq<u8>, metadata: Seq<u8>)
    requires
        pool_linked(v),
    ensures
        pool_linked(spec_associate(v, c, sid, metadata)),
{
    if v.connections.contains_key(c) && !v.connections[c].active {
        let e = v.connections[c];
        let w = spec_associate(v, c, sid, metadata);
        let users = e.watches != Set::<Seq<u8>>::empty();
        let q1 = e.queue.push(MsgV::Hello(sid, metadata)) + flush_msgs(e.buffer);
        let q2 = if users {
            q1.push(MsgV::Lattice(users_ns(), users_snapshot(v.presence, e.watches)))
        } else {
            q1
        };
        let e2 = ConnV {
            active: true,
            session_id: sid,
            users: users,
            buffer: Seq::empty(),
            queue: q2,
            ..e
        };
        let conns1 = v.connections.insert(c, e2);
        // The session does not yet list this connection: listed ids are
        // active, and this one was pending.
        assert(v.sessions.contains_key(sid) ==> !v.sessions[sid].cids.contains(c));
        let cids2 = if v.sessions.contains_key(sid) {
            v.sessions[sid].cids.push(c)
        } else {
            seq![c]
        };
        let sess2 = v.sessions.insert(sid, SessV { cids: cids2, metadata: metadata });
        let mid = PoolV { connections: conns1, sessions: sess2, ..v };
        assert(pool_linked(mid)) by {
            assert(cids2.no_duplicates() && cids2.len() > 0) by {
                if v.sessions.contains_key(sid) {
                    let base = v.sessions[sid].cids;
                    assert(forall|i: int| 0 <= i < base.len() ==> #[trigger] cids2[i] == base[i]);
                    assert(cids2[base.len() as int] == c);
                    assert forall|i: int, j: int| 0 <= i < j < cids2.len() implies cids2[i]
                        != cids2[j] by {
                        if j == base.len() {
                            if cids2[i] == c {
                                assert(base.contains(c));
                            }
                        }
                    }
                }
            }
            assert forall|c2: Cid, t: Seq<u8>|
                mid.connections.contains_key(c2) && #[trigger] mid.connections[c2].topics.contains(
                    t,
                ) implies mid.topics.contains_key(t) && mid.topics[t].contains(c2) by {
                assert(v.connections[c2].topics.contains(t));
            }
            assert forall|c2: Cid, n: Seq<u8>|
                mid.connections.contains_key(c2)
                    && #[trigger] mid.connections[c2].lattices.contains(n) implies
                mid.lattices.contains_key(n) && mid.lattices[n].subscribers.contains(c2) by {
                assert(v.connections[c2].lattices.contains(n));
            }
            assert forall|s2: Seq<u8>, c2: Cid|
                mid.sessions.contains_key(s2) && #[trigger] mid.sessions[s2].cids.contains(c2)
                implies mid.connections.contains_key(c2) && mid.connections[c2].active
                && mid.connections[c2].session_id == s2 by {
                if s2 == sid {
                    if c2 == c {
                    } else {
                        assert(cids2.contains(c2));
                        assert(v.sessions.contains_key(sid)) by {
                            if !v.sessions.contains_key(sid) {
                                let i = choose|i: int| 0 <= i < cids2.len() && cids2[i] == c2;
                                assert(cids2[i] == c);
                            }
                        }
                        let base = v.sessions[sid].cids;
                        let i = choose|i: int| 0 <= i < cids2.len() && cids2[i] == c2;
                        assert(i < base.len());
                        assert(base[i] == c2);
                        assert(base.contains(c2));
                    }
                } else {
                    assert(v.sessions[s2].cids.contains(c2));
                    assert(c2 != c);
                }
            }
            assert forall|c2: Cid|
                mid.connections.contains_key(c2) && (#[trigger] mid.connections[c2]).active
                implies mid.sessions.contains_key(mid.connections[c2].session_id) && mid.sessions[
            mid.connections[c2].session_id].cids.contains(c2) by {
                if c2 == c {
                    assert(mid.sessions[sid].cids == cids2);
                    if v.sessions.contains_key(sid) {
                        assert(cids2[v.sessions[sid].cids.len() as int] == c);
                    } else {
                        assert(cids2[0] == c);
                    }
                } else {
                    let s2 = v.connections[c2].session_id;
                    assert(v.sessions.contains_key(s2) && v.sessions[s2].cids.contains(c2));
                    if s2 == sid {
                        let base = v.sessions[sid].cids;
                        let i = choose|i: int| 0 <= i < base.len() && base[i] == c2;
                        assert(cids2[i] == c2);
                    }
                }
            }
        }
        if v.sessions.contains_key(sid) {
            assert(w == mid);
        } else {
            let ver = bump(v.clock);
            let mid2 = PoolV {
                sessions: sess2,
                presence: v.presence.insert(sid, (ver, true)),
                clock: ver,
                ..mid
            };
            assert(pool_linked(mid2));
            assert(same_but_queues(mid2.connections, notify_watchers(conns1, sid, ver, true))) by {
                let m2 = notify_watchers(conns1, sid, ver, true);
                assert(m2.dom() =~= conns1.dom());
                assert forall|c2: Cid| conns1.contains_key(c2) implies (#[trigger] m2[c2])
                    == ConnV { queue: m2[c2].queue, ..conns1[c2] } by {
                    assert(m2[c2] == notify_entry(conns1[c2], sid, ver, true));
                    assert(m2[c2] =~= ConnV { queue: m2[c2].queue, ..conns1[c2] });
                }
            }
            lemma_linked_same_but_queues(mid2, notify_watchers(conns1, sid, ver, true));
            assert(w =~= PoolV {
                connections: notify_watchers(conns1, sid, ver, true),
                ..mid2
            });
        }
    }
}

/// Updating the watched sessions keeps the pool linked.
proof fn lemma_attach_users_linked(v: PoolV, c: Cid, ws: Set<Seq<u8>>)
    requires
        pool_linked(v),
    ensures
        pool_linked(spec_attach_users(v, c, ws)),
{
    if v.connections.contains_key(c) {
        let e = v.connections[c];
        let e2 = if e.active {
            ConnV {
                users: true,
                watches: ws,
                queue: e.queue.push(
                    MsgV::Lattice(users_ns(), users_snapshot(v.presence, ws)),
                ),
                ..e
            }
        } else {
            ConnV { watches: ws, ..e }
        };
        lemma_watch_update_linked(v, c, e2);
    }
}

/// Dropping the watched sessions keeps the pool linked.
proof fn lemma_detach_users_linked(v: PoolV, c: Cid)
    requires
        pool_linked(v),
    ensures
        pool_linked(spec_detach_users(v, c)),
{
    if v.connections.contains_key(c) {
        let e = v.connections[c];
        lemma_watch_update_linked(v, c, ConnV { users: false, watches: Set::empty(), ..e });
    }
}

/// Build the presence snapshot for a set of watched sessions.
fn users_snapshot_exec(presence: &Vec<(Vec<u8>, (u64, bool))>, watches: &Vec<Vec<u8>>) -> (d:
    crate::lattice::Delta)
    requires
        al_unique(pairs_view(presence@)),
        crate::lattice::bset_unique(watches@),
    ensures
        d@ == users_snapshot(al_map(pairs_view(presence@)), crate::lattice::set_view(watches@)),
        d.wf(),
{
    let ghost pmap = al_map(pairs_view(presence@));
    let mut items: Vec<(Vec<u8>, crate::lattice::Values)> = Vec::new();
    let mut i: usize = 0;
    proof {
        assert(pairs_view(items@) =~= Seq::<(Seq<u8>, crate::lattice::CellMap)>::empty());
        assert(al_map(pairs_view(items@)) =~= users_snapshot(
            pmap,
            crate::lattice::set_view(watches@.take(0)),
        )) by {
            assert forall|y: Seq<u8>|
                !(#[trigger] crate::lattice::set_view(watches@.take(0)).contains(y)) by {
                crate::lattice::lemma_set_view_contains(watches@.take(0), y);
            }
        }
    }
    while i < watches.len()
        invariant
            i <= watches@.len(),
            al_unique(pairs_view(presence@)),
            crate::lattice::bset_unique(watches@),
            pmap == al_map(pairs_view(presence@)),
            al_unique(pairs_view(items@)),
            forall|j: int|
                0 <= j < items@.len() ==> crate::lattice::set_view(
                    watches@.take(i as int),
                ).contains((#[trigger] pairs_view(items@)[j]).0),
            forall|j: int| 0 <= j < items@.len() ==> (#[trigger] items@[j]).1.wf(),
            al_map(pairs_view(items@)) == users_snapshot(
                pmap,
                crate::lattice::set_view(watches@.take(i as int)),
            ),
        decreases watches@.len() - i,
    {
        let ghost wk = watches@[i as int]@;
        proof {
            assert(watches@.take(i as int + 1) =~= watches@.take(i as int).push(
                watches@[i as int],
            ));
            crate::lattice::lemma_set_view_push(watches@.take(i as int), watches@[i as int]);
            assert(!crate::lattice::set_view(watches@.take(i as int)).contains(wk)) by {
                crate::lattice::lemma_set_view_contains(watches@.take(i as int), wk);
            }
        }
        let pfound = find_bytes(presence, watches[i].as_slice());
        match pfound {
            Some(pi) => {
                proof {
                    lemma_al_get(pairs_view(presence@), pi as int);
                }
                let (ver, onl) = presence[pi].1;
                let cell = presence_cell_exec(ver, onl);
                let ghost ipre = pairs_view(items@);
                items.push((clone_bytes(watches[i].as_slice()), cell));
                proof {
                    assert(pairs_view(items@) =~= ipre.push((wk, presence_cell(ver, onl))));
                    lemma_al_push(ipre, wk, presence_cell(ver, onl));
                    assert forall|j: int| 0 <= j < ipre.len() implies (#[trigger] ipre[j]).0
                        != wk by {
                        assert(crate::lattice::set_view(watches@.take(i as int)).contains(
                            ipre[j].0,
                        ));
                    }
                    lemma_al_push_unique(ipre, wk, presence_cell(ver, onl));
                    assert(al_map(pairs_view(items@)) =~= users_snapshot(
                        pmap,
                        crate::lattice::set_view(watches@.take(i as int + 1)),
                    ));
                }
            },
            None => {
                proof {
                    lemma_al_absent(pairs_view(presence@), wk);
                    assert(al_map(pairs_view(items@)) =~= users_snapshot(
                        pmap,
                        crate::lattice::set_view(watches@.take(i as int + 1)),
                    ));
                }
            },
        }
        i = i + 1;
    }
    proof {
        assert(watches@.take(watches@.len() as int) =~= watches@);
    }
    crate::lattice::Delta { items }
}

impl Pool {
    /// Handle `Associate(cid, session_id, metadata)`: promote a pending
    /// connection after the authorizer answered.  `Hello` is queued first,
    /// then the publishes buffered while pending, then — if the connection
    /// was already watching sessions — a presence snapshot.  The session
    /// gains the connection; a session coming online is announced to its
    /// watchers.
    pub fn associate(&mut self, cid: Cid, session_id: &[u8], metadata: &[u8])
        requires
            old(self).inv(),
        ensures
            final(self).inv(),
            final(self)@ == spec_associate(old(self)@, cid, session_id@, metadata@),
    {
        let ghost v0 = old(self)@;
        let found = self.find_conn(cid);
        let idx = match found {
            None => {
                proof {
                    assert(self@ =~= spec_associate(v0, cid, session_id@, metadata@));
                }
                return;
            },
            Some(i) => i,
        };
        let ghost e0 = self.connections@[idx as int]@;
        let ghost cpre = conns_pairs(self.connections@);
        let e = self.connections.remove(idx);
        let nc = match e {
            ConnectionEntry::Active(cn) => {
                self.connections.push(ConnectionEntry::Active(cn));
                proof {
                    lemma_al_remove(cpre, idx as int);
                    assert(conns_pairs(self.connections@) =~= cpre.remove(idx as int).push(
                        (cid, e0),
                    ));
                    lemma_al_push(cpre.remove(idx as int), cid, e0);
                    assert forall|j: int| 0 <= j < cpre.remove(idx as int).len() implies (
                    #[trigger] cpre.remove(idx as int)[j]).0 != cid by {
                        if j < idx {
                            assert(cpre.remove(idx as int)[j] == cpre[j]);
                        } else {
                            assert(cpre.remove(idx as int)[j] == cpre[j + 1]);
                        }
                    }
                    lemma_al_push_unique(cpre.remove(idx as int), cid, e0);
                    assert(al_map(conns_pairs(self.connections@)) =~= v0.connections.insert(
                        cid,
                        e0,
                    ));
                    assert(v0.connections.insert(cid, e0) =~= v0.connections);
                    assert(self@ =~= spec_associate(v0, cid, session_id@, metadata@));
                }
                return;
            },
            ConnectionEntry::Pending(mut nc) => {
                nc.channel.send(
                    ConnectionMessage::Hello(
                        crate::ids::SessionId(clone_bytes(session_id)),
                        clone_bytes(metadata),
                    ),
                );
                nc
            },
        };
        let (mut conn, _watched) = nc.associate(clone_bytes(session_id));
        proof {
            assert(crate::lattice::set_view(conn.watches@) == e0.watches);
            assert(flush_msgs(e0.buffer) =~= crate::connection::flush_view(
                nc.message_buffer@,
            ));
        }
        let users = conn.users_lattice;
        if users {
            proof {
                assert(conn.watches@.len() > 0);
                assert(e0.watches.contains(conn.watches@[0]@)) by {
                    crate::lattice::lemma_set_view_contains(conn.watches@, conn.watches@[0]@);
                }
                assert(e0.watches != Set::<Seq<u8>>::empty());
            }
            let snap = users_snapshot_exec(&self.presence, &conn.watches);
            conn.channel.send(
                ConnectionMessage::Lattice(crate::ids::Namespace(users_ns_vec()), snap),
            );
        } else {
            proof {
                assert(conn.watches@.len() == 0);
                assert(e0.watches =~= Set::<Seq<u8>>::empty()) by {
                    assert forall|y: Seq<u8>| !(#[trigger] e0.watches.contains(y)) by {
                        crate::lattice::lemma_set_view_contains(conn.watches@, y);
                    }
                }
            }
        }
        let ghost e2 = ConnectionEntry::Active(conn)@;
        let c2pre: Ghost<Seq<(Cid, ConnV)>> = Ghost(conns_pairs(self.connections@));
        self.connections.push(ConnectionEntry::Active(conn));
        proof {
            lemma_al_remove(cpre, idx as int);
            assert(conns_pairs(self.connections@) =~= cpre.remove(idx as int).push((cid, e2)));
            lemma_al_push(cpre.remove(idx as int), cid, e2);
            assert forall|j: int| 0 <= j < cpre.remove(idx as int).len() implies (
            #[trigger] cpre.remove(idx as int)[j]).0 != cid by {
                if j < idx {
                    assert(cpre.remove(idx as int)[j] == cpre[j]);
                } else {
                    assert(cpre.remove(idx as int)[j] == cpre[j + 1]);
                }
            }
            lemma_al_push_unique(cpre.remove(idx as int), cid, e2);
            assert(al_map(conns_pairs(self.connections@)) =~= v0.connections.insert(cid, e2));
        }
        // Record the connection under its session.
        let sfound = find_bytes(&self.sessions, session_id);
        match sfound {
            Some(si) => {
                let ghost spre = pairs_view(self.sessions@);
                proof {
                    lemma_al_get(spre, si as int);
                    lemma_al_remove(spre, si as int);
                }
                let (skey, mut sess) = self.sessions.remove(si);
                proof {
                    assert(pairs_view(self.sessions@) =~= spre.remove(si as int));
                }
                sess.cids.push(cid);
                sess.metadata = clone_bytes(metadata);
                let ghost s2pre = pairs_view(self.sessions@);
                let ghost sv2 = sess@;
                proof {
                    assert(sv2 == SessV {
                        cids: v0.sessions[session_id@].cids.push(cid),
                        metadata: metadata@,
                    });
                }
                self.sessions.push((skey, sess));
                proof {
                    assert(pairs_view(self.sessions@) =~= s2pre.push((session_id@, sv2)));
                    lemma_al_push(s2pre, session_id@, sv2);
                    assert forall|j: int| 0 <= j < s2pre.len() implies (#[trigger] s2pre[j]).0
                        != session_id@ by {
                        if j < si {
                            assert(s2pre[j] == spre[j]);
                        } else {
                            assert(s2pre[j] == spre[j + 1]);
                        }
                    }
                    lemma_al_push_unique(s2pre, session_id@, sv2);
                    assert(al_map(pairs_view(self.sessions@)) =~= v0.sessions.insert(
                        session_id@,
                        sv2,
                    ));
                    assert(self@ =~= spec_associate(v0, cid, session_id@, metadata@));
                    lemma_associate_linked(v0, cid, session_id@, metadata@);
                }
            },
            None => {
                proof {
                    lemma_al_absent(pairs_view(self.sessions@), session_id@);
                }
                // The session comes online: record it, bump the clock, and
                // announce it to its watchers.
                let ghost spre = pairs_view(self.sessions@);
                let mut cids: Vec<Cid> = Vec::new();
                cids.push(cid);
                let sess = SessionEntry { cids, metadata: clone_bytes(metadata) };
                let ghost sv2 = sess@;
                proof {
                    assert(sv2.cids =~= seq![cid]);
                }
                self.sessions.push((clone_bytes(session_id), sess));
                proof {
                    assert(pairs_view(self.sessions@) =~= spre.push((session_id@, sv2)));
                    lemma_al_push(spre, session_id@, sv2);
                    lemma_al_push_unique(spre, session_id@, sv2);
                    assert(al_map(pairs_view(self.sessions@)) =~= v0.sessions.insert(
                        session_id@,
                        sv2,
                    ));
                }
                let ver = if self.clock < u64::MAX {
                    self.clock + 1
                } else {
                    self.clock
                };
                self.clock = ver;
                proof {
                    assert(ver == bump(v0.clock));
                }
                let pfound = find_bytes(&self.presence, session_id);
                let ghost ppre = pairs_view(self.presence@);
                match pfound {
                    Some(pi) => {
                        proof {
                            lemma_al_remove(ppre, pi as int);
                        }
                        self.presence.remove(pi);
                        proof {
                            assert(pairs_view(self.presence@) =~= ppre.remove(pi as int));
                        }
                    },
                    None => {},
                }
                let ghost p2pre = pairs_view(self.presence@);
                proof {
                    assert forall|j: int| 0 <= j < p2pre.len() implies (#[trigger] p2pre[j]).0
                        != session_id@ by {
                        if pfound is Some {
                            let pi = pfound->0;
                            if j < pi {
                                assert(p2pre[j] == ppre[j]);
                            } else {
                                assert(p2pre[j] == ppre[j + 1]);
                            }
                        }
                    }
                }
                self.presence.push((clone_bytes(session_id), (ver, true)));
                proof {
                    assert(pairs_view(self.presence@) =~= p2pre.push((session_id@, (ver, true))));
                    lemma_al_push(p2pre, session_id@, (ver, true));
                    lemma_al_push_unique(p2pre, session_id@, (ver, true));
                    assert(al_map(pairs_view(self.presence@)) =~= v0.presence.insert(
                        session_id@,
                        (ver, true),
                    ));
                }
                notify_watchers_exec(&mut self.connections, session_id, ver, true);
                proof {
                    assert(self@ =~= spec_associate(v0, cid, session_id@, metadata@));
                    lemma_associate_linked(v0, cid, session_id@, metadata@);
                }
            },
        }
    }

    /// Handle `AttachUsers(cid, list)`: replace the connection's watched
    /// sessions; an active connection is sent the presence snapshot of the
    /// new set at once.
    pub fn attach_users(&mut self, cid: Cid, list: &Vec<Vec<u8>>)
        requires
            old(self).inv(),
        ensures
            final(self).inv(),
            final(self)@ == spec_attach_users(old(self)@, cid, crate::lattice::set_view(list@)),
    {
        let ghost v0 = old(self)@;
        let ghost ws = crate::lattice::set_view(list@);
        let found = self.find_conn(cid);
        let idx = match found {
            None => {
                proof {
                    assert(self@ =~= spec_attach_users(v0, cid, ws));
                }
                return;
            },
            Some(i) => i,
        };
        let ghost e0 = self.connections@[idx as int]@;
        let ghost cpre = conns_pairs(self.connections@);
        let e = self.connections.remove(idx);
        let e2 = match e {
            ConnectionEntry::Pending(mut nc) => {
                nc.users_lattice = crate::lattice::dedup_bytes(list);
                ConnectionEntry::Pending(nc)
            },
            ConnectionEntry::Active(mut cn) => {
                cn.watches = crate::lattice::dedup_bytes(list);
                cn.users_lattice = true;
                let snap = users_snapshot_exec(&self.presence, &cn.watches);
                cn.channel.send(
                    ConnectionMessage::Lattice(crate::ids::Namespace(users_ns_vec()), snap),
                );
                ConnectionEntry::Active(cn)
            },
        };
        proof {
            if e0.active {
                assert(e2@ =~= ConnV {
                    users: true,
                    watches: ws,
                    queue: e0.queue.push(
                        MsgV::Lattice(users_ns(), users_snapshot(v0.presence, ws)),
                    ),
                    ..e0
                });
            } else {
                assert(e2@ =~= ConnV { watches: ws, ..e0 });
            }
        }
        self.connections.push(e2);
        proof {
            lemma_al_remove(cpre, idx as int);
            assert(conns_pairs(self.connections@) =~= cpre.remove(idx as int).push((cid, e2@)));
            lemma_al_push(cpre.remove(idx as int), cid, e2@);
            assert forall|j: int| 0 <= j < cpre.remove(idx as int).len() implies (
            #[trigger] cpre.remove(idx as int)[j]).0 != cid by {
                if j < idx {
                    assert(cpre.remove(idx as int)[j] == cpre[j]);
                } else {
                    assert(cpre.remove(idx as int)[j] == cpre[j + 1]);
                }
            }
            lemma_al_push_unique(cpre.remove(idx as int), cid, e2@);
            assert(al_map(conns_pairs(self.connections@)) =~= v0.connections.insert(cid, e2@));
            assert(self@ =~= spec_attach_users(v0, cid, ws));
            lemma_attach_users_linked(v0, cid, ws);
        }
    }

    /// Handle `DetachUsers(cid)`: the connection stops watching sessions.
    pub fn detach_users(&mut self, cid: Cid)
        requires
            old(self).inv(),
        ensures
            final(self).inv(),
            final(self)@ == spec_detach_users(old(self)@, cid),
    {
        let ghost v0 = old(self)@;
        let found = self.find_conn(cid);
        let idx = match found {
            None => {
                proof {
                    assert(self@ =~= spec_detach_users(v0, cid));
                }
                return;
            },
            Some(i) => i,
        };
        let ghost e0 = self.connections@[idx as int]@;
        let ghost cpre = conns_pairs(self.connections@);
        let e = self.connections.remove(idx);
        let e2 = match e {
            ConnectionEntry::Pending(mut nc) => {
                nc.users_lattice = Vec::new();
                ConnectionEntry::Pending(nc)
            },
            ConnectionEntry::Active(mut cn) => {
                cn.watches = Vec::new();
                cn.users_lattice = false;
                ConnectionEntry::Active(cn)
            },
        };
        proof {
            assert(e2@ =~= ConnV { users: false, watches: Set::empty(), ..e0 }) by {
                assert forall|y: Seq<u8>| !(#[trigger] e2@.watches.contains(y)) by {
                    crate::lattice::lemma_set_view_contains(Seq::<Vec<u8>>::empty(), y);
                    assert(e2@.watches =~= crate::lattice::set_view(Seq::<Vec<u8>>::empty()));
                }
                assert(e2@.watches =~= Set::<Seq<u8>>::empty());
            }
        }
        self.connections.push(e2);
        proof {
            lemma_al_remove(cpre, idx as int);
            assert(conns_pairs(self.connections@) =~= cpre.remove(idx as int).push((cid, e2@)));
            lemma_al_push(cpre.remove(idx as int), cid, e2@);
            assert forall|j: int| 0 <= j < cpre.remove(idx as int).len() implies (
            #[trigger] cpre.remove(idx as int)[j]).0 != cid by {
                if j < idx {
                    assert(cpre.remove(idx as int)[j] == cpre[j]);
                } else {
                    assert(cpre.remove(idx as int)[j] == cpre[j + 1]);
                }
            }
            lemma_al_push_unique(cpre.remove(idx as int), cid, e2@);
            assert(al_map(conns_pairs(self.connections@)) =~= v0.connections.insert(cid, e2@));
            assert(self@ =~= spec_detach_users(v0, cid));
            lemma_detach_users_linked(v0, cid);
        }
    }

    /// Handle `UpdateUsers(session_id, list)`: every connection of the
    /// session now watches the given sessions and receives a fresh presence
    /// snapshot.
    pub fn update_users(&mut self, session_id: &[u8], list: &Vec<Vec<u8>>)
        requires
            old(self).inv(),
        ensures
            final(self).inv(),
            final(self)@ == spec_update_users(old(self)@, session_id@, crate::lattice::set_view(list@)),
    {
        let ghost v0 = old(self)@;
        let ghost ws = crate::lattice::set_view(list@);
        let sfound = find_bytes(&self.sessions, session_id);
        let si = match sfound {
            None => {
                proof {
                    lemma_al_absent(pairs_view(self.sessions@), session_id@);
                    assert(self@ =~= spec_update_users(v0, session_id@, ws));
                }
                return;
            },
            Some(i) => i,
        };
        proof {
            lemma_al_get(pairs_view(self.sessions@), si as int);
        }
        let cids = vstd::slice::slice_to_vec(self.sessions[si].1.cids.as_slice());
        proof {
            assert(cids@ == v0.sessions[session_id@].cids);
            assert(cids@.skip(0) =~= cids@);
        }
        let ghost full = spec_update_users_list(v0, cids@, ws);
        let mut i: usize = 0;
        while i < cids.len()
            invariant
                i <= cids@.len(),
                self.inv(),
                ws == crate::lattice::set_view(list@),
                full == spec_update_users_list(v0, cids@, ws),
                spec_update_users_list(self@, cids@.skip(i as int), ws) == full,
            decreases cids@.len() - i,
        {
            let ghost rem = cids@.skip(i as int);
            proof {
                assert(rem[0] == cids@[i as int]);
                assert(rem.skip(1) =~= cids@.skip(i as int + 1));
            }
            self.attach_users(cids[i], list);
            i = i + 1;
        }
        proof {
            assert(cids@.skip(cids@.len() as int) =~= Seq::<Cid>::empty());
        }
    }

    /// The authorization timeout fired for a connection: if it is still
    /// pending, send it a fatal error and a close order and remove it.
    /// Returns the dropped connection's queue, if one was dropped.
    pub fn auth_timeout(&mut self, cid: Cid) -> (r: Option<Channel>)
        requires
            old(self).inv(),
        ensures
            final(self).inv(),
            final(self)@ == spec_auth_timeout(old(self)@, cid),
    {
        let ghost v0 = old(self)@;
        let found = self.find_conn(cid);
        let idx = match found {
            None => {
                proof {
                    assert(self@ =~= spec_auth_timeout(v0, cid));
                }
                return None;
            },
            Some(i) => i,
        };
        let ghost e0 = self.connections@[idx as int]@;
        let ghost cpre = conns_pairs(self.connections@);
        let e = self.connections.remove(idx);
        let e2 = match e {
            ConnectionEntry::Active(cn) => {
                self.connections.push(ConnectionEntry::Active(cn));
                proof {
                    lemma_al_remove(cpre, idx as int);
                    assert(conns_pairs(self.connections@) =~= cpre.remove(idx as int).push(
                        (cid, e0),
                    ));
                    lemma_al_push(cpre.remove(idx as int), cid, e0);
                    assert forall|j: int| 0 <= j < cpre.remove(idx as int).len() implies (
                    #[trigger] cpre.remove(idx as int)[j]).0 != cid by {
                        if j < idx {
                            assert(cpre.remove(idx as int)[j] == cpre[j]);
                        } else {
                            assert(cpre.remove(idx as int)[j] == cpre[j + 1]);
                        }
                    }
                    lemma_al_push_unique(cpre.remove(idx as int), cid, e0);
                    assert(al_map(conns_pairs(self.connections@)) =~= v0.connections.insert(
                        cid,
                        e0,
                    ));
                    assert(v0.connections.insert(cid, e0) =~= v0.connections);
                    assert(self@ =~= spec_auth_timeout(v0, cid));
                }
                return None;
            },
            ConnectionEntry::Pending(mut nc) => {
                nc.channel.send(
                    ConnectionMessage::FatalError(crate::connection::MessageError::AuthTimeout),
                );
                nc.stop(CloseReason::AuthTimeout);
                ConnectionEntry::Pending(nc)
            },
        };
        let ghost q2 = e0.queue.push(MsgV::FatalError(crate::connection::ErrV::AuthTimeout)).push(
            MsgV::StopSock(CloseReason::AuthTimeout),
        );
        proof {
            assert(e2@ =~= ConnV { queue: q2, ..e0 });
        }
        self.connections.push(e2);
        proof {
            lemma_al_remove(cpre, idx as int);
            assert(conns_pairs(self.connections@) =~= cpre.remove(idx as int).push((cid, e2@)));
            lemma_al_push(cpre.remove(idx as int), cid, e2@);
            assert forall|j: int| 0 <= j < cpre.remove(idx as int).len() implies (
            #[trigger] cpre.remove(idx as int)[j]).0 != cid by {
                if j < idx {
                    assert(cpre.remove(idx as int)[j] == cpre[j]);
                } else {
                    assert(cpre.remove(idx as int)[j] == cpre[j + 1]);
                }
            }
            lemma_al_push_unique(cpre.remove(idx as int), cid, e2@);
            assert(al_map(conns_pairs(self.connections@)) =~= v0.connections.insert(cid, e2@));
            lemma_linked_requeue(v0, cid, q2);
        }
        let r = self.disconnect(cid);
        proof {
            assert(self@ =~= spec_auth_timeout(v0, cid));
        }
        r
    }
}

/// One input of the processor: everything that can change pool state.
#[derive(Debug, PartialEq, Eq)]
pub enum Action {
    /// A connection was accepted; it is pending until authorized.
    NewConnection { conn_id: Cid },
    /// The authorizer answered: promote the connection.
    Associate { conn_id: Cid, session_id: SessionId, metadata: crate::ids::Payload },
    /// The connection's socket closed or failed.
    Disconnect { conn_id: Cid },
    /// Subscribe the connection to a topic.
    Subscribe { conn_id: Cid, topic: Topic },
    /// Undo a subscription.
    Unsubscribe { conn_id: Cid, topic: Topic },
    /// Deliver a message to every subscriber of the topic.
    Publish { topic: Topic, data: crate::ids::Payload },
    /// Subscribe the connection to a lattice and send it a snapshot.
    Attach { namespace: crate::ids::Namespace, conn_id: Cid },
    /// Undo a lattice subscription.
    Detach { namespace: crate::ids::Namespace, conn_id: Cid },
    /// Merge a delta into a lattice and fan out the changed cells.
    Lattice { namespace: crate::ids::Namespace, delta: crate::lattice::Delta },
    /// Replace the sessions the connection watches.
    AttachUsers { conn_id: Cid, list: Vec<Vec<u8>> },
    /// Replace the watched sessions of every connection of a session.
    UpdateUsers { session_id: SessionId, list: Vec<Vec<u8>> },
    /// The connection stops watching sessions.
    DetachUsers { conn_id: Cid },
}

/// Mathematical value of one action.
pub enum ActionV {
    NewConnection { conn_id: Cid },
    Associate { conn_id: Cid, session_id: Seq<u8>, metadata: Seq<u8> },
    Disconnect { conn_id: Cid },
    Subscribe { conn_id: Cid, topic: Seq<u8> },
    Unsubscribe { conn_id: Cid, topic: Seq<u8> },
    Publish { topic: Seq<u8>, data: Seq<u8> },
    Attach { namespace: Seq<u8>, conn_id: Cid },
    Detach { namespace: Seq<u8>, conn_id: Cid },
    Lattice { namespace: Seq<u8>, delta: NsMap },
    AttachUsers { conn_id: Cid, watches: Set<Seq<u8>> },
    UpdateUsers { session_id: Seq<u8>, watches: Set<Seq<u8>> },
    DetachUsers { conn_id: Cid },
}

impl View for Action {
    type V = ActionV;

    open spec fn view(&self) -> ActionV {
        match self {
            Action::NewConnection { conn_id } => ActionV::NewConnection { conn_id: *conn_id },
            Action::Associate { conn_id, session_id, metadata } => ActionV::Associate {
                conn_id: *conn_id,
                session_id: session_id@,
                metadata: metadata@,
            },
            Action::Disconnect { conn_id } => ActionV::Disconnect { conn_id: *conn_id },
            Action::Subscribe { conn_id, topic } => ActionV::Subscribe {
                conn_id: *conn_id,
                topic: topic@,
            },
            Action::Unsubscribe { conn_id, topic } => ActionV::Unsubscribe {
                conn_id: *conn_id,
                topic: topic@,
            },
            Action::Publish { topic, data } => ActionV::Publish { topic: topic@, data: data@ },
            Action::Attach { namespace, conn_id } => ActionV::Attach {
                namespace: namespace@,
                conn_id: *conn_id,
            },
            Action::Detach { namespace, conn_id } => ActionV::Detach {
                namespace: namespace@,
                conn_id: *conn_id,
            },
            Action::Lattice { namespace, delta } => ActionV::Lattice {
                namespace: namespace@,
                delta: delta@,
            },
            Action::AttachUsers { conn_id, list } => ActionV::AttachUsers {
                conn_id: *conn_id,
                watches: crate::lattice::set_view(list@),
            },
            Action::UpdateUsers { session_id, list } => ActionV::UpdateUsers {
                session_id: session_id@,
                watches: crate::lattice::set_view(list@),
            },
            Action::DetachUsers { conn_id } => ActionV::DetachUsers { conn_id: *conn_id },
        }
    }
}

impl Action {
    /// Deltas carried by an action are well-formed.
    pub open spec fn wf(&self) -> bool {
        match self {
            Action::Lattice { delta, .. } => delta.wf(),
            _ => true,
        }
    }
}

/// Effect of one action on the pool.
pub open spec fn spec_apply(v: PoolV, a: ActionV) -> PoolV {
    match a {
        ActionV::NewConnection { conn_id } => spec_new_connection(v, conn_id),
        ActionV::Associate { conn_id, session_id, metadata } => spec_associate(
            v,
            conn_id,
            session_id,
            metadata,
        ),
        ActionV::Disconnect { conn_id } => spec_disconnect(v, conn_id),
        ActionV::Subscribe { conn_id, topic } => spec_subscribe(v, conn_id, topic),
        ActionV::Unsubscribe { conn_id, topic } => spec_unsubscribe(v, conn_id, topic),
        ActionV::Publish { topic, data } => spec_publish(v, topic, data).0,
        ActionV::Attach { namespace, conn_id } => spec_attach(v, namespace, conn_id),
        ActionV::Detach { namespace, conn_id } => spec_detach(v, namespace, conn_id),
        ActionV::Lattice { namespace, delta } => spec_lattice(v, namespace, delta),
        ActionV::AttachUsers { conn_id, watches } => spec_attach_users(v, conn_id, watches),
        ActionV::UpdateUsers { session_id, watches } => spec_update_users(
            v,
            session_id,
            watches,
        ),
        ActionV::DetachUsers { conn_id } => spec_detach_users(v, conn_id),
    }
}

/// The connections an action drops as overloaded, with their queues.
pub open spec fn spec_apply_dropped(v: PoolV, a: ActionV) -> Seq<(Cid, Seq<MsgV>)> {
    match a {
        ActionV::Publish { topic, data } => spec_publish(v, topic, data).1,
        _ => Seq::empty(),
    }
}

impl Pool {
    /// Apply one action to the pool.
    ///
    /// Returns the queues of any connections dropped as overloaded.
    pub fn apply(&mut self, action: Action) -> (dropped: Vec<(Cid, Channel)>)
        requires
            old(self).inv(),
            action.wf(),
        ensures
            final(self).inv(),
            final(self)@ == spec_apply(old(self)@, action@),
            dropped_view(dropped@) == spec_apply_dropped(old(self)@, action@),
    {
        match action {
            Action::NewConnection { conn_id } => {
                self.new_connection(conn_id);
                Vec::new()
            },
            Action::Associate { conn_id, session_id, metadata } => {
                self.associate(conn_id, session_id.0.as_slice(), metadata.as_slice());
                Vec::new()
            },
            Action::Disconnect { conn_id } => {
                let _ = self.disconnect(conn_id);
                Vec::new()
            },
            Action::Subscribe { conn_id, topic } => {
                self.subscribe(conn_id, topic.0.as_slice());
                Vec::new()
            },
            Action::Unsubscribe { conn_id, topic } => {
                self.unsubscribe(conn_id, topic.0.as_slice());
                Vec::new()
            },
            Action::Publish { topic, data } => self.publish(topic.0.as_slice(), data.as_slice()),
            Action::Attach { namespace, conn_id } => {
                self.attach(namespace.0.as_slice(), conn_id);
                Vec::new()
            },
            Action::Detach { namespace, conn_id } => {
                self.detach(namespace.0.as_slice(), conn_id);
                Vec::new()
            },
            Action::Lattice { namespace, delta } => {
                self.lattice(namespace.0.as_slice(), &delta);
                Vec::new()
            },
            Action::AttachUsers { conn_id, list } => {
                self.attach_users(conn_id, &list);
                Vec::new()
            },
            Action::UpdateUsers { session_id, list } => {
                self.update_users(session_id.0.as_slice(), &list);
                Vec::new()
            },
            Action::DetachUsers { conn_id } => {
                self.detach_users(conn_id);
                Vec::new()
            },
        }
    }
}

/// The topic index and the per-connection topic sets mirror each other:
/// a connection is listed under a topic exactly when the topic is in its
/// subscription set.
pub proof fn lemma_topic_index_bidirectional(v: PoolV, c: Cid, t: Seq<u8>)
    requires
        pool_linked(v),
    ensures
        (v.topics.contains_key(t) && v.topics[t].contains(c)) <==> (v.connections.contains_key(c)
            && v.connections[c].topics.contains(t)),
{
}

/// The same mirror holds between the lattices' subscriber lists and the
/// per-connection namespace sets.
pub proof fn lemma_lattice_index_bidirectional(v: PoolV, c: Cid, n: Seq<u8>)
    requires
        pool_linked(v),
    ensures
        (v.lattices.contains_key(n) && v.lattices[n].subscribers.contains(c)) <==> (
        v.connections.contains_key(c) && v.connections[c].lattices.contains(n)),
{
}

} // verus!
