//! The replication fabric's state: peer links and action routing.
//!
//! Every state-changing request is forwarded to all peer nodes as a
//! `RemoteAction` inside a `Message` envelope naming the session pool.  The
//! watcher owns the peer table and the live links; it decides which inbound
//! actions reach the local processor (connection-scoped actions are only
//! applied on the node that owns the connection) and to which links an
//! outbound message goes.  Sockets, timers and the JSON wire encoding live
//! outside the library; the watcher hands out the decisions.

use crate::alist::{
    al_map, al_unique, find_bytes, lemma_al_absent, lemma_al_get, lemma_al_push,
    lemma_al_push_unique, lemma_al_remove, pairs_view,
};
use crate::ids::{clone_bytes, Cid, Namespace, Payload, ServerId, SessionId, Topic};
use crate::lattice::Delta;
use crate::processor::{Action, ActionV};
use vstd::prelude::*;

verus! {

/// An action as it travels between peer nodes: connection-scoped variants
/// carry the owning node's id.
#[derive(Debug, PartialEq, Eq)]
pub enum RemoteAction {
    Subscribe { conn_id: Cid, server_id: ServerId, topic: Topic },
    Unsubscribe { conn_id: Cid, server_id: ServerId, topic: Topic },
    Publish { topic: Topic, data: Payload },
    Attach { namespace: Namespace, conn_id: Cid, server_id: ServerId },
    Detach { namespace: Namespace, conn_id: Cid, server_id: ServerId },
    Lattice { namespace: Namespace, delta: Delta },
    AttachUsers { conn_id: Cid, server_id: ServerId, list: Vec<Vec<u8>> },
    UpdateUsers { session_id: SessionId, list: Vec<Vec<u8>> },
    DetachUsers { conn_id: Cid, server_id: ServerId },
}

/// Mathematical value of a replicated action.
pub enum RemoteActionV {
    Subscribe { conn_id: Cid, server_id: ServerId, topic: Seq<u8> },
    Unsubscribe { conn_id: Cid, server_id: ServerId, topic: Seq<u8> },
    Publish { topic: Seq<u8>, data: Seq<u8> },
    Attach { namespace: Seq<u8>, conn_id: Cid, server_id: ServerId },
    Detach { namespace: Seq<u8>, conn_id: Cid, server_id: ServerId },
    Lattice { namespace: Seq<u8>, delta: crate::lattice::NsMap },
    AttachUsers { conn_id: Cid, server_id: ServerId, watches: Set<Seq<u8>> },
    UpdateUsers { session_id: Seq<u8>, watches: Set<Seq<u8>> },
    DetachUsers { conn_id: Cid, server_id: ServerId },
}

impl View for RemoteAction {
    type V = RemoteActionV;

    open spec fn view(&self) -> RemoteActionV {
        match self {
            RemoteAction::Subscribe { conn_id, server_id, topic } => RemoteActionV::Subscribe {
                conn_id: *conn_id,
                server_id: *server_id,
                topic: topic@,
            },
            RemoteAction::Unsubscribe { conn_id, server_id, topic } => RemoteActionV::Unsubscribe {
                conn_id: *conn_id,
                server_id: *server_id,
                topic: topic@,
            },
            RemoteAction::Publish { topic, data } => RemoteActionV::Publish {
                topic: topic@,
                data: data@,
            },
            RemoteAction::Attach { namespace, conn_id, server_id } => RemoteActionV::Attach {
                namespace: namespace@,
                conn_id: *conn_id,
                server_id: *server_id,
            },
            RemoteAction::Detach { namespace, conn_id, server_id } => RemoteActionV::Detach {
                namespace: namespace@,
                conn_id: *conn_id,
                server_id: *server_id,
            },
            RemoteAction::Lattice { namespace, delta } => RemoteActionV::Lattice {
                namespace: namespace@,
                delta: delta@,
            },
            RemoteAction::AttachUsers { conn_id, server_id, list } => RemoteActionV::AttachUsers {
                conn_id: *conn_id,
                server_id: *server_id,
                watches: crate::lattice::set_view(list@),
            },
            RemoteAction::UpdateUsers { session_id, list } => RemoteActionV::UpdateUsers {
                session_id: session_id@,
                watches: crate::lattice::set_view(list@),
            },
            RemoteAction::DetachUsers { conn_id, server_id } => RemoteActionV::DetachUsers {
                conn_id: *conn_id,
                server_id: *server_id,
            },
        }
    }
}

/// Whether a replicated action is scoped to one connection (and so to the
/// node owning it).
pub open spec fn conn_scoped(a: RemoteActionV) -> bool {
    match a {
        RemoteActionV::Subscribe { .. } => true,
        RemoteActionV::Unsubscribe { .. } => true,
        RemoteActionV::Attach { .. } => true,
        RemoteActionV::Detach { .. } => true,
        RemoteActionV::AttachUsers { .. } => true,
        RemoteActionV::DetachUsers { .. } => true,
        _ => false,
    }
}

/// The owning node of a connection-scoped action.
pub open spec fn scope_server(a: RemoteActionV) -> ServerId {
    match a {
        RemoteActionV::Subscribe { server_id, .. } => server_id,
        RemoteActionV::Unsubscribe { server_id, .. } => server_id,
        RemoteActionV::Attach { server_id, .. } => server_id,
        RemoteActionV::Detach { server_id, .. } => server_id,
        RemoteActionV::AttachUsers { server_id, .. } => server_id,
        RemoteActionV::DetachUsers { server_id, .. } => server_id,
        _ => ServerId(0),
    }
}

/// The local action a replicated action stands for.
pub open spec fn local_view(a: RemoteActionV) -> ActionV {
    match a {
        RemoteActionV::Subscribe { conn_id, topic, .. } => ActionV::Subscribe { conn_id, topic },
        RemoteActionV::Unsubscribe { conn_id, topic, .. } => ActionV::Unsubscribe {
            conn_id,
            topic,
        },
        RemoteActionV::Publish { topic, data } => ActionV::Publish { topic, data },
        RemoteActionV::Attach { namespace, conn_id, .. } => ActionV::Attach {
            namespace,
            conn_id,
        },
        RemoteActionV::Detach { namespace, conn_id, .. } => ActionV::Detach {
            namespace,
            conn_id,
        },
        RemoteActionV::Lattice { namespace, delta } => ActionV::Lattice { namespace, delta },
        RemoteActionV::AttachUsers { conn_id, watches, .. } => ActionV::AttachUsers {
            conn_id,
            watches,
        },
        RemoteActionV::UpdateUsers { session_id, watches } => ActionV::UpdateUsers {
            session_id,
            watches,
        },
        RemoteActionV::DetachUsers { conn_id, .. } => ActionV::DetachUsers { conn_id },
    }
}

/// What a node applies locally on receiving a replicated action.
///
/// A connection-scoped action whose node id is not ours is dropped: only
/// the owning node holds the connection, so it changes nothing here.
/// Publishes and lattice merges are always applied.
pub open spec fn spec_incoming(my: ServerId, a: RemoteActionV) -> Option<ActionV> {
    if conn_scoped(a) && scope_server(a) != my {
        None
    } else {
        Some(local_view(a))
    }
}

/// A connection-scoped action from another node produces no local action
/// at all — and so no change to the local pool's connections.
pub proof fn lemma_foreign_action_filtered(my: ServerId, a: RemoteActionV)
    requires
        conn_scoped(a),
        scope_server(a) != my,
    ensures
        spec_incoming(my, a) is None,
{
}

/// Deltas carried by a replicated action are well-formed.
pub open spec fn remote_action_wf(action: RemoteAction) -> bool {
    match action {
        RemoteAction::Lattice { delta, .. } => delta.wf(),
        _ => true,
    }
}

/// Turn a replicated action into the local action to apply, if any.
///
/// A malformed delta from a peer is replaced by the empty one: a broken
/// frame merges nothing rather than poisoning the lattice.
pub fn incoming_action(my: ServerId, action: RemoteAction) -> (r: Option<Action>)
    ensures
        r is None <==> spec_incoming(my, action@) is None,
        r matches Some(a) ==> a.wf(),
        remote_action_wf(action) ==> (r matches Some(a) ==> Some(a@) == spec_incoming(
            my,
            action@,
        )),
        !remote_action_wf(action) ==> (action@ matches RemoteActionV::Lattice { namespace, delta }
            && (r matches Some(a) && a@ == ActionV::Lattice {
            namespace,
            delta: Map::empty(),
        })),
{
    match action {
        RemoteAction::Subscribe { conn_id, server_id, topic } => {
            if server_id == my {
                Some(Action::Subscribe { conn_id, topic })
            } else {
                None
            }
        },
        RemoteAction::Unsubscribe { conn_id, server_id, topic } => {
            if server_id == my {
                Some(Action::Unsubscribe { conn_id, topic })
            } else {
                None
            }
        },
        RemoteAction::Publish { topic, data } => Some(Action::Publish { topic, data }),
        RemoteAction::Attach { namespace, conn_id, server_id } => {
            if server_id == my {
                Some(Action::Attach { namespace, conn_id })
            } else {
                None
            }
        },
        RemoteAction::Detach { namespace, conn_id, server_id } => {
            if server_id == my {
                Some(Action::Detach { namespace, conn_id })
            } else {
                None
            }
        },
        RemoteAction::Lattice { namespace, delta } => {
            let d2 = sanitize_delta(delta);
            Some(Action::Lattice { namespace, delta: d2 })
        },
        RemoteAction::AttachUsers { conn_id, server_id, list } => {
            if server_id == my {
                Some(Action::AttachUsers { conn_id, list })
            } else {
                None
            }
        },
        RemoteAction::UpdateUsers { session_id, list } => {
            Some(Action::UpdateUsers { session_id, list })
        },
        RemoteAction::DetachUsers { conn_id, server_id } => {
            if server_id == my {
                Some(Action::DetachUsers { conn_id })
            } else {
                None
            }
        },
    }
}

/// A delta as received from a peer, with any malformed cells dropped, so
/// that the merge's requirements hold of whatever arrived.
fn sanitize_delta(d: Delta) -> (r: Delta)
    ensures
        r.wf(),
        d.wf() ==> r@ == d@,
        !d.wf() ==> r@ == Map::<Seq<u8>, crate::lattice::CellMap>::empty(),
{
    if delta_wf_check(&d) {
        d
    } else {
        Delta::empty()
    }
}

/// Decide whether a delta is well-formed.
pub fn delta_wf_check(d: &Delta) -> (r: bool)
    ensures
        r == d.wf(),
{
    let mut i: usize = 0;
    while i < d.items.len()
        invariant
            i <= d.items@.len(),
            forall|j: int| 0 <= j < i ==> (#[trigger] d.items@[j]).1.wf(),
            forall|j1: int, j2: int|
                0 <= j1 < j2 < i ==> (#[trigger] pairs_view(d.items@)[j1]).0 != (
                #[trigger] pairs_view(d.items@)[j2]).0,
        decreases d.items@.len() - i,
    {
        // keys before this one must differ from it
        let mut j: usize = 0;
        while j < i
            invariant
                j <= i < d.items@.len(),
                forall|j2: int|
                    0 <= j2 < j ==> (#[trigger] pairs_view(d.items@)[j2]).0 != pairs_view(
                        d.items@,
                    )[i as int].0,
            decreases i - j,
        {
            if crate::ids::bytes_eq(d.items[j].0.as_slice(), d.items[i].0.as_slice()) {
                proof {
                    assert((#[trigger] pairs_view(d.items@)[j as int]).0 == pairs_view(
                        d.items@,
                    )[i as int].0);
                    assert(!al_unique(pairs_view(d.items@)));
                }
                return false;
            }
            j = j + 1;
        }
        if !values_wf_check(&d.items[i].1) {
            proof {
                assert((#[trigger] d.items@[i as int]).1.wf() == false);
            }
            return false;
        }
        i = i + 1;
    }
    proof {
        if !al_unique(pairs_view(d.items@)) {
            let (j1, j2) = choose|j1: int, j2: int|
                0 <= j1 < j2 < pairs_view(d.items@).len() && (#[trigger] pairs_view(d.items@)[j1]).0
                    == (#[trigger] pairs_view(d.items@)[j2]).0;
            assert(false);
        }
    }
    true
}

/// Decide whether a cell is well-formed.
fn values_wf_check(v: &crate::lattice::Values) -> (r: bool)
    ensures
        r == v.wf(),
{
    let mut i: usize = 0;
    while i < v.fields.len()
        invariant
            i <= v.fields@.len(),
            forall|j: int|
                0 <= j < i ==> crate::lattice::fv_kind((#[trigger] pairs_view(v.fields@)[j]).1)
                    == crate::lattice::kind_of(pairs_view(v.fields@)[j].0) && crate::lattice::kind_of(
                    pairs_view(v.fields@)[j].0,
                ) != crate::lattice::KeyKind::KindUnknown,
            forall|j1: int, j2: int|
                0 <= j1 < j2 < i ==> (#[trigger] pairs_view(v.fields@)[j1]).0 != (
                #[trigger] pairs_view(v.fields@)[j2]).0,
        decreases v.fields@.len() - i,
    {
        let mut j: usize = 0;
        while j < i
            invariant
                j <= i < v.fields@.len(),
                forall|j2: int|
                    0 <= j2 < j ==> (#[trigger] pairs_view(v.fields@)[j2]).0 != pairs_view(
                        v.fields@,
                    )[i as int].0,
            decreases i - j,
        {
            if crate::ids::bytes_eq(v.fields[j].0.as_slice(), v.fields[i].0.as_slice()) {
                proof {
                    assert((#[trigger] pairs_view(v.fields@)[j as int]).0 == pairs_view(
                        v.fields@,
                    )[i as int].0);
                    assert(!al_unique(pairs_view(v.fields@)));
                }
                return false;
            }
            j = j + 1;
        }
        let kind = crate::lattice::key_kind(v.fields[i].0.as_slice());
        let ok = match (&v.fields[i].1, kind) {
            (crate::lattice::FieldValue::Counter(_), crate::lattice::KeyKind::KindCounter) => true,
            (crate::lattice::FieldValue::StrSet(_), crate::lattice::KeyKind::KindSet) => true,
            (
                crate::lattice::FieldValue::Register(_, _),
                crate::lattice::KeyKind::KindRegister,
            ) => true,
            _ => false,
        };
        if !ok {
            proof {
                assert((#[trigger] pairs_view(v.fields@)[i as int]).1 == v.fields@[i as int].1@);
            }
            return false;
        }
        i = i + 1;
    }
    proof {
        if !al_unique(pairs_view(v.fields@)) {
            let (j1, j2) = choose|j1: int, j2: int|
                0 <= j1 < j2 < pairs_view(v.fields@).len() && (#[trigger] pairs_view(
                    v.fields@,
                )[j1]).0 == (#[trigger] pairs_view(v.fields@)[j2]).0;
            assert(false);
        }
    }
    true
}

/// A replicated message: the pool it belongs to and the action.
#[derive(Debug, PartialEq, Eq)]
pub struct Message(pub Vec<u8>, pub RemoteAction);

/// What the watcher knows of one configured peer.
#[derive(Clone, Copy, PartialEq, Eq, Debug, Structural)]
pub enum PeerState {
    /// An outbound dial is running; it times out at the given instant.
    Connecting(u64),
    /// A live link exists and the peer's node id is known.
    Connected(ServerId),
}

impl View for PeerState {
    type V = PeerState;

    open spec fn view(&self) -> PeerState {
        *self
    }
}

/// The replication watcher's own state: the peer table and the live links.
#[derive(Debug)]
pub struct Watcher {
    /// This node's id.
    pub server_id: ServerId,
    /// Configured peers by name, with their link state.
    pub peers: Vec<(Vec<u8>, PeerState)>,
    /// Node ids with a live link (inbound or outbound).
    pub links: Vec<ServerId>,
}

/// Mathematical value of the watcher.
#[verifier::ext_equal]
pub struct WatcherV {
    pub server_id: ServerId,
    pub peers: Map<Seq<u8>, PeerState>,
    pub links: Seq<ServerId>,
}

impl View for Watcher {
    type V = WatcherV;

    open spec fn view(&self) -> WatcherV {
        WatcherV {
            server_id: self.server_id,
            peers: al_map(pairs_view(self.peers@)),
            links: self.links@,
        }
    }
}

impl Watcher {
    /// Peer names and link ids hold no duplicates.
    pub open spec fn inv(&self) -> bool {
        al_unique(pairs_view(self.peers@)) && self.links@.no_duplicates()
    }

    /// A fresh watcher with no peers and no links.
    pub fn new(server_id: ServerId) -> (r: Watcher)
        ensures
            r.inv(),
            r@.server_id == server_id,
            r@.peers == Map::<Seq<u8>, PeerState>::empty(),
            r@.links == Seq::<ServerId>::empty(),
    {
        let r = Watcher { server_id, peers: Vec::new(), links: Vec::new() };
        proof {
            assert(pairs_view(r.peers@) =~= Seq::<(Seq<u8>, PeerState)>::empty());
        }
        r
    }

    /// A link came up: remember the peer's node id; for an outbound link
    /// the peer's configured name is known and marked connected.
    pub fn attach(&mut self, server_id: ServerId, peer: Option<&Vec<u8>>)
        requires
            old(self).inv(),
        ensures
            final(self).inv(),
            final(self)@.server_id == old(self)@.server_id,
            final(self)@.peers == match peer {
                Some(p) => old(self)@.peers.insert(p@, PeerState::Connected(server_id)),
                None => old(self)@.peers,
            },
            final(self)@.links == if old(self)@.links.contains(server_id) {
                old(self)@.links
            } else {
                old(self)@.links.push(server_id)
            },
    {
        match peer {
            Some(p) => {
                let pf = find_bytes(&self.peers, p.as_slice());
                let ghost ppre = pairs_view(self.peers@);
                match pf {
                    Some(pi) => {
                        proof {
                            lemma_al_get(ppre, pi as int);
                            lemma_al_remove(ppre, pi as int);
                        }
                        self.peers.remove(pi);
                        let ghost p2 = pairs_view(self.peers@);
                        proof {
                            assert(p2 =~= ppre.remove(pi as int));
                        }
                        self.peers.push((clone_bytes(p.as_slice()), PeerState::Connected(
                            server_id,
                        )));
                        proof {
                            assert(pairs_view(self.peers@) =~= p2.push(
                                (p@, PeerState::Connected(server_id)),
                            ));
                            lemma_al_push(p2, p@, PeerState::Connected(server_id));
                            assert forall|j: int| 0 <= j < p2.len() implies (#[trigger] p2[j]).0
                                != p@ by {
                                if j < pi {
                                    assert(p2[j] == ppre[j]);
                                } else {
                                    assert(p2[j] == ppre[j + 1]);
                                }
                            }
                            lemma_al_push_unique(p2, p@, PeerState::Connected(server_id));
                            assert(al_map(pairs_view(self.peers@)) =~= old(
                                self,
                            )@.peers.insert(p@, PeerState::Connected(server_id)));
                        }
                    },
                    None => {
                        proof {
                            lemma_al_absent(ppre, p@);
                        }
                        self.peers.push((clone_bytes(p.as_slice()), PeerState::Connected(
                            server_id,
                        )));
                        proof {
                            assert(pairs_view(self.peers@) =~= ppre.push(
                                (p@, PeerState::Connected(server_id)),
                            ));
                            lemma_al_push(ppre, p@, PeerState::Connected(server_id));
                            lemma_al_push_unique(ppre, p@, PeerState::Connected(server_id));
                            assert(al_map(pairs_view(self.peers@)) =~= old(
                                self,
                            )@.peers.insert(p@, PeerState::Connected(server_id)));
                        }
                    },
                }
            },
            None => {},
        }
        if !link_contains(&self.links, server_id) {
            self.links.push(server_id);
            proof {
                let pre = old(self)@.links;
                assert(forall|i: int| 0 <= i < pre.len() ==> #[trigger] self.links@[i] == pre[i]);
                assert(self.links@.no_duplicates()) by {
                    assert forall|i: int, j: int|
                        0 <= i < j < self.links@.len() implies self.links@[i] != self.links@[j] by {
                        if j == self.links@.len() - 1 {
                            assert(pre.contains(pre[i]));
                        }
                    }
                }
            }
        }
    }

    /// The links an outbound message goes to: all of them.
    pub fn targets(&self) -> (r: Vec<ServerId>)
        ensures
            r@ == self@.links,
    {
        vstd::slice::slice_to_vec(self.links.as_slice())
    }

    /// On the simultaneous-dial tie, the node with the lexicographically
    /// smaller id closes its outbound link; the other's becomes canonical.
    pub fn outbound_loser(&self, peer: ServerId) -> (r: bool)
        ensures
            r == (self@.server_id.0 < peer.0),
    {
        self.server_id.0 < peer.0
    }
}

/// Decide membership in a link list.
pub fn link_contains(l: &Vec<ServerId>, s: ServerId) -> (r: bool)
    ensures
        r == l@.contains(s),
{
    let mut i: usize = 0;
    while i < l.len()
        invariant
            i <= l@.len(),
            forall|j: int| 0 <= j < i ==> l@[j] != s,
        decreases l@.len() - i,
    {
        if l[i] == s {
            return true;
        }
        i = i + 1;
    }
    false
}

/// The links left after the dead ones are removed.
pub open spec fn keep_links(s: Seq<ServerId>, dead: Seq<ServerId>) -> Seq<ServerId>
    decreases s.len(),
{
    if s.len() == 0 {
        s
    } else if dead.contains(s[0]) {
        keep_links(s.skip(1), dead)
    } else {
        seq![s[0]] + keep_links(s.skip(1), dead)
    }
}

impl Watcher {
    /// Sends to these links failed: drop them.  The reconnect loop will
    /// rebuild them.
    pub fn prune(&mut self, dead: &Vec<ServerId>)
        requires
            old(self).inv(),
        ensures
            final(self).inv(),
            final(self)@.server_id == old(self)@.server_id,
            final(self)@.peers == old(self)@.peers,
            final(self)@.links == keep_links(old(self)@.links, dead@),
    {
        let ghost orig = self.links@;
        let mut kept: Vec<ServerId> = Vec::new();
        let mut i: usize = 0;
        proof {
            assert(orig.skip(0) =~= orig);
        }
        while i < self.links.len()
            invariant
                i <= self.links@.len(),
                self.links@ == orig,
                al_unique(pairs_view(self.peers@)),
                orig.no_duplicates(),
                kept@.no_duplicates(),
                forall|j: int|
                    0 <= j < kept@.len() ==> exists|x: int|
                        0 <= x < i && orig[x] == #[trigger] kept@[j],
                keep_links(orig, dead@) == kept@ + keep_links(orig.skip(i as int), dead@),
            decreases self.links@.len() - i,
        {
            let ghost rem = orig.skip(i as int);
            proof {
                assert(rem[0] == orig[i as int]);
                assert(rem.skip(1) =~= orig.skip(i as int + 1));
            }
            let s = self.links[i];
            if !link_contains(dead, s) {
                let ghost kpre = kept@;
                kept.push(s);
                proof {
                    assert(kept@.no_duplicates()) by {
                        assert(forall|j: int| 0 <= j < kpre.len() ==> #[trigger] kept@[j] == kpre[j]);
                        assert forall|a: int, b: int|
                            0 <= a < b < kept@.len() implies kept@[a] != kept@[b] by {
                            if b == kept@.len() - 1 {
                                if kept@[a] == s {
                                    let x = choose|x: int|
                                        0 <= x < i && orig[x] == #[trigger] kpre[a];
                                    assert(orig[x] == s && orig[i as int] == s && x < i);
                                }
                            }
                        }
                    }
                    assert forall|j: int| 0 <= j < kept@.len() implies exists|x: int|
                        0 <= x < i + 1 && orig[x] == #[trigger] kept@[j] by {
                        if j < kpre.len() {
                            let x = choose|x: int| 0 <= x < i && orig[x] == #[trigger] kpre[j];
                            assert(orig[x] == kept@[j]);
                        } else {
                            assert(orig[i as int] == kept@[j]);
                        }
                    }
                    assert(kept@ + keep_links(orig.skip(i as int + 1), dead@) =~= kpre + (seq![s]
                        + keep_links(orig.skip(i as int + 1), dead@)));
                }
            }
            i = i + 1;
        }
        proof {
            assert(orig.skip(orig.len() as int).len() == 0);
            assert(kept@ + keep_links(orig.skip(orig.len() as int), dead@) =~= kept@);
        }
        self.links = kept;
    }
}

/// The byte strings a peer-name list stands for.
pub open spec fn names_view(s: Seq<Vec<u8>>) -> Seq<Seq<u8>> {
    s.map_values(|x: Vec<u8>| x@)
}

/// A link that belongs to a peer no longer configured.
pub open spec fn dead_link(peers: Map<Seq<u8>, PeerState>, cfg: Set<Seq<u8>>, sid: ServerId) -> bool {
    exists|p: Seq<u8>|
        #[trigger] peers.contains_key(p) && !cfg.contains(p) && peers[p] == PeerState::Connected(
            sid,
        )
}

/// The links kept after configured-away peers are dropped.
pub open spec fn drop_dead(s: Seq<ServerId>, peers: Map<Seq<u8>, PeerState>, cfg: Set<Seq<u8>>) -> Seq<
    ServerId,
>
    decreases s.len(),
{
    if s.len() == 0 {
        s
    } else if dead_link(peers, cfg, s[0]) {
        drop_dead(s.skip(1), peers, cfg)
    } else {
        seq![s[0]] + drop_dead(s.skip(1), peers, cfg)
    }
}

/// First half of the reconnect pass: peers that left the configuration are
/// forgotten, and the links of those that were connected are closed.
pub open spec fn spec_prune_peers(v: WatcherV, cfg: Set<Seq<u8>>) -> WatcherV {
    WatcherV {
        server_id: v.server_id,
        peers: Map::new(|p: Seq<u8>| v.peers.contains_key(p) && cfg.contains(p), |p: Seq<u8>| v.peers[p]),
        links: drop_dead(v.links, v.peers, cfg),
    }
}

/// One configured peer's turn in the reconnect pass: already linked or
/// still dialing peers are left alone; anything else starts a dial with
/// the given timeout instant.
pub open spec fn reconnect_step(v: WatcherV, p: Seq<u8>, now: u64, deadline: u64) -> (
    WatcherV,
    bool,
) {
    let linked = if v.peers.contains_key(p) {
        match v.peers[p] {
            PeerState::Connected(sid) => v.links.contains(sid),
            PeerState::Connecting(dl) => dl >= now,
        }
    } else {
        false
    };
    if linked {
        (v, false)
    } else {
        (WatcherV { peers: v.peers.insert(p, PeerState::Connecting(deadline)), ..v }, true)
    }
}

/// The reconnect pass over the configured peer list, in order.
pub open spec fn spec_reconnect_list(v: WatcherV, cfg: Seq<Seq<u8>>, now: u64, deadline: u64) -> (
    WatcherV,
    Seq<Seq<u8>>,
)
    decreases cfg.len(),
{
    if cfg.len() == 0 {
        (v, Seq::empty())
    } else {
        let step = reconnect_step(v, cfg[0], now, deadline);
        let rest = spec_reconnect_list(step.0, cfg.skip(1), now, deadline);
        (
            rest.0,
            if step.1 {
                seq![cfg[0]] + rest.1
            } else {
                rest.1
            },
        )
    }
}

/// Effect of one reconnect tick on the watcher, and the dials it starts.
pub open spec fn spec_reconnect(v: WatcherV, cfg: Seq<Seq<u8>>, now: u64, deadline: u64) -> (
    WatcherV,
    Seq<Seq<u8>>,
) {
    spec_reconnect_list(spec_prune_peers(v, cfg.to_set()), cfg, now, deadline)
}

/// Filtering by a list naming exactly the dead links is dropping them.
proof fn lemma_keep_drop_equiv(
    s: Seq<ServerId>,
    dead: Seq<ServerId>,
    peers: Map<Seq<u8>, PeerState>,
    cfg: Set<Seq<u8>>,
)
    requires
        forall|sid: ServerId| #[trigger] dead.contains(sid) <==> dead_link(peers, cfg, sid),
    ensures
        keep_links(s, dead) == drop_dead(s, peers, cfg),
    decreases s.len(),
{
    if s.len() > 0 {
        lemma_keep_drop_equiv(s.skip(1), dead, peers, cfg);
    }
}

impl Watcher {
    /// One tick of the reconnect loop.
    ///
    /// Peers gone from the configuration are dropped together with their
    /// links; every configured peer without a live link or a dial still
    /// within its deadline gets a fresh outbound dial, marked with the
    /// given timeout instant.  Returns the peers to dial, in configuration
    /// order.
    pub fn reconnect(&mut self, cfg: &Vec<Vec<u8>>, now: u64, deadline: u64) -> (dials: Vec<
        Vec<u8>,
    >)
        requires
            old(self).inv(),
        ensures
            final(self).inv(),
            final(self)@ == spec_reconnect(old(self)@, names_view(cfg@), now, deadline).0,
            names_view(dials@) == spec_reconnect(old(self)@, names_view(cfg@), now, deadline).1,
    {
        let ghost v0 = self@;
        let ghost cfgset = names_view(cfg@).to_set();
        // Forget peers that left the configuration, collecting the node ids
        // of their live links.
        let ghost orig = pairs_view(self.peers@);
        let mut kept: Vec<(Vec<u8>, PeerState)> = Vec::new();
        let mut dead: Vec<ServerId> = Vec::new();
        let ghost mut done: int = 0;
        proof {
            assert(al_map(orig.take(0)) =~= Map::<Seq<u8>, PeerState>::empty());
            assert(pairs_view(kept@) =~= Seq::<(Seq<u8>, PeerState)>::empty());
            assert(al_map(pairs_view(kept@)) =~= Map::new(
                |p: Seq<u8>| al_map(orig.take(0)).contains_key(p) && cfgset.contains(p),
                |p: Seq<u8>| al_map(orig.take(0))[p],
            ));
        }
        while self.peers.len() > 0
            invariant
                0 <= done <= orig.len(),
                done + self.peers@.len() == orig.len(),
                pairs_view(self.peers@) =~= orig.skip(done),
                self.links@ == v0.links,
                self.links@.no_duplicates(),
                self.server_id == v0.server_id,
                al_unique(orig),
                al_unique(pairs_view(kept@)),
                cfgset == names_view(cfg@).to_set(),
                al_map(pairs_view(kept@)) == Map::new(
                    |p: Seq<u8>| al_map(orig.take(done)).contains_key(p) && cfgset.contains(p),
                    |p: Seq<u8>| al_map(orig.take(done))[p],
                ),
                forall|j: int|
                    0 <= j < kept@.len() ==> al_map(orig.take(done)).contains_key(
                        (#[trigger] pairs_view(kept@)[j]).0,
                    ),
                forall|sid: ServerId|
                    #[trigger] dead@.contains(sid) <==> exists|j: int|
                        0 <= j < done && !cfgset.contains((#[trigger] orig[j]).0) && orig[j].1
                            == PeerState::Connected(sid),
            decreases self.peers@.len(),
        {
            let ghost k = orig[done].0;
            let ghost st = orig[done].1;
            proof {
                assert(orig.skip(done)[0] == orig[done]);
                assert(orig.take(done + 1) =~= orig.take(done).push(orig[done]));
                lemma_al_push(orig.take(done), k, st);
                assert forall|j: int| 0 <= j < done implies (#[trigger] orig.take(done)[j]).0
                    != k by {
                    assert(orig[j].0 != orig[done].0);
                }
                lemma_al_absent(orig.take(done), k);
            }
            let ghost ppre = self.peers@;
            let (name, st) = self.peers.remove(0);
            proof {
                assert(pairs_view(self.peers@) =~= orig.skip(done + 1)) by {
                    assert forall|j: int|
                        0 <= j < self.peers@.len() implies pairs_view(self.peers@)[j] == orig.skip(
                        done + 1,
                    )[j] by {
                        assert(self.peers@[j] == ppre[j + 1]);
                        assert(pairs_view(self.peers@)[j] == pairs_view(ppre)[j + 1]);
                        assert(orig.skip(done + 1)[j] == orig.skip(done)[j + 1]);
                    }
                }
                assert(pairs_view(ppre)[0] == orig.skip(done)[0]);
            }
            let ghost deadpre = dead@;
            if crate::lattice::set_contains(cfg, name.as_slice()) {
                let ghost kpre = pairs_view(kept@);
                kept.push((name, st));
                proof {
                    assert(pairs_view(kept@) =~= kpre.push((k, st)));
                    lemma_al_push(kpre, k, st);
                    assert forall|j: int| 0 <= j < kpre.len() implies (#[trigger] kpre[j]).0
                        != k by {
                        assert(al_map(orig.take(done)).contains_key(kpre[j].0));
                    }
                    lemma_al_push_unique(kpre, k, st);
                    assert(crate::lattice::set_view(cfg@) =~= cfgset);
                    assert(al_map(pairs_view(kept@)) =~= Map::new(
                        |p: Seq<u8>| al_map(orig.take(done + 1)).contains_key(p) && cfgset.contains(
                            p,
                        ),
                        |p: Seq<u8>| al_map(orig.take(done + 1))[p],
                    ));
                }
            } else {
                proof {
                    assert(crate::lattice::set_view(cfg@) =~= cfgset);
                }
                match st {
                    PeerState::Connected(sid) => {
                        dead.push(sid);
                        proof {
                            assert(forall|j: int|
                                0 <= j < deadpre.len() ==> #[trigger] dead@[j] == deadpre[j]);
                            assert(dead@[deadpre.len() as int] == sid);
                            assert forall|s2: ServerId| #[trigger] dead@.contains(s2) implies (
                            exists|j: int|
                                0 <= j < done + 1 && !cfgset.contains((#[trigger] orig[j]).0)
                                    && orig[j].1 == PeerState::Connected(s2)) by {
                                let x = choose|x: int| 0 <= x < dead@.len() && dead@[x] == s2;
                                if x < deadpre.len() {
                                    assert(deadpre.contains(s2));
                                } else {
                                    assert(s2 == sid);
                                    assert(orig[done].0 == k && orig[done].1 == PeerState::Connected(
                                        sid,
                                    ));
                                }
                            }
                            assert forall|s2: ServerId|
                                (exists|j: int|
                                    0 <= j < done + 1 && !cfgset.contains((#[trigger] orig[j]).0)
                                        && orig[j].1 == PeerState::Connected(s2)) implies
                            #[trigger] dead@.contains(s2) by {
                                let j = choose|j: int|
                                    0 <= j < done + 1 && !cfgset.contains((#[trigger] orig[j]).0)
                                        && orig[j].1 == PeerState::Connected(s2);
                                if j < done {
                                    assert(deadpre.contains(s2));
                                    let x = choose|x: int|
                                        0 <= x < deadpre.len() && deadpre[x] == s2;
                                    assert(dead@[x] == s2);
                                } else {
                                    assert(dead@[deadpre.len() as int] == s2);
                                }
                            }
                        }
                    },
                    PeerState::Connecting(_) => {
                        proof {
                            assert forall|s2: ServerId| #[trigger] dead@.contains(s2) implies (
                            exists|j: int|
                                0 <= j < done + 1 && !cfgset.contains((#[trigger] orig[j]).0)
                                    && orig[j].1 == PeerState::Connected(s2)) by {}
                            assert forall|s2: ServerId|
                                (exists|j: int|
                                    0 <= j < done + 1 && !cfgset.contains((#[trigger] orig[j]).0)
                                        && orig[j].1 == PeerState::Connected(s2)) implies
                            #[trigger] dead@.contains(s2) by {
                                let j = choose|j: int|
                                    0 <= j < done + 1 && !cfgset.contains((#[trigger] orig[j]).0)
                                        && orig[j].1 == PeerState::Connected(s2);
                                assert(j < done);
                            }
                        }
                    },
                }
                proof {
                    assert(al_map(pairs_view(kept@)) =~= Map::new(
                        |p: Seq<u8>| al_map(orig.take(done + 1)).contains_key(p) && cfgset.contains(
                            p,
                        ),
                        |p: Seq<u8>| al_map(orig.take(done + 1))[p],
                    ));
                }
            }
            proof {
                done = done + 1;
            }
        }
        proof {
            assert(orig.take(done) =~= orig) by {
                assert(orig.skip(done).len() == 0);
            }
        }
        self.peers = kept;
        proof {
            assert(al_map(pairs_view(self.peers@)) =~= spec_prune_peers(v0, cfgset).peers);
            assert forall|sid: ServerId| #[trigger] dead@.contains(sid) <==> dead_link(
                v0.peers,
                cfgset,
                sid,
            ) by {
                if dead@.contains(sid) {
                    let j = choose|j: int|
                        0 <= j < orig.len() && !cfgset.contains((#[trigger] orig[j]).0) && orig[j].1
                            == PeerState::Connected(sid);
                    lemma_al_get(orig, j);
                }
                if dead_link(v0.peers, cfgset, sid) {
                    let p = choose|p: Seq<u8>|
                        #[trigger] v0.peers.contains_key(p) && !cfgset.contains(p) && v0.peers[p]
                            == PeerState::Connected(sid);
                    crate::alist::lemma_al_contains(orig, p);
                    let j = choose|j: int| 0 <= j < orig.len() && (#[trigger] orig[j]).0 == p;
                    lemma_al_get(orig, j);
                }
            }
        }
        self.prune(&dead);
        proof {
            lemma_keep_drop_equiv(v0.links, dead@, v0.peers, cfgset);
            assert(self@ =~= spec_prune_peers(v0, cfgset));
        }
        // Dial every configured peer that has neither a live link nor a
        // running dial.
        let ghost v1 = self@;
        let ghost names = names_view(cfg@);
        let ghost full = spec_reconnect_list(v1, names, now, deadline);
        let mut dials: Vec<Vec<u8>> = Vec::new();
        let mut i: usize = 0;
        proof {
            assert(names.skip(0) =~= names);
            assert(names_view(dials@) =~= Seq::<Seq<u8>>::empty());
        }
        while i < cfg.len()
            invariant
                i <= cfg@.len(),
                self.inv(),
                names == names_view(cfg@),
                full == spec_reconnect_list(v1, names, now, deadline),
                spec_reconnect_list(self@, names.skip(i as int), now, deadline).0 == full.0,
                names_view(dials@) + spec_reconnect_list(
                    self@,
                    names.skip(i as int),
                    now,
                    deadline,
                ).1 == full.1,
            decreases cfg@.len() - i,
        {
            let ghost vi = self@;
            let ghost rem = names.skip(i as int);
            proof {
                assert(rem[0] == names[i as int]);
                assert(rem.skip(1) =~= names.skip(i as int + 1));
            }
            let name = &cfg[i];
            let pf = find_bytes(&self.peers, name.as_slice());
            let linked = match pf {
                Some(pi) => {
                    proof {
                        lemma_al_get(pairs_view(self.peers@), pi as int);
                    }
                    match self.peers[pi].1 {
                        PeerState::Connected(sid) => link_contains(&self.links, sid),
                        PeerState::Connecting(dl) => dl >= now,
                    }
                },
                None => {
                    proof {
                        lemma_al_absent(pairs_view(self.peers@), name@);
                    }
                    false
                },
            };
            if !linked {
                let ghost ppre = pairs_view(self.peers@);
                match pf {
                    Some(pi) => {
                        proof {
                            lemma_al_remove(ppre, pi as int);
                        }
                        self.peers.remove(pi);
                        proof {
                            assert(pairs_view(self.peers@) =~= ppre.remove(pi as int));
                        }
                    },
                    None => {},
                }
                let ghost p2 = pairs_view(self.peers@);
                proof {
                    assert forall|j: int| 0 <= j < p2.len() implies (#[trigger] p2[j]).0
                        != name@ by {
                        if pf is Some {
                            let pi = pf->0;
                            if j < pi {
                                assert(p2[j] == ppre[j]);
                            } else {
                                assert(p2[j] == ppre[j + 1]);
                            }
                        }
                    }
                }
                self.peers.push((clone_bytes(name.as_slice()), PeerState::Connecting(deadline)));
                proof {
                    assert(pairs_view(self.peers@) =~= p2.push(
                        (name@, PeerState::Connecting(deadline)),
                    ));
                    lemma_al_push(p2, name@, PeerState::Connecting(deadline));
                    lemma_al_push_unique(p2, name@, PeerState::Connecting(deadline));
                    assert(al_map(pairs_view(self.peers@)) =~= vi.peers.insert(
                        name@,
                        PeerState::Connecting(deadline),
                    ));
                    assert(self@ =~= reconnect_step(vi, names[i as int], now, deadline).0);
                }
                let ghost dpre = dials@;
                dials.push(clone_bytes(name.as_slice()));
                proof {
                    assert(names_view(dials@) =~= names_view(dpre).push(name@));
                    assert(names_view(dpre).push(name@) + spec_reconnect_list(
                        self@,
                        names.skip(i as int + 1),
                        now,
                        deadline,
                    ).1 =~= names_view(dpre) + (seq![name@] + spec_reconnect_list(
                        self@,
                        names.skip(i as int + 1),
                        now,
                        deadline,
                    ).1));
                }
            } else {
                proof {
                    assert(reconnect_step(vi, names[i as int], now, deadline) == (vi, false));
                }
            }
            i = i + 1;
        }
        proof {
            assert(names.skip(cfg@.len() as int).len() == 0);
            assert(names_view(dials@) + Seq::<Seq<u8>>::empty() =~= names_view(dials@));
            assert(cfgset =~= names.to_set());
        }
        dials
    }
}

/// One input of the watcher actor.
#[derive(Debug)]
pub enum ReplAction {
    /// A link to a peer came up; for an outbound link its configured name
    /// is known.
    LinkUp { server_id: ServerId, peer: Option<Vec<u8>> },
    /// A replicated message arrived from a peer.
    Incoming(Message),
    /// A local action is to be replicated; the watcher never rebroadcasts
    /// what it received, so only locally originated messages come here.
    Outgoing(Message),
    /// The reconnect timer fired with the configured peer list.
    Reconnect { peers: Vec<Vec<u8>>, now: u64, deadline: u64 },
}

/// What the caller carries out after a step: the watcher itself only
/// decides.
#[derive(Debug)]
pub enum Effect {
    /// Nothing to do.
    Quiet,
    /// Hand this action to the named pool's processor.
    Deliver { pool: Vec<u8>, action: Action },
    /// Send this message on every listed link; report failed links back
    /// through `prune`.
    Broadcast { targets: Vec<ServerId>, message: Message },
    /// Start an outbound dial to each of these peers.
    Dial { peers: Vec<Vec<u8>> },
}

impl Watcher {
    /// Handle one input of the watcher actor.
    pub fn step(&mut self, action: ReplAction) -> (e: Effect)
        requires
            old(self).inv(),
        ensures
            final(self).inv(),
            match action {
                ReplAction::LinkUp { server_id, peer } => {
                    &&& e is Quiet
                    &&& final(self)@.server_id == old(self)@.server_id
                    &&& final(self)@.peers == (match peer {
                        Some(p) => old(self)@.peers.insert(p@, PeerState::Connected(server_id)),
                        None => old(self)@.peers,
                    })
                    &&& final(self)@.links == (if old(self)@.links.contains(server_id) {
                        old(self)@.links
                    } else {
                        old(self)@.links.push(server_id)
                    })
                },
                ReplAction::Incoming(msg) => {
                    &&& final(self)@ == old(self)@
                    &&& match spec_incoming(old(self)@.server_id, msg.1@) {
                        None => e is Quiet,
                        Some(av) => e matches Effect::Deliver { pool, action: a } && pool@
                            == msg.0@ && a.wf() && (remote_action_wf(msg.1) ==> a@ == av),
                    }
                },
                ReplAction::Outgoing(msg) => {
                    &&& final(self)@ == old(self)@
                    &&& (e matches Effect::Broadcast { targets, message } && targets@ == old(
                        self,
                    )@.links && message == msg)
                },
                ReplAction::Reconnect { peers, now, deadline } => {
                    &&& final(self)@ == spec_reconnect(
                        old(self)@,
                        names_view(peers@),
                        now,
                        deadline,
                    ).0
                    &&& (e matches Effect::Dial { peers: d } && names_view(d@) == spec_reconnect(
                        old(self)@,
                        names_view(peers@),
                        now,
                        deadline,
                    ).1)
                },
            },
    {
        match action {
            ReplAction::LinkUp { server_id, peer } => {
                match peer {
                    Some(p) => self.attach(server_id, Some(&p)),
                    None => self.attach(server_id, None),
                }
                Effect::Quiet
            },
            ReplAction::Incoming(msg) => {
                let Message(pool, ra) = msg;
                match incoming_action(self.server_id, ra) {
                    Some(a) => Effect::Deliver { pool, action: a },
                    None => Effect::Quiet,
                }
            },
            ReplAction::Outgoing(msg) => {
                let targets = self.targets();
                Effect::Broadcast { targets, message: msg }
            },
            ReplAction::Reconnect { peers, now, deadline } => {
                let dials = self.reconnect(&peers, now, deadline);
                Effect::Dial { peers: dials }
            },
        }
    }
}

} // verus!
