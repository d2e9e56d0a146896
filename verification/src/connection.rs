//! Per-connection state and the outbound message channel.
//!
//! Each live WebSocket is represented inside its pool by one entry: first a
//! `NewConnection` buffering inbound publishes until the authorizer answers,
//! then, after `Hello`, an active `Connection`.  The entry owns the send
//! side of the connection's outbound queue; the socket writer drains it.
//! The queue is unbounded in structure but lossy by policy: the processor
//! drops a connection whose queue has grown past the pool's high-water mark.

use crate::ids::{Cid, Namespace, Payload, SessionId, Topic};
use crate::lattice::{bset_unique, set_view, Delta, NsMap};
use vstd::prelude::*;

verus! {

/// Why a connection is being closed.
#[derive(Clone, Copy, PartialEq, Eq, Debug, Structural)]
pub enum CloseReason {
    /// The peer closed the socket, or it failed.
    SocketClosed,
    /// The outbound queue grew past the high-water mark.
    Overloaded,
    /// No `Associate` arrived within the authorization timeout.
    AuthTimeout,
    /// The session pool was removed from the configuration.
    PoolClosed,
}

/// A fatal, connection-level error reported to the client.
#[derive(Clone, PartialEq, Eq, Debug)]
pub enum MessageError {
    /// The backend answered authorization with an HTTP error status.
    HttpError(u16, Option<Payload>),
    /// No `Hello` arrived within the authorization timeout.
    AuthTimeout,
    /// Anything else; the client sees a protocol-violation close.
    Unexpected,
}

/// Mathematical value of a fatal error.
pub enum ErrV {
    HttpError(u16, Option<Seq<u8>>),
    AuthTimeout,
    Unexpected,
}

impl View for MessageError {
    type V = ErrV;

    open spec fn view(&self) -> ErrV {
        match self {
            MessageError::HttpError(s, d) => ErrV::HttpError(
                *s,
                match d {
                    Some(p) => Some(p@),
                    None => None,
                },
            ),
            MessageError::AuthTimeout => ErrV::AuthTimeout,
            MessageError::Unexpected => ErrV::Unexpected,
        }
    }
}

/// One frame queued for a connection's socket writer.
#[derive(Clone, PartialEq, Eq, Debug)]
pub enum ConnectionMessage {
    /// First frame after authorization: session id and its metadata.
    Hello(SessionId, Payload),
    /// A published message on a subscribed topic.
    Publish(Topic, Payload),
    /// Changed lattice cells of a subscribed namespace.
    Lattice(Namespace, Delta),
    /// Fatal error; the socket closes after it.
    FatalError(MessageError),
    /// Order to close the socket.
    StopSock(CloseReason),
}

/// Mathematical value of one queued frame.
pub enum MsgV {
    Hello(Seq<u8>, Seq<u8>),
    Publish(Seq<u8>, Seq<u8>),
    Lattice(Seq<u8>, NsMap),
    FatalError(ErrV),
    StopSock(CloseReason),
}

impl View for ConnectionMessage {
    type V = MsgV;

    open spec fn view(&self) -> MsgV {
        match self {
            ConnectionMessage::Hello(s, d) => MsgV::Hello(s@, d@),
            ConnectionMessage::Publish(t, d) => MsgV::Publish(t@, d@),
            ConnectionMessage::Lattice(n, d) => MsgV::Lattice(n@, d@),
            ConnectionMessage::FatalError(e) => MsgV::FatalError(e@),
            ConnectionMessage::StopSock(r) => MsgV::StopSock(*r),
        }
    }
}

/// The frames a queue stands for.
pub open spec fn msgs_view(s: Seq<ConnectionMessage>) -> Seq<MsgV> {
    s.map_values(|m: ConnectionMessage| m@)
}

/// Send side of one connection's outbound queue.
///
/// The processor enqueues; the socket writer (outside the library) drains.
#[derive(Debug, PartialEq, Eq)]
pub struct Channel {
    pub queue: Vec<ConnectionMessage>,
}

impl View for Channel {
    type V = Seq<MsgV>;

    open spec fn view(&self) -> Seq<MsgV> {
        msgs_view(self.queue@)
    }
}

impl Channel {
    /// A fresh, empty queue.
    pub fn new() -> (r: Channel)
        ensures
            r@ == Seq::<MsgV>::empty(),
    {
        let r = Channel { queue: Vec::new() };
        proof {
            assert(r@ =~= Seq::<MsgV>::empty());
        }
        r
    }

    /// Number of undelivered frames.
    pub fn len(&self) -> (n: usize)
        ensures
            n == self@.len(),
    {
        self.queue.len()
    }

    /// Enqueue one frame.
    pub fn send(&mut self, msg: ConnectionMessage)
        ensures
            final(self)@ == old(self)@.push(msg@),
    {
        let ghost m = msg@;
        self.queue.push(msg);
        proof {
            assert(self@ =~= old(self)@.push(m));
        }
    }
}

/// A connection awaiting its `Hello` from the authorizer.
#[derive(Debug)]
pub struct NewConnection {
    pub cid: Cid,
    pub topics: Vec<Vec<u8>>,
    pub lattices: Vec<Vec<u8>>,
    pub users_lattice: Vec<Vec<u8>>,
    pub message_buffer: Vec<(Vec<u8>, Vec<u8>)>,
    pub channel: Channel,
}

/// An authorized, active connection.
#[derive(Debug)]
pub struct Connection {
    pub cid: Cid,
    pub session_id: Vec<u8>,
    pub topics: Vec<Vec<u8>>,
    pub lattices: Vec<Vec<u8>>,
    pub users_lattice: bool,
    pub watches: Vec<Vec<u8>>,
    pub channel: Channel,
}

impl NewConnection {
    /// Local sets hold no duplicates.
    pub open spec fn wf(&self) -> bool {
        bset_unique(self.topics@) && bset_unique(self.lattices@) && bset_unique(
            self.users_lattice@,
        )
    }

    /// Register a connection that was just accepted, before authorization.
    pub fn new(conn_id: Cid) -> (r: NewConnection)
        ensures
            r.wf(),
            r.cid == conn_id,
            r.topics@.len() == 0,
            r.lattices@.len() == 0,
            r.users_lattice@.len() == 0,
            r.message_buffer@.len() == 0,
            r.channel@ == Seq::<MsgV>::empty(),
    {
        let r = NewConnection {
            cid: conn_id,
            topics: Vec::new(),
            lattices: Vec::new(),
            users_lattice: Vec::new(),
            message_buffer: Vec::new(),
            channel: Channel::new(),
        };
        r
    }

    /// Buffer a publish until the connection is authorized.
    pub fn message(&mut self, topic: Vec<u8>, data: Vec<u8>)
        ensures
            final(self).message_buffer@ == old(self).message_buffer@.push((topic, data)),
            final(self).cid == old(self).cid,
            final(self).topics == old(self).topics,
            final(self).lattices == old(self).lattices,
            final(self).users_lattice == old(self).users_lattice,
            final(self).channel == old(self).channel,
    {
        self.message_buffer.push((topic, data));
    }

    /// Order the socket closed.
    pub fn stop(&mut self, reason: CloseReason)
        ensures
            final(self).channel@ == old(self).channel@.push(MsgV::StopSock(reason)),
            final(self).cid == old(self).cid,
            final(self).topics == old(self).topics,
            final(self).lattices == old(self).lattices,
            final(self).users_lattice == old(self).users_lattice,
            final(self).message_buffer == old(self).message_buffer,
    {
        self.channel.send(ConnectionMessage::StopSock(reason));
    }

    /// Promote the connection after the authorizer answered.
    ///
    /// Buffered publishes are flushed into the outbound queue in arrival
    /// order.  Returns the active connection and the session ids whose
    /// presence was watched while pending; the pool re-registers them.
    pub fn associate(self, session_id: Vec<u8>) -> (r: (Connection, Vec<Vec<u8>>))
        requires
            self.wf(),
        ensures
            r.0.wf(),
            r.0.cid == self.cid,
            r.0.session_id == session_id,
            r.0.topics == self.topics,
            r.0.lattices == self.lattices,
            r.0.users_lattice == (self.users_lattice@.len() > 0),
            r.0.watches@ == self.users_lattice@,
            r.0.channel@ == self.channel@ + flush_view(self.message_buffer@),
            r.1@.len() == self.users_lattice@.len(),
            forall|i: int|
                0 <= i < r.1@.len() ==> (#[trigger] r.1@[i])@ == self.users_lattice@[i]@,
            set_view(r.1@) == set_view(self.users_lattice@),
    {
        let has_watches = self.users_lattice.len() > 0;
        let mut conn = Connection {
            cid: self.cid,
            session_id,
            topics: self.topics,
            lattices: self.lattices,
            users_lattice: has_watches,
            watches: self.users_lattice,
            channel: self.channel,
        };
        let buffer = self.message_buffer;
        let mut i: usize = 0;
        let ghost base = conn.channel@;
        while i < buffer.len()
            invariant
                i <= buffer@.len(),
                conn.channel@ == base + flush_view(buffer@.take(i as int)),
                conn.cid == self.cid,
                conn.session_id == session_id,
                conn.topics == self.topics,
                conn.lattices == self.lattices,
                conn.users_lattice == has_watches,
                conn.watches@ == self.users_lattice@,
                conn.wf(),
            decreases buffer@.len() - i,
        {
            let t = crate::ids::clone_bytes(buffer[i].0.as_slice());
            let d = crate::ids::clone_bytes(buffer[i].1.as_slice());
            conn.message(Topic(t), d);
            proof {
                assert(flush_view(buffer@.take(i as int + 1)) =~= flush_view(
                    buffer@.take(i as int),
                ).push(MsgV::Publish(buffer@[i as int].0@, buffer@[i as int].1@))) by {
                    assert(buffer@.take(i as int + 1) =~= buffer@.take(i as int).push(
                        buffer@[i as int],
                    ));
                }
                assert(conn.channel@ =~= base + flush_view(buffer@.take(i as int + 1)));
            }
            i = i + 1;
        }
        proof {
            assert(buffer@.take(buffer@.len() as int) =~= buffer@);
        }
        let watched = crate::lattice::clone_bytes_list(&conn.watches);
        (conn, watched)
    }
}

/// The frames a buffered publish list flushes to.
pub open spec fn flush_view(s: Seq<(Vec<u8>, Vec<u8>)>) -> Seq<MsgV> {
    s.map_values(|p: (Vec<u8>, Vec<u8>)| MsgV::Publish(p.0@, p.1@))
}

impl Connection {
    /// Local sets hold no duplicates.
    pub open spec fn wf(&self) -> bool {
        bset_unique(self.topics@) && bset_unique(self.lattices@) && bset_unique(self.watches@)
    }

    /// Enqueue a published message.
    pub fn message(&mut self, topic: Topic, data: Payload)
        ensures
            final(self).channel@ == old(self).channel@.push(MsgV::Publish(topic@, data@)),
            final(self).cid == old(self).cid,
            final(self).session_id == old(self).session_id,
            final(self).topics == old(self).topics,
            final(self).lattices == old(self).lattices,
            final(self).users_lattice == old(self).users_lattice,
            final(self).watches == old(self).watches,
    {
        self.channel.send(ConnectionMessage::Publish(topic, data));
    }

    /// Enqueue the changed cells of a subscribed namespace.
    pub fn lattice(&mut self, namespace: &Namespace, update: &Delta)
        ensures
            final(self).channel@ == old(self).channel@.push(MsgV::Lattice(namespace@, update@)),
            final(self).cid == old(self).cid,
            final(self).session_id == old(self).session_id,
            final(self).topics == old(self).topics,
            final(self).lattices == old(self).lattices,
            final(self).users_lattice == old(self).users_lattice,
            final(self).watches == old(self).watches,
    {
        let ns = Namespace(crate::ids::clone_bytes(namespace.0.as_slice()));
        let upd = crate::lattice::clone_delta(update);
        self.channel.send(ConnectionMessage::Lattice(ns, upd));
    }

    /// Order the socket closed.
    pub fn stop(&mut self, reason: CloseReason)
        ensures
            final(self).channel@ == old(self).channel@.push(MsgV::StopSock(reason)),
            final(self).cid == old(self).cid,
            final(self).session_id == old(self).session_id,
            final(self).topics == old(self).topics,
            final(self).lattices == old(self).lattices,
            final(self).users_lattice == old(self).users_lattice,
            final(self).watches == old(self).watches,
    {
        self.channel.send(ConnectionMessage::StopSock(reason));
    }
}

} // verus!
