//! The processor: subscriptions, publish fan-out, lattices, sessions, and
//! the lossy-channel policy.

use swindon::connection::{CloseReason, ConnectionMessage};
use swindon::ids::{Cid, SessionId, Topic};
use swindon::lattice::{Delta, FieldValue, Values};
use swindon::processor::{Action, ConnectionEntry, Pool};

fn queue_of(pool: &Pool, cid: Cid) -> Vec<ConnectionMessage> {
    for e in &pool.connections {
        match e {
            ConnectionEntry::Pending(n) => {
                if n.cid == cid {
                    return n.channel.queue.clone();
                }
            }
            ConnectionEntry::Active(c) => {
                if c.cid == cid {
                    return c.channel.queue.clone();
                }
            }
        }
    }
    panic!("no such connection");
}

fn has_conn(pool: &Pool, cid: Cid) -> bool {
    pool.connections.iter().any(|e| match e {
        ConnectionEntry::Pending(n) => n.cid == cid,
        ConnectionEntry::Active(c) => c.cid == cid,
    })
}

fn open_active(pool: &mut Pool, cid: u64, session: &[u8]) -> Cid {
    let c = Cid(cid);
    pool.new_connection(c);
    pool.associate(c, session, b"{}");
    c
}

fn delta_counter(key: &[u8], field: &[u8], n: u64) -> Delta {
    Delta {
        items: vec![(key.to_vec(), Values {
            fields: vec![(field.to_vec(), FieldValue::Counter(n))],
        })],
    }
}

#[test]
fn hello_is_the_first_frame() {
    let mut pool = Pool::new(16);
    let c = open_active(&mut pool, 1, b"u1");
    let q = queue_of(&pool, c);
    assert_eq!(
        q[0],
        ConnectionMessage::Hello(SessionId(b"u1".to_vec()), b"{}".to_vec())
    );
}

#[test]
fn local_publish_reaches_subscriber() {
    // One node: subscribe to room.42, publish, and the message arrives.
    let mut pool = Pool::new(16);
    let c = open_active(&mut pool, 1, b"u1");
    pool.subscribe(c, b"room.42");
    let dropped = pool.publish(b"room.42", b"{\"x\":1}");
    assert!(dropped.is_empty());
    let q = queue_of(&pool, c);
    assert_eq!(
        q.last().unwrap(),
        &ConnectionMessage::Publish(Topic(b"room.42".to_vec()), b"{\"x\":1}".to_vec())
    );
}

#[test]
fn publish_respects_delivery_order() {
    let mut pool = Pool::new(16);
    let c1 = open_active(&mut pool, 1, b"u1");
    let c2 = open_active(&mut pool, 2, b"u2");
    pool.subscribe(c1, b"t");
    pool.subscribe(c2, b"t");
    // the delivery list follows insertion order
    let (_, list) = pool
        .topics
        .iter()
        .find(|(k, _)| k.as_slice() == b"t")
        .expect("topic indexed");
    assert_eq!(list, &vec![c1, c2]);
}

#[test]
fn subscribe_unsubscribe_restores_index() {
    let mut pool = Pool::new(16);
    let c = open_active(&mut pool, 1, b"u1");
    assert!(pool.topics.is_empty());
    pool.subscribe(c, b"room.1");
    assert_eq!(pool.topics.len(), 1);
    pool.unsubscribe(c, b"room.1");
    assert!(pool.topics.is_empty());
    let dropped = pool.publish(b"room.1", b"{}");
    assert!(dropped.is_empty());
    // nothing was enqueued: only the hello frame is there
    assert_eq!(queue_of(&pool, c).len(), 1);
}

#[test]
fn unknown_cid_subscribe_is_dropped_silently() {
    let mut pool = Pool::new(16);
    pool.subscribe(Cid(99), b"room.1");
    assert!(pool.topics.is_empty());
}

#[test]
fn disconnect_scrubs_every_index() {
    let mut pool = Pool::new(16);
    let c = open_active(&mut pool, 1, b"u1");
    pool.subscribe(c, b"room.1");
    pool.subscribe(c, b"room.2");
    pool.attach(b"chat", c);
    let ch = pool.disconnect(c).expect("was present");
    assert!(ch.queue.len() > 0);
    assert!(!has_conn(&pool, c));
    assert!(pool.topics.is_empty());
    for (_, lat) in &pool.lattices {
        assert!(lat.subscribers.is_empty());
    }
    assert!(pool.sessions.is_empty());
}

#[test]
fn disconnect_keeps_other_connections() {
    let mut pool = Pool::new(16);
    let c1 = open_active(&mut pool, 1, b"u1");
    let c2 = open_active(&mut pool, 2, b"u1");
    pool.subscribe(c1, b"t");
    pool.subscribe(c2, b"t");
    pool.disconnect(c1);
    assert!(has_conn(&pool, c2));
    let (_, list) = pool.topics.iter().find(|(k, _)| k.as_slice() == b"t").unwrap();
    assert_eq!(list, &vec![c2]);
    // the session still lists its remaining connection
    let (_, sess) = pool.sessions.iter().find(|(k, _)| k.as_slice() == b"u1").unwrap();
    assert_eq!(sess.cids, vec![c2]);
}

#[test]
fn attach_delivers_snapshot() {
    let mut pool = Pool::new(16);
    let c = open_active(&mut pool, 1, b"u1");
    pool.lattice(b"chat", &delta_counter(b"k1", b"msg_counter", 5));
    pool.attach(b"chat", c);
    let q = queue_of(&pool, c);
    match q.last().unwrap() {
        ConnectionMessage::Lattice(ns, snap) => {
            assert_eq!(ns.0, b"chat".to_vec());
            assert_eq!(snap.items.len(), 1);
            assert_eq!(snap.items[0].0, b"k1".to_vec());
            assert_eq!(
                snap.items[0].1.fields[0],
                (b"msg_counter".to_vec(), FieldValue::Counter(5))
            );
        }
        other => panic!("expected a snapshot, got {:?}", other),
    }
}

#[test]
fn attach_with_empty_delta_gives_exactly_a_snapshot() {
    // Merging the empty delta changes nothing and fans out nothing; the
    // attach right after it delivers the namespace as it stands.
    let mut pool = Pool::new(16);
    let c = open_active(&mut pool, 1, b"u1");
    pool.lattice(b"chat", &delta_counter(b"k1", b"msg_counter", 5));
    let before = queue_of(&pool, c).len();
    pool.lattice(b"chat", &Delta::empty());
    assert_eq!(queue_of(&pool, c).len(), before);
    pool.attach(b"chat", c);
    let q = queue_of(&pool, c);
    assert_eq!(q.len(), before + 1);
    match q.last().unwrap() {
        ConnectionMessage::Lattice(_, snap) => assert_eq!(snap.items.len(), 1),
        other => panic!("expected a snapshot, got {:?}", other),
    }
}

#[test]
fn lattice_fans_out_only_the_diff() {
    let mut pool = Pool::new(16);
    let c = open_active(&mut pool, 1, b"u1");
    pool.attach(b"chat", c);
    pool.lattice(b"chat", &delta_counter(b"k1", b"msg_counter", 5));
    // a second, dominated delta changes nothing and sends nothing
    let before = queue_of(&pool, c).len();
    pool.lattice(b"chat", &delta_counter(b"k1", b"msg_counter", 3));
    let q = queue_of(&pool, c);
    assert_eq!(q.len(), before);
    match &q[before - 1] {
        ConnectionMessage::Lattice(_, diff) => {
            assert_eq!(
                diff.items[0].1.fields[0],
                (b"msg_counter".to_vec(), FieldValue::Counter(5))
            );
        }
        other => panic!("expected a fan-out, got {:?}", other),
    }
}

#[test]
fn slow_client_is_dropped_as_overloaded() {
    // High-water mark 3: hello plus two publishes fill the queue; the next
    // publish drops the connection instead of enqueueing.
    let mut pool = Pool::new(3);
    let c = open_active(&mut pool, 1, b"u1");
    pool.subscribe(c, b"t");
    assert!(pool.publish(b"t", b"1").is_empty());
    assert!(pool.publish(b"t", b"2").is_empty());
    let dropped = pool.publish(b"t", b"3");
    assert_eq!(dropped.len(), 1);
    let (dc, ch) = &dropped[0];
    assert_eq!(*dc, c);
    assert_eq!(
        ch.queue.last().unwrap(),
        &ConnectionMessage::StopSock(CloseReason::Overloaded)
    );
    // removed everywhere: later publishes reach nobody, the session shrank
    assert!(!has_conn(&pool, c));
    assert!(pool.sessions.is_empty());
    assert!(pool.publish(b"t", b"4").is_empty());
    assert!(pool.topics.is_empty());
}

#[test]
fn pending_buffer_flushes_after_hello() {
    let mut pool = Pool::new(16);
    let c = Cid(1);
    pool.new_connection(c);
    pool.subscribe(c, b"t");
    let dropped = pool.publish(b"t", b"early");
    assert!(dropped.is_empty());
    pool.associate(c, b"u1", b"{}");
    let q = queue_of(&pool, c);
    assert_eq!(
        q[0],
        ConnectionMessage::Hello(SessionId(b"u1".to_vec()), b"{}".to_vec())
    );
    assert_eq!(
        q[1],
        ConnectionMessage::Publish(Topic(b"t".to_vec()), b"early".to_vec())
    );
}

#[test]
fn auth_timeout_closes_pending_connection() {
    let mut pool = Pool::new(16);
    let c = Cid(1);
    pool.new_connection(c);
    let ch = pool.auth_timeout(c).expect("pending connection dropped");
    let n = ch.queue.len();
    assert_eq!(
        ch.queue[n - 2],
        ConnectionMessage::FatalError(swindon::connection::MessageError::AuthTimeout)
    );
    assert_eq!(
        ch.queue[n - 1],
        ConnectionMessage::StopSock(CloseReason::AuthTimeout)
    );
    assert!(!has_conn(&pool, c));
    // an active connection is not touched by the timeout
    let c2 = open_active(&mut pool, 2, b"u1");
    assert!(pool.auth_timeout(c2).is_none());
    assert!(has_conn(&pool, c2));
}

#[test]
fn watched_session_presence_is_announced() {
    let mut pool = Pool::new(16);
    let watcher = open_active(&mut pool, 1, b"admin");
    pool.attach_users(watcher, &vec![b"u2".to_vec()]);
    let before = queue_of(&pool, watcher).len();
    // u2 comes online: the watcher hears about it
    let c2 = open_active(&mut pool, 2, b"u2");
    let q = queue_of(&pool, watcher);
    assert_eq!(q.len(), before + 1);
    match q.last().unwrap() {
        ConnectionMessage::Lattice(ns, d) => {
            assert_eq!(ns.0, b"swindon.user".to_vec());
            assert_eq!(d.items[0].0, b"u2".to_vec());
            match &d.items[0].1.fields[0].1 {
                FieldValue::Register(_, v) => assert_eq!(v, &b"online".to_vec()),
                other => panic!("expected a register, got {:?}", other),
            }
        }
        other => panic!("expected a presence update, got {:?}", other),
    }
    // and hears again when it goes offline
    pool.disconnect(c2);
    let q = queue_of(&pool, watcher);
    match q.last().unwrap() {
        ConnectionMessage::Lattice(_, d) => match &d.items[0].1.fields[0].1 {
            FieldValue::Register(_, v) => assert_eq!(v, &b"offline".to_vec()),
            other => panic!("expected a register, got {:?}", other),
        },
        other => panic!("expected a presence update, got {:?}", other),
    }
}

#[test]
fn apply_dispatches_actions() {
    let mut pool = Pool::new(16);
    pool.apply(Action::NewConnection { conn_id: Cid(1) });
    pool.apply(Action::Associate {
        conn_id: Cid(1),
        session_id: SessionId(b"u1".to_vec()),
        metadata: b"{}".to_vec(),
    });
    pool.apply(Action::Subscribe { conn_id: Cid(1), topic: Topic(b"t".to_vec()) });
    pool.apply(Action::Publish { topic: Topic(b"t".to_vec()), data: b"{}".to_vec() });
    let q = queue_of(&pool, Cid(1));
    assert_eq!(
        q.last().unwrap(),
        &ConnectionMessage::Publish(Topic(b"t".to_vec()), b"{}".to_vec())
    );
}

#[test]
fn detach_stops_lattice_fanout() {
    let mut pool = Pool::new(16);
    let c = open_active(&mut pool, 1, b"u1");
    pool.attach(b"chat", c);
    pool.detach(b"chat", c);
    // the lattice itself stays, without the subscriber
    assert_eq!(pool.lattices.len(), 1);
    let before = queue_of(&pool, c).len();
    pool.lattice(b"chat", &delta_counter(b"k1", b"msg_counter", 1));
    assert_eq!(queue_of(&pool, c).len(), before);
}

#[test]
fn update_users_rewires_every_connection_of_the_session() {
    let mut pool = Pool::new(16);
    let c1 = open_active(&mut pool, 1, b"admin");
    let c2 = open_active(&mut pool, 2, b"admin");
    let other = open_active(&mut pool, 3, b"guest");
    let before1 = queue_of(&pool, c1).len();
    let before2 = queue_of(&pool, c2).len();
    let before3 = queue_of(&pool, other).len();
    pool.update_users(b"admin", &vec![b"guest".to_vec()]);
    // both admin connections got a presence snapshot naming the guest
    for (c, before) in [(c1, before1), (c2, before2)] {
        let q = queue_of(&pool, c);
        assert_eq!(q.len(), before + 1);
        match q.last().unwrap() {
            ConnectionMessage::Lattice(ns, d) => {
                assert_eq!(ns.0, b"swindon.user".to_vec());
                assert_eq!(d.items.len(), 1);
                assert_eq!(d.items[0].0, b"guest".to_vec());
            }
            other_msg => panic!("expected a snapshot, got {:?}", other_msg),
        }
    }
    // the guest's own queue is untouched
    assert_eq!(queue_of(&pool, other).len(), before3);
    // detaching stops future presence updates
    pool.detach_users(c1);
    let at = queue_of(&pool, c1).len();
    pool.new_connection(Cid(4));
    pool.associate(Cid(4), b"newbie", b"{}");
    assert_eq!(queue_of(&pool, c1).len(), at);
}
