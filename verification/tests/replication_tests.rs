//! The replication fabric: the server-id filter, peer bookkeeping, and
//! cross-node scenarios driven through two pools.

use swindon::connection::ConnectionMessage;
use swindon::ids::{Cid, PubCid, ServerId, Topic};
use swindon::lattice::{Delta, FieldValue, Values};
use swindon::processor::{ConnectionEntry, Pool};
use swindon::replication::{
    incoming_action, Effect, Message, PeerState, RemoteAction, ReplAction, Watcher,
};
use swindon::route::{dispatch, handle_data, BodyData, Route, State};

fn queue_of(pool: &Pool, cid: Cid) -> Vec<ConnectionMessage> {
    for e in &pool.connections {
        match e {
            ConnectionEntry::Pending(n) => {
                if n.cid == cid {
                    return n.channel.queue.clone();
                }
            }
            ConnectionEntry::Active(c) => {
                if c.cid == cid {
                    return c.channel.queue.clone();
                }
            }
        }
    }
    panic!("no such connection");
}

/// Feed one replicated action into a node, the way its watcher would.
fn deliver(pool: &mut Pool, my: ServerId, action: RemoteAction) {
    if let Some(a) = incoming_action(my, action) {
        pool.apply(a);
    }
}

fn delta_counter(key: &[u8], field: &[u8], n: u64) -> Delta {
    Delta {
        items: vec![(key.to_vec(), Values {
            fields: vec![(field.to_vec(), FieldValue::Counter(n))],
        })],
    }
}

#[test]
fn foreign_connection_actions_are_filtered() {
    let my = ServerId(1);
    let action = RemoteAction::Subscribe {
        conn_id: Cid(7),
        server_id: ServerId(2),
        topic: Topic(b"t".to_vec()),
    };
    assert!(incoming_action(my, action).is_none());
    // the owning node applies it
    let action = RemoteAction::Subscribe {
        conn_id: Cid(7),
        server_id: ServerId(1),
        topic: Topic(b"t".to_vec()),
    };
    assert!(incoming_action(my, action).is_some());
    // publishes apply everywhere, whoever sent them
    let p = RemoteAction::Publish { topic: Topic(b"t".to_vec()), data: b"{}".to_vec() };
    assert!(incoming_action(my, p).is_some());
}

#[test]
fn foreign_cid_changes_nothing_locally() {
    // A subscribe for a connection owned by node B arrives at node A over
    // the control plane: A's indices stay as they were, B's gain the entry.
    let a_id = ServerId(1);
    let b_id = ServerId(2);
    let mut pool_a = Pool::new(16);
    let mut pool_b = Pool::new(16);
    pool_b.new_connection(Cid(7));
    pool_b.associate(Cid(7), b"u1", b"{}");

    let out = handle_data(
        Route::Subscribe(PubCid(Cid(7), b_id), Topic(b"x".to_vec())),
        b"",
        BodyData::Undecodable,
        a_id,
    );
    for act in out.local {
        pool_a.apply(act);
    }
    assert!(pool_a.topics.is_empty());
    for ra in out.remote {
        deliver(&mut pool_b, b_id, ra);
    }
    assert_eq!(pool_b.topics.len(), 1);
    assert_eq!(pool_b.topics[0].0, b"x".to_vec());
    assert_eq!(pool_b.topics[0].1, vec![Cid(7)]);
}

#[test]
fn cross_node_publish_reaches_the_subscriber() {
    // Two peered nodes; the client sits on B and subscribes there; the
    // publish arrives at A and crosses the fabric.
    let a_id = ServerId(1);
    let b_id = ServerId(2);
    let mut pool_a = Pool::new(16);
    let mut pool_b = Pool::new(16);
    pool_b.new_connection(Cid(1));
    pool_b.associate(Cid(1), b"u1", b"{}");
    pool_b.subscribe(Cid(1), b"room.42");

    let parsed = dispatch(b"POST", b"/v1/publish/room/42");
    let route = match parsed {
        State::Query(r) => r,
        other => panic!("unexpected: {:?}", other),
    };
    let out = handle_data(route, b"{\"x\":1}", BodyData::Undecodable, a_id);
    assert_eq!(out.status, 204);
    for act in out.local {
        pool_a.apply(act);
    }
    for ra in out.remote {
        deliver(&mut pool_b, b_id, ra);
    }
    let q = queue_of(&pool_b, Cid(1));
    assert_eq!(
        q.last().unwrap(),
        &ConnectionMessage::Publish(Topic(b"room.42".to_vec()), b"{\"x\":1}".to_vec())
    );
}

#[test]
fn lattices_converge_across_nodes() {
    // Both nodes receive the same two deltas in opposite orders; both end
    // with the maximum, and each subscriber sees exactly one fan-out
    // carrying it.
    let mut pool_a = Pool::new(16);
    let mut pool_b = Pool::new(16);
    for pool in [&mut pool_a, &mut pool_b] {
        pool.new_connection(Cid(1));
        pool.associate(Cid(1), b"u1", b"{}");
        pool.attach(b"chat", Cid(1));
    }
    let d5 = delta_counter(b"k1", b"msg_counter", 5);
    let d3 = delta_counter(b"k1", b"msg_counter", 3);
    pool_a.lattice(b"chat", &d5);
    pool_a.lattice(b"chat", &d3);
    pool_b.lattice(b"chat", &d3);
    pool_b.lattice(b"chat", &d5);

    for pool in [&pool_a, &pool_b] {
        let (_, lat) = pool.lattices.iter().find(|(k, _)| k.as_slice() == b"chat").unwrap();
        let cell = lat.values.iter().find(|(k, _)| k.as_slice() == b"k1").unwrap();
        assert_eq!(cell.1.fields[0], (b"msg_counter".to_vec(), FieldValue::Counter(5)));
        let carrying_five = queue_of(pool, Cid(1))
            .iter()
            .filter(|m| match m {
                ConnectionMessage::Lattice(_, d) => d
                    .items
                    .iter()
                    .any(|(_, c)| c.fields.iter().any(|f| f.1 == FieldValue::Counter(5))),
                _ => false,
            })
            .count();
        assert_eq!(carrying_five, 1);
    }
}

#[test]
fn attach_registers_peer_and_link() {
    let mut w = Watcher::new(ServerId(1));
    w.attach(ServerId(9), Some(&b"east".to_vec()));
    assert_eq!(w.links, vec![ServerId(9)]);
    assert_eq!(w.peers.len(), 1);
    assert_eq!(w.peers[0].0, b"east".to_vec());
    assert_eq!(w.peers[0].1, PeerState::Connected(ServerId(9)));
    // an inbound link has no configured name
    w.attach(ServerId(5), None);
    assert_eq!(w.links, vec![ServerId(9), ServerId(5)]);
    assert_eq!(w.peers.len(), 1);
    // a duplicate link is kept once
    w.attach(ServerId(9), Some(&b"east".to_vec()));
    assert_eq!(w.links, vec![ServerId(9), ServerId(5)]);
}

#[test]
fn failed_sends_prune_links() {
    let mut w = Watcher::new(ServerId(1));
    w.attach(ServerId(9), None);
    w.attach(ServerId(5), None);
    assert_eq!(w.targets(), vec![ServerId(9), ServerId(5)]);
    w.prune(&vec![ServerId(9)]);
    assert_eq!(w.targets(), vec![ServerId(5)]);
}

#[test]
fn reconnect_dials_unlinked_peers() {
    let mut w = Watcher::new(ServerId(1));
    let cfg = vec![b"east".to_vec(), b"west".to_vec()];
    let dials = w.reconnect(&cfg, 100, 130);
    assert_eq!(dials, cfg);
    assert_eq!(w.peers.len(), 2);
    assert_eq!(w.peers[0].1, PeerState::Connecting(130));
    // a dial still within its deadline is not repeated
    let dials = w.reconnect(&cfg, 110, 140);
    assert!(dials.is_empty());
    // an expired dial is retried
    let dials = w.reconnect(&cfg, 200, 230);
    assert_eq!(dials, cfg);
}

#[test]
fn reconnect_drops_unconfigured_peers() {
    let mut w = Watcher::new(ServerId(1));
    w.attach(ServerId(9), Some(&b"east".to_vec()));
    w.attach(ServerId(5), Some(&b"west".to_vec()));
    // west leaves the configuration: its peer entry and link go away
    let dials = w.reconnect(&vec![b"east".to_vec()], 100, 130);
    assert!(dials.is_empty());
    assert_eq!(w.peers.len(), 1);
    assert_eq!(w.peers[0].0, b"east".to_vec());
    assert_eq!(w.links, vec![ServerId(9)]);
}

#[test]
fn connected_peer_with_lost_link_is_redialed() {
    let mut w = Watcher::new(ServerId(1));
    w.attach(ServerId(9), Some(&b"east".to_vec()));
    w.prune(&vec![ServerId(9)]);
    let dials = w.reconnect(&vec![b"east".to_vec()], 100, 130);
    assert_eq!(dials, vec![b"east".to_vec()]);
    assert_eq!(w.peers[0].1, PeerState::Connecting(130));
}

#[test]
fn smaller_id_closes_its_outbound_link() {
    let w = Watcher::new(ServerId(3));
    assert!(w.outbound_loser(ServerId(10)));
    assert!(!w.outbound_loser(ServerId(2)));
    assert!(!w.outbound_loser(ServerId(3)));
}

#[test]
fn watcher_step_dispatches() {
    let mut w = Watcher::new(ServerId(1));
    assert!(matches!(
        w.step(ReplAction::LinkUp { server_id: ServerId(9), peer: None }),
        Effect::Quiet
    ));
    // an outgoing message goes to every live link
    let out = w.step(ReplAction::Outgoing(Message(
        b"chat".to_vec(),
        RemoteAction::Publish { topic: Topic(b"t".to_vec()), data: b"{}".to_vec() },
    )));
    match out {
        Effect::Broadcast { targets, message } => {
            assert_eq!(targets, vec![ServerId(9)]);
            assert_eq!(message.0, b"chat".to_vec());
        }
        other => panic!("unexpected: {:?}", other),
    }
    // an incoming foreign connection-scoped action is dropped
    let quiet = w.step(ReplAction::Incoming(Message(
        b"chat".to_vec(),
        RemoteAction::Subscribe {
            conn_id: Cid(1),
            server_id: ServerId(2),
            topic: Topic(b"t".to_vec()),
        },
    )));
    assert!(matches!(quiet, Effect::Quiet));
    // an incoming publish is delivered to its pool
    let deliver = w.step(ReplAction::Incoming(Message(
        b"chat".to_vec(),
        RemoteAction::Publish { topic: Topic(b"t".to_vec()), data: b"{}".to_vec() },
    )));
    match deliver {
        Effect::Deliver { pool, action } => {
            assert_eq!(pool, b"chat".to_vec());
            assert!(matches!(action, swindon::processor::Action::Publish { .. }));
        }
        other => panic!("unexpected: {:?}", other),
    }
    // the reconnect tick asks for the missing dials
    let dial = w.step(ReplAction::Reconnect {
        peers: vec![b"east".to_vec()],
        now: 10,
        deadline: 40,
    });
    match dial {
        Effect::Dial { peers } => assert_eq!(peers, vec![b"east".to_vec()]),
        other => panic!("unexpected: {:?}", other),
    }
}

#[test]
fn broken_delta_from_a_peer_merges_nothing() {
    // a malformed delta in a replication frame becomes the empty merge
    let my = ServerId(1);
    let bad = Delta {
        items: vec![(b"k".to_vec(), Values {
            fields: vec![(b"weird".to_vec(), FieldValue::Counter(1))],
        })],
    };
    let a = incoming_action(
        my,
        RemoteAction::Lattice { namespace: swindon::ids::Namespace(b"chat".to_vec()), delta: bad },
    )
    .expect("lattice actions always apply");
    match a {
        swindon::processor::Action::Lattice { delta, .. } => assert!(delta.items.is_empty()),
        other => panic!("unexpected: {:?}", other),
    }
}
