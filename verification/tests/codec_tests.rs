//! The control-plane HTTP codec: routes, policies and emitted actions.

use swindon::ids::{serialize_cid, serialize_pub_cid, Cid, PubCid, ServerId, Topic};
use swindon::processor::Action;
use swindon::replication::RemoteAction;
use swindon::route::{
    check_json, dispatch, handle_data, parse_request, response_status, BodyData, ContentType,
    Route, State,
};

fn cid_seg(cid: u64, srv: u128) -> String {
    format!("{}-{}", cid, srv)
}

#[test]
fn serialize_cid_writes_decimal() {
    assert_eq!(serialize_cid(&Cid(0)), "0");
    assert_eq!(serialize_cid(&Cid(42)), "42");
    assert_eq!(serialize_cid(&Cid(18446744073709551615)), "18446744073709551615");
}

#[test]
fn cid_parse_round_trips() {
    let s = serialize_cid(&Cid(9000));
    assert_eq!(Cid::from_decimal(s.as_bytes()), Some(Cid(9000)));
    assert_eq!(Cid::from_decimal(b""), None);
    assert_eq!(Cid::from_decimal(b"12x"), None);
    assert_eq!(Cid::from_decimal(b"18446744073709551616"), None);
}

#[test]
fn subscribe_route_parses() {
    let path = format!("/v1/connection/{}/subscriptions/room/42", cid_seg(7, 9));
    assert_eq!(
        dispatch(b"PUT", path.as_bytes()),
        State::Query(Route::Subscribe(
            PubCid(Cid(7), ServerId(9)),
            Topic(b"room.42".to_vec())
        ))
    );
    assert_eq!(
        dispatch(b"DELETE", path.as_bytes()),
        State::Query(Route::Unsubscribe(
            PubCid(Cid(7), ServerId(9)),
            Topic(b"room.42".to_vec())
        ))
    );
    assert_eq!(dispatch(b"POST", path.as_bytes()), State::Error(404));
}

#[test]
fn publish_and_lattice_routes_parse() {
    assert_eq!(
        dispatch(b"POST", b"/v1/publish/room/42"),
        State::Query(Route::Publish(Topic(b"room.42".to_vec())))
    );
    match dispatch(b"POST", b"/v1/lattice/chat") {
        State::Query(Route::Lattice(ns)) => assert_eq!(ns.0, b"chat".to_vec()),
        other => panic!("unexpected: {:?}", other),
    }
    match dispatch(b"PUT", b"/v1/user/u1/users") {
        State::Query(Route::UsersUpdate(sid)) => assert_eq!(sid.0, b"u1".to_vec()),
        other => panic!("unexpected: {:?}", other),
    }
}

#[test]
fn users_routes_parse() {
    let path = format!("/v1/connection/{}/users", cid_seg(3, 4));
    match dispatch(b"PUT", path.as_bytes()) {
        State::Query(Route::UsersSubscribe(pc)) => assert_eq!(pc, PubCid(Cid(3), ServerId(4))),
        other => panic!("unexpected: {:?}", other),
    }
    match dispatch(b"DELETE", path.as_bytes()) {
        State::Query(Route::UsersDetach(pc)) => assert_eq!(pc, PubCid(Cid(3), ServerId(4))),
        other => panic!("unexpected: {:?}", other),
    }
}

#[test]
fn malformed_paths_are_not_found() {
    assert_eq!(dispatch(b"POST", b"/v2/publish/x"), State::Error(404));
    assert_eq!(dispatch(b"POST", b"/v1/publish"), State::Error(404));
    // a dot inside a supplied segment is refused
    assert_eq!(dispatch(b"POST", b"/v1/publish/room.42"), State::Error(404));
    // empty segments make no valid topic
    assert_eq!(dispatch(b"POST", b"/v1/publish/room//42"), State::Error(404));
    // over the length bound
    let long = format!("/v1/publish/{}", "a".repeat(128));
    assert_eq!(dispatch(b"POST", long.as_bytes()), State::Error(404));
    // exactly at the bound is still a topic
    let edge = format!("/v1/publish/{}", "a".repeat(127));
    assert!(matches!(dispatch(b"POST", edge.as_bytes()), State::Query(Route::Publish(_))));
    // a cid without its node qualifier is refused
    assert_eq!(
        dispatch(b"PUT", b"/v1/connection/7/subscriptions/t"),
        State::Error(404)
    );
}

#[test]
fn reserved_namespace_is_forbidden() {
    // no local action, no remote action: the route never parses
    let path = format!("/v1/connection/{}/lattices/swindon/internal", cid_seg(1, 1));
    assert_eq!(dispatch(b"PUT", path.as_bytes()), State::Error(403));
    assert_eq!(dispatch(b"POST", b"/v1/lattice/swindon/users"), State::Error(403));
    assert_eq!(response_status(&State::Error(403)), 403);
}

#[test]
fn pub_cid_rendering_parses_back() {
    // the library's own rendering of a qualified connection id is exactly
    // what its route parser reads
    let pc = PubCid(Cid(12345), ServerId(340282366920938463463374607431768211455));
    let path = format!("/v1/connection/{}/users", serialize_pub_cid(&pc));
    match dispatch(b"PUT", path.as_bytes()) {
        State::Query(Route::UsersSubscribe(got)) => assert_eq!(got, pc),
        other => panic!("unexpected: {:?}", other),
    }
    let pc = PubCid(Cid(0), ServerId(7));
    let path = format!(
        "/v1/connection/{}/subscriptions/room/42",
        serialize_pub_cid(&pc)
    );
    match dispatch(b"PUT", path.as_bytes()) {
        State::Query(Route::Subscribe(got, _)) => assert_eq!(got, pc),
        other => panic!("unexpected: {:?}", other),
    }
}

#[test]
fn content_type_header_classifies() {
    assert_eq!(check_json(None), ContentType::Absent);
    assert_eq!(check_json(Some(b"application/json")), ContentType::Valid);
    // case-insensitive, parameters and whitespace ignored
    assert_eq!(
        check_json(Some(b"Application/JSON; charset=utf-8")),
        ContentType::Valid
    );
    assert_eq!(check_json(Some(b"  application/json  ")), ContentType::Valid);
    assert_eq!(check_json(Some(b"text/html")), ContentType::Invalid);
    assert_eq!(check_json(Some(b"application/jsonx")), ContentType::Invalid);
    assert_eq!(check_json(Some(b"")), ContentType::Invalid);
    // the classification feeds the codec's policy
    let path = format!("/v1/connection/{}/lattices/chat", cid_seg(1, 1));
    assert!(matches!(
        parse_request(
            b"PUT",
            Some(path.as_bytes()),
            check_json(Some(b"application/json")),
            false
        ),
        State::Query(_)
    ));
    assert_eq!(
        parse_request(b"PUT", Some(path.as_bytes()), check_json(None), false),
        State::Error(400)
    );
}

#[test]
fn content_type_policy_applies_to_bodied_routes() {
    let put = b"PUT";
    let path = format!("/v1/connection/{}/lattices/chat", cid_seg(1, 1));
    let p = Some(path.as_bytes());
    // bodied route: JSON required
    assert!(matches!(
        parse_request(put, p, ContentType::Valid, false),
        State::Query(_)
    ));
    assert_eq!(parse_request(put, p, ContentType::Absent, false), State::Error(400));
    assert_eq!(parse_request(put, p, ContentType::Invalid, false), State::Error(400));
    // the lenient switch keeps the deprecated behavior
    assert!(matches!(
        parse_request(put, p, ContentType::Absent, true),
        State::Query(_)
    ));
    // bodyless route: the header does not matter
    let spath = format!("/v1/connection/{}/subscriptions/t", cid_seg(1, 1));
    assert!(matches!(
        parse_request(put, Some(spath.as_bytes()), ContentType::Absent, false),
        State::Query(_)
    ));
    // no path at all is a bad request
    assert_eq!(parse_request(put, None, ContentType::Valid, false), State::Error(400));
}

#[test]
fn has_body_matches_routes() {
    let pc = PubCid(Cid(1), ServerId(1));
    assert!(!Route::Subscribe(pc, Topic(b"t".to_vec())).has_body());
    assert!(!Route::Unsubscribe(pc, Topic(b"t".to_vec())).has_body());
    assert!(Route::Publish(Topic(b"t".to_vec())).has_body());
    assert!(!Route::UsersDetach(pc).has_body());
    assert!(Route::UsersSubscribe(pc).has_body());
}

#[test]
fn publish_requires_json_body() {
    // runs the real JSON parser behind the codec: a valid body is accepted,
    // a broken one answers 400 with no actions
    let my = ServerId(1);
    let ok = handle_data(
        Route::Publish(Topic(b"t".to_vec())),
        b"{\"x\":1}",
        BodyData::Undecodable,
        my,
    );
    assert_eq!(ok.status, 204);
    assert_eq!(ok.local.len(), 1);
    assert_eq!(ok.remote.len(), 1);
    let bad = handle_data(
        Route::Publish(Topic(b"t".to_vec())),
        b"{\"x\":",
        BodyData::Undecodable,
        my,
    );
    assert_eq!(bad.status, 400);
    assert!(bad.local.is_empty());
    assert!(bad.remote.is_empty());
}

#[test]
fn subscribe_demands_empty_body() {
    let my = ServerId(1);
    let pc = PubCid(Cid(5), ServerId(1));
    let ok = handle_data(
        Route::Subscribe(pc, Topic(b"t".to_vec())),
        b"",
        BodyData::Undecodable,
        my,
    );
    assert_eq!(ok.status, 204);
    assert_eq!(
        ok.local,
        vec![Action::Subscribe { conn_id: Cid(5), topic: Topic(b"t".to_vec()) }]
    );
    assert_eq!(
        ok.remote,
        vec![RemoteAction::Subscribe {
            conn_id: Cid(5),
            server_id: ServerId(1),
            topic: Topic(b"t".to_vec()),
        }]
    );
    let bad = handle_data(
        Route::Subscribe(pc, Topic(b"t".to_vec())),
        b"x",
        BodyData::Undecodable,
        my,
    );
    assert_eq!(bad.status, 400);
    assert!(bad.local.is_empty() && bad.remote.is_empty());
}

#[test]
fn foreign_cid_skips_the_local_action() {
    // the request names a connection owned by another node: it is only
    // replicated, never applied here
    let my = ServerId(1);
    let foreign = PubCid(Cid(5), ServerId(2));
    let out = handle_data(
        Route::Subscribe(foreign, Topic(b"x".to_vec())),
        b"",
        BodyData::Undecodable,
        my,
    );
    assert_eq!(out.status, 204);
    assert!(out.local.is_empty());
    assert_eq!(out.remote.len(), 1);
}

#[test]
fn malformed_delta_body_is_bad_request() {
    let my = ServerId(1);
    let pc = PubCid(Cid(5), ServerId(1));
    let out = handle_data(
        Route::LatticeSubscribe(pc, swindon::ids::Namespace(b"chat".to_vec())),
        b"{",
        BodyData::Undecodable,
        my,
    );
    assert_eq!(out.status, 400);
    assert!(out.local.is_empty() && out.remote.is_empty());
}

#[test]
fn lattice_subscribe_merges_then_attaches() {
    let my = ServerId(1);
    let pc = PubCid(Cid(5), ServerId(1));
    let delta = swindon::lattice::Delta {
        items: vec![(b"k".to_vec(), swindon::lattice::Values {
            fields: vec![(b"n_counter".to_vec(), swindon::lattice::FieldValue::Counter(1))],
        })],
    };
    let out = handle_data(
        Route::LatticeSubscribe(pc, swindon::ids::Namespace(b"chat".to_vec())),
        b"{\"k\":{\"n_counter\":1}}",
        BodyData::DeltaBody(delta),
        my,
    );
    assert_eq!(out.status, 204);
    assert_eq!(out.local.len(), 2);
    assert!(matches!(out.local[0], Action::Lattice { .. }));
    assert!(matches!(out.local[1], Action::Attach { .. }));
    assert_eq!(out.remote.len(), 2);
    assert!(matches!(out.remote[0], RemoteAction::Lattice { .. }));
    assert!(matches!(out.remote[1], RemoteAction::Attach { .. }));
}
