//! Path sanitization for the static-file collaborator, and the WebSocket
//! connector's decisions.

use swindon::connection::{CloseReason, ConnectionMessage, MessageError};
use swindon::ids::SessionId;
use swindon::paths::{decode_component, from_hex, host_root, sanitize_path};
use swindon::websocket::{choose_proto, greeting, Greeting, ProtoChoice};

#[test]
fn hex_digits_decode() {
    assert_eq!(from_hex(b'0'), Ok(0));
    assert_eq!(from_hex(b'9'), Ok(9));
    assert_eq!(from_hex(b'a'), Ok(10));
    assert_eq!(from_hex(b'f'), Ok(15));
    assert_eq!(from_hex(b'A'), Ok(10));
    assert_eq!(from_hex(b'F'), Ok(15));
    assert_eq!(from_hex(b'g'), Err(()));
}

#[test]
fn components_percent_decode() {
    let mut buf = Vec::new();
    assert_eq!(decode_component(&mut buf, b"a%20b"), Ok(()));
    assert_eq!(buf, b"a b".to_vec());
    // an encoded slash cannot sneak a separator in
    let mut buf = Vec::new();
    assert_eq!(decode_component(&mut buf, b"a%2fb"), Err(()));
    // neither can a NUL, raw or encoded
    let mut buf = Vec::new();
    assert_eq!(decode_component(&mut buf, b"a%00b"), Err(()));
    let mut buf = Vec::new();
    assert_eq!(decode_component(&mut buf, b"a\0b"), Err(()));
    // a dangling percent is malformed
    let mut buf = Vec::new();
    assert_eq!(decode_component(&mut buf, b"a%2"), Err(()));
}

#[test]
fn paths_sanitize() {
    assert_eq!(sanitize_path(b"/static/app.js"), Some(b"static/app.js".to_vec()));
    // query and fragment are cut off
    assert_eq!(sanitize_path(b"/a/b?x=1"), Some(b"a/b".to_vec()));
    assert_eq!(sanitize_path(b"/a/b#frag"), Some(b"a/b".to_vec()));
    // current-directory segments vanish
    assert_eq!(sanitize_path(b"/a/./b//c"), Some(b"a/b/c".to_vec()));
    assert_eq!(sanitize_path(b"/a/%2e/b"), Some(b"a/b".to_vec()));
    // the result is relative even for absolute requests
    let out = sanitize_path(b"/x").unwrap();
    assert!(out.first() != Some(&b'/'));
}

#[test]
fn parent_segments_are_refused() {
    assert_eq!(sanitize_path(b"/a/../b"), None);
    assert_eq!(sanitize_path(b"/a/%2e%2e/b"), None);
    assert_eq!(sanitize_path(b"/a/.%2E/b"), None);
    assert_eq!(sanitize_path(b"/a/%2E./b"), None);
}

#[test]
fn non_utf8_results_are_refused() {
    // %C3%A9 decodes to a valid UTF-8 character, %FF cannot
    assert_eq!(sanitize_path(b"/caf%C3%A9"), Some("café".as_bytes().to_vec()));
    assert_eq!(sanitize_path(b"/caf%FF"), None);
}

#[test]
fn host_header_selects_a_root() {
    assert_eq!(host_root(Some(b"example.com:8080"), None), Some(b"example.com".to_vec()));
    assert_eq!(
        host_root(Some(b"sub.example.com"), Some(b"example.com")),
        Some(b"sub".to_vec())
    );
    // the suffix must sit behind a dot
    assert_eq!(host_root(Some(b"subexample.com"), Some(b"example.com")), None);
    // an empty prefix is refused
    assert_eq!(host_root(Some(b"example.com"), Some(b"example.com")), None);
    // slashes never belong in a host
    assert_eq!(host_root(Some(b"bad/host"), None), None);
    assert_eq!(host_root(None, None), None);
}

#[test]
fn subprotocol_choice_follows_the_offer() {
    let offered = vec![b"v1.swindon-lattice+json".to_vec()];
    assert_eq!(choose_proto(&offered, false), ProtoChoice::UseLattice);
    let both = vec![b"something-else".to_vec(), b"v1.swindon-lattice+json".to_vec()];
    assert_eq!(choose_proto(&both, false), ProtoChoice::UseLattice);
    // a subprotocol mismatch refuses the upgrade
    let other = vec![b"something-else".to_vec()];
    assert_eq!(choose_proto(&other, false), ProtoChoice::Refuse);
    assert_eq!(choose_proto(&other, true), ProtoChoice::Refuse);
    let none: Vec<Vec<u8>> = Vec::new();
    assert_eq!(choose_proto(&none, true), ProtoChoice::UseNone);
    assert_eq!(choose_proto(&none, false), ProtoChoice::Refuse);
}

#[test]
fn first_message_decides_the_socket() {
    // hello starts the loop
    let hello = ConnectionMessage::Hello(SessionId(b"u1".to_vec()), b"{}".to_vec());
    assert_eq!(
        greeting(Some(hello)),
        Greeting::StartLoop(SessionId(b"u1".to_vec()), b"{}".to_vec())
    );
    // a backend error with a good status closes with 4000 + status
    let err = ConnectionMessage::FatalError(MessageError::HttpError(403, None));
    assert_eq!(greeting(Some(err)), Greeting::CloseBackend(4403, None));
    // an invalid status falls back to the protocol-violation code
    let err = ConnectionMessage::FatalError(MessageError::HttpError(200, None));
    assert_eq!(greeting(Some(err)), Greeting::CloseBackend(4500, None));
    // any other first message is a protocol violation
    let stray = ConnectionMessage::StopSock(CloseReason::PoolClosed);
    assert_eq!(greeting(Some(stray)), Greeting::CloseProtocol);
    // a closed pool says so and closes with 1011
    assert_eq!(greeting(None), Greeting::ClosePool);
}
