//! The WebSocket connector's decisions: subprotocol choice and what to do
//! with the processor's first message after the upgrade.
//!
//! The socket handling itself — upgrade handshake, frames, the read/write
//! loop — lives outside the library; this module decides, from plain
//! values, which subprotocol to answer, and whether the authorized
//! connection enters the normal loop or is closed, and with which code.

use crate::connection::{ConnectionMessage, ErrV, MessageError, MsgV};
use crate::ids::{bytes_eq, Payload, SessionId};
use vstd::prelude::*;

verus! {

/// The bytes of the lattice subprotocol name, `v1.swindon-lattice+json`.
pub open spec fn lattice_proto() -> Seq<u8> {
    seq![
        118u8,
        49u8,
        46u8,
        115u8,
        119u8,
        105u8,
        110u8,
        100u8,
        111u8,
        110u8,
        45u8,
        108u8,
        97u8,
        116u8,
        116u8,
        105u8,
        99u8,
        101u8,
        43u8,
        106u8,
        115u8,
        111u8,
        110u8,
    ]
}

/// The lattice subprotocol name as bytes.
pub fn lattice_proto_vec() -> (v: Vec<u8>)
    ensures
        v@ =~= lattice_proto(),
{
    let mut v: Vec<u8> = Vec::new();
    v.push(118);
    v.push(49);
    v.push(46);
    v.push(115);
    v.push(119);
    v.push(105);
    v.push(110);
    v.push(100);
    v.push(111);
    v.push(110);
    v.push(45);
    v.push(108);
    v.push(97);
    v.push(116);
    v.push(116);
    v.push(105);
    v.push(99);
    v.push(101);
    v.push(43);
    v.push(106);
    v.push(115);
    v.push(111);
    v.push(110);
    v
}

/// The subprotocol to answer an upgrade with.
#[derive(Clone, Copy, PartialEq, Eq, Debug, Structural)]
pub enum ProtoChoice {
    /// Answer with the lattice subprotocol.
    UseLattice,
    /// Answer with no subprotocol.
    UseNone,
    /// Refuse the upgrade with `400 Bad Request`.
    Refuse,
}

/// Which subprotocol the handshake settles on: a subprotocol mismatch —
/// protocols offered, but not the lattice one — refuses the upgrade.
pub open spec fn spec_choose_proto(protocols: Seq<Seq<u8>>, allow_empty: bool) -> ProtoChoice {
    if protocols.len() == 0 {
        if allow_empty {
            ProtoChoice::UseNone
        } else {
            ProtoChoice::Refuse
        }
    } else if exists|i: int| 0 <= i < protocols.len() && protocols[i] == lattice_proto() {
        ProtoChoice::UseLattice
    } else {
        ProtoChoice::Refuse
    }
}

/// Choose the subprotocol for an upgrade.
///
/// A client offering no subprotocol is taken only where the configuration
/// allows it; one offering any list is answered with the lattice protocol
/// if it is among them, and refused with `400 Bad Request` otherwise.
pub fn choose_proto(protocols: &Vec<Vec<u8>>, allow_empty: bool) -> (r: ProtoChoice)
    ensures
        r == spec_choose_proto(crate::route::segs_view(protocols@), allow_empty),
{
    if protocols.len() == 0 {
        if allow_empty {
            return ProtoChoice::UseNone;
        } else {
            return ProtoChoice::Refuse;
        }
    }
    let want = lattice_proto_vec();
    let mut i: usize = 0;
    while i < protocols.len()
        invariant
            i <= protocols@.len(),
            want@ == lattice_proto(),
            forall|j: int|
                0 <= j < i ==> (#[trigger] crate::route::segs_view(protocols@)[j])
                    != lattice_proto(),
        decreases protocols@.len() - i,
    {
        if bytes_eq(protocols[i].as_slice(), want.as_slice()) {
            proof {
                assert(crate::route::segs_view(protocols@)[i as int] == lattice_proto());
            }
            return ProtoChoice::UseLattice;
        }
        i = i + 1;
    }
    ProtoChoice::Refuse
}

/// What the connector does with the processor's first message.
#[derive(Debug, PartialEq, Eq)]
pub enum Greeting {
    /// Send the hello frame and enter the normal loop.
    StartLoop(SessionId, Payload),
    /// Send a fatal-error frame, then close with this code and
    /// `backend_error` as the reason.
    CloseBackend(u16, Option<Payload>),
    /// Protocol violation: close with code 4500.
    CloseProtocol,
    /// The session pool is gone: send a `pool_closed` fatal error and close
    /// with code 1011.
    ClosePool,
}

/// Mathematical value of the connector's decision.
pub enum GreetingV {
    StartLoop(Seq<u8>, Seq<u8>),
    CloseBackend(u16, Option<Seq<u8>>),
    CloseProtocol,
    ClosePool,
}

impl View for Greeting {
    type V = GreetingV;

    open spec fn view(&self) -> GreetingV {
        match self {
            Greeting::StartLoop(s, d) => GreetingV::StartLoop(s@, d@),
            Greeting::CloseBackend(c, d) => GreetingV::CloseBackend(
                *c,
                match d {
                    Some(p) => Some(p@),
                    None => None,
                },
            ),
            Greeting::CloseProtocol => GreetingV::CloseProtocol,
            Greeting::ClosePool => GreetingV::ClosePool,
        }
    }
}

/// Whether an HTTP status can be carried in a close code: any 4xx or 5xx.
pub open spec fn good_status(s: u16) -> bool {
    400 <= s < 600
}

/// The connector's decision for the processor's first message:
/// `Hello` starts the normal loop; a fatal error with a valid HTTP status
/// closes with code 4000 plus the status and the error's payload; any other
/// fatal error closes with 4500; any other first message is a protocol
/// violation (4500); a closed pool answers `pool_closed` and 1011.
pub open spec fn spec_greeting(first: Option<MsgV>) -> GreetingV {
    match first {
        None => GreetingV::ClosePool,
        Some(MsgV::Hello(sid, data)) => GreetingV::StartLoop(sid, data),
        Some(MsgV::FatalError(e)) => match e {
            ErrV::HttpError(s, d) => if good_status(s) {
                GreetingV::CloseBackend((4000 + s) as u16, d)
            } else {
                GreetingV::CloseBackend(4500, None)
            },
            _ => GreetingV::CloseBackend(4500, None),
        },
        Some(_) => GreetingV::CloseProtocol,
    }
}

/// Decide what to do with the processor's first message after the upgrade.
pub fn greeting(first: Option<ConnectionMessage>) -> (r: Greeting)
    ensures
        r@ == spec_greeting(
            match first {
                Some(m) => Some(m@),
                None => None,
            },
        ),
{
    match first {
        None => Greeting::ClosePool,
        Some(ConnectionMessage::Hello(sid, data)) => Greeting::StartLoop(sid, data),
        Some(ConnectionMessage::FatalError(e)) => match e {
            MessageError::HttpError(s, d) => {
                if 400 <= s && s < 600 {
                    Greeting::CloseBackend(4000 + s, d)
                } else {
                    Greeting::CloseBackend(4500, None)
                }
            },
            _ => Greeting::CloseBackend(4500, None),
        },
        Some(_) => Greeting::CloseProtocol,
    }
}

} // verus!
