//! The control-plane HTTP codec: URL and method to `Route`, body and
//! route to actions.
//!
//! Publishers and subscription managers drive the fabric over a small HTTP
//! API.  This module parses the request line into a `Route`, applies the
//! content-type policy, and turns a routed request plus its body into the
//! local `Action` and the replicated `RemoteAction` it stands for, together
//! with the HTTP status of the reply.  Topic and namespace paths arrive as
//! URL segments and are re-read as dotted names; a segment that itself
//! holds a dot is rejected, and lattice namespaces under the reserved
//! `swindon.` prefix are refused outright.

use crate::ids::{all_digits, bytes_eq, clone_bytes, dec_value, Cid, PubCid, ServerId};
use vstd::prelude::*;

verus! {

/// The bytes of `connection`.
pub open spec fn seg_connection() -> Seq<u8> {
    seq![99u8, 111u8, 110u8, 110u8, 101u8, 99u8, 116u8, 105u8, 111u8, 110u8]
}

/// The bytes of `subscriptions`.
pub open spec fn seg_subscriptions() -> Seq<u8> {
    seq![115u8, 117u8, 98u8, 115u8, 99u8, 114u8, 105u8, 112u8, 116u8, 105u8, 111u8, 110u8, 115u8]
}

/// The bytes of `lattices`.
pub open spec fn seg_lattices() -> Seq<u8> {
    seq![108u8, 97u8, 116u8, 116u8, 105u8, 99u8, 101u8, 115u8]
}

/// The bytes of `users`.
pub open spec fn seg_users() -> Seq<u8> {
    seq![117u8, 115u8, 101u8, 114u8, 115u8]
}

/// The bytes of `user`.
pub open spec fn seg_user() -> Seq<u8> {
    seq![117u8, 115u8, 101u8, 114u8]
}

/// The bytes of `publish`.
pub open spec fn seg_publish() -> Seq<u8> {
    seq![112u8, 117u8, 98u8, 108u8, 105u8, 115u8, 104u8]
}

/// The bytes of `lattice`.
pub open spec fn seg_lattice() -> Seq<u8> {
    seq![108u8, 97u8, 116u8, 116u8, 105u8, 99u8, 101u8]
}

/// The bytes of `PUT`.
pub open spec fn method_put() -> Seq<u8> {
    seq![80u8, 85u8, 84u8]
}

/// The bytes of `DELETE`.
pub open spec fn method_delete() -> Seq<u8> {
    seq![68u8, 69u8, 76u8, 69u8, 84u8, 69u8]
}

/// The bytes of `POST`.
pub open spec fn method_post() -> Seq<u8> {
    seq![80u8, 79u8, 83u8, 84u8]
}

/// The bytes of `swindon.`.
pub open spec fn reserved_prefix() -> Seq<u8> {
    seq![115u8, 119u8, 105u8, 110u8, 100u8, 111u8, 110u8, 46u8]
}

/// The bytes of `/v1/`.
pub open spec fn api_prefix() -> Seq<u8> {
    seq![47u8, 118u8, 49u8, 47u8]
}

fn seg_connection_vec() -> (v: Vec<u8>)
    ensures
        v@ =~= seg_connection(),
{
    let mut v: Vec<u8> = Vec::new();
    v.push(99);
    v.push(111);
    v.push(110);
    v.push(110);
    v.push(101);
    v.push(99);
    v.push(116);
    v.push(105);
    v.push(111);
    v.push(110);
    v
}

fn seg_subscriptions_vec() -> (v: Vec<u8>)
    ensures
        v@ =~= seg_subscriptions(),
{
    let mut v: Vec<u8> = Vec::new();
    v.push(115);
    v.push(117);
    v.push(98);
    v.push(115);
    v.push(99);
    v.push(114);
    v.push(105);
    v.push(112);
    v.push(116);
    v.push(105);
    v.push(111);
    v.push(110);
    v.push(115);
    v
}

fn seg_lattices_vec() -> (v: Vec<u8>)
    ensures
        v@ =~= seg_lattices(),
{
    let mut v: Vec<u8> = Vec::new();
    v.push(108);
    v.push(97);
    v.push(116);
    v.push(116);
    v.push(105);
    v.push(99);
    v.push(101);
    v.push(115);
    v
}

fn seg_users_vec() -> (v: Vec<u8>)
    ensures
        v@ =~= seg_users(),
{
    let mut v: Vec<u8> = Vec::new();
    v.push(117);
    v.push(115);
    v.push(101);
    v.push(114);
    v.push(115);
    v
}

fn seg_user_vec() -> (v: Vec<u8>)
    ensures
        v@ =~= seg_user(),
{
    let mut v: Vec<u8> = Vec::new();
    v.push(117);
    v.push(115);
    v.push(101);
    v.push(114);
    v
}

fn seg_publish_vec() -> (v: Vec<u8>)
    ensures
        v@ =~= seg_publish(),
{
    let mut v: Vec<u8> = Vec::new();
    v.push(112);
    v.push(117);
    v.push(98);
    v.push(108);
    v.push(105);
    v.push(115);
    v.push(104);
    v
}

fn seg_lattice_vec() -> (v: Vec<u8>)
    ensures
        v@ =~= seg_lattice(),
{
    let mut v: Vec<u8> = Vec::new();
    v.push(108);
    v.push(97);
    v.push(116);
    v.push(116);
    v.push(105);
    v.push(99);
    v.push(101);
    v
}

fn method_put_vec() -> (v: Vec<u8>)
    ensures
        v@ =~= method_put(),
{
    let mut v: Vec<u8> = Vec::new();
    v.push(80);
    v.push(85);
    v.push(84);
    v
}

fn method_delete_vec() -> (v: Vec<u8>)
    ensures
        v@ =~= method_delete(),
{
    let mut v: Vec<u8> = Vec::new();
    v.push(68);
    v.push(69);
    v.push(76);
    v.push(69);
    v.push(84);
    v.push(69);
    v
}

fn method_post_vec() -> (v: Vec<u8>)
    ensures
        v@ =~= method_post(),
{
    let mut v: Vec<u8> = Vec::new();
    v.push(80);
    v.push(79);
    v.push(83);
    v.push(84);
    v
}

fn reserved_prefix_vec() -> (v: Vec<u8>)
    ensures
        v@ =~= reserved_prefix(),
{
    let mut v: Vec<u8> = Vec::new();
    v.push(115);
    v.push(119);
    v.push(105);
    v.push(110);
    v.push(100);
    v.push(111);
    v.push(110);
    v.push(46);
    v
}

fn api_prefix_vec() -> (v: Vec<u8>)
    ensures
        v@ =~= api_prefix(),
{
    let mut v: Vec<u8> = Vec::new();
    v.push(47);
    v.push(118);
    v.push(49);
    v.push(47);
    v
}

/// Position of the first occurrence of a byte, or -1.
pub open spec fn find_byte(p: Seq<u8>, b: u8) -> int
    decreases p.len(),
{
    if p.len() == 0 {
        -1
    } else if p[0] == b {
        0
    } else {
        let r = find_byte(p.skip(1), b);
        if r < 0 {
            -1
        } else {
            r + 1
        }
    }
}

/// What `find_byte` finds.
pub proof fn lemma_find_byte(p: Seq<u8>, b: u8)
    ensures
        find_byte(p, b) < 0 ==> forall|i: int| 0 <= i < p.len() ==> p[i] != b,
        find_byte(p, b) >= 0 ==> find_byte(p, b) < p.len() && p[find_byte(p, b)] == b && forall|
            i: int,
        | 0 <= i < find_byte(p, b) ==> p[i] != b,
    decreases p.len(),
{
    if p.len() > 0 && p[0] != b {
        lemma_find_byte(p.skip(1), b);
        let rest = p.skip(1);
        assert(forall|i: int| 0 <= i < rest.len() ==> #[trigger] rest[i] == p[i + 1]);
        let r = find_byte(rest, b);
        if r < 0 {
            assert forall|i: int| 0 <= i < p.len() implies p[i] != b by {
                if i > 0 {
                    assert(rest[i - 1] == p[i]);
                }
            }
        } else {
            assert(p[r + 1] == rest[r]);
            assert forall|i: int| 0 <= i < r + 1 implies p[i] != b by {
                if i > 0 {
                    assert(rest[i - 1] == p[i]);
                }
            }
        }
    }
}

/// A path split at slashes, the way the control plane reads it.
pub open spec fn split_segs(p: Seq<u8>) -> Seq<Seq<u8>>
    decreases p.len(),
{
    let i = find_byte(p, 47);
    if 0 <= i && i < p.len() {
        seq![p.take(i)] + split_segs(p.skip(i + 1))
    } else {
        seq![p]
    }
}

/// Segments re-joined with dots: how a topic or namespace path is read.
pub open spec fn join_dots(ss: Seq<Seq<u8>>) -> Seq<u8>
    decreases ss.len(),
{
    if ss.len() == 0 {
        Seq::empty()
    } else if ss.len() == 1 {
        ss[0]
    } else {
        ss[0] + seq![46u8] + join_dots(ss.skip(1))
    }
}

/// `p` is a prefix of `s`.
pub open spec fn has_prefix(s: Seq<u8>, p: Seq<u8>) -> bool {
    s.len() >= p.len() && s.take(p.len() as int) == p
}

/// The segments form a valid dotted name: at least one, each nonempty and
/// dot-free, and the dotted form at most 127 bytes long.
pub open spec fn valid_dotted(ss: Seq<Seq<u8>>) -> bool {
    &&& ss.len() >= 1
    &&& forall|i: int|
        0 <= i < ss.len() ==> (#[trigger] ss[i]).len() >= 1 && find_byte(ss[i], 46) < 0
    &&& join_dots(ss).len() <= 127
}

/// The qualified connection id a URL segment denotes:
/// `<counter>-<node>`, both decimal.
pub open spec fn pub_cid_of(s: Seq<u8>) -> Option<PubCid> {
    let i = find_byte(s, 45);
    if i < 0 {
        None
    } else {
        let a = s.take(i);
        let b = s.skip(i + 1);
        if a.len() > 0 && all_digits(a) && dec_value(a) <= u64::MAX && b.len() > 0 && all_digits(
            b,
        ) && dec_value(b) <= u128::MAX {
            Some(PubCid(Cid(dec_value(a) as u64), ServerId(dec_value(b) as u128)))
        } else {
            None
        }
    }
}

/// Mathematical value of a parsed route.
pub enum RouteV {
    Subscribe(PubCid, Seq<u8>),
    Unsubscribe(PubCid, Seq<u8>),
    Publish(Seq<u8>),
    LatticeSubscribe(PubCid, Seq<u8>),
    Detach(PubCid, Seq<u8>),
    UsersSubscribe(PubCid),
    UsersUpdate(Seq<u8>),
    UsersDetach(PubCid),
    Lattice(Seq<u8>),
}

/// Mathematical value of a request's parse state.
pub enum StateV {
    Query(RouteV),
    Done,
    Error(u16),
}

/// The route (or error) the path after `/v1/` and the method stand for.
pub open spec fn route_of(m: Seq<u8>, ss: Seq<Seq<u8>>) -> StateV {
    if ss.len() >= 3 && ss[0] == seg_connection() {
        let cid = pub_cid_of(ss[1]);
        if ss[2] == seg_subscriptions() {
            if ss.len() >= 4 && cid is Some && valid_dotted(ss.skip(3)) {
                if m == method_put() {
                    StateV::Query(RouteV::Subscribe(cid->0, join_dots(ss.skip(3))))
                } else if m == method_delete() {
                    StateV::Query(RouteV::Unsubscribe(cid->0, join_dots(ss.skip(3))))
                } else {
                    StateV::Error(404)
                }
            } else {
                StateV::Error(404)
            }
        } else if ss[2] == seg_lattices() {
            if ss.len() >= 4 && valid_dotted(ss.skip(3)) && has_prefix(
                join_dots(ss.skip(3)),
                reserved_prefix(),
            ) {
                StateV::Error(403)
            } else if ss.len() >= 4 && cid is Some && valid_dotted(ss.skip(3)) {
                if m == method_put() {
                    StateV::Query(RouteV::LatticeSubscribe(cid->0, join_dots(ss.skip(3))))
                } else if m == method_delete() {
                    StateV::Query(RouteV::Detach(cid->0, join_dots(ss.skip(3))))
                } else {
                    StateV::Error(404)
                }
            } else {
                StateV::Error(404)
            }
        } else if ss[2] == seg_users() {
            if cid is Some {
                if m == method_put() {
                    StateV::Query(RouteV::UsersSubscribe(cid->0))
                } else if m == method_delete() {
                    StateV::Query(RouteV::UsersDetach(cid->0))
                } else {
                    StateV::Error(404)
                }
            } else {
                StateV::Error(404)
            }
        } else {
            StateV::Error(404)
        }
    } else if m == method_post() && ss.len() >= 2 && ss[0] == seg_publish() {
        if valid_dotted(ss.skip(1)) {
            StateV::Query(RouteV::Publish(join_dots(ss.skip(1))))
        } else {
            StateV::Error(404)
        }
    } else if m == method_post() && ss.len() >= 2 && ss[0] == seg_lattice() {
        if valid_dotted(ss.skip(1)) && has_prefix(join_dots(ss.skip(1)), reserved_prefix()) {
            StateV::Error(403)
        } else if valid_dotted(ss.skip(1)) {
            StateV::Query(RouteV::Lattice(join_dots(ss.skip(1))))
        } else {
            StateV::Error(404)
        }
    } else if m == method_put() && ss.len() >= 3 && ss[0] == seg_user() && ss[2] == seg_users()
        && ss[1].len() >= 1 {
        StateV::Query(RouteV::UsersUpdate(ss[1]))
    } else {
        StateV::Error(404)
    }
}

/// The route (or error) a request line stands for.
pub open spec fn spec_dispatch(m: Seq<u8>, path: Seq<u8>) -> StateV {
    if !has_prefix(path, api_prefix()) {
        StateV::Error(404)
    } else {
        route_of(m, split_segs(path.skip(4)))
    }
}

/// The byte strings a segment list stands for.
pub open spec fn segs_view(s: Seq<Vec<u8>>) -> Seq<Seq<u8>> {
    s.map_values(|x: Vec<u8>| x@)
}

/// Find the first occurrence of a byte.
pub fn find_byte_exec(p: &[u8], b: u8) -> (r: Option<usize>)
    ensures
        match r {
            Some(i) => i == find_byte(p@, b) && i < p@.len(),
            None => find_byte(p@, b) < 0,
        },
{
    proof {
        lemma_find_byte(p@, b);
    }
    let mut i: usize = 0;
    while i < p.len()
        invariant
            i <= p@.len(),
            forall|j: int| 0 <= j < i ==> p@[j] != b,
            find_byte(p@, b) < 0 ==> forall|j: int| 0 <= j < p@.len() ==> p@[j] != b,
            find_byte(p@, b) >= 0 ==> find_byte(p@, b) < p@.len() && p@[find_byte(p@, b)] == b
                && forall|j: int| 0 <= j < find_byte(p@, b) ==> p@[j] != b,
        decreases p@.len() - i,
    {
        if p[i] == b {
            return Some(i);
        }
        i = i + 1;
    }
    None
}

/// Split a path at slashes.
pub fn split_segments(p: &[u8]) -> (r: Vec<Vec<u8>>)
    ensures
        segs_view(r@) == split_segs(p@),
        r@.len() >= 1,
    decreases p@.len(),
{
    match find_byte_exec(p, 47) {
        None => {
            let mut r: Vec<Vec<u8>> = Vec::new();
            r.push(clone_bytes(p));
            proof {
                assert(segs_view(r@) =~= seq![p@]);
            }
            r
        },
        Some(i) => {
            let n = p.len();
            let head = clone_bytes(vstd::slice::slice_subrange(p, 0, i));
            let mut rest = split_segments(vstd::slice::slice_subrange(p, i + 1, n));
            let ghost restv = segs_view(rest@);
            rest.insert(0, head);
            proof {
                assert(segs_view(rest@) =~= seq![p@.take(i as int)] + restv) by {
                    assert(segs_view(rest@).len() == restv.len() + 1);
                    assert(segs_view(rest@)[0] == p@.take(i as int));
                    assert(forall|j: int|
                        0 < j < segs_view(rest@).len() ==> #[trigger] segs_view(rest@)[j]
                            == restv[j - 1]);
                }
                assert(p@.subrange(i as int + 1, p@.len() as int) =~= p@.skip(i as int + 1));
                assert(p@.subrange(0, i as int) =~= p@.take(i as int));
            }
            rest
        },
    }
}

/// Join segments from an index on with dots.
fn join_dots_exec(segs: &Vec<Vec<u8>>, from: usize) -> (r: Vec<u8>)
    requires
        from < segs@.len(),
    ensures
        r@ == join_dots(segs_view(segs@).skip(from as int)),
    decreases segs@.len() - from,
{
    let mut r = clone_bytes(segs[from].as_slice());
    let n = segs.len();
    if from + 1 < n {
        r.push(46);
        let mut rest = join_dots_exec(segs, from + 1);
        r.append(&mut rest);
        proof {
            let sv = segs_view(segs@);
            assert(sv.skip(from as int)[0] == sv[from as int]);
            assert(sv.skip(from as int).skip(1) =~= sv.skip(from as int + 1));
            assert(r@ =~= sv[from as int] + seq![46u8] + join_dots(sv.skip(from as int + 1)));
        }
    } else {
        proof {
            let sv = segs_view(segs@);
            assert(sv.skip(from as int).len() == 1);
            assert(sv.skip(from as int)[0] == sv[from as int]);
        }
    }
    r
}

/// The dotted name the segments from an index on stand for, if they are a
/// valid one.
fn dotted_name(segs: &Vec<Vec<u8>>, from: usize) -> (r: Option<Vec<u8>>)
    requires
        from <= segs@.len(),
    ensures
        match r {
            Some(v) => valid_dotted(segs_view(segs@).skip(from as int)) && v@ == join_dots(
                segs_view(segs@).skip(from as int),
            ),
            None => !valid_dotted(segs_view(segs@).skip(from as int)),
        },
{
    let ghost tail = segs_view(segs@).skip(from as int);
    if from >= segs.len() {
        return None;
    }
    let mut i: usize = from;
    while i < segs.len()
        invariant
            from <= i <= segs@.len(),
            tail == segs_view(segs@).skip(from as int),
            from < segs@.len(),
            forall|j: int|
                from <= j < i ==> (#[trigger] segs_view(segs@)[j]).len() >= 1 && find_byte(
                    segs_view(segs@)[j],
                    46,
                ) < 0,
        decreases segs@.len() - i,
    {
        let seg = &segs[i];
        if seg.len() == 0 {
            proof {
                assert(tail[i - from] == segs_view(segs@)[i as int]);
            }
            return None;
        }
        match find_byte_exec(seg.as_slice(), 46) {
            Some(_) => {
                proof {
                    assert(tail[i - from] == segs_view(segs@)[i as int]);
                }
                return None;
            },
            None => {},
        }
        i = i + 1;
    }
    let joined = join_dots_exec(segs, from);
    proof {
        assert(forall|j: int| 0 <= j < tail.len() ==> #[trigger] tail[j] == segs_view(segs@)[j
            + from]);
    }
    if joined.len() > 127 {
        return None;
    }
    Some(joined)
}

/// Whether one byte string is a prefix of another.
fn starts_with(s: &[u8], p: &[u8]) -> (r: bool)
    ensures
        r == has_prefix(s@, p@),
{
    if s.len() < p.len() {
        return false;
    }
    let mut i: usize = 0;
    while i < p.len()
        invariant
            p@.len() <= s@.len(),
            i <= p@.len(),
            forall|j: int| 0 <= j < i ==> s@[j] == p@[j],
        decreases p@.len() - i,
    {
        if s[i] != p[i] {
            proof {
                assert(s@.take(p@.len() as int)[i as int] == s@[i as int]);
            }
            return false;
        }
        i = i + 1;
    }
    proof {
        assert(s@.take(p@.len() as int) =~= p@);
    }
    true
}

/// Parse the qualified connection id of a URL segment.
fn parse_pub_cid(s: &[u8]) -> (r: Option<PubCid>)
    ensures
        r == pub_cid_of(s@),
{
    match find_byte_exec(s, 45) {
        None => None,
        Some(i) => {
            let n = s.len();
            let a = vstd::slice::slice_subrange(s, 0, i);
            let b = vstd::slice::slice_subrange(s, i + 1, n);
            proof {
                assert(a@ =~= s@.take(i as int));
                assert(b@ =~= s@.skip(i as int + 1));
            }
            let cid = Cid::from_decimal(a);
            let srv = crate::ids::parse_u128(b);
            match (cid, srv) {
                (Some(c), Some(n)) => Some(PubCid(c, ServerId(n))),
                _ => None,
            }
        },
    }
}

/// A parsed control-plane request.
#[derive(Clone, PartialEq, Eq, Debug)]
pub enum Route {
    /// `PUT /v1/connection/<cid>/subscriptions/<path>`
    Subscribe(PubCid, crate::ids::Topic),
    /// `DELETE /v1/connection/<cid>/subscriptions/<path>`
    Unsubscribe(PubCid, crate::ids::Topic),
    /// `POST /v1/publish/<path>`
    Publish(crate::ids::Topic),
    /// `PUT /v1/connection/<cid>/lattices/<namespace>`
    LatticeSubscribe(PubCid, crate::ids::Namespace),
    /// `DELETE /v1/connection/<cid>/lattices/<namespace>`
    Detach(PubCid, crate::ids::Namespace),
    /// `PUT /v1/connection/<cid>/users`
    UsersSubscribe(PubCid),
    /// `PUT /v1/user/<session_id>/users`
    UsersUpdate(crate::ids::SessionId),
    /// `DELETE /v1/connection/<cid>/users`
    UsersDetach(PubCid),
    /// `POST /v1/lattice/<namespace>`
    Lattice(crate::ids::Namespace),
}

impl View for Route {
    type V = RouteV;

    open spec fn view(&self) -> RouteV {
        match self {
            Route::Subscribe(pc, t) => RouteV::Subscribe(*pc, t@),
            Route::Unsubscribe(pc, t) => RouteV::Unsubscribe(*pc, t@),
            Route::Publish(t) => RouteV::Publish(t@),
            Route::LatticeSubscribe(pc, n) => RouteV::LatticeSubscribe(*pc, n@),
            Route::Detach(pc, n) => RouteV::Detach(*pc, n@),
            Route::UsersSubscribe(pc) => RouteV::UsersSubscribe(*pc),
            Route::UsersUpdate(s) => RouteV::UsersUpdate(s@),
            Route::UsersDetach(pc) => RouteV::UsersDetach(*pc),
            Route::Lattice(n) => RouteV::Lattice(n@),
        }
    }
}

/// Where a request stands after its line was parsed.
#[derive(Clone, PartialEq, Eq, Debug)]
pub enum State {
    /// A recognized route, awaiting its body.
    Query(Route),
    /// Handled; the reply is `204 No Content`.
    Done,
    /// Refused with this HTTP status.
    Error(u16),
}

impl View for State {
    type V = StateV;

    open spec fn view(&self) -> StateV {
        match self {
            State::Query(r) => StateV::Query(r@),
            State::Done => StateV::Done,
            State::Error(s) => StateV::Error(*s),
        }
    }
}

/// Whether a route's request carries a body.
pub open spec fn spec_has_body(r: RouteV) -> bool {
    match r {
        RouteV::Subscribe(_, _) => false,
        RouteV::Unsubscribe(_, _) => false,
        RouteV::Publish(_) => true,
        RouteV::LatticeSubscribe(_, _) => true,
        RouteV::Detach(_, _) => false,
        RouteV::UsersSubscribe(_) => true,
        RouteV::UsersUpdate(_) => true,
        RouteV::UsersDetach(_) => false,
        RouteV::Lattice(_) => true,
    }
}

impl Route {
    /// Whether this route's request carries a body.
    pub fn has_body(&self) -> (r: bool)
        ensures
            r == spec_has_body(self@),
    {
        match self {
            Route::Subscribe(..) => false,
            Route::Unsubscribe(..) => false,
            Route::Publish(..) => true,
            Route::LatticeSubscribe(..) => true,
            Route::Detach(..) => false,
            Route::UsersSubscribe(..) => true,
            Route::UsersUpdate(..) => true,
            Route::UsersDetach(..) => false,
            Route::Lattice(..) => true,
        }
    }
}

/// Parse a request line below `/v1/` into a route.
pub fn dispatch(method: &[u8], path: &[u8]) -> (s: State)
    ensures
        s@ == spec_dispatch(method@, path@),
{
    let pre = api_prefix_vec();
    if !starts_with(path, pre.as_slice()) {
        return State::Error(404);
    }
    let n = path.len();
    let segs = split_segments(vstd::slice::slice_subrange(path, 4, n));
    proof {
        assert(path@.subrange(4, path@.len() as int) =~= path@.skip(4));
    }
    let ghost ss = split_segs(path@.skip(4));
    let is_put = bytes_eq(method, method_put_vec().as_slice());
    let is_delete = bytes_eq(method, method_delete_vec().as_slice());
    let is_post = bytes_eq(method, method_post_vec().as_slice());
    let con = seg_connection_vec();
    if segs.len() >= 3 && bytes_eq(segs[0].as_slice(), con.as_slice()) {
        proof {
            assert(segs_view(segs@)[0] == segs@[0]@);
            assert(segs_view(segs@)[1] == segs@[1]@);
            assert(segs_view(segs@)[2] == segs@[2]@);
        }
        let cid = parse_pub_cid(segs[1].as_slice());
        let subs = seg_subscriptions_vec();
        let lats = seg_lattices_vec();
        let users = seg_users_vec();
        if bytes_eq(segs[2].as_slice(), subs.as_slice()) {
            let name = if segs.len() >= 4 {
                dotted_name(&segs, 3)
            } else {
                proof {
                    assert(!valid_dotted(ss.skip(3))) by {
                        assert(ss.skip(3).len() == 0);
                    }
                }
                None
            };
            match (cid, name) {
                (Some(pc), Some(t)) => {
                    if is_put {
                        State::Query(Route::Subscribe(pc, crate::ids::Topic(t)))
                    } else if is_delete {
                        State::Query(Route::Unsubscribe(pc, crate::ids::Topic(t)))
                    } else {
                        State::Error(404)
                    }
                },
                _ => State::Error(404),
            }
        } else if bytes_eq(segs[2].as_slice(), lats.as_slice()) {
            let name = if segs.len() >= 4 {
                dotted_name(&segs, 3)
            } else {
                proof {
                    assert(!valid_dotted(ss.skip(3))) by {
                        assert(ss.skip(3).len() == 0);
                    }
                }
                None
            };
            match name {
                Some(ns) => {
                    let resv = reserved_prefix_vec();
                    if starts_with(ns.as_slice(), resv.as_slice()) {
                        return State::Error(403);
                    }
                    match cid {
                        Some(pc) => {
                            if is_put {
                                State::Query(
                                    Route::LatticeSubscribe(pc, crate::ids::Namespace(ns)),
                                )
                            } else if is_delete {
                                State::Query(Route::Detach(pc, crate::ids::Namespace(ns)))
                            } else {
                                State::Error(404)
                            }
                        },
                        None => State::Error(404),
                    }
                },
                None => State::Error(404),
            }
        } else if bytes_eq(segs[2].as_slice(), users.as_slice()) {
            match cid {
                Some(pc) => {
                    if is_put {
                        State::Query(Route::UsersSubscribe(pc))
                    } else if is_delete {
                        State::Query(Route::UsersDetach(pc))
                    } else {
                        State::Error(404)
                    }
                },
                None => State::Error(404),
            }
        } else {
            State::Error(404)
        }
    } else {
        let publ = seg_publish_vec();
        let lat = seg_lattice_vec();
        let user = seg_user_vec();
        let users = seg_users_vec();
        proof {
            assert(segs_view(segs@)[0] == segs@[0]@);
            if segs@.len() >= 2 {
                assert(segs_view(segs@)[1] == segs@[1]@);
            }
            if segs@.len() >= 3 {
                assert(segs_view(segs@)[2] == segs@[2]@);
            }
        }
        if is_post && segs.len() >= 2 && bytes_eq(segs[0].as_slice(), publ.as_slice()) {
            match dotted_name(&segs, 1) {
                Some(t) => State::Query(Route::Publish(crate::ids::Topic(t))),
                None => State::Error(404),
            }
        } else if is_post && segs.len() >= 2 && bytes_eq(segs[0].as_slice(), lat.as_slice()) {
            match dotted_name(&segs, 1) {
                Some(ns) => {
                    let resv = reserved_prefix_vec();
                    if starts_with(ns.as_slice(), resv.as_slice()) {
                        State::Error(403)
                    } else {
                        State::Query(Route::Lattice(crate::ids::Namespace(ns)))
                    }
                },
                None => State::Error(404),
            }
        } else if is_put && segs.len() >= 3 && bytes_eq(segs[0].as_slice(), user.as_slice())
            && bytes_eq(segs[2].as_slice(), users.as_slice()) && segs[1].len() >= 1 {
            State::Query(Route::UsersUpdate(crate::ids::SessionId(clone_bytes(segs[1].as_slice()))))
        } else {
            State::Error(404)
        }
    }
}

/// What an HTTP request's Content-Type header amounted to.
#[derive(Clone, Copy, PartialEq, Eq, Debug, Structural)]
pub enum ContentType {
    /// No Content-Type header.
    Absent,
    /// A JSON Content-Type.
    Valid,
    /// Some other Content-Type.
    Invalid,
}

/// Horizontal whitespace around a header value.
pub open spec fn is_ows(b: u8) -> bool {
    b == 32 || b == 9
}

/// A byte folded to ASCII lower case.
pub open spec fn ascii_lower(b: u8) -> u8 {
    if 65 <= b <= 90 {
        (b + 32) as u8
    } else {
        b
    }
}

/// A byte string folded to ASCII lower case.
pub open spec fn lower_bytes(s: Seq<u8>) -> Seq<u8> {
    s.map_values(|b: u8| ascii_lower(b))
}

/// The bytes of `application/json`.
pub open spec fn json_media_type() -> Seq<u8> {
    seq![
        97u8,
        112u8,
        112u8,
        108u8,
        105u8,
        99u8,
        97u8,
        116u8,
        105u8,
        111u8,
        110u8,
        47u8,
        106u8,
        115u8,
        111u8,
        110u8,
    ]
}

fn json_media_type_vec() -> (v: Vec<u8>)
    ensures
        v@ =~= json_media_type(),
{
    let mut v: Vec<u8> = Vec::new();
    v.push(97);
    v.push(112);
    v.push(112);
    v.push(108);
    v.push(105);
    v.push(99);
    v.push(97);
    v.push(116);
    v.push(105);
    v.push(111);
    v.push(110);
    v.push(47);
    v.push(106);
    v.push(115);
    v.push(111);
    v.push(110);
    v
}

/// Leading whitespace dropped.
pub open spec fn trim_front(s: Seq<u8>) -> Seq<u8>
    decreases s.len(),
{
    if s.len() > 0 && is_ows(s[0]) {
        trim_front(s.skip(1))
    } else {
        s
    }
}

/// Trailing whitespace dropped.
pub open spec fn trim_back(s: Seq<u8>) -> Seq<u8>
    decreases s.len(),
{
    if s.len() > 0 && is_ows(s.last()) {
        trim_back(s.drop_last())
    } else {
        s
    }
}

proof fn lemma_trim_front(s: Seq<u8>, k: int)
    requires
        0 <= k <= s.len(),
        forall|j: int| 0 <= j < k ==> is_ows(s[j]),
        k < s.len() ==> !is_ows(s[k]),
    ensures
        trim_front(s) == s.skip(k),
    decreases k,
{
    if k == 0 {
        assert(s.skip(0) =~= s);
    } else {
        assert(is_ows(s[0]));
        let rest = s.skip(1);
        assert(forall|j: int| 0 <= j < rest.len() ==> #[trigger] rest[j] == s[j + 1]);
        lemma_trim_front(rest, k - 1);
        assert(rest.skip(k - 1) =~= s.skip(k));
    }
}

proof fn lemma_trim_back(s: Seq<u8>, k: int)
    requires
        0 <= k <= s.len(),
        forall|j: int| k <= j < s.len() ==> is_ows(s[j]),
        k > 0 ==> !is_ows(s[k - 1]),
    ensures
        trim_back(s) == s.take(k),
    decreases s.len() - k,
{
    if k == s.len() {
        assert(s.take(k) =~= s);
    } else {
        assert(is_ows(s.last()));
        let rest = s.drop_last();
        assert(forall|j: int| 0 <= j < rest.len() ==> #[trigger] rest[j] == s[j]);
        lemma_trim_back(rest, k);
        assert(rest.take(k) =~= s.take(k));
    }
}

/// What a Content-Type header amounts to: absent, JSON — the media type
/// before any parameters is `application/json`, case-insensitively, with
/// surrounding whitespace ignored — or something else.
pub open spec fn spec_check_json(h: Option<Seq<u8>>) -> ContentType {
    match h {
        None => ContentType::Absent,
        Some(v) => {
            let mt = if find_byte(v, 59) >= 0 {
                v.take(find_byte(v, 59))
            } else {
                v
            };
            if lower_bytes(trim_back(trim_front(mt))) == json_media_type() {
                ContentType::Valid
            } else {
                ContentType::Invalid
            }
        },
    }
}

/// Classify a request's Content-Type header for the codec's policy.
pub fn check_json(header: Option<&[u8]>) -> (r: ContentType)
    ensures
        r == spec_check_json(
            match header {
                Some(h) => Some(h@),
                None => None,
            },
        ),
{
    let v = match header {
        None => {
            return ContentType::Absent;
        },
        Some(v) => v,
    };
    proof {
        lemma_find_byte(v@, 59);
    }
    let end = match find_byte_exec(v, 59) {
        Some(i) => i,
        None => v.len(),
    };
    let ghost mt = if find_byte(v@, 59) >= 0 {
        v@.take(find_byte(v@, 59))
    } else {
        v@
    };
    proof {
        assert(mt =~= v@.subrange(0, end as int));
        assert(forall|j: int| 0 <= j < mt.len() ==> #[trigger] mt[j] == v@[j]);
    }
    let mut lo: usize = 0;
    while lo < end && (v[lo] == 32 || v[lo] == 9)
        invariant
            lo <= end <= v@.len(),
            forall|j: int| 0 <= j < lo ==> is_ows(v@[j]),
        decreases end - lo,
    {
        lo = lo + 1;
    }
    let mut hi: usize = end;
    while hi > lo && (v[hi - 1] == 32 || v[hi - 1] == 9)
        invariant
            lo <= hi <= end <= v@.len(),
            forall|j: int| hi <= j < end ==> is_ows(v@[j]),
        decreases hi,
    {
        hi = hi - 1;
    }
    let t = vstd::slice::slice_subrange(v, lo, hi);
    proof {
        lemma_trim_front(mt, lo as int);
        let skipped = mt.skip(lo as int);
        assert(forall|j: int| 0 <= j < skipped.len() ==> #[trigger] skipped[j] == v@[j + lo]);
        lemma_trim_back(skipped, hi as int - lo as int);
        assert(t@ =~= skipped.take(hi as int - lo as int));
        assert(trim_back(trim_front(mt)) == t@);
    }
    if t.len() != 16 {
        proof {
            assert(json_media_type().len() == 16);
            assert(lower_bytes(t@).len() == t@.len());
            assert(lower_bytes(t@) != json_media_type());
        }
        return ContentType::Invalid;
    }
    let jm = json_media_type_vec();
    let mut i: usize = 0;
    while i < 16
        invariant
            t@.len() == 16,
            jm@ == json_media_type(),
            i <= 16,
            header is Some && header->0 == v,
            mt == (if find_byte(v@, 59) >= 0 {
                v@.take(find_byte(v@, 59))
            } else {
                v@
            }),
            trim_back(trim_front(mt)) == t@,
            forall|j: int| 0 <= j < i ==> ascii_lower(t@[j]) == json_media_type()[j],
        decreases 16 - i,
    {
        let b = t[i];
        let lb = if 65 <= b && b <= 90 {
            b + 32
        } else {
            b
        };
        if lb != jm[i] {
            proof {
                assert(lower_bytes(t@)[i as int] == ascii_lower(t@[i as int]));
                assert(lower_bytes(t@) != json_media_type());
            }
            return ContentType::Invalid;
        }
        i = i + 1;
    }
    proof {
        assert(lower_bytes(t@) =~= json_media_type());
    }
    ContentType::Valid
}

/// The parse state of a request with its headers checked: bodied routes
/// must declare JSON, unless the back-compatibility switch is on.
pub open spec fn spec_parse_request(
    m: Seq<u8>,
    path: Option<Seq<u8>>,
    ct: ContentType,
    weak_content_type: bool,
) -> StateV {
    match path {
        None => StateV::Error(400),
        Some(p) => {
            let s = spec_dispatch(m, p);
            match s {
                StateV::Query(q) => if spec_has_body(q) {
                    match ct {
                        ContentType::Valid => s,
                        ContentType::Absent => if weak_content_type {
                            s
                        } else {
                            StateV::Error(400)
                        },
                        ContentType::Invalid => if weak_content_type {
                            s
                        } else {
                            StateV::Error(400)
                        },
                    }
                } else {
                    s
                },
                _ => s,
            }
        },
    }
}

/// Parse a request's method, path and Content-Type check into its state.
///
/// A request without a path is malformed.  A bodied route whose
/// Content-Type is missing or not JSON is refused unless
/// `weak_content_type` keeps the deprecated lenient behavior.
pub fn parse_request(
    method: &[u8],
    path: Option<&[u8]>,
    ct: ContentType,
    weak_content_type: bool,
) -> (s: State)
    ensures
        s@ == spec_parse_request(
            method@,
            match path {
                Some(p) => Some(p@),
                None => None,
            },
            ct,
            weak_content_type,
        ),
{
    let p = match path {
        None => {
            return State::Error(400);
        },
        Some(p) => p,
    };
    let s = dispatch(method, p);
    let bodied = match &s {
        State::Query(q) => q.has_body(),
        _ => false,
    };
    if bodied {
        match ct {
            ContentType::Valid => s,
            _ => {
                if weak_content_type {
                    s
                } else {
                    State::Error(400)
                }
            },
        }
    } else {
        s
    }
}

/// What decoding the request body yielded, for routes that need one.
///
/// The JSON decoding itself happens outside the library; the codec receives
/// the decoded value (or `Undecodable`) together with the raw bytes.
#[derive(Debug, PartialEq, Eq)]
pub enum BodyData {
    /// No decoded form: the body was absent, malformed, or of no interest.
    Undecodable,
    /// A lattice delta, already validated (`Delta::from_raw`).
    DeltaBody(crate::lattice::Delta),
    /// A list of session ids.
    SessionList(Vec<Vec<u8>>),
}

/// Mathematical value of a decoded body.
pub enum BodyV {
    Undecodable,
    DeltaBody(crate::lattice::NsMap),
    SessionList(Set<Seq<u8>>),
}

impl View for BodyData {
    type V = BodyV;

    open spec fn view(&self) -> BodyV {
        match self {
            BodyData::Undecodable => BodyV::Undecodable,
            BodyData::DeltaBody(d) => BodyV::DeltaBody(d@),
            BodyData::SessionList(l) => BodyV::SessionList(crate::lattice::set_view(l@)),
        }
    }
}

/// Whether the body parses as JSON, as a function of the bytes alone.
pub uninterp spec fn json_accepts(data: Seq<u8>) -> bool;

/// Relies on `serde_json::from_slice`: whether a byte string parses as a
/// JSON document is decided by the bytes alone.
#[verifier::external_body]
fn json_body_ok(data: &[u8]) -> (r: bool)
    ensures
        r == json_accepts(data@),
{
    serde_json::from_slice::<serde_json::Value>(data).is_ok()
}

/// Everything one control-plane request amounts to: the actions for the
/// local processor, the actions for the replication fabric, and the reply.
#[derive(Debug, PartialEq, Eq)]
pub struct RequestOutcome {
    pub local: Vec<crate::processor::Action>,
    pub remote: Vec<crate::replication::RemoteAction>,
    pub status: u16,
}

/// The action sequence a vector of actions stands for.
pub open spec fn actions_view(s: Seq<crate::processor::Action>) -> Seq<crate::processor::ActionV> {
    s.map_values(|a: crate::processor::Action| a@)
}

/// The action sequence a vector of replicated actions stands for.
pub open spec fn remotes_view(s: Seq<crate::replication::RemoteAction>) -> Seq<
    crate::replication::RemoteActionV,
> {
    s.map_values(|a: crate::replication::RemoteAction| a@)
}

/// Mathematical value of a request's outcome.
#[verifier::ext_equal]
pub struct OutcomeV {
    pub local: Seq<crate::processor::ActionV>,
    pub remote: Seq<crate::replication::RemoteActionV>,
    pub status: u16,
}

impl View for RequestOutcome {
    type V = OutcomeV;

    open spec fn view(&self) -> OutcomeV {
        OutcomeV {
            local: actions_view(self.local@),
            remote: remotes_view(self.remote@),
            status: self.status,
        }
    }
}

/// A refused request: no local action, no replication, this status.
pub open spec fn outcome_error(status: u16) -> OutcomeV {
    OutcomeV { local: Seq::empty(), remote: Seq::empty(), status: status }
}

/// What a routed request with its body amounts to.
///
/// Connection-scoped routes whose node id is not ours skip the local
/// action and only replicate (the owning node applies it); publishes and
/// lattice merges apply everywhere.  Bodies: subscribe and unsubscribe
/// demand an empty body; publish demands JSON; lattice routes demand a
/// valid delta; users routes demand a session list.  Mirrors, action for
/// action and in the same order, what the control plane emits.
pub open spec fn spec_handle_data(
    route: RouteV,
    data: Seq<u8>,
    body: BodyV,
    my: ServerId,
) -> OutcomeV {
    match route {
        RouteV::Subscribe(pc, t) => {
            if data.len() == 0 {
                OutcomeV {
                    local: if pc.1 == my {
                        seq![
                            crate::processor::ActionV::Subscribe { conn_id: pc.0, topic: t },
                        ]
                    } else {
                        Seq::empty()
                    },
                    remote: seq![
                        crate::replication::RemoteActionV::Subscribe {
                            conn_id: pc.0,
                            server_id: pc.1,
                            topic: t,
                        },
                    ],
                    status: 204,
                }
            } else {
                outcome_error(400)
            }
        },
        RouteV::Unsubscribe(pc, t) => {
            if data.len() == 0 {
                OutcomeV {
                    local: if pc.1 == my {
                        seq![
                            crate::processor::ActionV::Unsubscribe { conn_id: pc.0, topic: t },
                        ]
                    } else {
                        Seq::empty()
                    },
                    remote: seq![
                        crate::replication::RemoteActionV::Unsubscribe {
                            conn_id: pc.0,
                            server_id: pc.1,
                            topic: t,
                        },
                    ],
                    status: 204,
                }
            } else {
                outcome_error(400)
            }
        },
        RouteV::Publish(t) => {
            if json_accepts(data) {
                OutcomeV {
                    local: seq![
                        crate::processor::ActionV::Publish { topic: t, data: data },
                    ],
                    remote: seq![
                        crate::replication::RemoteActionV::Publish { topic: t, data: data },
                    ],
                    status: 204,
                }
            } else {
                outcome_error(400)
            }
        },
        RouteV::LatticeSubscribe(pc, ns) => {
            match body {
                BodyV::DeltaBody(d) => OutcomeV {
                    local: if pc.1 == my {
                        seq![
                            crate::processor::ActionV::Lattice { namespace: ns, delta: d },
                            crate::processor::ActionV::Attach { namespace: ns, conn_id: pc.0 },
                        ]
                    } else {
                        seq![
                            crate::processor::ActionV::Lattice { namespace: ns, delta: d },
                        ]
                    },
                    remote: seq![
                        crate::replication::RemoteActionV::Lattice { namespace: ns, delta: d },
                        crate::replication::RemoteActionV::Attach {
                            namespace: ns,
                            conn_id: pc.0,
                            server_id: pc.1,
                        },
                    ],
                    status: 204,
                },
                _ => outcome_error(400),
            }
        },
        RouteV::Detach(pc, ns) => OutcomeV {
            local: if pc.1 == my {
                seq![
                    crate::processor::ActionV::Detach { namespace: ns, conn_id: pc.0 },
                ]
            } else {
                Seq::empty()
            },
            remote: seq![
                crate::replication::RemoteActionV::Detach {
                    namespace: ns,
                    conn_id: pc.0,
                    server_id: pc.1,
                },
            ],
            status: 204,
        },
        RouteV::Lattice(ns) => {
            match body {
                BodyV::DeltaBody(d) => OutcomeV {
                    local: seq![
                        crate::processor::ActionV::Lattice { namespace: ns, delta: d },
                    ],
                    remote: seq![
                        crate::replication::RemoteActionV::Lattice { namespace: ns, delta: d },
                    ],
                    status: 204,
                },
                _ => outcome_error(400),
            }
        },
        RouteV::UsersSubscribe(pc) => {
            match body {
                BodyV::SessionList(l) => OutcomeV {
                    local: if pc.1 == my {
                        seq![
                            crate::processor::ActionV::AttachUsers {
                                conn_id: pc.0,
                                watches: l,
                            },
                        ]
                    } else {
                        Seq::empty()
                    },
                    remote: seq![
                        crate::replication::RemoteActionV::AttachUsers {
                            conn_id: pc.0,
                            server_id: pc.1,
                            watches: l,
                        },
                    ],
                    status: 204,
                },
                _ => outcome_error(400),
            }
        },
        RouteV::UsersUpdate(sid) => {
            match body {
                BodyV::SessionList(l) => OutcomeV {
                    local: seq![
                        crate::processor::ActionV::UpdateUsers {
                            session_id: sid,
                            watches: l,
                        },
                    ],
                    remote: seq![
                        crate::replication::RemoteActionV::UpdateUsers {
                            session_id: sid,
                            watches: l,
                        },
                    ],
                    status: 204,
                },
                _ => outcome_error(400),
            }
        },
        RouteV::UsersDetach(pc) => OutcomeV {
            local: if pc.1 == my {
                seq![
                    crate::processor::ActionV::DetachUsers { conn_id: pc.0 },
                ]
            } else {
                Seq::empty()
            },
            remote: seq![
                crate::replication::RemoteActionV::DetachUsers {
                    conn_id: pc.0,
                    server_id: pc.1,
                },
            ],
            status: 204,
        },
    }
}

/// A connection-scoped request for a connection another node owns changes
/// nothing locally: the codec emits no local action for it, only the
/// replicated one.
pub proof fn lemma_foreign_cid_no_local_action(
    route: RouteV,
    data: Seq<u8>,
    body: BodyV,
    my: ServerId,
)
    requires
        match route {
            RouteV::Subscribe(pc, _) => pc.1 != my,
            RouteV::Unsubscribe(pc, _) => pc.1 != my,
            RouteV::Detach(pc, _) => pc.1 != my,
            RouteV::UsersSubscribe(pc) => pc.1 != my,
            RouteV::UsersDetach(pc) => pc.1 != my,
            _ => false,
        },
    ensures
        spec_handle_data(route, data, body, my).local == Seq::<
            crate::processor::ActionV,
        >::empty(),
{
}

/// Handle the body of a routed request: emit the local and replicated
/// actions and the reply status.
///
/// Every delta carried by an emitted action is well-formed, so the actions
/// can be applied to a pool as they are.
pub fn handle_data(
    route: Route,
    data: &[u8],
    body: BodyData,
    my: ServerId,
) -> (r: RequestOutcome)
    requires
        body matches BodyData::DeltaBody(d) ==> d.wf(),
    ensures
        r@ == spec_handle_data(route@, data@, body@, my),
        forall|i: int| 0 <= i < r.local@.len() ==> (#[trigger] r.local@[i]).wf(),
{
    let ghost rv = route@;
    let ghost bv = body@;
    let mut local: Vec<crate::processor::Action> = Vec::new();
    let mut remote: Vec<crate::replication::RemoteAction> = Vec::new();
    proof {
        assert(actions_view(local@) =~= Seq::<crate::processor::ActionV>::empty());
        assert(remotes_view(remote@) =~= Seq::<crate::replication::RemoteActionV>::empty());
    }
    match route {
        Route::Subscribe(pc, t) => {
            if data.len() == 0 {
                if pc.1 == my {
                    push_local(&mut local, 
                        crate::processor::Action::Subscribe {
                            conn_id: pc.0,
                            topic: crate::ids::Topic(clone_bytes(t.0.as_slice())),
                        },
                    );
                }
                push_remote(&mut remote, 
                    crate::replication::RemoteAction::Subscribe {
                        conn_id: pc.0,
                        server_id: pc.1,
                        topic: t,
                    },
                );
                {
                let r = finish(local, remote, 204);
                proof {
                    assert(r@ =~~= spec_handle_data(rv, data@, bv, my));
                }
                r
            }
            } else {
                {
                let r = finish(local, remote, 400);
                proof {
                    assert(r@ =~~= spec_handle_data(rv, data@, bv, my));
                }
                r
            }
            }
        },
        Route::Unsubscribe(pc, t) => {
            if data.len() == 0 {
                if pc.1 == my {
                    push_local(&mut local, 
                        crate::processor::Action::Unsubscribe {
                            conn_id: pc.0,
                            topic: crate::ids::Topic(clone_bytes(t.0.as_slice())),
                        },
                    );
                }
                push_remote(&mut remote, 
                    crate::replication::RemoteAction::Unsubscribe {
                        conn_id: pc.0,
                        server_id: pc.1,
                        topic: t,
                    },
                );
                {
                let r = finish(local, remote, 204);
                proof {
                    assert(r@ =~~= spec_handle_data(rv, data@, bv, my));
                }
                r
            }
            } else {
                {
                let r = finish(local, remote, 400);
                proof {
                    assert(r@ =~~= spec_handle_data(rv, data@, bv, my));
                }
                r
            }
            }
        },
        Route::Publish(t) => {
            if json_body_ok(data) {
                push_local(&mut local, 
                    crate::processor::Action::Publish {
                        topic: crate::ids::Topic(clone_bytes(t.0.as_slice())),
                        data: clone_bytes(data),
                    },
                );
                push_remote(&mut remote, 
                    crate::replication::RemoteAction::Publish { topic: t, data: clone_bytes(data) },
                );
                {
                let r = finish(local, remote, 204);
                proof {
                    assert(r@ =~~= spec_handle_data(rv, data@, bv, my));
                }
                r
            }
            } else {
                {
                let r = finish(local, remote, 400);
                proof {
                    assert(r@ =~~= spec_handle_data(rv, data@, bv, my));
                }
                r
            }
            }
        },
        Route::LatticeSubscribe(pc, ns) => {
            match body {
                BodyData::DeltaBody(d) => {
                    push_local(&mut local, 
                        crate::processor::Action::Lattice {
                            namespace: crate::ids::Namespace(clone_bytes(ns.0.as_slice())),
                            delta: crate::lattice::clone_delta(&d),
                        },
                    );
                    if pc.1 == my {
                        push_local(&mut local, 
                            crate::processor::Action::Attach {
                                namespace: crate::ids::Namespace(clone_bytes(ns.0.as_slice())),
                                conn_id: pc.0,
                            },
                        );
                    }
                    push_remote(&mut remote, 
                        crate::replication::RemoteAction::Lattice { namespace: crate::ids::Namespace(clone_bytes(ns.0.as_slice())), delta: d },
                    );
                    push_remote(&mut remote, 
                        crate::replication::RemoteAction::Attach {
                            namespace: ns,
                            conn_id: pc.0,
                            server_id: pc.1,
                        },
                    );
                    {
                let r = finish(local, remote, 204);
                proof {
                    assert(r@ =~~= spec_handle_data(rv, data@, bv, my));
                }
                r
            }
                },
                _ => {
                let r = finish(local, remote, 400);
                proof {
                    assert(r@ =~~= spec_handle_data(rv, data@, bv, my));
                }
                r
            },
            }
        },
        Route::Detach(pc, ns) => {
            if pc.1 == my {
                push_local(&mut local, 
                    crate::processor::Action::Detach {
                        namespace: crate::ids::Namespace(clone_bytes(ns.0.as_slice())),
                        conn_id: pc.0,
                    },
                );
            }
            push_remote(&mut remote, 
                crate::replication::RemoteAction::Detach {
                    namespace: ns,
                    conn_id: pc.0,
                    server_id: pc.1,
                },
            );
            {
                let r = finish(local, remote, 204);
                proof {
                    assert(r@ =~~= spec_handle_data(rv, data@, bv, my));
                }
                r
            }
        },
        Route::Lattice(ns) => {
            match body {
                BodyData::DeltaBody(d) => {
                    push_local(&mut local, 
                        crate::processor::Action::Lattice {
                            namespace: crate::ids::Namespace(clone_bytes(ns.0.as_slice())),
                            delta: crate::lattice::clone_delta(&d),
                        },
                    );
                    push_remote(&mut remote, 
                        crate::replication::RemoteAction::Lattice { namespace: ns, delta: d },
                    );
                    {
                let r = finish(local, remote, 204);
                proof {
                    assert(r@ =~~= spec_handle_data(rv, data@, bv, my));
                }
                r
            }
                },
                _ => {
                let r = finish(local, remote, 400);
                proof {
                    assert(r@ =~~= spec_handle_data(rv, data@, bv, my));
                }
                r
            },
            }
        },
        Route::UsersSubscribe(pc) => {
            match body {
                BodyData::SessionList(l) => {
                    if pc.1 == my {
                        push_local(&mut local, 
                            crate::processor::Action::AttachUsers {
                                conn_id: pc.0,
                                list: crate::lattice::clone_bytes_list(&l),
                            },
                        );
                    }
                    push_remote(&mut remote, 
                        crate::replication::RemoteAction::AttachUsers {
                            conn_id: pc.0,
                            server_id: pc.1,
                            list: l,
                        },
                    );
                    {
                let r = finish(local, remote, 204);
                proof {
                    assert(r@ =~~= spec_handle_data(rv, data@, bv, my));
                }
                r
            }
                },
                _ => {
                let r = finish(local, remote, 400);
                proof {
                    assert(r@ =~~= spec_handle_data(rv, data@, bv, my));
                }
                r
            },
            }
        },
        Route::UsersUpdate(sid) => {
            match body {
                BodyData::SessionList(l) => {
                    push_local(&mut local, 
                        crate::processor::Action::UpdateUsers {
                            session_id: crate::ids::SessionId(clone_bytes(sid.0.as_slice())),
                            list: crate::lattice::clone_bytes_list(&l),
                        },
                    );
                    push_remote(&mut remote, 
                        crate::replication::RemoteAction::UpdateUsers { session_id: sid, list: l },
                    );
                    {
                let r = finish(local, remote, 204);
                proof {
                    assert(r@ =~~= spec_handle_data(rv, data@, bv, my));
                }
                r
            }
                },
                _ => {
                let r = finish(local, remote, 400);
                proof {
                    assert(r@ =~~= spec_handle_data(rv, data@, bv, my));
                }
                r
            },
            }
        },
        Route::UsersDetach(pc) => {
            match body {
                BodyData::SessionList(_) => {},
                _ => {},
            }
            if pc.1 == my {
                push_local(&mut local, crate::processor::Action::DetachUsers { conn_id: pc.0 });
            }
            push_remote(&mut remote, 
                crate::replication::RemoteAction::DetachUsers {
                    conn_id: pc.0,
                    server_id: pc.1,
                },
            );
            {
                let r = finish(local, remote, 204);
                proof {
                    assert(r@ =~~= spec_handle_data(rv, data@, bv, my));
                }
                r
            }
        },
    }
}


/// Append a local action, tracking the emitted sequence.
fn push_local(v: &mut Vec<crate::processor::Action>, a: crate::processor::Action)
    ensures
        actions_view(final(v)@) == actions_view(old(v)@).push(a@),
        final(v)@ == old(v)@.push(a),
{
    let ghost av = a@;
    let ghost pre = v@;
    v.push(a);
    proof {
        assert(actions_view(v@) =~= actions_view(pre).push(av));
    }
}

/// Append a replicated action, tracking the emitted sequence.
fn push_remote(v: &mut Vec<crate::replication::RemoteAction>, a: crate::replication::RemoteAction)
    ensures
        remotes_view(final(v)@) == remotes_view(old(v)@).push(a@),
        final(v)@ == old(v)@.push(a),
{
    let ghost av = a@;
    let ghost pre = v@;
    v.push(a);
    proof {
        assert(remotes_view(v@) =~= remotes_view(pre).push(av));
    }
}

/// Assemble a request outcome.
fn finish(
    local: Vec<crate::processor::Action>,
    remote: Vec<crate::replication::RemoteAction>,
    status: u16,
) -> (r: RequestOutcome)
    ensures
        r.local == local,
        r.remote == remote,
        r.status == status,
{
    RequestOutcome { local, remote, status }
}

/// The HTTP status a finished request answers with.
pub fn response_status(s: &State) -> (code: u16)
    ensures
        match s@ {
            StateV::Error(e) => code == e,
            _ => code == 204,
        },
{
    match s {
        State::Error(e) => *e,
        _ => 204,
    }
}

} // verus!
