//! Identifier types of the fabric and small verified helpers on byte strings.
//!
//! Topics, lattice namespaces, session identifiers and lattice keys are kept
//! as byte strings (`Vec<u8>`); the HTTP codec works on the raw request path,
//! so bytes are the natural carrier and keep every comparison exact.

use vstd::prelude::*;
use vstd::string::StringExecFns;

verus! {

/// Internal connection id: process-local, monotonic, names one live WebSocket.
#[derive(Clone, Copy, PartialEq, Eq, Hash, Debug, Structural)]
pub struct Cid(pub u64);

/// Node identity, assigned at startup (random or configured 128-bit value).
#[derive(Clone, Copy, PartialEq, Eq, Hash, Debug, Structural)]
pub struct ServerId(pub u128);

/// A connection id qualified by the node that owns it.
#[derive(Clone, Copy, PartialEq, Eq, Hash, Debug, Structural)]
pub struct PubCid(pub Cid, pub ServerId);

/// Dotted subscription key for transient messages, e.g. `room.42`.
#[derive(Clone, PartialEq, Eq, Hash, Debug)]
pub struct Topic(pub Vec<u8>);

/// Dotted key of one lattice, same shape as a topic.
#[derive(Clone, PartialEq, Eq, Hash, Debug)]
pub struct Namespace(pub Vec<u8>);

/// Opaque user identity returned by the external authorizer.
#[derive(Clone, PartialEq, Eq, Hash, Debug)]
pub struct SessionId(pub Vec<u8>);

/// Opaque key inside one lattice, typically `user:<session_id>`.
#[derive(Clone, PartialEq, Eq, Hash, Debug)]
pub struct LatticeKey(pub Vec<u8>);

/// Raw JSON text carried through the fabric without interpretation.
pub type Payload = Vec<u8>;

impl View for Topic {
    type V = Seq<u8>;

    open spec fn view(&self) -> Seq<u8> {
        self.0@
    }
}

impl View for Namespace {
    type V = Seq<u8>;

    open spec fn view(&self) -> Seq<u8> {
        self.0@
    }
}

impl View for SessionId {
    type V = Seq<u8>;

    open spec fn view(&self) -> Seq<u8> {
        self.0@
    }
}

impl View for LatticeKey {
    type V = Seq<u8>;

    open spec fn view(&self) -> Seq<u8> {
        self.0@
    }
}

impl Cid {
    /// Allocate the next connection id from a monotonic counter.
    ///
    /// The caller owns the counter (one per process); ids are handed out in
    /// order and never reused.
    pub fn new(counter: &mut u64) -> (c: Cid)
        requires
            *old(counter) < u64::MAX,
        ensures
            c.0 == *old(counter),
            *final(counter) == *old(counter) + 1,
    {
        let c = Cid(*counter);
        *counter = *counter + 1;
        c
    }
}

/// Exact byte-string equality.
pub fn bytes_eq(a: &[u8], b: &[u8]) -> (r: bool)
    ensures
        r == (a@ == b@),
{
    if a.len() != b.len() {
        assert(a@ != b@) by {
            assert(a@.len() != b@.len());
        }
        return false;
    }
    let n: usize = a.len();
    let mut i: usize = 0;
    while i < n
        invariant
            n == a@.len() && n == b@.len(),
            i <= n,
            forall|k: int| 0 <= k < i ==> a@[k] == b@[k],
        decreases n - i,
    {
        if a[i] != b[i] {
            return false;
        }
        i = i + 1;
    }
    assert(a@ =~= b@);
    true
}

/// Lexicographic order on byte strings; a proper prefix comes first.
pub open spec fn lex_le(a: Seq<u8>, b: Seq<u8>) -> bool
    decreases a.len(),
{
    if a.len() == 0 {
        true
    } else if b.len() == 0 {
        false
    } else if a[0] < b[0] {
        true
    } else if a[0] > b[0] {
        false
    } else {
        lex_le(a.skip(1), b.skip(1))
    }
}

/// `lex_le` is total: one of the two directions always holds.
pub proof fn lemma_lex_total(a: Seq<u8>, b: Seq<u8>)
    ensures
        lex_le(a, b) || lex_le(b, a),
    decreases a.len(),
{
    if a.len() != 0 && b.len() != 0 && a[0] == b[0] {
        lemma_lex_total(a.skip(1), b.skip(1));
    }
}

/// Two byte strings below each other in `lex_le` are equal.
pub proof fn lemma_lex_antisym(a: Seq<u8>, b: Seq<u8>)
    requires
        lex_le(a, b),
        lex_le(b, a),
    ensures
        a == b,
    decreases a.len(),
{
    if a.len() == 0 {
        assert(b.len() == 0);
        assert(a =~= b);
    } else {
        assert(b.len() != 0);
        assert(a[0] == b[0]);
        lemma_lex_antisym(a.skip(1), b.skip(1));
        assert(a =~= seq![a[0]] + a.skip(1));
        assert(b =~= seq![b[0]] + b.skip(1));
    }
}

/// `lex_le` is reflexive.
pub proof fn lemma_lex_refl(a: Seq<u8>)
    ensures
        lex_le(a, a),
    decreases a.len(),
{
    if a.len() != 0 {
        lemma_lex_refl(a.skip(1));
    }
}

/// `lex_le` is transitive.
pub proof fn lemma_lex_trans(a: Seq<u8>, b: Seq<u8>, c: Seq<u8>)
    requires
        lex_le(a, b),
        lex_le(b, c),
    ensures
        lex_le(a, c),
    decreases a.len(),
{
    if a.len() != 0 && b.len() != 0 && c.len() != 0 {
        if a[0] == b[0] && b[0] == c[0] {
            lemma_lex_trans(a.skip(1), b.skip(1), c.skip(1));
        }
    }
}

/// Copy a byte string.
pub fn clone_bytes(v: &[u8]) -> (r: Vec<u8>)
    ensures
        r@ == v@,
{
    vstd::slice::slice_to_vec(v)
}

proof fn lemma_lex_skip(a: Seq<u8>, b: Seq<u8>, i: int)
    requires
        0 <= i <= a.len(),
        i <= b.len(),
        forall|k: int| 0 <= k < i ==> a[k] == b[k],
    ensures
        lex_le(a, b) == lex_le(a.skip(i), b.skip(i)),
    decreases i,
{
    if i > 0 {
        assert(a.len() != 0 && b.len() != 0 && a[0] == b[0]);
        assert(forall|k: int| 0 <= k < i - 1 ==> a.skip(1)[k] == b.skip(1)[k]);
        lemma_lex_skip(a.skip(1), b.skip(1), i - 1);
        assert(a.skip(1).skip(i - 1) =~= a.skip(i));
        assert(b.skip(1).skip(i - 1) =~= b.skip(i));
    } else {
        assert(a.skip(0) =~= a);
        assert(b.skip(0) =~= b);
    }
}

/// Decide `lex_le` on byte slices.
pub fn bytes_le(a: &[u8], b: &[u8]) -> (r: bool)
    ensures
        r == lex_le(a@, b@),
{
    let mut i: usize = 0;
    loop
        invariant
            i <= a@.len(),
            i <= b@.len(),
            forall|k: int| 0 <= k < i ==> a@[k] == b@[k],
        decreases a@.len() - i,
    {
        if i == a.len() {
            proof {
                lemma_lex_skip(a@, b@, i as int);
                assert(a@.skip(i as int).len() == 0);
            }
            return true;
        }
        if i == b.len() {
            proof {
                lemma_lex_skip(a@, b@, i as int);
                assert(b@.skip(i as int).len() == 0);
                assert(a@.skip(i as int).len() != 0);
            }
            return false;
        }
        if a[i] < b[i] {
            proof {
                lemma_lex_skip(a@, b@, i as int);
                assert(a@.skip(i as int)[0] == a@[i as int]);
                assert(b@.skip(i as int)[0] == b@[i as int]);
            }
            return true;
        }
        if a[i] > b[i] {
            proof {
                lemma_lex_skip(a@, b@, i as int);
                assert(a@.skip(i as int)[0] == a@[i as int]);
                assert(b@.skip(i as int)[0] == b@[i as int]);
            }
            return false;
        }
        i = i + 1;
    }
}

/// The character standing for one decimal digit.
pub open spec fn digit_char(d: nat) -> char {
    if d == 0 {
        '0'
    } else if d == 1 {
        '1'
    } else if d == 2 {
        '2'
    } else if d == 3 {
        '3'
    } else if d == 4 {
        '4'
    } else if d == 5 {
        '5'
    } else if d == 6 {
        '6'
    } else if d == 7 {
        '7'
    } else if d == 8 {
        '8'
    } else {
        '9'
    }
}

/// The decimal rendering of a number, as a character sequence.
pub open spec fn dec_chars(n: nat) -> Seq<char>
    decreases n,
{
    if n < 10 {
        seq![digit_char(n)]
    } else {
        dec_chars(n / 10).push(digit_char(n % 10))
    }
}

fn digit_str(d: u64) -> (r: &'static str)
    requires
        d < 10,
    ensures
        r@ =~= seq![digit_char(d as nat)],
{
    proof {
        reveal_strlit("0");
        reveal_strlit("1");
        reveal_strlit("2");
        reveal_strlit("3");
        reveal_strlit("4");
        reveal_strlit("5");
        reveal_strlit("6");
        reveal_strlit("7");
        reveal_strlit("8");
        reveal_strlit("9");
    }
    match d {
        0 => "0",
        1 => "1",
        2 => "2",
        3 => "3",
        4 => "4",
        5 => "5",
        6 => "6",
        7 => "7",
        8 => "8",
        _ => "9",
    }
}

fn u64_dec(n: u64) -> (r: String)
    ensures
        r@ =~= dec_chars(n as nat),
    decreases n,
{
    if n < 10 {
        String::from_str(digit_str(n))
    } else {
        let mut s = u64_dec(n / 10);
        s.append(digit_str(n % 10));
        s
    }
}

/// Render a connection id the way the HTTP control plane spells it: decimal.
pub fn serialize_cid(cid: &Cid) -> (r: String)
    ensures
        r@ =~= dec_chars(cid.0 as nat),
{
    u64_dec(cid.0)
}

fn u128_dec(n: u128) -> (r: String)
    ensures
        r@ =~= dec_chars(n as nat),
    decreases n,
{
    if n < 10 {
        String::from_str(digit_str((n % 10) as u64))
    } else {
        let mut s = u128_dec(n / 10);
        s.append(digit_str((n % 10) as u64));
        s
    }
}

/// Render a qualified connection id the way the control plane's URLs spell
/// it — `<counter>-<node>`, both decimal — so that the route parser reads
/// back exactly this rendering.
pub fn serialize_pub_cid(pc: &PubCid) -> (r: String)
    ensures
        r@ =~= dec_chars(pc.0.0 as nat) + seq!['-'] + dec_chars(pc.1.0 as nat),
{
    let mut s = u64_dec(pc.0.0);
    proof {
        reveal_strlit("-");
    }
    s.append("-");
    let node = u128_dec(pc.1.0);
    s.append(node.as_str());
    s
}

/// The number a decimal digit sequence denotes.
pub open spec fn dec_value(s: Seq<u8>) -> nat
    decreases s.len(),
{
    if s.len() == 0 {
        0
    } else {
        (dec_value(s.drop_last()) * 10 + (s.last() - 0x30)) as nat
    }
}

/// All bytes are ASCII digits.
pub open spec fn all_digits(s: Seq<u8>) -> bool {
    forall|k: int| 0 <= k < s.len() ==> 0x30 <= #[trigger] s[k] <= 0x39
}

impl Cid {
    /// Parse a decimal connection id, as it stands in a control-plane URL.
    ///
    /// Accepts one or more ASCII digits whose value fits in 64 bits; anything
    /// else is rejected.
    pub fn from_decimal(s: &[u8]) -> (r: Option<Cid>)
        ensures
            match r {
                Some(c) => s@.len() > 0 && all_digits(s@) && c.0 == dec_value(s@),
                None => s@.len() == 0 || !all_digits(s@) || dec_value(s@) > u64::MAX,
            },
    {
        if s.len() == 0 {
            return None;
        }
        let mut acc: u64 = 0;
        let mut i: usize = 0;
        while i < s.len()
            invariant
                i <= s@.len(),
                all_digits(s@.take(i as int)),
                acc == dec_value(s@.take(i as int)),
                dec_value(s@.take(i as int)) <= u64::MAX,
            decreases s@.len() - i,
        {
            let b = s[i];
            if b < 0x30 || b > 0x39 {
                assert(!all_digits(s@));
                return None;
            }
            let d: u64 = (b - 0x30) as u64;
            if acc > (u64::MAX - d) / 10 {
                proof {
                    assert(s@.take(i as int + 1).drop_last() =~= s@.take(i as int));
                    assert(dec_value(s@.take(i as int + 1)) > u64::MAX);
                    if all_digits(s@) {
                        lemma_dec_value_prefix(s@, i as int + 1);
                    }
                }
                return None;
            }
            proof {
                assert(s@.take(i as int + 1).drop_last() =~= s@.take(i as int));
            }
            acc = acc * 10 + d;
            i = i + 1;
        }
        proof {
            assert(s@.take(s@.len() as int) =~= s@);
        }
        Some(Cid(acc))
    }
}

/// Parse a decimal number that fits in 128 bits, as node ids are spelled.
pub fn parse_u128(s: &[u8]) -> (r: Option<u128>)
    ensures
        match r {
            Some(n) => s@.len() > 0 && all_digits(s@) && n == dec_value(s@),
            None => s@.len() == 0 || !all_digits(s@) || dec_value(s@) > u128::MAX,
        },
{
    if s.len() == 0 {
        return None;
    }
    let mut acc: u128 = 0;
    let mut i: usize = 0;
    while i < s.len()
        invariant
            i <= s@.len(),
            all_digits(s@.take(i as int)),
            acc == dec_value(s@.take(i as int)),
            dec_value(s@.take(i as int)) <= u128::MAX,
        decreases s@.len() - i,
    {
        let b = s[i];
        if b < 0x30 || b > 0x39 {
            assert(!all_digits(s@));
            return None;
        }
        let d: u128 = (b - 0x30) as u128;
        if acc > (u128::MAX - d) / 10 {
            proof {
                assert(s@.take(i as int + 1).drop_last() =~= s@.take(i as int));
                assert(dec_value(s@.take(i as int + 1)) > u128::MAX);
                if all_digits(s@) {
                    lemma_dec_value_prefix(s@, i as int + 1);
                }
            }
            return None;
        }
        proof {
            assert(s@.take(i as int + 1).drop_last() =~= s@.take(i as int));
        }
        acc = acc * 10 + d;
        i = i + 1;
    }
    proof {
        assert(s@.take(s@.len() as int) =~= s@);
    }
    Some(acc)
}

/// Extending a digit string never shrinks its value.
proof fn lemma_dec_value_prefix(s: Seq<u8>, i: int)
    requires
        0 <= i <= s.len(),
        all_digits(s),
    ensures
        dec_value(s.take(i)) <= dec_value(s),
    decreases s.len() - i,
{
    if i < s.len() {
        assert(s.take(i + 1).drop_last() =~= s.take(i));
        assert(dec_value(s.take(i)) <= dec_value(s.take(i + 1)));
        lemma_dec_value_prefix(s, i + 1);
    } else {
        assert(s.take(i) =~= s);
    }
}

} // verus!
