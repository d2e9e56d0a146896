//! The lattice engine: typed CRDT cells and their monotone merge.
//!
//! A lattice is a map from opaque keys to cells.  A cell (`Values`) is a
//! record of typed fields; the type of a field is carried by its name's
//! suffix: `_counter` fields hold an unsigned integer merged by maximum,
//! `_set` fields hold a set of byte strings merged by union, and `_register`
//! fields hold a last-writer-wins value merged by carried version (ties
//! broken lexicographically on the value).  Merge is commutative,
//! associative and idempotent, and the merged cell dominates both operands
//! pointwise; both facts are proved here.

use crate::alist::{
    al_map, al_unique, find_bytes, lemma_al_absent, lemma_al_contains, lemma_al_get,
    lemma_al_push, lemma_al_push_unique, lemma_al_remove, lemma_al_update, pairs_view,
};
use crate::ids::{
    bytes_eq, bytes_le, clone_bytes, lex_le, lemma_lex_antisym, lemma_lex_refl, lemma_lex_total,
    lemma_lex_trans,
};
use vstd::prelude::*;

verus! {

/// One typed field of a lattice cell.
#[derive(Clone, PartialEq, Eq, Debug)]
pub enum FieldValue {
    /// Monotonic unsigned counter (`*_counter`); merge takes the maximum.
    Counter(u64),
    /// Grow-only set of byte strings (`*_set`); merge takes the union.
    StrSet(Vec<Vec<u8>>),
    /// Last-writer-wins register (`*_register`): a version and a value;
    /// merge keeps the entry with the larger version, ties broken
    /// lexicographically on the value.
    Register(u64, Vec<u8>),
}

/// Mathematical value of one field.
pub enum FieldV {
    Counter(u64),
    StrSet(Set<Seq<u8>>),
    Register(u64, Seq<u8>),
}

/// The set of byte strings a vector of byte strings stands for.
pub open spec fn set_view(s: Seq<Vec<u8>>) -> Set<Seq<u8>> {
    s.map_values(|x: Vec<u8>| x@).to_set()
}

impl View for FieldValue {
    type V = FieldV;

    open spec fn view(&self) -> FieldV {
        match self {
            FieldValue::Counter(n) => FieldV::Counter(*n),
            FieldValue::StrSet(v) => FieldV::StrSet(set_view(v@)),
            FieldValue::Register(t, v) => FieldV::Register(*t, v@),
        }
    }
}

/// The field type a key's suffix selects.
#[derive(Clone, Copy, PartialEq, Eq, Debug, Structural)]
pub enum KeyKind {
    KindCounter,
    KindSet,
    KindRegister,
    KindUnknown,
}

/// `suf` is a suffix of `k`.
pub open spec fn has_suffix(k: Seq<u8>, suf: Seq<u8>) -> bool {
    k.len() >= suf.len() && k.skip(k.len() - suf.len()) == suf
}

/// The bytes of `_counter`.
pub open spec fn sfx_counter() -> Seq<u8> {
    seq![95u8, 99u8, 111u8, 117u8, 110u8, 116u8, 101u8, 114u8]
}

/// The bytes of `_set`.
pub open spec fn sfx_set() -> Seq<u8> {
    seq![95u8, 115u8, 101u8, 116u8]
}

/// The bytes of `_register`.
pub open spec fn sfx_register() -> Seq<u8> {
    seq![95u8, 114u8, 101u8, 103u8, 105u8, 115u8, 116u8, 101u8, 114u8]
}

/// The field type a field key names.
pub open spec fn kind_of(k: Seq<u8>) -> KeyKind {
    if has_suffix(k, sfx_counter()) {
        KeyKind::KindCounter
    } else if has_suffix(k, sfx_set()) {
        KeyKind::KindSet
    } else if has_suffix(k, sfx_register()) {
        KeyKind::KindRegister
    } else {
        KeyKind::KindUnknown
    }
}

/// The field type of a field value.
pub open spec fn fv_kind(v: FieldV) -> KeyKind {
    match v {
        FieldV::Counter(_) => KeyKind::KindCounter,
        FieldV::StrSet(_) => KeyKind::KindSet,
        FieldV::Register(_, _) => KeyKind::KindRegister,
    }
}

/// Decide whether `suf` is a suffix of `s`.
pub fn ends_with(s: &[u8], suf: &[u8]) -> (r: bool)
    ensures
        r == has_suffix(s@, suf@),
{
    if s.len() < suf.len() {
        return false;
    }
    let off: usize = s.len() - suf.len();
    let mut i: usize = 0;
    while i < suf.len()
        invariant
            s@.len() <= usize::MAX,
            off + suf@.len() == s@.len(),
            i <= suf@.len(),
            forall|j: int| 0 <= j < i ==> s@[off + j] == suf@[j],
        decreases suf@.len() - i,
    {
        if s[off + i] != suf[i] {
            proof {
                assert(s@.skip(off as int)[i as int] == s@[off + i]);
            }
            return false;
        }
        i = i + 1;
    }
    proof {
        assert(s@.skip(off as int) =~= suf@);
    }
    true
}

fn sfx_counter_vec() -> (v: Vec<u8>)
    ensures
        v@ =~= sfx_counter(),
{
    let mut v: Vec<u8> = Vec::new();
    v.push(95);
    v.push(99);
    v.push(111);
    v.push(117);
    v.push(110);
    v.push(116);
    v.push(101);
    v.push(114);
    v
}

fn sfx_set_vec() -> (v: Vec<u8>)
    ensures
        v@ =~= sfx_set(),
{
    let mut v: Vec<u8> = Vec::new();
    v.push(95);
    v.push(115);
    v.push(101);
    v.push(116);
    v
}

fn sfx_register_vec() -> (v: Vec<u8>)
    ensures
        v@ =~= sfx_register(),
{
    let mut v: Vec<u8> = Vec::new();
    v.push(95);
    v.push(114);
    v.push(101);
    v.push(103);
    v.push(105);
    v.push(115);
    v.push(116);
    v.push(101);
    v.push(114);
    v
}

/// Classify a field key by its suffix.
pub fn key_kind(k: &[u8]) -> (r: KeyKind)
    ensures
        r == kind_of(k@),
{
    let c = sfx_counter_vec();
    if ends_with(k, c.as_slice()) {
        return KeyKind::KindCounter;
    }
    let s = sfx_set_vec();
    if ends_with(k, s.as_slice()) {
        return KeyKind::KindSet;
    }
    let r = sfx_register_vec();
    if ends_with(k, r.as_slice()) {
        return KeyKind::KindRegister;
    }
    KeyKind::KindUnknown
}

/// One lattice cell: a record of typed fields, keyed by field name.
#[derive(Clone, PartialEq, Eq, Debug)]
pub struct Values {
    pub fields: Vec<(Vec<u8>, FieldValue)>,
}

/// The map a cell stands for.
pub type CellMap = Map<Seq<u8>, FieldV>;

impl View for Values {
    type V = CellMap;

    open spec fn view(&self) -> CellMap {
        al_map(pairs_view(self.fields@))
    }
}

impl Values {
    /// Field keys are distinct, known, and each value has its key's type.
    pub open spec fn wf(&self) -> bool {
        let s = pairs_view(self.fields@);
        al_unique(s) && forall|i: int|
            0 <= i < s.len() ==> fv_kind((#[trigger] s[i]).1) == kind_of(s[i].0) && kind_of(s[i].0)
                != KeyKind::KindUnknown
    }

    /// The empty cell.
    pub fn empty() -> (r: Values)
        ensures
            r.wf(),
            r@ == Map::<Seq<u8>, FieldV>::empty(),
            r.fields@.len() == 0,
    {
        let r = Values { fields: Vec::new() };
        proof {
            assert(pairs_view(r.fields@) =~= Seq::<(Seq<u8>, FieldV)>::empty());
        }
        r
    }
}

/// Every key of a well-formed cell map carries a value of its key's type.
pub open spec fn wf_cell(m: CellMap) -> bool {
    forall|k: Seq<u8>|
        m.contains_key(k) ==> fv_kind(#[trigger] m[k]) == kind_of(k) && kind_of(k)
            != KeyKind::KindUnknown
}

/// A well-formed `Values` stands for a well-formed cell map.
pub proof fn lemma_values_wf_cell(v: Values)
    requires
        v.wf(),
    ensures
        wf_cell(v@),
{
    let s = pairs_view(v.fields@);
    assert forall|k: Seq<u8>| v@.contains_key(k) implies fv_kind(#[trigger] v@[k]) == kind_of(k)
        && kind_of(k) != KeyKind::KindUnknown by {
        lemma_al_contains(s, k);
        let i = choose|i: int| 0 <= i < s.len() && (#[trigger] s[i]).0 == k;
        lemma_al_get(s, i);
    }
}

/// Register order: by version, ties broken lexicographically on the value.
pub open spec fn reg_le(t1: u64, v1: Seq<u8>, t2: u64, v2: Seq<u8>) -> bool {
    t1 < t2 || (t1 == t2 && lex_le(v1, v2))
}

/// Pointwise order on fields of the same type.
pub open spec fn fv_le(a: FieldV, b: FieldV) -> bool {
    match (a, b) {
        (FieldV::Counter(x), FieldV::Counter(y)) => x <= y,
        (FieldV::StrSet(x), FieldV::StrSet(y)) => x.subset_of(y),
        (FieldV::Register(t1, v1), FieldV::Register(t2, v2)) => reg_le(t1, v1, t2, v2),
        _ => false,
    }
}

/// Least upper bound of two fields of the same type.
pub open spec fn fv_join(a: FieldV, b: FieldV) -> FieldV {
    match (a, b) {
        (FieldV::Counter(x), FieldV::Counter(y)) => FieldV::Counter(
            if x >= y {
                x
            } else {
                y
            },
        ),
        (FieldV::StrSet(x), FieldV::StrSet(y)) => FieldV::StrSet(x.union(y)),
        (FieldV::Register(t1, v1), FieldV::Register(t2, v2)) => if reg_le(t1, v1, t2, v2) {
            FieldV::Register(t2, v2)
        } else {
            FieldV::Register(t1, v1)
        },
        (x, _) => x,
    }
}

/// The merged value of one key of two cell maps.
pub open spec fn cell_joined(a: CellMap, b: CellMap, k: Seq<u8>) -> FieldV {
    if a.contains_key(k) && b.contains_key(k) {
        fv_join(a[k], b[k])
    } else if b.contains_key(k) {
        b[k]
    } else {
        a[k]
    }
}

/// Field-wise merge of two cell maps.
pub open spec fn cell_join(a: CellMap, b: CellMap) -> CellMap {
    Map::new(|k: Seq<u8>| a.contains_key(k) || b.contains_key(k), |k: Seq<u8>| cell_joined(a, b, k))
}

/// The fields of `b` whose merge into `a` changed something.
pub open spec fn cell_diff(a: CellMap, b: CellMap) -> CellMap {
    Map::new(
        |k: Seq<u8>|
            b.contains_key(k) && (!a.contains_key(k) || cell_joined(a, b, k) != a[k]),
        |k: Seq<u8>| cell_joined(a, b, k),
    )
}

/// Pointwise domination between cell maps.
pub open spec fn cell_le(a: CellMap, b: CellMap) -> bool {
    forall|k: Seq<u8>|
        a.contains_key(k) ==> b.contains_key(k) && fv_le(#[trigger] a[k], b[k])
}

/// The register order is total.
proof fn lemma_reg_total(t1: u64, v1: Seq<u8>, t2: u64, v2: Seq<u8>)
    ensures
        reg_le(t1, v1, t2, v2) || reg_le(t2, v2, t1, v1),
{
    if t1 == t2 {
        lemma_lex_total(v1, v2);
    }
}

/// Registers below each other are equal.
proof fn lemma_reg_antisym(t1: u64, v1: Seq<u8>, t2: u64, v2: Seq<u8>)
    requires
        reg_le(t1, v1, t2, v2),
        reg_le(t2, v2, t1, v1),
    ensures
        t1 == t2,
        v1 == v2,
{
    lemma_lex_antisym(v1, v2);
}

/// The register order is transitive.
proof fn lemma_reg_trans(t1: u64, v1: Seq<u8>, t2: u64, v2: Seq<u8>, t3: u64, v3: Seq<u8>)
    requires
        reg_le(t1, v1, t2, v2),
        reg_le(t2, v2, t3, v3),
    ensures
        reg_le(t1, v1, t3, v3),
{
    if t1 == t2 && t2 == t3 {
        lemma_lex_trans(v1, v2, v3);
    }
}

/// `fv_le` is reflexive.
pub proof fn lemma_fv_le_refl(a: FieldV)
    ensures
        fv_le(a, a),
{
    if let FieldV::Register(t, v) = a {
        lemma_lex_refl(v);
    }
}

/// The join of two same-typed fields dominates both and keeps the type.
pub proof fn lemma_fv_join_le(a: FieldV, b: FieldV)
    requires
        fv_kind(a) == fv_kind(b),
    ensures
        fv_le(a, fv_join(a, b)),
        fv_le(b, fv_join(a, b)),
        fv_kind(fv_join(a, b)) == fv_kind(a),
{
    match (a, b) {
        (FieldV::Register(t1, v1), FieldV::Register(t2, v2)) => {
            lemma_reg_total(t1, v1, t2, v2);
            lemma_lex_refl(v1);
            lemma_lex_refl(v2);
        },
        _ => {},
    }
}

/// Join of same-typed fields is commutative.
pub proof fn lemma_fv_join_comm(a: FieldV, b: FieldV)
    requires
        fv_kind(a) == fv_kind(b),
    ensures
        fv_join(a, b) == fv_join(b, a),
{
    match (a, b) {
        (FieldV::StrSet(x), FieldV::StrSet(y)) => {
            assert(x.union(y) =~= y.union(x));
        },
        (FieldV::Register(t1, v1), FieldV::Register(t2, v2)) => {
            lemma_reg_total(t1, v1, t2, v2);
            if reg_le(t1, v1, t2, v2) && reg_le(t2, v2, t1, v1) {
                lemma_reg_antisym(t1, v1, t2, v2);
            }
        },
        _ => {},
    }
}

/// Join of a field with itself changes nothing.
pub proof fn lemma_fv_join_idem(a: FieldV)
    ensures
        fv_join(a, a) == a,
{
    match a {
        FieldV::StrSet(x) => {
            assert(x.union(x) =~= x);
        },
        FieldV::Register(t, v) => {
            lemma_lex_refl(v);
        },
        _ => {},
    }
}

/// Join of same-typed fields is associative.
pub proof fn lemma_fv_join_assoc(a: FieldV, b: FieldV, c: FieldV)
    requires
        fv_kind(a) == fv_kind(b),
        fv_kind(b) == fv_kind(c),
    ensures
        fv_join(fv_join(a, b), c) == fv_join(a, fv_join(b, c)),
{
    match (a, b, c) {
        (FieldV::StrSet(x), FieldV::StrSet(y), FieldV::StrSet(z)) => {
            assert(x.union(y).union(z) =~= x.union(y.union(z)));
        },
        (FieldV::Register(t1, v1), FieldV::Register(t2, v2), FieldV::Register(t3, v3)) => {
            lemma_reg_total(t1, v1, t2, v2);
            lemma_reg_total(t2, v2, t3, v3);
            lemma_reg_total(t1, v1, t3, v3);
            if reg_le(t1, v1, t2, v2) && reg_le(t2, v2, t3, v3) {
                lemma_reg_trans(t1, v1, t2, v2, t3, v3);
            }
            if reg_le(t3, v3, t2, v2) && reg_le(t2, v2, t1, v1) {
                lemma_reg_trans(t3, v3, t2, v2, t1, v1);
            }
            if reg_le(t1, v1, t2, v2) && reg_le(t2, v2, t1, v1) {
                lemma_reg_antisym(t1, v1, t2, v2);
            }
            if reg_le(t2, v2, t3, v3) && reg_le(t3, v3, t2, v2) {
                lemma_reg_antisym(t2, v2, t3, v3);
            }
            if reg_le(t1, v1, t3, v3) && reg_le(t3, v3, t1, v1) {
                lemma_reg_antisym(t1, v1, t3, v3);
            }
        },
        _ => {},
    }
}

/// Joining well-formed cells yields a well-formed cell.
pub proof fn lemma_cell_join_wf(a: CellMap, b: CellMap)
    requires
        wf_cell(a),
        wf_cell(b),
    ensures
        wf_cell(cell_join(a, b)),
{
    let j = cell_join(a, b);
    assert forall|k: Seq<u8>| j.contains_key(k) implies fv_kind(#[trigger] j[k]) == kind_of(k)
        && kind_of(k) != KeyKind::KindUnknown by {
        if a.contains_key(k) && b.contains_key(k) {
            lemma_fv_join_le(a[k], b[k]);
        }
    }
}

/// The merged cell dominates both operands pointwise.
pub proof fn lemma_cell_join_dominates(a: CellMap, b: CellMap)
    requires
        wf_cell(a),
        wf_cell(b),
    ensures
        cell_le(a, cell_join(a, b)),
        cell_le(b, cell_join(a, b)),
{
    let j = cell_join(a, b);
    assert forall|k: Seq<u8>| a.contains_key(k) implies j.contains_key(k) && fv_le(
        #[trigger] a[k],
        j[k],
    ) by {
        if b.contains_key(k) {
            lemma_fv_join_le(a[k], b[k]);
        } else {
            lemma_fv_le_refl(a[k]);
        }
    }
    assert forall|k: Seq<u8>| b.contains_key(k) implies j.contains_key(k) && fv_le(
        #[trigger] b[k],
        j[k],
    ) by {
        if a.contains_key(k) {
            lemma_fv_join_le(a[k], b[k]);
        } else {
            lemma_fv_le_refl(b[k]);
        }
    }
}

/// Cell merge is commutative.
pub proof fn lemma_cell_join_comm(a: CellMap, b: CellMap)
    requires
        wf_cell(a),
        wf_cell(b),
    ensures
        cell_join(a, b) == cell_join(b, a),
{
    assert forall|k: Seq<u8>| cell_join(a, b).contains_key(k) implies #[trigger] cell_join(a, b)[k]
        == cell_join(b, a)[k] by {
        if a.contains_key(k) && b.contains_key(k) {
            lemma_fv_join_comm(a[k], b[k]);
        }
    }
    assert(cell_join(a, b) =~= cell_join(b, a));
}

/// Merging a cell into itself changes nothing.
pub proof fn lemma_cell_join_idem(a: CellMap)
    ensures
        cell_join(a, a) == a,
{
    assert forall|k: Seq<u8>| a.contains_key(k) implies #[trigger] cell_join(a, a)[k] == a[k] by {
        lemma_fv_join_idem(a[k]);
    }
    assert(cell_join(a, a) =~= a);
}

/// Cell merge is associative.
pub proof fn lemma_cell_join_assoc(a: CellMap, b: CellMap, c: CellMap)
    requires
        wf_cell(a),
        wf_cell(b),
        wf_cell(c),
    ensures
        cell_join(cell_join(a, b), c) == cell_join(a, cell_join(b, c)),
{
    let l = cell_join(cell_join(a, b), c);
    let r = cell_join(a, cell_join(b, c));
    assert forall|k: Seq<u8>| l.contains_key(k) implies #[trigger] l[k] == r[k] by {
        if a.contains_key(k) && b.contains_key(k) {
            lemma_fv_join_le(a[k], b[k]);
        }
        if b.contains_key(k) && c.contains_key(k) {
            lemma_fv_join_le(b[k], c[k]);
        }
        if a.contains_key(k) && b.contains_key(k) && c.contains_key(k) {
            lemma_fv_join_assoc(a[k], b[k], c[k]);
        }
    }
    assert(l =~= r);
}

/// Membership in the set a vector of byte strings stands for.
pub proof fn lemma_set_view_contains(s: Seq<Vec<u8>>, x: Seq<u8>)
    ensures
        set_view(s).contains(x) <==> exists|i: int| 0 <= i < s.len() && (#[trigger] s[i])@ == x,
{
    let m = s.map_values(|v: Vec<u8>| v@);
    if exists|i: int| 0 <= i < s.len() && (#[trigger] s[i])@ == x {
        let i = choose|i: int| 0 <= i < s.len() && (#[trigger] s[i])@ == x;
        assert(m[i] == x);
        assert(m.contains(x));
    }
    if set_view(s).contains(x) {
        let i = choose|i: int| 0 <= i < m.len() && m[i] == x;
        assert(s[i]@ == x);
    }
}

/// Appending one byte string inserts its view into the set.
pub proof fn lemma_set_view_push(s: Seq<Vec<u8>>, x: Vec<u8>)
    ensures
        set_view(s.push(x)) == set_view(s).insert(x@),
{
    assert forall|y: Seq<u8>| set_view(s.push(x)).contains(y) implies set_view(s).insert(
        x@,
    ).contains(y) by {
        lemma_set_view_contains(s.push(x), y);
        let i = choose|i: int| 0 <= i < s.push(x).len() && (#[trigger] s.push(x)[i])@ == y;
        if i < s.len() {
            lemma_set_view_contains(s, y);
        }
    }
    assert forall|y: Seq<u8>| set_view(s).insert(x@).contains(y) implies set_view(
        s.push(x),
    ).contains(y) by {
        lemma_set_view_contains(s.push(x), y);
        if y == x@ {
            assert(s.push(x)[s.len() as int]@ == y);
        } else {
            lemma_set_view_contains(s, y);
            let i = choose|i: int| 0 <= i < s.len() && (#[trigger] s[i])@ == y;
            assert(s.push(x)[i]@ == y);
        }
    }
    assert(set_view(s.push(x)) =~= set_view(s).insert(x@));
}

/// Decide membership of a byte string in a vector of byte strings.
pub fn set_contains(v: &Vec<Vec<u8>>, e: &[u8]) -> (r: bool)
    ensures
        r == set_view(v@).contains(e@),
{
    let mut i: usize = 0;
    proof {
        lemma_set_view_contains(v@, e@);
    }
    while i < v.len()
        invariant
            i <= v@.len(),
            forall|j: int| 0 <= j < i ==> (#[trigger] v@[j])@ != e@,
            set_view(v@).contains(e@) <==> exists|j: int|
                0 <= j < v@.len() && (#[trigger] v@[j])@ == e@,
        decreases v@.len() - i,
    {
        if bytes_eq(v[i].as_slice(), e) {
            return true;
        }
        i = i + 1;
    }
    false
}

/// Copy a vector of byte strings.
pub fn clone_bytes_list(v: &Vec<Vec<u8>>) -> (r: Vec<Vec<u8>>)
    ensures
        r@.len() == v@.len(),
        forall|i: int| 0 <= i < v@.len() ==> (#[trigger] r@[i])@ == v@[i]@,
        set_view(r@) == set_view(v@),
{
    let mut r: Vec<Vec<u8>> = Vec::new();
    let mut i: usize = 0;
    while i < v.len()
        invariant
            i <= v@.len(),
            r@.len() == i,
            forall|j: int| 0 <= j < i ==> (#[trigger] r@[j])@ == v@[j]@,
        decreases v@.len() - i,
    {
        r.push(clone_bytes(v[i].as_slice()));
        i = i + 1;
    }
    proof {
        assert(r@.map_values(|x: Vec<u8>| x@) =~= v@.map_values(|x: Vec<u8>| x@));
    }
    r
}

/// The views of a vector of byte strings are pairwise distinct.
pub open spec fn bset_unique(s: Seq<Vec<u8>>) -> bool {
    forall|i: int, j: int| 0 <= i < j < s.len() ==> (#[trigger] s[i])@ != (#[trigger] s[j])@
}

/// Removing an entry from a duplicate-free vector removes its view from the set.
pub proof fn lemma_set_view_remove(s: Seq<Vec<u8>>, i: int)
    requires
        bset_unique(s),
        0 <= i < s.len(),
    ensures
        set_view(s.remove(i)) == set_view(s).remove(s[i]@),
        bset_unique(s.remove(i)),
{
    let t = s.remove(i);
    assert(forall|a: int| 0 <= a < i ==> (#[trigger] t[a]) == s[a]);
    assert(forall|a: int| i <= a < t.len() ==> (#[trigger] t[a]) == s[a + 1]);
    assert forall|y: Seq<u8>| set_view(t).contains(y) implies set_view(s).remove(
        s[i]@,
    ).contains(y) by {
        lemma_set_view_contains(t, y);
        let a = choose|a: int| 0 <= a < t.len() && (#[trigger] t[a])@ == y;
        if a < i {
            assert(s[a]@ == y);
            lemma_set_view_contains(s, y);
        } else {
            assert(s[a + 1]@ == y);
            lemma_set_view_contains(s, y);
        }
    }
    assert forall|y: Seq<u8>| set_view(s).remove(s[i]@).contains(y) implies set_view(t).contains(
        y,
    ) by {
        lemma_set_view_contains(s, y);
        let a = choose|a: int| 0 <= a < s.len() && (#[trigger] s[a])@ == y;
        assert(a != i);
        lemma_set_view_contains(t, y);
        if a < i {
            assert(t[a]@ == y);
        } else {
            assert(t[a - 1]@ == y);
        }
    }
    assert(set_view(s.remove(i)) =~= set_view(s).remove(s[i]@));
}

/// Add a byte string to a duplicate-free vector, if it is not yet there.
pub fn add_bytes(v: &mut Vec<Vec<u8>>, e: &[u8])
    requires
        bset_unique(old(v)@),
    ensures
        bset_unique(final(v)@),
        set_view(final(v)@) == set_view(old(v)@).insert(e@),
        set_view(old(v)@).contains(e@) ==> final(v)@ == old(v)@,
{
    proof {
        lemma_set_view_contains(v@, e@);
    }
    if !set_contains(v, e) {
        let ghost pre = v@;
        v.push(clone_bytes(e));
        proof {
            lemma_set_view_push(pre, v@.last());
            assert forall|i: int, j: int| 0 <= i < j < v@.len() implies (#[trigger] v@[i])@
                != (#[trigger] v@[j])@ by {
                if j == v@.len() - 1 {
                    lemma_set_view_contains(pre, pre[i]@);
                }
            }
        }
    } else {
        proof {
            assert(set_view(v@).insert(e@) =~= set_view(v@));
        }
    }
}

/// Remove a byte string from a duplicate-free vector, if it is there.
pub fn remove_bytes(v: &mut Vec<Vec<u8>>, e: &[u8])
    requires
        bset_unique(old(v)@),
    ensures
        bset_unique(final(v)@),
        set_view(final(v)@) == set_view(old(v)@).remove(e@),
        !set_view(old(v)@).contains(e@) ==> final(v)@ == old(v)@,
{
    let mut i: usize = 0;
    while i < v.len()
        invariant
            v@ == old(v)@,
            bset_unique(v@),
            i <= v@.len(),
            forall|j: int| 0 <= j < i ==> (#[trigger] v@[j])@ != e@,
        decreases v@.len() - i,
    {
        if bytes_eq(v[i].as_slice(), e) {
            let ghost pre = v@;
            v.remove(i);
            proof {
                lemma_set_view_remove(pre, i as int);
                lemma_set_view_contains(pre, e@);
                assert(pre[i as int]@ == e@);
            }
            return;
        }
        i = i + 1;
    }
    proof {
        lemma_set_view_contains(v@, e@);
        assert(set_view(v@).remove(e@) =~= set_view(v@));
    }
}

/// The current cells of a lattice, as a delta: what an attaching
/// subscriber is sent as its snapshot.
pub fn snapshot_delta(values: &Vec<(Vec<u8>, Values)>) -> (d: Delta)
    ensures
        pairs_view(d.items@) == pairs_view(values@),
        d@ == ns_view(values@),
        d.wf() == ns_entries_wf(values@),
{
    let mut items: Vec<(Vec<u8>, Values)> = Vec::new();
    let mut i: usize = 0;
    while i < values.len()
        invariant
            i <= values@.len(),
            items@.len() == i,
            forall|j: int|
                0 <= j < i ==> (#[trigger] items@[j]).0@ == values@[j].0@ && items@[j].1@
                    == values@[j].1@ && (items@[j].1.wf() == values@[j].1.wf()),
        decreases values@.len() - i,
    {
        let key = clone_bytes(values[i].0.as_slice());
        let cell = clone_values(&values[i].1);
        items.push((key, cell));
        i = i + 1;
    }
    let d = Delta { items };
    proof {
        assert(pairs_view(d.items@) =~= pairs_view(values@));
        if ns_entries_wf(values@) {
            assert forall|j: int| 0 <= j < d.items@.len() implies (#[trigger] d.items@[j]).1.wf() by {
                assert(values@[j].1.wf());
            }
        }
        if d.wf() {
            assert forall|j: int| 0 <= j < values@.len() implies (#[trigger] values@[j]).1.wf() by {
                assert(d.items@[j].1.wf());
            }
        }
    }
    d
}

/// Copy a list of byte strings, dropping duplicates.
pub fn dedup_bytes(list: &Vec<Vec<u8>>) -> (r: Vec<Vec<u8>>)
    ensures
        bset_unique(r@),
        set_view(r@) == set_view(list@),
{
    let mut r: Vec<Vec<u8>> = Vec::new();
    let mut i: usize = 0;
    proof {
        assert(set_view(r@) =~= Set::<Seq<u8>>::empty());
        assert(set_view(list@.take(0)) =~= Set::<Seq<u8>>::empty()) by {
            lemma_set_view_contains(list@.take(0), Seq::empty());
            assert forall|y: Seq<u8>| !(#[trigger] set_view(list@.take(0)).contains(y)) by {
                lemma_set_view_contains(list@.take(0), y);
            }
        }
    }
    while i < list.len()
        invariant
            i <= list@.len(),
            bset_unique(r@),
            set_view(r@) == set_view(list@.take(i as int)),
        decreases list@.len() - i,
    {
        add_bytes(&mut r, list[i].as_slice());
        proof {
            assert(list@.take(i as int + 1) =~= list@.take(i as int).push(list@[i as int]));
            lemma_set_view_push(list@.take(i as int), list@[i as int]);
        }
        i = i + 1;
    }
    proof {
        assert(list@.take(list@.len() as int) =~= list@);
    }
    r
}

/// Copy a delta.
pub fn clone_delta(d: &Delta) -> (r: Delta)
    ensures
        pairs_view(r.items@) == pairs_view(d.items@),
        r@ == d@,
        r.wf() == d.wf(),
{
    let mut items: Vec<(Vec<u8>, Values)> = Vec::new();
    let mut i: usize = 0;
    while i < d.items.len()
        invariant
            i <= d.items@.len(),
            items@.len() == i,
            forall|j: int|
                0 <= j < i ==> (#[trigger] items@[j]).0@ == d.items@[j].0@ && items@[j].1@
                    == d.items@[j].1@ && (items@[j].1.wf() == d.items@[j].1.wf()),
        decreases d.items@.len() - i,
    {
        let key = clone_bytes(d.items[i].0.as_slice());
        let cell = clone_values(&d.items[i].1);
        items.push((key, cell));
        i = i + 1;
    }
    let r = Delta { items };
    proof {
        assert(pairs_view(r.items@) =~= pairs_view(d.items@));
        assert forall|j: int| 0 <= j < r.items@.len() implies (#[trigger] r.items@[j]).1.wf()
            == d.items@[j].1.wf() by {}
        if d.wf() {
            assert forall|j: int| 0 <= j < r.items@.len() implies (#[trigger] r.items@[j]).1.wf() by {
                assert(d.items@[j].1.wf());
            }
        }
        if r.wf() {
            assert forall|j: int| 0 <= j < d.items@.len() implies (#[trigger] d.items@[j]).1.wf() by {
                assert(r.items@[j].1.wf());
            }
        }
    }
    r
}
pub fn clone_field(f: &FieldValue) -> (r: FieldValue)
    ensures
        r@ == f@,
{
    match f {
        FieldValue::Counter(n) => FieldValue::Counter(*n),
        FieldValue::StrSet(v) => FieldValue::StrSet(clone_bytes_list(v)),
        FieldValue::Register(t, v) => FieldValue::Register(*t, clone_bytes(v.as_slice())),
    }
}

/// Copy a cell.
pub fn clone_values(v: &Values) -> (r: Values)
    ensures
        pairs_view(r.fields@) == pairs_view(v.fields@),
        r@ == v@,
        r.wf() == v.wf(),
{
    let mut fields: Vec<(Vec<u8>, FieldValue)> = Vec::new();
    let mut i: usize = 0;
    while i < v.fields.len()
        invariant
            i <= v.fields@.len(),
            fields@.len() == i,
            forall|j: int|
                0 <= j < i ==> (#[trigger] fields@[j]).0@ == v.fields@[j].0@ && fields@[j].1@
                    == v.fields@[j].1@,
        decreases v.fields@.len() - i,
    {
        let key = clone_bytes(v.fields[i].0.as_slice());
        let val = clone_field(&v.fields[i].1);
        fields.push((key, val));
        i = i + 1;
    }
    let r = Values { fields };
    proof {
        assert(pairs_view(r.fields@) =~= pairs_view(v.fields@));
    }
    r
}

/// Merge one incoming field into one current field of the same type.
///
/// Returns the merged field and whether it differs from the current one.
fn fv_join_exec(cur: &FieldValue, upd: &FieldValue) -> (r: (FieldValue, bool))
    requires
        fv_kind(cur@) == fv_kind(upd@),
    ensures
        r.0@ == fv_join(cur@, upd@),
        r.1 == (r.0@ != cur@),
{
    match (cur, upd) {
        (FieldValue::Counter(x), FieldValue::Counter(y)) => {
            if *y > *x {
                (FieldValue::Counter(*y), true)
            } else {
                (FieldValue::Counter(*x), false)
            }
        },
        (FieldValue::StrSet(a), FieldValue::StrSet(b)) => {
            let mut out = clone_bytes_list(a);
            let mut changed = false;
            let mut i: usize = 0;
            while i < b.len()
                invariant
                    i <= b@.len(),
                    set_view(out@) == set_view(a@).union(set_view(b@.take(i as int))),
                    changed == (set_view(out@) != set_view(a@)),
                decreases b@.len() - i,
            {
                let ghost pre = out@;
                if !set_contains(&out, b[i].as_slice()) {
                    out.push(clone_bytes(b[i].as_slice()));
                    proof {
                        lemma_set_view_push(pre, out@.last());
                        assert(!set_view(a@).contains(b@[i as int]@));
                    }
                    changed = true;
                }
                proof {
                    assert(b@.take(i as int + 1) =~= b@.take(i as int).push(b@[i as int]));
                    lemma_set_view_push(b@.take(i as int), b@[i as int]);
                    assert(set_view(out@) =~= set_view(a@).union(
                        set_view(b@.take(i as int + 1)),
                    ));
                }
                i = i + 1;
            }
            proof {
                assert(b@.take(b@.len() as int) =~= b@);
            }
            (FieldValue::StrSet(out), changed)
        },
        (FieldValue::Register(t1, v1), FieldValue::Register(t2, v2)) => {
            let le = *t1 < *t2 || (*t1 == *t2 && bytes_le(v1.as_slice(), v2.as_slice()));
            if le {
                let same = *t1 == *t2 && bytes_eq(v1.as_slice(), v2.as_slice());
                (FieldValue::Register(*t2, clone_bytes(v2.as_slice())), !same)
            } else {
                (FieldValue::Register(*t1, clone_bytes(v1.as_slice())), false)
            }
        },
        _ => {
            proof {
                assert(false);
            }
            vstd::pervasive::unreached()
        },
    }
}

/// Inserting a fresh key into the right operand extends the merge pointwise.
proof fn lemma_cell_join_insert(a: CellMap, m: CellMap, k: Seq<u8>, v: FieldV)
    requires
        !m.contains_key(k),
    ensures
        cell_join(a, m.insert(k, v)) == cell_join(a, m).insert(
            k,
            if a.contains_key(k) {
                fv_join(a[k], v)
            } else {
                v
            },
        ),
{
    assert(cell_join(a, m.insert(k, v)) =~= cell_join(a, m).insert(
        k,
        if a.contains_key(k) {
            fv_join(a[k], v)
        } else {
            v
        },
    ));
}

/// Inserting a fresh key into the delta extends the diff exactly when the
/// merged field differs from the current one.
proof fn lemma_cell_diff_insert(a: CellMap, m: CellMap, k: Seq<u8>, v: FieldV)
    requires
        !m.contains_key(k),
    ensures
        cell_diff(a, m.insert(k, v)) == if !a.contains_key(k) || cell_joined(a, m.insert(k, v), k)
            != a[k] {
            cell_diff(a, m).insert(k, cell_joined(a, m.insert(k, v), k))
        } else {
            cell_diff(a, m)
        },
{
    if !a.contains_key(k) || cell_joined(a, m.insert(k, v), k) != a[k] {
        assert(cell_diff(a, m.insert(k, v)) =~= cell_diff(a, m).insert(
            k,
            cell_joined(a, m.insert(k, v), k),
        ));
    } else {
        assert(cell_diff(a, m.insert(k, v)) =~= cell_diff(a, m));
    }
}

impl Values {
    /// Merge an incoming cell into this one, field by field.
    ///
    /// Afterwards this cell is the least upper bound of the two operands.
    /// The returned cell holds exactly the fields the merge changed (the
    /// strictly increased ones), with their merged values; only those are
    /// fanned out to subscribers.
    pub fn merge_cell(&mut self, upd: &Values) -> (diff: Values)
        requires
            old(self).wf(),
            upd.wf(),
        ensures
            final(self).wf(),
            final(self)@ == cell_join(old(self)@, upd@),
            diff.wf(),
            diff@ == cell_diff(old(self)@, upd@),
            forall|k: Seq<u8>| diff@.contains_key(k) ==> upd@.contains_key(k),
    {
        let ghost a = old(self)@;
        let mut diff = Values::empty();
        let mut i: usize = 0;
        proof {
            assert(pairs_view(upd.fields@).take(0) =~= Seq::<(Seq<u8>, FieldV)>::empty());
            assert(cell_join(a, al_map(pairs_view(upd.fields@).take(0))) =~= a);
            assert(cell_diff(a, al_map(pairs_view(upd.fields@).take(0))) =~= Map::<
                Seq<u8>,
                FieldV,
            >::empty());
        }
        while i < upd.fields.len()
            invariant
                i <= upd.fields@.len(),
                old(self).wf(),
                upd.wf(),
                self.wf(),
                diff.wf(),
                a == old(self)@,
                self@ == cell_join(a, al_map(pairs_view(upd.fields@).take(i as int))),
                diff@ == cell_diff(a, al_map(pairs_view(upd.fields@).take(i as int))),
                forall|k: Seq<u8>|
                    diff@.contains_key(k) ==> al_map(
                        pairs_view(upd.fields@).take(i as int),
                    ).contains_key(k),
                forall|j: int|
                    0 <= j < diff.fields@.len() ==> al_map(
                        pairs_view(upd.fields@).take(i as int),
                    ).contains_key((#[trigger] pairs_view(diff.fields@)[j]).0),
            decreases upd.fields@.len() - i,
        {
            let ghost us = pairs_view(upd.fields@);
            let ghost mcur = al_map(us.take(i as int));
            let ghost k = us[i as int].0;
            let ghost v = us[i as int].1;
            proof {
                assert(us.take(i as int + 1) =~= us.take(i as int).push(us[i as int]));
                lemma_al_push(us.take(i as int), k, v);
                assert forall|j: int| 0 <= j < i implies (#[trigger] us.take(i as int)[j]).0
                    != k by {
                    assert(us[j].0 != us[i as int].0);
                }
                lemma_al_absent(us.take(i as int), k);
                lemma_cell_join_insert(a, mcur, k, v);
                lemma_cell_diff_insert(a, mcur, k, v);
                lemma_al_get(us, i as int);
                lemma_values_wf_cell(*upd);
            }
            let key = &upd.fields[i].0;
            let fval = &upd.fields[i].1;
            let found = find_bytes(&self.fields, key.as_slice());
            match found {
                Some(idx) => {
                    proof {
                        lemma_al_get(pairs_view(self.fields@), idx as int);
                    }
                    let (joined, changed) = fv_join_exec(&self.fields[idx].1, fval);
                    if changed {
                        let ghost spre = pairs_view(self.fields@);
                        let newkey = clone_bytes(key.as_slice());
                        let joined2 = clone_field(&joined);
                        self.fields[idx] = (newkey, joined);
                        proof {
                            assert(pairs_view(self.fields@) =~= spre.update(
                                idx as int,
                                (k, us[i as int].1),
                            ).update(idx as int, (k, joined2@)));
                            assert(pairs_view(self.fields@) =~= spre.update(
                                idx as int,
                                (k, joined2@),
                            ));
                            lemma_al_update(spre, idx as int, joined2@);
                        }
                        let ghost dpre = pairs_view(diff.fields@);
                        diff.fields.push((clone_bytes(key.as_slice()), joined2));
                        proof {
                            assert(pairs_view(diff.fields@) =~= dpre.push((k, joined2@)));
                            lemma_al_push(dpre, k, joined2@);
                            assert forall|j: int| 0 <= j < dpre.len() implies (#[trigger] dpre[j]).0
                                != k by {
                                assert(mcur.contains_key(dpre[j].0));
                            }
                            lemma_al_push_unique(dpre, k, joined2@);
                            lemma_values_wf_cell(*old(self));
                            lemma_fv_join_le(a[k], v);
                        }
                    } else {
                        proof {
                            assert(self@ =~= cell_join(a, mcur.insert(k, v)));
                            assert(diff@ =~= cell_diff(a, mcur.insert(k, v)));
                        }
                    }
                },
                None => {
                    let ghost spre = pairs_view(self.fields@);
                    let newkey = clone_bytes(key.as_slice());
                    let newval = clone_field(fval);
                    let ghost nv = newval@;
                    self.fields.push((newkey, newval));
                    proof {
                        assert(pairs_view(self.fields@) =~= spre.push((k, nv)));
                        lemma_al_push(spre, k, nv);
                        assert forall|j: int| 0 <= j < spre.len() implies (#[trigger] spre[j]).0
                            != k by {}
                        lemma_al_push_unique(spre, k, nv);
                        lemma_al_absent(spre, k);
                    }
                    let ghost dpre = pairs_view(diff.fields@);
                    let newkey2 = clone_bytes(key.as_slice());
                    let newval2 = clone_field(fval);
                    diff.fields.push((newkey2, newval2));
                    proof {
                        assert(pairs_view(diff.fields@) =~= dpre.push((k, v)));
                        lemma_al_push(dpre, k, v);
                        assert forall|j: int| 0 <= j < dpre.len() implies (#[trigger] dpre[j]).0
                            != k by {
                            assert(mcur.contains_key(dpre[j].0));
                        }
                        lemma_al_push_unique(dpre, k, v);
                    }
                },
            }
            i = i + 1;
        }
        proof {
            assert(pairs_view(upd.fields@).take(upd.fields@.len() as int) =~= pairs_view(
                upd.fields@,
            ));
        }
        diff
    }
}

/// A partial lattice update: cells to merge in, keyed by lattice key.
#[derive(Clone, PartialEq, Eq, Debug)]
pub struct Delta {
    pub items: Vec<(Vec<u8>, Values)>,
}

/// The map a whole lattice (or a delta) stands for.
pub type NsMap = Map<Seq<u8>, CellMap>;

/// The map a sequence of keyed cells stands for.
pub open spec fn ns_view(s: Seq<(Vec<u8>, Values)>) -> NsMap {
    al_map(pairs_view(s))
}

/// Keys are distinct and every cell is well-formed.
pub open spec fn ns_entries_wf(s: Seq<(Vec<u8>, Values)>) -> bool {
    al_unique(pairs_view(s)) && forall|i: int| 0 <= i < s.len() ==> (#[trigger] s[i]).1.wf()
}

impl View for Delta {
    type V = NsMap;

    open spec fn view(&self) -> NsMap {
        ns_view(self.items@)
    }
}

impl Delta {
    /// Keys are distinct and every cell is well-formed.
    pub open spec fn wf(&self) -> bool {
        ns_entries_wf(self.items@)
    }

    /// The empty delta.
    pub fn empty() -> (r: Delta)
        ensures
            r.wf(),
            r@ == Map::<Seq<u8>, CellMap>::empty(),
            r.items@.len() == 0,
    {
        let r = Delta { items: Vec::new() };
        proof {
            assert(pairs_view(r.items@) =~= Seq::<(Seq<u8>, CellMap)>::empty());
        }
        r
    }
}

/// Every cell of a well-formed lattice map is well-formed.
pub open spec fn wf_ns(m: NsMap) -> bool {
    forall|k: Seq<u8>| m.contains_key(k) ==> wf_cell(#[trigger] m[k])
}

/// Well-formed entries stand for a well-formed lattice map.
pub proof fn lemma_ns_entries_wf(s: Seq<(Vec<u8>, Values)>)
    requires
        ns_entries_wf(s),
    ensures
        wf_ns(ns_view(s)),
{
    let p = pairs_view(s);
    assert forall|k: Seq<u8>| ns_view(s).contains_key(k) implies wf_cell(
        #[trigger] ns_view(s)[k],
    ) by {
        lemma_al_contains(p, k);
        let i = choose|i: int| 0 <= i < p.len() && (#[trigger] p[i]).0 == k;
        lemma_al_get(p, i);
        lemma_values_wf_cell(s[i].1);
    }
}

/// The cell a lattice map holds at a key, or the empty cell.
pub open spec fn cell_at(a: NsMap, k: Seq<u8>) -> CellMap {
    if a.contains_key(k) {
        a[k]
    } else {
        Map::empty()
    }
}

/// The merged cell of one key of two lattice maps.
pub open spec fn ns_joined(a: NsMap, b: NsMap, k: Seq<u8>) -> CellMap {
    if a.contains_key(k) && b.contains_key(k) {
        cell_join(a[k], b[k])
    } else if b.contains_key(k) {
        b[k]
    } else {
        a[k]
    }
}

/// Key-wise merge of two lattice maps.
pub open spec fn ns_join(a: NsMap, b: NsMap) -> NsMap {
    Map::new(|k: Seq<u8>| a.contains_key(k) || b.contains_key(k), |k: Seq<u8>| ns_joined(a, b, k))
}

/// Per key, the fields the merge of `b` into `a` changed; keys whose cells
/// did not change at all are left out.
pub open spec fn ns_diff(a: NsMap, b: NsMap) -> NsMap {
    Map::new(
        |k: Seq<u8>|
            b.contains_key(k) && cell_diff(cell_at(a, k), b[k]) != Map::<Seq<u8>, FieldV>::empty(),
        |k: Seq<u8>| cell_diff(cell_at(a, k), b[k]),
    )
}

/// Merging the empty delta changes nothing and diffs to nothing.
pub proof fn lemma_ns_join_empty(a: NsMap)
    ensures
        ns_join(a, Map::<Seq<u8>, CellMap>::empty()) == a,
        ns_diff(a, Map::<Seq<u8>, CellMap>::empty()) == Map::<Seq<u8>, CellMap>::empty(),
{
    assert(ns_join(a, Map::<Seq<u8>, CellMap>::empty()) =~= a);
    assert(ns_diff(a, Map::<Seq<u8>, CellMap>::empty()) =~= Map::<Seq<u8>, CellMap>::empty());
}

/// Merging well-formed lattice maps yields a well-formed lattice map.
pub proof fn lemma_ns_join_wf(a: NsMap, b: NsMap)
    requires
        wf_ns(a),
        wf_ns(b),
    ensures
        wf_ns(ns_join(a, b)),
{
    assert forall|k: Seq<u8>| ns_join(a, b).contains_key(k) implies wf_cell(
        #[trigger] ns_join(a, b)[k],
    ) by {
        if a.contains_key(k) && b.contains_key(k) {
            lemma_cell_join_wf(a[k], b[k]);
        }
    }
}

/// Lattice merge is commutative.
pub proof fn lemma_ns_join_comm(a: NsMap, b: NsMap)
    requires
        wf_ns(a),
        wf_ns(b),
    ensures
        ns_join(a, b) == ns_join(b, a),
{
    assert forall|k: Seq<u8>| ns_join(a, b).contains_key(k) implies #[trigger] ns_join(a, b)[k]
        == ns_join(b, a)[k] by {
        if a.contains_key(k) && b.contains_key(k) {
            lemma_cell_join_comm(a[k], b[k]);
        }
    }
    assert(ns_join(a, b) =~= ns_join(b, a));
}

/// Merging a lattice map into itself changes nothing.
pub proof fn lemma_ns_join_idem(a: NsMap)
    ensures
        ns_join(a, a) == a,
{
    assert forall|k: Seq<u8>| a.contains_key(k) implies #[trigger] ns_join(a, a)[k] == a[k] by {
        lemma_cell_join_idem(a[k]);
    }
    assert(ns_join(a, a) =~= a);
}

/// Lattice merge is associative.
pub proof fn lemma_ns_join_assoc(a: NsMap, b: NsMap, c: NsMap)
    requires
        wf_ns(a),
        wf_ns(b),
        wf_ns(c),
    ensures
        ns_join(ns_join(a, b), c) == ns_join(a, ns_join(b, c)),
{
    let l = ns_join(ns_join(a, b), c);
    let r = ns_join(a, ns_join(b, c));
    assert forall|k: Seq<u8>| l.contains_key(k) implies #[trigger] l[k] == r[k] by {
        if a.contains_key(k) && b.contains_key(k) && c.contains_key(k) {
            lemma_cell_join_assoc(a[k], b[k], c[k]);
        }
    }
    assert(l =~= r);
}

/// Applying two deltas leaves the same state in either order: cross-node
/// reordering of lattice updates is safe.
pub proof fn lemma_deltas_commute(s: NsMap, d1: NsMap, d2: NsMap)
    requires
        wf_ns(s),
        wf_ns(d1),
        wf_ns(d2),
    ensures
        ns_join(ns_join(s, d1), d2) == ns_join(ns_join(s, d2), d1),
{
    lemma_ns_join_assoc(s, d1, d2);
    lemma_ns_join_comm(d1, d2);
    lemma_ns_join_assoc(s, d2, d1);
}

/// Applying a delta twice is the same as applying it once: duplicated
/// replication frames are harmless.
pub proof fn lemma_delta_idempotent(s: NsMap, d: NsMap)
    requires
        wf_ns(s),
        wf_ns(d),
    ensures
        ns_join(ns_join(s, d), d) == ns_join(s, d),
{
    lemma_ns_join_assoc(s, d, d);
    lemma_ns_join_idem(d);
}

/// A whole stream of deltas merged into a namespace, in order.
pub open spec fn ns_join_fold(s: NsMap, ds: Seq<NsMap>) -> NsMap
    decreases ds.len(),
{
    if ds.len() == 0 {
        s
    } else {
        ns_join_fold(ns_join(s, ds[0]), ds.skip(1))
    }
}

/// Every delta of a stream is well-formed.
pub open spec fn wf_ns_all(ds: Seq<NsMap>) -> bool {
    forall|i: int| 0 <= i < ds.len() ==> wf_ns(#[trigger] ds[i])
}

/// Folding keeps the state well-formed.
pub proof fn lemma_fold_wf(s: NsMap, ds: Seq<NsMap>)
    requires
        wf_ns(s),
        wf_ns_all(ds),
    ensures
        wf_ns(ns_join_fold(s, ds)),
    decreases ds.len(),
{
    if ds.len() > 0 {
        lemma_ns_join_wf(s, ds[0]);
        assert(forall|i: int| 0 <= i < ds.skip(1).len() ==> #[trigger] ds.skip(1)[i] == ds[i + 1]);
        lemma_fold_wf(ns_join(s, ds[0]), ds.skip(1));
    }
}

/// The final namespace state does not depend on the order in which deltas
/// arrive: swapping any two neighbouring deltas of the stream leaves the
/// fold unchanged, and every reordering is a chain of such swaps.
pub proof fn lemma_fold_swap_adjacent(s: NsMap, ds: Seq<NsMap>, i: int)
    requires
        wf_ns(s),
        wf_ns_all(ds),
        0 <= i,
        i + 1 < ds.len(),
    ensures
        ns_join_fold(s, ds) == ns_join_fold(s, ds.update(i, ds[i + 1]).update(i + 1, ds[i])),
    decreases i,
{
    let sw = ds.update(i, ds[i + 1]).update(i + 1, ds[i]);
    assert(forall|j: int| 0 <= j < ds.skip(1).len() ==> #[trigger] ds.skip(1)[j] == ds[j + 1]);
    if i == 0 {
        lemma_deltas_commute(s, ds[0], ds[1]);
        assert(sw.skip(1).skip(1) =~= ds.skip(1).skip(1));
        assert(ds.skip(1)[0] == ds[1]);
        assert(forall|j: int| 0 <= j < sw.skip(1).len() ==> #[trigger] sw.skip(1)[j] == sw[j + 1]);
        assert(sw[0] == ds[1] && sw[1] == ds[0]);
        assert(ns_join_fold(s, ds) == ns_join_fold(ns_join(s, ds[0]), ds.skip(1)));
        assert(ns_join_fold(ns_join(s, ds[0]), ds.skip(1)) == ns_join_fold(
            ns_join(ns_join(s, ds[0]), ds[1]),
            ds.skip(1).skip(1),
        ));
        assert(ns_join_fold(s, sw) == ns_join_fold(ns_join(s, ds[1]), sw.skip(1)));
        assert(ns_join_fold(ns_join(s, ds[1]), sw.skip(1)) == ns_join_fold(
            ns_join(ns_join(s, ds[1]), ds[0]),
            sw.skip(1).skip(1),
        ));
    } else {
        assert(forall|j: int| 0 <= j < sw.skip(1).len() ==> #[trigger] sw.skip(1)[j] == sw[j + 1]);
        lemma_ns_join_wf(s, ds[0]);
        assert(wf_ns_all(ds.skip(1)));
        lemma_fold_swap_adjacent(ns_join(s, ds[0]), ds.skip(1), i - 1);
        assert(sw[0] == ds[0]);
        assert(sw.skip(1) =~= ds.skip(1).update(i - 1, ds.skip(1)[i]).update(
            i,
            ds.skip(1)[i - 1],
        ));
    }
}

/// The final namespace state does not depend on duplicated deltas:
/// repeating any delta of the stream right where it stands leaves the
/// fold unchanged.
pub proof fn lemma_fold_duplicate(s: NsMap, ds: Seq<NsMap>, i: int)
    requires
        wf_ns(s),
        wf_ns_all(ds),
        0 <= i < ds.len(),
    ensures
        ns_join_fold(s, ds) == ns_join_fold(s, ds.insert(i + 1, ds[i])),
    decreases i,
{
    let dup = ds.insert(i + 1, ds[i]);
    assert(forall|j: int| 0 <= j < ds.skip(1).len() ==> #[trigger] ds.skip(1)[j] == ds[j + 1]);
    assert(forall|j: int| 0 <= j < dup.skip(1).len() ==> #[trigger] dup.skip(1)[j] == dup[j + 1]);
    if i == 0 {
        lemma_delta_idempotent(s, ds[0]);
        assert(dup[0] == ds[0] && dup[1] == ds[0]);
        assert(dup.skip(1)[0] == ds[0]);
        assert(dup.skip(1).skip(1) =~= ds.skip(1));
        assert(ns_join_fold(s, dup) == ns_join_fold(ns_join(s, ds[0]), dup.skip(1)));
        assert(ns_join_fold(ns_join(s, ds[0]), dup.skip(1)) == ns_join_fold(
            ns_join(ns_join(s, ds[0]), ds[0]),
            dup.skip(1).skip(1),
        ));
    } else {
        lemma_ns_join_wf(s, ds[0]);
        assert(wf_ns_all(ds.skip(1)));
        lemma_fold_duplicate(ns_join(s, ds[0]), ds.skip(1), i - 1);
        assert(dup[0] == ds[0]);
        assert(dup.skip(1) =~= ds.skip(1).insert(i, ds.skip(1)[i - 1]));
    }
}

/// A nonempty well-formed delta stands for a nonempty map.
pub proof fn lemma_delta_nonempty(d: Delta)
    requires
        d.wf(),
        d.items@.len() > 0,
    ensures
        d@ != Map::<Seq<u8>, CellMap>::empty(),
{
    lemma_al_get(pairs_view(d.items@), 0);
    assert(d@.contains_key(pairs_view(d.items@)[0].0));
}

/// A nonempty well-formed cell list stands for a nonempty map.
proof fn lemma_values_nonempty(v: Values)
    requires
        v.wf(),
        v.fields@.len() > 0,
    ensures
        v@ != Map::<Seq<u8>, FieldV>::empty(),
{
    lemma_al_get(pairs_view(v.fields@), 0);
    assert(v@.contains_key(pairs_view(v.fields@)[0].0));
}

/// Inserting a fresh key into the right operand extends the merge pointwise.
proof fn lemma_ns_join_insert(a: NsMap, m: NsMap, k: Seq<u8>, c: CellMap)
    requires
        !m.contains_key(k),
    ensures
        ns_join(a, m.insert(k, c)) == ns_join(a, m).insert(
            k,
            if a.contains_key(k) {
                cell_join(a[k], c)
            } else {
                c
            },
        ),
{
    assert(ns_join(a, m.insert(k, c)) =~= ns_join(a, m).insert(
        k,
        if a.contains_key(k) {
            cell_join(a[k], c)
        } else {
            c
        },
    ));
}

/// Inserting a fresh key into the delta extends the diff exactly when the
/// key's cell changed.
proof fn lemma_ns_diff_insert(a: NsMap, m: NsMap, k: Seq<u8>, c: CellMap)
    requires
        !m.contains_key(k),
    ensures
        ns_diff(a, m.insert(k, c)) == if cell_diff(cell_at(a, k), c) != Map::<
            Seq<u8>,
            FieldV,
        >::empty() {
            ns_diff(a, m).insert(k, cell_diff(cell_at(a, k), c))
        } else {
            ns_diff(a, m)
        },
{
    if cell_diff(cell_at(a, k), c) != Map::<Seq<u8>, FieldV>::empty() {
        assert(ns_diff(a, m.insert(k, c)) =~= ns_diff(a, m).insert(
            k,
            cell_diff(cell_at(a, k), c),
        ));
    } else {
        assert(ns_diff(a, m.insert(k, c)) =~= ns_diff(a, m));
    }
}

/// Merge a delta into a lattice, cell by cell.
///
/// Afterwards the lattice is the key-wise least upper bound of its old state
/// and the delta.  The returned delta holds, for each key the merge changed,
/// exactly the changed fields: it is what subscribers of the namespace are
/// sent.
pub fn merge_delta(values: &mut Vec<(Vec<u8>, Values)>, d: &Delta) -> (diff: Delta)
    requires
        ns_entries_wf(old(values)@),
        d.wf(),
    ensures
        ns_entries_wf(final(values)@),
        ns_view(final(values)@) == ns_join(ns_view(old(values)@), d@),
        diff.wf(),
        diff@ == ns_diff(ns_view(old(values)@), d@),
{
    let ghost a = ns_view(old(values)@);
    let mut diff = Delta::empty();
    let mut i: usize = 0;
    proof {
        assert(pairs_view(d.items@).take(0) =~= Seq::<(Seq<u8>, CellMap)>::empty());
        assert(ns_join(a, al_map(pairs_view(d.items@).take(0))) =~= a);
        assert(ns_diff(a, al_map(pairs_view(d.items@).take(0))) =~= Map::<Seq<u8>, CellMap>::empty());
    }
    while i < d.items.len()
        invariant
            i <= d.items@.len(),
            d.wf(),
            a == ns_view(old(values)@),
            ns_entries_wf(values@),
            diff.wf(),
            ns_view(values@) == ns_join(a, al_map(pairs_view(d.items@).take(i as int))),
            diff@ == ns_diff(a, al_map(pairs_view(d.items@).take(i as int))),
            forall|j: int|
                0 <= j < diff.items@.len() ==> al_map(
                    pairs_view(d.items@).take(i as int),
                ).contains_key((#[trigger] pairs_view(diff.items@)[j]).0),
        decreases d.items@.len() - i,
    {
        let ghost ds = pairs_view(d.items@);
        let ghost mcur = al_map(ds.take(i as int));
        let ghost k = ds[i as int].0;
        let ghost c = ds[i as int].1;
        proof {
            assert(ds.take(i as int + 1) =~= ds.take(i as int).push(ds[i as int]));
            lemma_al_push(ds.take(i as int), k, c);
            assert forall|j: int| 0 <= j < i implies (#[trigger] ds.take(i as int)[j]).0 != k by {
                assert(ds[j].0 != ds[i as int].0);
            }
            lemma_al_absent(ds.take(i as int), k);
            lemma_ns_join_insert(a, mcur, k, c);
            lemma_ns_diff_insert(a, mcur, k, c);
            lemma_al_get(ds, i as int);
        }
        let key = &d.items[i].0;
        let dc = &d.items[i].1;
        let found = find_bytes(values, key.as_slice());
        match found {
            Some(idx) => {
                proof {
                    lemma_al_get(pairs_view(values@), idx as int);
                    lemma_al_remove(pairs_view(values@), idx as int);
                }
                let ghost vpre = pairs_view(values@);
                let (ekey, mut cell) = values.remove(idx);
                proof {
                    assert(pairs_view(values@) =~= vpre.remove(idx as int));
                }
                let cdiff = cell.merge_cell(dc);
                let ghost vmid = pairs_view(values@);
                values.push((ekey, cell));
                proof {
                    assert(pairs_view(values@) =~= vmid.push((k, cell_join(a[k], c))));
                    lemma_al_push(vmid, k, cell_join(a[k], c));
                    assert forall|j: int| 0 <= j < vmid.len() implies (#[trigger] vmid[j]).0
                        != k by {}
                    lemma_al_push_unique(vmid, k, cell_join(a[k], c));
                    assert(ns_view(values@) =~= ns_join(a, mcur.insert(k, c)));
                }
                if cdiff.fields.len() > 0 {
                    proof {
                        lemma_values_nonempty(cdiff);
                        assert(cell_at(a, k) == a[k]);
                    }
                    let ghost dpre = pairs_view(diff.items@);
                    diff.items.push((clone_bytes(key.as_slice()), cdiff));
                    proof {
                        assert(pairs_view(diff.items@) =~= dpre.push((k, cell_diff(a[k], c))));
                        lemma_al_push(dpre, k, cell_diff(a[k], c));
                        assert forall|j: int| 0 <= j < dpre.len() implies (#[trigger] dpre[j]).0
                            != k by {
                            assert(mcur.contains_key(dpre[j].0));
                        }
                        lemma_al_push_unique(dpre, k, cell_diff(a[k], c));
                    }
                } else {
                    proof {
                        assert(cdiff@ =~= Map::<Seq<u8>, FieldV>::empty()) by {
                            assert(pairs_view(cdiff.fields@) =~= Seq::<(Seq<u8>, FieldV)>::empty());
                        }
                        assert(cell_diff(cell_at(a, k), c) == Map::<Seq<u8>, FieldV>::empty());
                        assert(diff@ =~= ns_diff(a, mcur.insert(k, c)));
                    }
                }
            },
            None => {
                proof {
                    lemma_al_absent(pairs_view(values@), k);
                    assert(!a.contains_key(k)) by {
                        lemma_al_contains(pairs_view(old(values)@), k);
                        lemma_al_contains(pairs_view(values@), k);
                        assert(ns_view(values@) == ns_join(a, mcur));
                        if a.contains_key(k) {
                            assert(ns_join(a, mcur).contains_key(k));
                        }
                    }
                }
                let ghost vpre = pairs_view(values@);
                let newkey = clone_bytes(key.as_slice());
                let newcell = clone_values(dc);
                values.push((newkey, newcell));
                proof {
                    assert(pairs_view(values@) =~= vpre.push((k, c)));
                    lemma_al_push(vpre, k, c);
                    assert forall|j: int| 0 <= j < vpre.len() implies (#[trigger] vpre[j]).0
                        != k by {}
                    lemma_al_push_unique(vpre, k, c);
                    assert(ns_view(values@) =~= ns_join(a, mcur.insert(k, c)));
                }
                if dc.fields.len() > 0 {
                    proof {
                        lemma_values_nonempty(*dc);
                        assert(cell_diff(cell_at(a, k), c) =~= c);
                        assert(c != Map::<Seq<u8>, FieldV>::empty()) by {
                            lemma_al_get(pairs_view(dc.fields@), 0);
                        }
                    }
                    let ghost dpre = pairs_view(diff.items@);
                    let newkey2 = clone_bytes(key.as_slice());
                    let newcell2 = clone_values(dc);
                    diff.items.push((newkey2, newcell2));
                    proof {
                        assert(pairs_view(diff.items@) =~= dpre.push((k, c)));
                        lemma_al_push(dpre, k, c);
                        assert forall|j: int| 0 <= j < dpre.len() implies (#[trigger] dpre[j]).0
                            != k by {
                            assert(mcur.contains_key(dpre[j].0));
                        }
                        lemma_al_push_unique(dpre, k, c);
                        assert(cell_diff(cell_at(a, k), c) == c);
                        assert(diff@ =~= ns_diff(a, mcur.insert(k, c)));
                    }
                } else {
                    proof {
                        assert(c =~= Map::<Seq<u8>, FieldV>::empty()) by {
                            assert(pairs_view(dc.fields@) =~= Seq::<(Seq<u8>, FieldV)>::empty());
                        }
                        assert(cell_diff(cell_at(a, k), c) =~= Map::<Seq<u8>, FieldV>::empty());
                        assert(diff@ =~= ns_diff(a, mcur.insert(k, c)));
                    }
                }
            },
        }
        i = i + 1;
    }
    proof {
        assert(pairs_view(d.items@).take(d.items@.len() as int) =~= pairs_view(d.items@));
    }
    diff
}

/// One field of a lattice delta as it arrives on the wire, before the
/// suffix typing is checked: a number, a list of strings, a versioned
/// value, or anything else.
#[derive(Clone, PartialEq, Eq, Debug)]
pub enum RawField {
    Uint(u64),
    List(Vec<Vec<u8>>),
    Pair(u64, Vec<u8>),
    Other,
}

/// Mathematical value of one wire field.
pub enum RawFieldV {
    Uint(u64),
    List(Seq<Seq<u8>>),
    Pair(u64, Seq<u8>),
    Other,
}

impl View for RawField {
    type V = RawFieldV;

    open spec fn view(&self) -> RawFieldV {
        match self {
            RawField::Uint(n) => RawFieldV::Uint(*n),
            RawField::List(l) => RawFieldV::List(l@.map_values(|x: Vec<u8>| x@)),
            RawField::Pair(t, v) => RawFieldV::Pair(*t, v@),
            RawField::Other => RawFieldV::Other,
        }
    }
}

/// A lattice delta as decoded from a request body, before validation.
#[derive(Clone, PartialEq, Eq, Debug)]
pub struct RawDelta {
    pub cells: Vec<(Vec<u8>, Vec<(Vec<u8>, RawField)>)>,
}

/// Mathematical value of a wire delta.
pub open spec fn raw_view(d: RawDelta) -> Seq<(Seq<u8>, Seq<(Seq<u8>, RawFieldV)>)> {
    d.cells@.map_values(
        |c: (Vec<u8>, Vec<(Vec<u8>, RawField)>)| (c.0@, pairs_view(c.1@)),
    )
}

/// The typed field a wire field stands for under its key's suffix, if the
/// shapes agree; unknown suffixes and mismatched shapes are rejected.
pub open spec fn raw_field_fv(k: Seq<u8>, f: RawFieldV) -> Option<FieldV> {
    match f {
        RawFieldV::Uint(n) => if kind_of(k) == KeyKind::KindCounter {
            Some(FieldV::Counter(n))
        } else {
            None
        },
        RawFieldV::List(l) => if kind_of(k) == KeyKind::KindSet {
            Some(FieldV::StrSet(l.to_set()))
        } else {
            None
        },
        RawFieldV::Pair(t, v) => if kind_of(k) == KeyKind::KindRegister {
            Some(FieldV::Register(t, v))
        } else {
            None
        },
        RawFieldV::Other => None,
    }
}

/// A wire cell is acceptable: keys distinct, every field typed by its key.
pub open spec fn raw_cell_ok(c: Seq<(Seq<u8>, RawFieldV)>) -> bool {
    al_unique(c) && forall|i: int|
        0 <= i < c.len() ==> raw_field_fv((#[trigger] c[i]).0, c[i].1) is Some
}

/// The cell map an acceptable wire cell stands for.
pub open spec fn raw_cell_map(c: Seq<(Seq<u8>, RawFieldV)>) -> CellMap {
    al_map(c.map_values(|p: (Seq<u8>, RawFieldV)| (p.0, raw_field_fv(p.0, p.1)->0)))
}

/// A wire delta is acceptable: keys distinct, every cell acceptable.
pub open spec fn raw_ok(r: Seq<(Seq<u8>, Seq<(Seq<u8>, RawFieldV)>)>) -> bool {
    al_unique(r) && forall|i: int| 0 <= i < r.len() ==> raw_cell_ok((#[trigger] r[i]).1)
}

/// The lattice map an acceptable wire delta stands for.
pub open spec fn raw_map(r: Seq<(Seq<u8>, Seq<(Seq<u8>, RawFieldV)>)>) -> NsMap {
    al_map(
        r.map_values(|c: (Seq<u8>, Seq<(Seq<u8>, RawFieldV)>)| (c.0, raw_cell_map(c.1))),
    )
}

/// Validate and type one wire cell.
fn cell_from_raw(fields: &Vec<(Vec<u8>, RawField)>) -> (r: Result<Values, ()>)
    ensures
        r is Ok <==> raw_cell_ok(pairs_view(fields@)),
        r matches Ok(v) ==> v.wf() && v@ == raw_cell_map(pairs_view(fields@)),
{
    let ghost fv = pairs_view(fields@);
    let ghost typed = fv.map_values(|p: (Seq<u8>, RawFieldV)| (p.0, raw_field_fv(p.0, p.1)->0));
    let mut out: Vec<(Vec<u8>, FieldValue)> = Vec::new();
    let mut i: usize = 0;
    proof {
        assert(pairs_view(out@) =~= typed.take(0));
    }
    while i < fields.len()
        invariant
            i <= fields@.len(),
            fv == pairs_view(fields@),
            typed == fv.map_values(
                |p: (Seq<u8>, RawFieldV)| (p.0, raw_field_fv(p.0, p.1)->0),
            ),
            forall|j1: int, j2: int|
                0 <= j1 < j2 < i ==> (#[trigger] fv[j1]).0 != (#[trigger] fv[j2]).0,
            forall|j: int| 0 <= j < i ==> raw_field_fv((#[trigger] fv[j]).0, fv[j].1) is Some,
            pairs_view(out@) == typed.take(i as int),
        decreases fields@.len() - i,
    {
        let mut j: usize = 0;
        while j < i
            invariant
                j <= i < fields@.len(),
                fv == pairs_view(fields@),
                forall|j2: int| 0 <= j2 < j ==> (#[trigger] fv[j2]).0 != fv[i as int].0,
            decreases i - j,
        {
            if bytes_eq(fields[j].0.as_slice(), fields[i].0.as_slice()) {
                proof {
                    assert((#[trigger] fv[j as int]).0 == fv[i as int].0);
                    assert(!al_unique(fv));
                }
                return Err(());
            }
            j = j + 1;
        }
        let kind = key_kind(fields[i].0.as_slice());
        let built: Option<FieldValue> = match (&fields[i].1, kind) {
            (RawField::Uint(n), KeyKind::KindCounter) => Some(FieldValue::Counter(*n)),
            (RawField::List(l), KeyKind::KindSet) => Some(FieldValue::StrSet(clone_bytes_list(l))),
            (RawField::Pair(t, v), KeyKind::KindRegister) => Some(
                FieldValue::Register(*t, clone_bytes(v.as_slice())),
            ),
            _ => None,
        };
        match built {
            Some(f) => {
                proof {
                    assert(raw_field_fv(fv[i as int].0, fv[i as int].1) is Some);
                    assert(f@ == raw_field_fv(fv[i as int].0, fv[i as int].1)->0) by {
                        match fields@[i as int].1 {
                            RawField::List(l) => {
                                assert(set_view(l@) =~= l@.map_values(|x: Vec<u8>| x@).to_set());
                            },
                            _ => {},
                        }
                    }
                }
                let key = clone_bytes(fields[i].0.as_slice());
                out.push((key, f));
                proof {
                    assert(pairs_view(out@) =~= typed.take(i as int + 1)) by {
                        assert(typed.take(i as int + 1) =~= typed.take(i as int).push(
                            typed[i as int],
                        ));
                    }
                }
            },
            None => {
                proof {
                    assert(raw_field_fv((#[trigger] fv[i as int]).0, fv[i as int].1) is None);
                }
                return Err(());
            },
        }
        i = i + 1;
    }
    proof {
        assert(typed.take(fields@.len() as int) =~= typed);
        if !al_unique(fv) {
            let (j1, j2) = choose|j1: int, j2: int|
                0 <= j1 < j2 < fv.len() && (#[trigger] fv[j1]).0 == (#[trigger] fv[j2]).0;
            assert(false);
        }
    }
    let v = Values { fields: out };
    proof {
        assert(v.wf()) by {
            assert forall|j1: int, j2: int|
                0 <= j1 < j2 < typed.len() implies (#[trigger] typed[j1]).0 != (
            #[trigger] typed[j2]).0 by {
                assert(fv[j1].0 != fv[j2].0);
            }
            assert forall|j: int| 0 <= j < typed.len() implies fv_kind(
                (#[trigger] typed[j]).1,
            ) == kind_of(typed[j].0) && kind_of(typed[j].0) != KeyKind::KindUnknown by {
                assert(raw_field_fv(fv[j].0, fv[j].1) is Some);
            }
        }
    }
    Ok(v)
}

impl Delta {
    /// Validate a decoded request body into a typed delta.
    ///
    /// Every field key must carry a known suffix, its value must have the
    /// matching shape, and keys must be distinct; anything else rejects the
    /// whole delta (the request answers `400 Bad Request`).
    pub fn from_raw(raw: &RawDelta) -> (r: Result<Delta, ()>)
        ensures
            r is Ok <==> raw_ok(raw_view(*raw)),
            r matches Ok(d) ==> d.wf() && d@ == raw_map(raw_view(*raw)),
    {
        let ghost rv = raw_view(*raw);
        let ghost mapped = rv.map_values(
            |c: (Seq<u8>, Seq<(Seq<u8>, RawFieldV)>)| (c.0, raw_cell_map(c.1)),
        );
        let mut items: Vec<(Vec<u8>, Values)> = Vec::new();
        let mut i: usize = 0;
        proof {
            assert(pairs_view(items@) =~= mapped.take(0));
        }
        while i < raw.cells.len()
            invariant
                i <= raw.cells@.len(),
                rv == raw_view(*raw),
                mapped == rv.map_values(
                    |c: (Seq<u8>, Seq<(Seq<u8>, RawFieldV)>)| (c.0, raw_cell_map(c.1)),
                ),
                forall|j1: int, j2: int|
                    0 <= j1 < j2 < i ==> (#[trigger] rv[j1]).0 != (#[trigger] rv[j2]).0,
                forall|j: int| 0 <= j < i ==> raw_cell_ok((#[trigger] rv[j]).1),
                pairs_view(items@) == mapped.take(i as int),
                items@.len() == i,
                forall|j: int| 0 <= j < i ==> (#[trigger] items@[j]).1.wf(),
            decreases raw.cells@.len() - i,
        {
            let mut j: usize = 0;
            while j < i
                invariant
                    j <= i < raw.cells@.len(),
                    rv == raw_view(*raw),
                    forall|j2: int| 0 <= j2 < j ==> (#[trigger] rv[j2]).0 != rv[i as int].0,
                decreases i - j,
            {
                if bytes_eq(raw.cells[j].0.as_slice(), raw.cells[i].0.as_slice()) {
                    proof {
                        assert((#[trigger] rv[j as int]).0 == rv[i as int].0);
                        assert(!al_unique(rv));
                    }
                    return Err(());
                }
                j = j + 1;
            }
            match cell_from_raw(&raw.cells[i].1) {
                Ok(cell) => {
                    let key = clone_bytes(raw.cells[i].0.as_slice());
                    items.push((key, cell));
                    proof {
                        assert(pairs_view(items@) =~= mapped.take(i as int + 1)) by {
                            assert(mapped.take(i as int + 1) =~= mapped.take(i as int).push(
                                mapped[i as int],
                            ));
                        }
                    }
                },
                Err(()) => {
                    proof {
                        assert(!raw_cell_ok((#[trigger] rv[i as int]).1));
                    }
                    return Err(());
                },
            }
            i = i + 1;
        }
        proof {
            assert(mapped.take(raw.cells@.len() as int) =~= mapped);
            if !al_unique(rv) {
                let (j1, j2) = choose|j1: int, j2: int|
                    0 <= j1 < j2 < rv.len() && (#[trigger] rv[j1]).0 == (#[trigger] rv[j2]).0;
                assert(false);
            }
        }
        let d = Delta { items };
        proof {
            assert(d.wf()) by {
                assert forall|j1: int, j2: int|
                    0 <= j1 < j2 < mapped.len() implies (#[trigger] mapped[j1]).0 != (
                #[trigger] mapped[j2]).0 by {
                    assert(rv[j1].0 != rv[j2].0);
                }
                assert(al_unique(pairs_view(d.items@)));
            }
        }
        Ok(d)
    }
}

} // verus!
