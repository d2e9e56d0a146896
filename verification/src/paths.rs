//! Sanitizing request paths into file-system paths for the static-file
//! collaborator: percent-decoding, dot-segment rejection, and the
//! hostname-based roots.
//!
//! The file handler itself (opening, sendfile, mime types) lives outside
//! the library; what is verified here is the part that decides which
//! relative path a request may touch.  The result never starts with a
//! slash, so it can only name something under the configured root.

use crate::ids::{bytes_eq, clone_bytes};
use crate::route::{find_byte, lemma_find_byte, segs_view, split_segments, split_segs};
use vstd::prelude::*;
use vstd::utf8::valid_utf8;

verus! {

/// The value of one hexadecimal digit.
pub open spec fn hex_value(b: u8) -> Option<u8> {
    if 48 <= b <= 57 {
        Some((b - 48) as u8)
    } else if 97 <= b <= 102 {
        Some((b - 87) as u8)
    } else if 65 <= b <= 70 {
        Some((b - 55) as u8)
    } else {
        None
    }
}

/// Read one hexadecimal digit.
pub fn from_hex(b: u8) -> (r: Result<u8, ()>)
    ensures
        match r {
            Ok(v) => hex_value(b) == Some(v),
            Err(()) => hex_value(b) is None,
        },
{
    if 48 <= b && b <= 57 {
        Ok(b - 48)
    } else if 97 <= b && b <= 102 {
        Ok(b - 87)
    } else if 65 <= b && b <= 70 {
        Ok(b - 55)
    } else {
        Err(())
    }
}

/// A percent-encoded path component decoded, or nothing if it is
/// malformed, encodes a NUL byte or a slash, or holds a raw NUL.
pub open spec fn percent_decode(s: Seq<u8>) -> Option<Seq<u8>>
    decreases s.len(),
{
    if s.len() == 0 {
        Some(Seq::empty())
    } else if s[0] == 37 {
        if s.len() >= 3 && hex_value(s[1]) is Some && hex_value(s[2]) is Some {
            let b = (hex_value(s[1])->0 * 16 + hex_value(s[2])->0) as u8;
            if b == 0 || b == 47 {
                None
            } else {
                match percent_decode(s.skip(3)) {
                    Some(r) => Some(seq![b] + r),
                    None => None,
                }
            }
        } else {
            None
        }
    } else if s[0] == 0 {
        None
    } else {
        match percent_decode(s.skip(1)) {
            Some(r) => Some(seq![s[0]] + r),
            None => None,
        }
    }
}

/// Decode one path component onto the end of a buffer.
///
/// On failure the buffer may hold a partial decode; the caller discards it.
pub fn decode_component(buf: &mut Vec<u8>, component: &[u8]) -> (r: Result<(), ()>)
    ensures
        r is Ok <==> percent_decode(component@) is Some,
        r is Ok ==> final(buf)@ == old(buf)@ + percent_decode(component@)->0,
{
    let n = component.len();
    let mut i: usize = 0;
    proof {
        assert(component@.skip(0) =~= component@);
        assert(buf@.skip(old(buf)@.len() as int) =~= Seq::<u8>::empty());
        assert(buf@.take(old(buf)@.len() as int) =~= old(buf)@);
        if percent_decode(component@) is Some {
            assert(Seq::<u8>::empty() + percent_decode(component@)->0 =~= percent_decode(
                component@,
            )->0);
        }
    }
    while i < n
        invariant
            n == component@.len(),
            i <= n,
            match percent_decode(component@.skip(i as int)) {
                Some(rest) => percent_decode(component@) == Some(
                    buf@.skip(old(buf)@.len() as int) + rest,
                ) && buf@.take(old(buf)@.len() as int) == old(buf)@ && buf@.len() >= old(
                    buf,
                )@.len(),
                None => percent_decode(component@) is None,
            },
        decreases n - i,
    {
        let ghost rem = component@.skip(i as int);
        proof {
            assert(rem[0] == component@[i as int]);
        }
        let c = component[i];
        if c == 37 {
            if n - i < 3 {
                proof {
                    assert(rem.len() < 3);
                    assert(percent_decode(rem) is None);
                }
                return Err(());
            }
            let h = match from_hex(component[i + 1]) {
                Ok(v) => v,
                Err(()) => {
                    proof {
                        assert(rem[1] == component@[i as int + 1]);
                        assert(percent_decode(rem) is None);
                    }
                    return Err(());
                },
            };
            let l = match from_hex(component[i + 2]) {
                Ok(v) => v,
                Err(()) => {
                    proof {
                        assert(rem[1] == component@[i as int + 1]);
                        assert(rem[2] == component@[i as int + 2]);
                        assert(percent_decode(rem) is None);
                    }
                    return Err(());
                },
            };
            let b = h * 16 + l;
            proof {
                assert(rem[1] == component@[i as int + 1]);
                assert(rem[2] == component@[i as int + 2]);
            }
            if b == 0 || b == 47 {
                proof {
                    assert(percent_decode(rem) is None);
                }
                return Err(());
            }
            let ghost bufpre = buf@;
            buf.push(b);
            proof {
                assert(rem.skip(3) =~= component@.skip(i as int + 3));
                assert(percent_decode(rem) == match percent_decode(rem.skip(3)) {
                    Some(r) => Some(seq![b] + r),
                    None => None::<Seq<u8>>,
                });
                if percent_decode(component@.skip(i as int + 3)) is Some {
                    assert(buf@.skip(old(buf)@.len() as int) =~= bufpre.skip(
                        old(buf)@.len() as int,
                    ).push(b));
                    assert(buf@.take(old(buf)@.len() as int) =~= bufpre.take(
                        old(buf)@.len() as int,
                    ));
                    assert(bufpre.skip(old(buf)@.len() as int).push(b) + percent_decode(
                        component@.skip(i as int + 3),
                    )->0 =~= bufpre.skip(old(buf)@.len() as int) + (seq![b] + percent_decode(
                        component@.skip(i as int + 3),
                    )->0));
                }
            }
            i = i + 3;
        } else if c == 0 {
            proof {
                assert(percent_decode(rem) is None);
            }
            return Err(());
        } else {
            let ghost bufpre = buf@;
            buf.push(c);
            proof {
                assert(rem.skip(1) =~= component@.skip(i as int + 1));
                if percent_decode(component@.skip(i as int + 1)) is Some {
                    assert(buf@.skip(old(buf)@.len() as int) =~= bufpre.skip(
                        old(buf)@.len() as int,
                    ).push(c));
                    assert(buf@.take(old(buf)@.len() as int) =~= bufpre.take(
                        old(buf)@.len() as int,
                    ));
                    assert(bufpre.skip(old(buf)@.len() as int).push(c) + percent_decode(
                        component@.skip(i as int + 1),
                    )->0 =~= bufpre.skip(old(buf)@.len() as int) + (seq![c] + percent_decode(
                        component@.skip(i as int + 1),
                    )->0));
                }
            }
            i = i + 1;
        }
    }
    proof {
        assert(component@.skip(n as int).len() == 0);
        assert(percent_decode(component@.skip(n as int)) == Some(Seq::<u8>::empty()));
        assert(buf@ =~= buf@.take(old(buf)@.len() as int) + buf@.skip(old(buf)@.len() as int));
        assert(buf@.skip(old(buf)@.len() as int) + Seq::<u8>::empty() =~= buf@.skip(
            old(buf)@.len() as int,
        ));
    }
    Ok(())
}

/// A path segment that names the current directory and is skipped:
/// empty, `.`, `%2e` or `%2E`.
pub open spec fn is_skip_seg(c: Seq<u8>) -> bool {
    c.len() == 0 || (c.len() == 1 && c[0] == 46) || (c.len() == 3 && c[0] == 37 && c[1] == 50 && (
    c[2] == 101 || c[2] == 69))
}

/// One spelling of a dot: `.`, `%2e` or `%2E`.
pub open spec fn is_dot_unit(c: Seq<u8>) -> bool {
    (c.len() == 1 && c[0] == 46) || (c.len() == 3 && c[0] == 37 && c[1] == 50 && (c[2] == 101 || c[2]
        == 69))
}

/// A path segment that names the parent directory, in any percent-encoded
/// spelling; such a request is refused.
pub open spec fn is_dotdot_seg(c: Seq<u8>) -> bool {
    exists|k: int| 0 < k < c.len() && is_dot_unit(c.take(k)) && is_dot_unit(c.skip(k))
}

fn seg_is_skip(c: &[u8]) -> (r: bool)
    ensures
        r == is_skip_seg(c@),
{
    c.len() == 0 || (c.len() == 1 && c[0] == 46) || (c.len() == 3 && c[0] == 37 && c[1] == 50 && (
    c[2] == 101 || c[2] == 69))
}

fn unit_at(c: &[u8], from: usize, to: usize) -> (r: bool)
    requires
        from <= to <= c@.len(),
    ensures
        r == is_dot_unit(c@.subrange(from as int, to as int)),
{
    let len = to - from;
    if len == 1 {
        let r = c[from] == 46;
        proof {
            assert(c@.subrange(from as int, to as int)[0] == c@[from as int]);
        }
        r
    } else if len == 3 {
        let r = c[from] == 37 && c[from + 1] == 50 && (c[from + 2] == 101 || c[from + 2] == 69);
        proof {
            assert(c@.subrange(from as int, to as int)[0] == c@[from as int]);
            assert(c@.subrange(from as int, to as int)[1] == c@[from as int + 1]);
            assert(c@.subrange(from as int, to as int)[2] == c@[from as int + 2]);
        }
        r
    } else {
        false
    }
}

fn seg_is_dotdot(c: &[u8]) -> (r: bool)
    ensures
        r == is_dotdot_seg(c@),
{
    let n = c.len();
    let mut r = false;
    if n >= 2 && unit_at(c, 0, 1) && unit_at(c, 1, n) {
        proof {
            assert(c@.take(1) =~= c@.subrange(0, 1));
            assert(c@.skip(1) =~= c@.subrange(1, n as int));
        }
        r = true;
    }
    if !r && n >= 4 && unit_at(c, 0, 3) && unit_at(c, 3, n) {
        proof {
            assert(c@.take(3) =~= c@.subrange(0, 3));
            assert(c@.skip(3) =~= c@.subrange(3, n as int));
        }
        r = true;
    }
    proof {
        if !r && is_dotdot_seg(c@) {
            let k = choose|k: int| 0 < k < c@.len() && is_dot_unit(c@.take(k)) && is_dot_unit(
                c@.skip(k),
            );
            assert(k == 1 || k == 3);
            assert(c@.take(k) =~= c@.subrange(0, k));
            assert(c@.skip(k) =~= c@.subrange(k, c@.len() as int));
        }
    }
    r
}

/// Sanitized path segments folded onto a base: skip segments vanish,
/// parent segments refuse the path, anything else is percent-decoded and
/// joined with slashes.
pub open spec fn segs_fold(acc: Seq<u8>, ss: Seq<Seq<u8>>) -> Option<Seq<u8>>
    decreases ss.len(),
{
    if ss.len() == 0 {
        Some(acc)
    } else if is_skip_seg(ss[0]) {
        segs_fold(acc, ss.skip(1))
    } else if is_dotdot_seg(ss[0]) {
        None
    } else {
        match percent_decode(ss[0]) {
            None => None,
            Some(d) => segs_fold(
                acc + (if acc.len() > 0 {
                    seq![47u8]
                } else {
                    Seq::empty()
                }) + d,
                ss.skip(1),
            ),
        }
    }
}

/// Relies on `core::str::from_utf8`: it accepts exactly the byte strings
/// that are valid UTF-8.
#[verifier::external_body]
pub fn utf8_check(b: &[u8]) -> (r: bool)
    ensures
        r == valid_utf8(b@),
{
    core::str::from_utf8(b).is_ok()
}

/// The sanitized relative path a raw request path stands for, or nothing
/// if the request must be refused: the query and fragment are cut off, the
/// segments are folded, and the result must be valid UTF-8.
pub open spec fn spec_sanitize_path(p: Seq<u8>) -> Option<Seq<u8>> {
    let qcut = if find_byte(p, 63) >= 0 {
        p.take(find_byte(p, 63))
    } else {
        p
    };
    let cut = if find_byte(qcut, 35) >= 0 {
        qcut.take(find_byte(qcut, 35))
    } else {
        qcut
    };
    match segs_fold(Seq::empty(), split_segs(cut)) {
        None => None,
        Some(b) => if valid_utf8(b) {
            Some(b)
        } else {
            None
        },
    }
}

/// Sanitize a request path into the relative file path it may serve.
///
/// Rejects parent-directory segments in every percent-encoded spelling,
/// NUL bytes, encoded slashes and non-UTF-8 results; the query and
/// fragment are ignored.  A result is never absolute: it cannot start
/// with a slash.
pub fn sanitize_path(p: &[u8]) -> (r: Option<Vec<u8>>)
    ensures
        match r {
            Some(v) => spec_sanitize_path(p@) == Some(v@) && (v@.len() == 0 || v@[0] != 47),
            None => spec_sanitize_path(p@) is None,
        },
{
    proof {
        lemma_find_byte(p@, 63);
    }
    let n = p.len();
    let qcut: &[u8] = match crate::route::find_byte_exec(p, 63) {
        Some(q) => vstd::slice::slice_subrange(p, 0, q),
        None => p,
    };
    proof {
        lemma_find_byte(qcut@, 35);
    }
    let m = qcut.len();
    let cut: &[u8] = match crate::route::find_byte_exec(qcut, 35) {
        Some(h) => vstd::slice::slice_subrange(qcut, 0, h),
        None => qcut,
    };
    let ghost speccut = {
        let q0 = if find_byte(p@, 63) >= 0 {
            p@.take(find_byte(p@, 63))
        } else {
            p@
        };
        if find_byte(q0, 35) >= 0 {
            q0.take(find_byte(q0, 35))
        } else {
            q0
        }
    };
    proof {
        assert(qcut@ =~= (if find_byte(p@, 63) >= 0 {
            p@.take(find_byte(p@, 63))
        } else {
            p@
        }));
        assert(cut@ =~= speccut);
    }
    let segs = split_segments(cut);
    let ghost ss = split_segs(cut@);
    let mut buf: Vec<u8> = Vec::new();
    let mut i: usize = 0;
    proof {
        assert(ss.skip(0) =~= ss);
        assert(segs_fold(Seq::empty(), ss) == segs_fold(buf@, ss.skip(0)));
    }
    while i < segs.len()
        invariant
            i <= segs@.len(),
            speccut == ({
                let q0 = if find_byte(p@, 63) >= 0 {
                    p@.take(find_byte(p@, 63))
                } else {
                    p@
                };
                if find_byte(q0, 35) >= 0 {
                    q0.take(find_byte(q0, 35))
                } else {
                    q0
                }
            }),
            cut@ == speccut,
            ss == split_segs(speccut),
            segs_view(segs@) == ss,
            segs_fold(Seq::empty(), ss) == segs_fold(buf@, ss.skip(i as int)),
            buf@.len() == 0 || buf@[0] != 47,
            forall|j: int| 0 <= j < buf@.len() ==> buf@[j] != 0,
        decreases segs@.len() - i,
    {
        let ghost rem = ss.skip(i as int);
        proof {
            assert(rem[0] == ss[i as int]);
            assert(rem.skip(1) =~= ss.skip(i as int + 1));
            assert(segs_view(segs@)[i as int] == segs@[i as int]@);
        }
        let seg = &segs[i];
        if seg_is_skip(seg.as_slice()) {
        } else if seg_is_dotdot(seg.as_slice()) {
            proof {
                assert(segs_fold(buf@, rem) is None);
            }
            return None;
        } else {
            let ghost bufpre = buf@;
            if buf.len() > 0 {
                buf.push(47);
            }
            let ghost mid = buf@;
            match decode_component(&mut buf, seg.as_slice()) {
                Ok(()) => {
                    proof {
                        let d = percent_decode(ss[i as int])->0;
                        assert(buf@ == mid + d);
                        assert(mid =~= bufpre + (if bufpre.len() > 0 {
                            seq![47u8]
                        } else {
                            Seq::<u8>::empty()
                        }));
                        assert(buf@ =~= bufpre + (if bufpre.len() > 0 {
                            seq![47u8]
                        } else {
                            Seq::<u8>::empty()
                        }) + d);
                        lemma_split_segs_no_slash(speccut);
                        assert(no_slash(split_segs(speccut)[i as int]));
                        assert(no_slash(ss[i as int]));
                        lemma_percent_decode_no_bad(ss[i as int]);
                        assert(forall|j: int| 0 <= j < d.len() ==> d[j] != 0 && d[j] != 47);
                        assert(buf@.len() == 0 || buf@[0] != 47) by {
                            if bufpre.len() > 0 {
                                assert(buf@[0] == bufpre[0]);
                            } else if buf@.len() > 0 {
                                assert(buf@[0] == d[0]);
                            }
                        }
                        assert(forall|j: int| 0 <= j < buf@.len() ==> buf@[j] != 0) by {
                            assert(forall|j: int| 0 <= j < mid.len() ==> mid[j] != 0);
                            assert(forall|j: int|
                                mid.len() <= j < buf@.len() ==> buf@[j] == d[j - mid.len()]);
                        }
                    }
                },
                Err(()) => {
                    return None;
                },
            }
        }
        i = i + 1;
    }
    proof {
        assert(ss.skip(segs@.len() as int).len() == 0);
    }
    if utf8_check(buf.as_slice()) {
        Some(buf)
    } else {
        None
    }
}

/// The directory name a request's Host header selects, for roots laid out
/// by hostname: the port is cut off, and a configured suffix (with the dot
/// before it) is stripped.  A host with a slash, a missing host, or one
/// that does not carry the demanded suffix selects nothing.
pub open spec fn spec_host_root(host: Option<Seq<u8>>, strip_suffix: Option<Seq<u8>>) -> Option<
    Seq<u8>,
> {
    match host {
        None => None,
        Some(h) => {
            if find_byte(h, 47) >= 0 {
                None
            } else {
                let name = if find_byte(h, 58) >= 0 {
                    h.take(find_byte(h, 58))
                } else {
                    h
                };
                match strip_suffix {
                    None => Some(name),
                    Some(suf) => {
                        if suf.len() >= name.len() {
                            None
                        } else if name.skip(name.len() - suf.len()) != suf {
                            None
                        } else if name[name.len() - suf.len() - 1] != 46 {
                            None
                        } else {
                            Some(name.take(name.len() - suf.len() - 1))
                        }
                    },
                }
            }
        },
    }
}

/// Resolve the Host header into the directory name it selects.
pub fn host_root(host: Option<&[u8]>, strip_suffix: Option<&[u8]>) -> (r: Option<Vec<u8>>)
    ensures
        match r {
            Some(v) => spec_host_root(
                match host {
                    Some(h) => Some(h@),
                    None => None,
                },
                match strip_suffix {
                    Some(s) => Some(s@),
                    None => None,
                },
            ) == Some(v@),
            None => spec_host_root(
                match host {
                    Some(h) => Some(h@),
                    None => None,
                },
                match strip_suffix {
                    Some(s) => Some(s@),
                    None => None,
                },
            ) is None,
        },
{
    let h = match host {
        None => {
            return None;
        },
        Some(h) => h,
    };
    proof {
        lemma_find_byte(h@, 47);
    }
    if crate::route::find_byte_exec(h, 47).is_some() {
        return None;
    }
    proof {
        lemma_find_byte(h@, 58);
    }
    let name: &[u8] = match crate::route::find_byte_exec(h, 58) {
        Some(colon) => vstd::slice::slice_subrange(h, 0, colon),
        None => h,
    };
    proof {
        assert(name@ =~= (if find_byte(h@, 58) >= 0 {
            h@.take(find_byte(h@, 58))
        } else {
            h@
        }));
    }
    let suf = match strip_suffix {
        None => {
            return Some(clone_bytes(name));
        },
        Some(s) => s,
    };
    if suf.len() >= name.len() {
        return None;
    }
    let cut = name.len() - suf.len();
    let tail = vstd::slice::slice_subrange(name, cut, name.len());
    proof {
        assert(tail@ =~= name@.skip(cut as int));
    }
    if !bytes_eq(tail, suf) {
        return None;
    }
    if name[cut - 1] != 46 {
        return None;
    }
    let root = vstd::slice::slice_subrange(name, 0, cut - 1);
    proof {
        assert(root@ =~= name@.take(cut as int - 1));
    }
    Some(clone_bytes(root))
}

/// What the decode of a slash-free component never holds: NUL bytes and
/// slashes.
pub open spec fn percent_decode_no_bad(s: Seq<u8>) -> bool {
    percent_decode(s) is Some ==> forall|j: int|
        0 <= j < percent_decode(s)->0.len() ==> (#[trigger] percent_decode(s)->0[j]) != 0
            && percent_decode(s)->0[j] != 47
}

/// Decoding a component without raw slashes yields neither NUL bytes nor
/// slashes: a decoded segment cannot smuggle separators past the checks.
pub proof fn lemma_percent_decode_no_bad(s: Seq<u8>)
    requires
        forall|j: int| 0 <= j < s.len() ==> s[j] != 47,
    ensures
        percent_decode_no_bad(s),
    decreases s.len(),
{
    if s.len() > 0 && percent_decode(s) is Some {
        if s[0] == 37 {
            assert(forall|j: int| 0 <= j < s.skip(3).len() ==> #[trigger] s.skip(3)[j] == s[j + 3]);
            lemma_percent_decode_no_bad(s.skip(3));
            let b = (hex_value(s[1])->0 * 16 + hex_value(s[2])->0) as u8;
            let rest = percent_decode(s.skip(3))->0;
            assert(percent_decode(s)->0 =~= seq![b] + rest);
            assert(forall|j: int|
                0 < j < percent_decode(s)->0.len() ==> percent_decode(s)->0[j] == rest[j - 1]);
        } else {
            assert(forall|j: int| 0 <= j < s.skip(1).len() ==> #[trigger] s.skip(1)[j] == s[j + 1]);
            lemma_percent_decode_no_bad(s.skip(1));
            let rest = percent_decode(s.skip(1))->0;
            assert(percent_decode(s)->0 =~= seq![s[0]] + rest);
            assert(s[0] != 0 && s[0] != 47);
            assert(forall|j: int|
                0 < j < percent_decode(s)->0.len() ==> percent_decode(s)->0[j] == rest[j - 1]);
        }
    }
}

/// A byte string without slashes.
pub open spec fn no_slash(s: Seq<u8>) -> bool {
    forall|j: int| 0 <= j < s.len() ==> s[j] != 47
}

/// No segment of a split path holds a slash: the split is at every slash.
pub proof fn lemma_split_segs_no_slash(p: Seq<u8>)
    ensures
        forall|i: int| 0 <= i < split_segs(p).len() ==> no_slash(#[trigger] split_segs(p)[i]),
    decreases p.len(),
{
    let f = find_byte(p, 47);
    lemma_find_byte(p, 47);
    if 0 <= f && f < p.len() {
        lemma_split_segs_no_slash(p.skip(f + 1));
        let rest = split_segs(p.skip(f + 1));
        assert forall|i: int| 0 <= i < split_segs(p).len() implies no_slash(
            #[trigger] split_segs(p)[i],
        ) by {
            if i == 0 {
                assert(split_segs(p)[0] == p.take(f));
                assert(forall|j: int| 0 <= j < f ==> p.take(f)[j] == #[trigger] p[j]);
                assert(forall|j: int| 0 <= j < p.take(f).len() ==> #[trigger] p.take(f)[j] == p[j]);
            } else {
                assert(split_segs(p)[i] == rest[i - 1]);
                assert(no_slash(rest[i - 1]));
            }
        }
    } else {
        assert(forall|i: int| 0 <= i < p.len() ==> p[i] != 47);
        assert(split_segs(p)[0] == p);
    }
}

} // verus!
