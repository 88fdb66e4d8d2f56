//! The binary object format: little-endian fixed-width integers and
//! length-prefixed frames, shared by blobs, trees, commits and the index.
use vstd::bytes::*;
use vstd::prelude::*;
use vstd::slice::{slice_subrange, slice_to_vec};
use vstd::utf8::*;

verus! {

broadcast use vstd::seq_lib::group_seq_properties;

/// `e` occurs in `b` starting at `pos`.
pub open spec fn at(b: Seq<u8>, pos: int, e: Seq<u8>) -> bool {
    0 <= pos && pos + e.len() <= b.len() && b.subrange(pos, pos + e.len()) == e
}

pub open spec fn le64(n: u64) -> Seq<u8> {
    spec_u64_to_le_bytes(n)
}

pub open spec fn le32(n: u32) -> Seq<u8> {
    spec_u32_to_le_bytes(n)
}

/// A byte string preceded by its length.
pub open spec fn frame(b: Seq<u8>) -> Seq<u8> {
    le64(b.len() as u64) + b
}

/// Frames laid end to end.
pub open spec fn frames(xs: Seq<Seq<u8>>) -> Seq<u8>
    decreases xs.len(),
{
    if xs.len() == 0 {
        Seq::empty()
    } else {
        frames(xs.drop_last()) + frame(xs.last())
    }
}

/// A counted list of frames.
pub open spec fn frame_list(xs: Seq<Seq<u8>>) -> Seq<u8> {
    le64(xs.len() as u64) + frames(xs)
}

/// A string as the frame of its UTF-8 bytes.
pub open spec fn str_frame(s: Seq<char>) -> Seq<u8> {
    frame(encode_utf8(s))
}

/// An optional byte string: a zero byte, or a one byte and the frame.
pub open spec fn opt_frame(o: Option<Seq<u8>>) -> Seq<u8> {
    match o {
        Some(b) => seq![1u8] + frame(b),
        None => seq![0u8],
    }
}

pub proof fn lemma_le64_len(n: u64)
    ensures
        le64(n).len() == 8,
        spec_u64_from_le_bytes(le64(n)) == n,
{
    lemma_auto_spec_u64_to_from_le_bytes();
}

pub proof fn lemma_le32_len(n: u32)
    ensures
        le32(n).len() == 4,
        spec_u32_from_le_bytes(le32(n)) == n,
{
    lemma_auto_spec_u32_to_from_le_bytes();
    assert(spec_u32_to_le_bytes(n).len() == 4);
}

/// A concatenation occurs at `pos` exactly when its parts occur one after the other.
pub proof fn lemma_at_concat(b: Seq<u8>, pos: int, e1: Seq<u8>, e2: Seq<u8>)
    ensures
        at(b, pos, e1 + e2) <==> (at(b, pos, e1) && at(b, pos + e1.len(), e2)),
{
    let e = e1 + e2;
    let m = pos + e1.len();
    if at(b, pos, e) {
        assert(b.subrange(pos, m) =~= e.subrange(0, e1.len() as int));
        assert(e.subrange(0, e1.len() as int) =~= e1);
        assert(b.subrange(m, m + e2.len()) =~= e.subrange(e1.len() as int, e.len() as int));
        assert(e.subrange(e1.len() as int, e.len() as int) =~= e2);
    }
    if at(b, pos, e1) && at(b, m, e2) {
        assert forall|i: int| 0 <= i < e.len() implies b.subrange(pos, pos + e.len())[i] == e[i] by {
            if i < e1.len() {
                assert(b.subrange(pos, m)[i] == e1[i]);
            } else {
                assert(b.subrange(m, m + e2.len())[i - e1.len()] == e2[i - e1.len()]);
            }
        }
        assert(b.subrange(pos, pos + e.len()) =~= e);
    }
}

/// Each frame takes at least one byte.
pub proof fn lemma_frames_len(xs: Seq<Seq<u8>>)
    ensures
        frames(xs).len() >= xs.len(),
    decreases xs.len(),
{
    if xs.len() > 0 {
        lemma_frames_len(xs.drop_last());
        lemma_le64_len(xs.last().len() as u64);
    }
}

pub proof fn lemma_at_whole(b: Seq<u8>)
    ensures
        at(b, 0, b),
{
    assert(b.subrange(0, b.len() as int) =~= b);
}

/// The frames of a prefix of a list are a prefix of the frames of the list.
pub proof fn lemma_frames_prefix(xs: Seq<Seq<u8>>, k: int) -> (rest: Seq<u8>)
    requires
        0 <= k <= xs.len(),
    ensures
        frames(xs) == frames(xs.subrange(0, k)) + rest,
    decreases xs.len(),
{
    if k == xs.len() {
        assert(xs.subrange(0, k) =~= xs);
        assert(frames(xs) =~= frames(xs.subrange(0, k)) + Seq::<u8>::empty());
        Seq::<u8>::empty()
    } else {
        let rest = lemma_frames_prefix(xs.drop_last(), k);
        assert(xs.drop_last().subrange(0, k) =~= xs.subrange(0, k));
        assert(frames(xs) =~= frames(xs.subrange(0, k)) + (rest + frame(xs.last())));
        rest + frame(xs.last())
    }
}

pub proof fn lemma_frames_step(xs: Seq<Seq<u8>>, k: int)
    requires
        0 <= k < xs.len(),
    ensures
        frames(xs.subrange(0, k + 1)) == frames(xs.subrange(0, k)) + frame(xs[k]),
{
    assert(xs.subrange(0, k + 1).drop_last() =~= xs.subrange(0, k));
}

/// Appends `b` to `out`.
pub fn push_bytes(out: &mut Vec<u8>, b: &[u8])
    ensures
        final(out)@ == old(out)@ + b@,
{
    let mut i: usize = 0;
    while i < b.len()
        invariant
            i <= b@.len(),
            out@ == old(out)@ + b@.subrange(0, i as int),
        decreases b@.len() - i,
    {
        out.push(b[i]);
        assert(b@.subrange(0, i + 1) =~= b@.subrange(0, i as int).push(b@[i as int]));
        i += 1;
    }
    assert(b@.subrange(0, i as int) =~= b@);
}

pub fn push_u64(out: &mut Vec<u8>, n: u64)
    ensures
        final(out)@ == old(out)@ + le64(n),
{
    let b = u64_to_le_bytes(n);
    push_bytes(out, b.as_slice());
}

pub fn push_u32(out: &mut Vec<u8>, n: u32)
    ensures
        final(out)@ == old(out)@ + le32(n),
{
    let b = u32_to_le_bytes(n);
    push_bytes(out, b.as_slice());
}

pub fn push_frame(out: &mut Vec<u8>, b: &[u8])
    ensures
        final(out)@ == old(out)@ + frame(b@),
{
    push_u64(out, b.len() as u64);
    push_bytes(out, b);
    assert(final(out)@ =~= old(out)@ + frame(b@));
}

pub fn push_str(out: &mut Vec<u8>, s: &String)
    ensures
        final(out)@ == old(out)@ + str_frame(s@),
{
    push_frame(out, s.as_str().as_bytes());
}

pub fn push_opt(out: &mut Vec<u8>, o: &Option<Vec<u8>>)
    ensures
        final(out)@ == old(out)@ + opt_frame(
            match o {
                Some(v) => Some(v@),
                None => None,
            },
        ),
{
    match o {
        Some(v) => {
            out.push(1u8);
            push_frame(out, v.as_slice());
        },
        None => {
            out.push(0u8);
        },
    }
    assert(final(out)@ =~= old(out)@ + opt_frame(
        match o {
            Some(v) => Some(v@),
            None => None,
        },
    ));
}

pub fn read_u64(b: &[u8], pos: usize) -> (r: Option<(u64, usize)>)
    ensures
        match r {
            Some((n, p)) => p == pos + 8 && at(b@, pos as int, le64(n)),
            None => pos + 8 > b@.len(),
        },
        forall|n: u64| #[trigger] at(b@, pos as int, le64(n)) ==> r == Some((n, (pos + 8) as usize)),
{
    proof {
        lemma_auto_spec_u64_to_from_le_bytes();
    }
    if pos > b.len() || b.len() - pos < 8 {
        return None;
    }
    let s = slice_subrange(b, pos, pos + 8);
    let n = u64_from_le_bytes(s);
    assert forall|m: u64| #[trigger] at(b@, pos as int, le64(m)) implies m == n by {
        lemma_le64_len(m);
    }
    Some((n, pos + 8))
}

pub fn read_u32(b: &[u8], pos: usize) -> (r: Option<(u32, usize)>)
    ensures
        match r {
            Some((n, p)) => p == pos + 4 && at(b@, pos as int, le32(n)),
            None => pos + 4 > b@.len(),
        },
        forall|n: u32| #[trigger] at(b@, pos as int, le32(n)) ==> r == Some((n, (pos + 4) as usize)),
{
    proof {
        lemma_auto_spec_u32_to_from_le_bytes();
    }
    if pos > b.len() || b.len() - pos < 4 {
        return None;
    }
    let s = slice_subrange(b, pos, pos + 4);
    let n = u32_from_le_bytes(s);
    assert forall|m: u32| #[trigger] at(b@, pos as int, le32(m)) implies m == n by {
        lemma_le32_len(m);
    }
    Some((n, pos + 4))
}

pub fn read_byte(b: &[u8], pos: usize) -> (r: Option<(u8, usize)>)
    ensures
        match r {
            Some((n, p)) => p == pos + 1 && at(b@, pos as int, seq![n]),
            None => pos >= b@.len(),
        },
        forall|n: u8| #[trigger] at(b@, pos as int, seq![n]) ==> r == Some((n, (pos + 1) as usize)),
{
    if pos >= b.len() {
        return None;
    }
    let n = b[pos];
    assert(b@.subrange(pos as int, pos + 1) =~= seq![n]);
    assert forall|m: u8| #[trigger] at(b@, pos as int, seq![m]) implies m == n by {
        assert(b@.subrange(pos as int, pos + 1)[0] == m);
    }
    Some((n, pos + 1))
}

pub fn read_frame(b: &[u8], pos: usize) -> (r: Option<(Vec<u8>, usize)>)
    ensures
        match r {
            Some((v, p)) => p == pos + frame(v@).len() && at(b@, pos as int, frame(v@)),
            None => forall|x: Seq<u8>| !at(b@, pos as int, #[trigger] frame(x)),
        },
        forall|x: Seq<u8>| #[trigger] at(b@, pos as int, frame(x)) ==> (r matches Some((v, p)) && v@
            == x),
{
    let ghost bs = b@;
    let blen = b.len();
    match read_u64(b, pos) {
        None => {
            assert forall|x: Seq<u8>| !at(bs, pos as int, #[trigger] frame(x)) by {
                lemma_le64_len(x.len() as u64);
                lemma_at_concat(bs, pos as int, le64(x.len() as u64), x);
            }
            None
        },
        Some((n, p)) => {
            proof {
                lemma_le64_len(n);
            }
            if n as u128 > (b.len() - p) as u128 {
                assert forall|x: Seq<u8>| !at(bs, pos as int, #[trigger] frame(x)) by {
                    lemma_le64_len(x.len() as u64);
                    lemma_at_concat(bs, pos as int, le64(x.len() as u64), x);
                    if at(bs, pos as int, frame(x)) {
                        assert(x.len() as u64 == n);
                    }
                }
                return None;
            }
            let v = slice_to_vec(slice_subrange(b, p, p + n as usize));
            proof {
                lemma_le64_len(n);
                assert(v@.len() == n);
                lemma_at_concat(bs, pos as int, le64(n), v@);
                assert forall|x: Seq<u8>| #[trigger] at(bs, pos as int, frame(x)) implies v@ == x by {
                    lemma_le64_len(x.len() as u64);
                    lemma_at_concat(bs, pos as int, le64(x.len() as u64), x);
                    assert(x.len() as u64 == n);
                }
            }
            Some((v, p + n as usize))
        },
    }
}

} // verus!

verus! {

/// Reads a counted list of frames.
pub fn read_frame_list(b: &[u8], pos: usize) -> (r: Option<(Vec<Vec<u8>>, usize)>)
    ensures
        r matches Some((vs, p)) ==> p == pos + frame_list(vs@.map_values(|v: Vec<u8>| v@)).len()
            && at(b@, pos as int, frame_list(vs@.map_values(|v: Vec<u8>| v@))),
        forall|xs: Seq<Seq<u8>>| #[trigger]
            at(b@, pos as int, frame_list(xs)) ==> (r matches Some((vs, p)) && vs@.map_values(
                |v: Vec<u8>| v@,
            ) == xs),
{
    let ghost bs = b@;
    let blen = b.len();
    let (n, q0) = match read_u64(b, pos) {
        None => {
            assert forall|xs: Seq<Seq<u8>>| !#[trigger] at(bs, pos as int, frame_list(xs)) by {
                lemma_le64_len(xs.len() as u64);
                lemma_at_concat(bs, pos as int, le64(xs.len() as u64), frames(xs));
            }
            return None;
        },
        Some(x) => x,
    };
    proof {
        lemma_le64_len(n);
        assert forall|xs: Seq<Seq<u8>>| #[trigger] at(bs, pos as int, frame_list(xs)) implies xs.len()
            == n && at(bs, q0 as int, frames(xs)) by {
            lemma_le64_len(xs.len() as u64);
            lemma_frames_len(xs);
            lemma_at_concat(bs, pos as int, le64(xs.len() as u64), frames(xs));
        }
    }
    let mut vs: Vec<Vec<u8>> = Vec::new();
    let mut p = q0;
    assert(vs@.map_values(|v: Vec<u8>| v@) =~= Seq::<Seq<u8>>::empty());
    assert(bs.subrange(q0 as int, q0 as int) =~= Seq::<u8>::empty());
    let mut k: u64 = 0;
    while k < n
        invariant
            k <= n,
            vs@.len() == k,
            at(bs, pos as int, le64(n)),
            q0 == pos + 8,
            bs == b@,
            p == q0 + frames(vs@.map_values(|v: Vec<u8>| v@)).len(),
            at(bs, q0 as int, frames(vs@.map_values(|v: Vec<u8>| v@))),
            forall|xs: Seq<Seq<u8>>| #[trigger]
                at(bs, pos as int, frame_list(xs)) ==> xs.len() == n && at(
                    bs,
                    q0 as int,
                    frames(xs),
                ) && vs@.map_values(|v: Vec<u8>| v@) == xs.subrange(0, k as int),
        decreases n - k,
    {
        let ghost before = vs@.map_values(|v: Vec<u8>| v@);
        match read_frame(b, p) {
            None => {
                assert forall|xs: Seq<Seq<u8>>| !#[trigger] at(bs, pos as int, frame_list(xs)) by {
                    if at(bs, pos as int, frame_list(xs)) {
                        let rest = lemma_frames_prefix(xs, k + 1);
                        lemma_frames_step(xs, k as int);
                        lemma_at_concat(bs, q0 as int, frames(xs.subrange(0, k + 1)), rest);
                        lemma_at_concat(
                            bs,
                            q0 as int,
                            frames(xs.subrange(0, k as int)),
                            frame(xs[k as int]),
                        );
                    }
                }
                return None;
            },
            Some((v, q)) => {
                proof {
                    lemma_at_concat(bs, q0 as int, frames(before), frame(v@));
                }
                vs.push(v);
                p = q;
                k = k + 1;
                proof {
                    let after = vs@.map_values(|v: Vec<u8>| v@);
                    assert(after.drop_last() =~= before);
                    assert forall|xs: Seq<Seq<u8>>| #[trigger]
                        at(bs, pos as int, frame_list(xs)) implies after == xs.subrange(
                        0,
                        k as int,
                    ) by {
                        let rest = lemma_frames_prefix(xs, k as int);
                        lemma_frames_step(xs, k - 1);
                        lemma_at_concat(bs, q0 as int, frames(xs.subrange(0, k as int)), rest);
                        lemma_at_concat(
                            bs,
                            q0 as int,
                            frames(xs.subrange(0, k - 1)),
                            frame(xs[k - 1]),
                        );
                        assert(after =~= xs.subrange(0, k as int));
                    }
                }
            },
        }
    }
    proof {
        let fin = vs@.map_values(|v: Vec<u8>| v@);
        lemma_at_concat(bs, pos as int, le64(n), frames(fin));
        assert(fin.len() == n);
        assert forall|xs: Seq<Seq<u8>>| #[trigger] at(bs, pos as int, frame_list(xs)) implies fin
            == xs by {
            assert(xs.subrange(0, n as int) =~= xs);
        }
    }
    Some((vs, p))
}

/// Writes a counted list of frames.
pub fn push_frame_list(out: &mut Vec<u8>, xs: &Vec<Vec<u8>>)
    ensures
        final(out)@ == old(out)@ + frame_list(xs@.map_values(|v: Vec<u8>| v@)),
{
    push_u64(out, xs.len() as u64);
    let ghost start = out@;
    let mut i: usize = 0;
    while i < xs.len()
        invariant
            i <= xs@.len(),
            out@ == start + frames(xs@.subrange(0, i as int).map_values(|v: Vec<u8>| v@)),
            start == old(out)@ + le64(xs@.len() as u64),
        decreases xs@.len() - i,
    {
        push_frame(out, xs[i].as_slice());
        proof {
            let s = xs@.subrange(0, i + 1).map_values(|v: Vec<u8>| v@);
            assert(s.drop_last() =~= xs@.subrange(0, i as int).map_values(|v: Vec<u8>| v@));
        }
        i += 1;
    }
    assert(xs@.subrange(0, i as int) =~= xs@);
    assert(final(out)@ =~= old(out)@ + frame_list(xs@.map_values(|v: Vec<u8>| v@)));
}

} // verus!

verus! {

/// Reads a string written by `push_str`; bytes that are not UTF-8 are rejected.
pub fn read_str(b: &[u8], pos: usize) -> (r: Option<(String, usize)>)
    ensures
        r matches Some((s, p)) ==> p == pos + str_frame(s@).len() && at(b@, pos as int, str_frame(s@)),
        forall|x: Seq<char>| #[trigger] at(b@, pos as int, str_frame(x)) ==> (r is Some && (r->0).0@
            == x),
{
    broadcast use vstd::utf8::group_utf8_lib;

    match read_frame(b, pos) {
        None => None,
        Some((v, p)) => {
            let ghost vb = v@;
            match crate::hashing::string_from_utf8(v) {
                None => {
                    proof {
                        assert forall|x: Seq<char>| !#[trigger] at(b@, pos as int, str_frame(x)) by {
                            if at(b@, pos as int, str_frame(x)) {
                                assert(vb == encode_utf8(x));
                            }
                        }
                    }
                    None
                },
                Some(s) => {
                    proof {
                        assert(encode_utf8(s@) == vb);
                        assert forall|x: Seq<char>| #[trigger] at(b@, pos as int, str_frame(x)) implies s@
                            == x by {
                            assert(vb == encode_utf8(x));
                        }
                    }
                    Some((s, p))
                },
            }
        },
    }
}

} // verus!

verus! {

/// An encoding that fills the whole input is the input.
pub proof fn lemma_at_all(b: Seq<u8>, e: Seq<u8>)
    requires
        at(b, 0, e),
        e.len() == b.len(),
    ensures
        b == e,
{
    assert(b.subrange(0, b.len() as int) =~= b);
}

} // verus!

verus! {

} // verus!

verus! {

pub open spec fn opt_str_frame(o: Option<Seq<char>>) -> Seq<u8> {
    match o {
        Some(s) => seq![1u8] + str_frame(s),
        None => seq![0u8],
    }
}

pub open spec fn str_list(xs: Seq<Seq<char>>) -> Seq<u8> {
    frame_list(xs.map_values(|s: Seq<char>| encode_utf8(s)))
}

pub fn push_opt_str(out: &mut Vec<u8>, o: &Option<String>)
    ensures
        final(out)@ == old(out)@ + opt_str_frame(
            match o {
                Some(s) => Some(s@),
                None => None,
            },
        ),
{
    match o {
        Some(s) => {
            out.push(1u8);
            push_str(out, s);
        },
        None => {
            out.push(0u8);
        },
    }
    assert(final(out)@ =~= old(out)@ + opt_str_frame(
        match o {
            Some(s) => Some(s@),
            None => None,
        },
    ));
}

pub fn push_str_list(out: &mut Vec<u8>, xs: &Vec<String>)
    ensures
        final(out)@ == old(out)@ + str_list(xs@.map_values(|s: String| s@)),
{
    let mut parts: Vec<Vec<u8>> = Vec::new();
    let mut i: usize = 0;
    while i < xs.len()
        invariant
            i <= xs@.len(),
            parts@.len() == i,
            forall|j: int| 0 <= j < i ==> #[trigger] parts@[j]@ == encode_utf8(xs@[j]@),
        decreases xs@.len() - i,
    {
        parts.push(xs[i].as_str().as_bytes_vec());
        i += 1;
    }
    push_frame_list(out, &parts);
    assert(parts@.map_values(|v: Vec<u8>| v@) =~= xs@.map_values(|s: String| s@).map_values(
        |s: Seq<char>| encode_utf8(s),
    ));
}

pub fn read_opt_str(b: &[u8], pos: usize) -> (r: Option<(Option<String>, usize)>)
    ensures
        r matches Some((o, p)) ==> ({
            let ov = match o {
                Some(s) => Some(s@),
                None => None,
            };
            p == pos + opt_str_frame(ov).len() && at(b@, pos as int, opt_str_frame(ov))
        }),
        forall|x: Option<Seq<char>>| #[trigger]
            at(b@, pos as int, opt_str_frame(x)) ==> (r is Some && match (r->0).0 {
                Some(s) => x == Some(s@),
                None => x is None,
            }),
{
    let ghost bs = b@;
    proof {
        assert forall|x: Option<Seq<char>>| #[trigger] at(bs, pos as int, opt_str_frame(x)) implies at(
            bs,
            pos as int,
            seq![opt_str_frame(x)[0]],
        ) && (x is Some ==> at(bs, pos + 1, str_frame(x->0))) by {
            match x {
                Some(s) => {
                    lemma_at_concat(bs, pos as int, seq![1u8], str_frame(s));
                },
                None => {},
            }
        }
    }
    match read_byte(b, pos) {
        None => None,
        Some((t, p)) => {
            if t == 0 {
                proof {
                    assert(opt_str_frame(None) =~= seq![0u8]);
                }
                Some((None, p))
            } else if t == 1 {
                match read_str(b, p) {
                    None => None,
                    Some((s, q)) => {
                        proof {
                            lemma_at_concat(bs, pos as int, seq![1u8], str_frame(s@));
                        }
                        Some((Some(s), q))
                    },
                }
            } else {
                None
            }
        },
    }
}

pub fn read_str_list(b: &[u8], pos: usize) -> (r: Option<(Vec<String>, usize)>)
    ensures
        r matches Some((xs, p)) ==> p == pos + str_list(xs@.map_values(|s: String| s@)).len() && at(
            b@,
            pos as int,
            str_list(xs@.map_values(|s: String| s@)),
        ),
        forall|x: Seq<Seq<char>>| #[trigger]
            at(b@, pos as int, str_list(x)) ==> (r is Some && (r->0).0@.map_values(|s: String| s@)
                == x),
{
    broadcast use vstd::utf8::group_utf8_lib;

    let ghost bs = b@;
    let (parts, p) = match read_frame_list(b, pos) {
        None => return None,
        Some(x) => x,
    };
    let ghost pv = parts@.map_values(|v: Vec<u8>| v@);
    let mut out: Vec<String> = Vec::new();
    let mut i: usize = 0;
    while i < parts.len()
        invariant
            i <= parts@.len(),
            bs == b@,
            pv == parts@.map_values(|v: Vec<u8>| v@),
            out@.len() == i,
            forall|j: int| 0 <= j < i ==> encode_utf8(#[trigger] out@[j]@) == pv[j],
            forall|x: Seq<Seq<char>>| #[trigger]
                at(bs, pos as int, str_list(x)) ==> pv == x.map_values(
                    |s: Seq<char>| encode_utf8(s),
                ),
        decreases parts@.len() - i,
    {
        assert(pv[i as int] == parts@[i as int]@);
        let ghost part = pv[i as int];
        match crate::hashing::string_from_utf8(slice_to_vec(parts[i].as_slice())) {
            None => {
                assert forall|x: Seq<Seq<char>>| !#[trigger] at(bs, pos as int, str_list(x)) by {
                    if at(bs, pos as int, str_list(x)) {
                        assert(x.map_values(|s: Seq<char>| encode_utf8(s))[i as int] == encode_utf8(
                            x[i as int],
                        ));
                        vstd::utf8::encode_utf8_valid_utf8(x[i as int]);
                    }
                }
                return None;
            },
            Some(s) => {
                proof {
                    vstd::utf8::decode_utf8_encode_utf8(part);
                }
                out.push(s);
            },
        }
        i += 1;
    }
    let ghost ov = out@.map_values(|s: String| s@);
    proof {
        assert(ov.map_values(|s: Seq<char>| encode_utf8(s)) =~= pv);
        assert forall|x: Seq<Seq<char>>| #[trigger] at(bs, pos as int, str_list(x)) implies ov == x by {
            assert forall|j: int| 0 <= j < x.len() implies ov[j] == x[j] by {
                assert(x.map_values(|s: Seq<char>| encode_utf8(s))[j] == encode_utf8(x[j]));
                assert(encode_utf8(ov[j]) == encode_utf8(x[j]));
                assert(decode_utf8(encode_utf8(ov[j])) == ov[j]);
            }
            assert(ov =~= x);
        }
    }
    Some((out, p))
}

} // verus!

verus! {

pub fn read_opt_frame(b: &[u8], pos: usize) -> (r: Option<(Option<Vec<u8>>, usize)>)
    ensures
        r matches Some((o, p)) ==> ({
            let ov = match o {
                Some(v) => Some(v@),
                None => None,
            };
            p == pos + opt_frame(ov).len() && at(b@, pos as int, opt_frame(ov))
        }),
        forall|x: Option<Seq<u8>>| #[trigger]
            at(b@, pos as int, opt_frame(x)) ==> (r is Some && match (r->0).0 {
                Some(v) => x == Some(v@),
                None => x is None,
            }),
{
    let ghost bs = b@;
    proof {
        assert forall|x: Option<Seq<u8>>| #[trigger] at(bs, pos as int, opt_frame(x)) implies at(
            bs,
            pos as int,
            seq![opt_frame(x)[0]],
        ) && (x is Some ==> at(bs, pos + 1, frame(x->0))) by {
            match x {
                Some(s) => {
                    lemma_at_concat(bs, pos as int, seq![1u8], frame(s));
                },
                None => {},
            }
        }
    }
    match read_byte(b, pos) {
        None => None,
        Some((t, p)) => {
            if t == 0 {
                proof {
                    assert(opt_frame(None) =~= seq![0u8]);
                }
                Some((None, p))
            } else if t == 1 {
                match read_frame(b, p) {
                    None => None,
                    Some((v, q)) => {
                        proof {
                            lemma_at_concat(bs, pos as int, seq![1u8], frame(v@));
                        }
                        Some((Some(v), q))
                    },
                }
            } else {
                None
            }
        },
    }
}

} // verus!
