//! The snapshot/delta codec: a self-describing, versioned binary encoding of
//! the engine's operation log and causal frontier.
//!
//! A document transfer starts with a two-byte format tag followed by a kind
//! byte (full snapshot or incremental delta), the version vector, and the
//! encoded operations.  Decoding is all-or-nothing: malformed bytes yield
//! `None` and the decoder hands back nothing that could corrupt a replica.

use crate::container::Op;
use crate::ids::{OpId, PathElem, PosId};
use crate::version::{vv_has_key, VersionVector};
use vstd::bytes::{
    lemma_auto_spec_u32_to_from_le_bytes, lemma_auto_spec_u64_to_from_le_bytes,
    spec_u32_from_le_bytes, spec_u32_to_le_bytes, spec_u64_from_le_bytes, spec_u64_to_le_bytes,
    u32_from_le_bytes, u32_to_le_bytes, u64_from_le_bytes, u64_to_le_bytes,
};
use vstd::prelude::*;
use vstd::slice::slice_subrange;
use vstd::utf8::{char_is_scalar, char_u32_cast, is_scalar};

verus! {

/// The mathematical image of an operation: positions as sequences.
pub enum OpAbs {
    Insert { pos: Seq<PathElem>, ch: char },
    Delete { id: OpId, target: OpId },
}

pub open spec fn op_abs(op: Op) -> OpAbs {
    match op {
        Op::Insert { pos, ch } => OpAbs::Insert { pos: pos@, ch },
        Op::Delete { id, target } => OpAbs::Delete { id, target },
    }
}

pub open spec fn ops_abs(ops: Seq<Op>) -> Seq<OpAbs> {
    ops.map_values(|o: Op| op_abs(o))
}

pub open spec fn enc_u64(x: u64) -> Seq<u8> {
    spec_u64_to_le_bytes(x)
}

pub open spec fn enc_u32(x: u32) -> Seq<u8> {
    spec_u32_to_le_bytes(x)
}

pub open spec fn enc_elem(e: PathElem) -> Seq<u8> {
    seq![
        (if e.right {
            1u8
        } else {
            0u8
        }),
    ] + enc_u64(e.replica) + enc_u64(e.seq)
}

pub open spec fn enc_path(p: Seq<PathElem>) -> Seq<u8>
    decreases p.len(),
{
    if p.len() == 0 {
        Seq::empty()
    } else {
        enc_elem(p[0]) + enc_path(p.drop_first())
    }
}

pub open spec fn enc_op(op: OpAbs) -> Seq<u8> {
    match op {
        OpAbs::Insert { pos, ch } => seq![1u8] + enc_u64(pos.len() as u64) + enc_path(pos)
            + enc_u32(ch as u32),
        OpAbs::Delete { id, target } => seq![2u8] + enc_u64(id.replica) + enc_u64(id.seq) + enc_u64(
            target.replica,
        ) + enc_u64(target.seq),
    }
}

pub open spec fn enc_ops(ops: Seq<OpAbs>) -> Seq<u8>
    decreases ops.len(),
{
    if ops.len() == 0 {
        Seq::empty()
    } else {
        enc_op(ops[0]) + enc_ops(ops.drop_first())
    }
}

pub open spec fn enc_vv(pairs: Seq<(u64, u64)>) -> Seq<u8>
    decreases pairs.len(),
{
    if pairs.len() == 0 {
        Seq::empty()
    } else {
        enc_u64(pairs[0].0) + enc_u64(pairs[0].1) + enc_vv(pairs.drop_first())
    }
}

/// The complete wire form: format tag, format version, kind, version
/// vector, operations.
pub open spec fn enc_doc(kind: u8, pairs: Seq<(u64, u64)>, ops: Seq<OpAbs>) -> Seq<u8> {
    seq![75u8, 1u8, kind] + enc_u64(pairs.len() as u64) + enc_vv(pairs) + enc_u64(
        ops.len() as u64,
    ) + enc_ops(ops)
}

proof fn lemma_enc_lens()
    ensures
        forall|x: u64| (#[trigger] enc_u64(x)).len() == 8,
        forall|x: u32| (#[trigger] enc_u32(x)).len() == 4,
        forall|e: PathElem| (#[trigger] enc_elem(e)).len() == 17,
{
    lemma_auto_spec_u64_to_from_le_bytes();
    lemma_auto_spec_u32_to_from_le_bytes();
}

pub proof fn lemma_enc_path_len(p: Seq<PathElem>)
    ensures
        enc_path(p).len() == 17 * p.len(),
    decreases p.len(),
{
    lemma_enc_lens();
    if p.len() > 0 {
        lemma_enc_path_len(p.drop_first());
    }
}

pub proof fn lemma_enc_op_len(op: OpAbs)
    ensures
        enc_op(op).len() >= 1,
        op matches OpAbs::Insert { pos, .. } ==> enc_op(op).len() == 13 + 17 * pos.len(),
        op matches OpAbs::Delete { .. } ==> enc_op(op).len() == 33,
{
    lemma_enc_lens();
    match op {
        OpAbs::Insert { pos, ch } => {
            lemma_enc_path_len(pos);
        },
        OpAbs::Delete { .. } => {},
    }
}

pub proof fn lemma_enc_ops_snoc(ops: Seq<OpAbs>, op: OpAbs)
    ensures
        enc_ops(ops.push(op)) == enc_ops(ops) + enc_op(op),
    decreases ops.len(),
{
    let u = ops.push(op);
    if ops.len() == 0 {
        assert(u[0] == op);
        assert(u.drop_first() =~= Seq::<OpAbs>::empty());
        assert(enc_ops(u.drop_first()) == Seq::<u8>::empty());
        assert(enc_ops(u) =~= enc_ops(ops) + enc_op(op));
    } else {
        assert(u[0] == ops[0]);
        assert(u.drop_first() =~= ops.drop_first().push(op));
        lemma_enc_ops_snoc(ops.drop_first(), op);
        assert(enc_ops(u) =~= enc_ops(ops) + enc_op(op));
    }
}

pub proof fn lemma_enc_vv_snoc(pairs: Seq<(u64, u64)>, p: (u64, u64))
    ensures
        enc_vv(pairs.push(p)) == enc_vv(pairs) + enc_u64(p.0) + enc_u64(p.1),
    decreases pairs.len(),
{
    let u = pairs.push(p);
    if pairs.len() == 0 {
        assert(u[0] == p);
        assert(u.drop_first() =~= Seq::<(u64, u64)>::empty());
        assert(enc_vv(u.drop_first()) == Seq::<u8>::empty());
        assert(enc_vv(u) =~= enc_vv(pairs) + enc_u64(p.0) + enc_u64(p.1));
    } else {
        assert(u[0] == pairs[0]);
        assert(u.drop_first() =~= pairs.drop_first().push(p));
        lemma_enc_vv_snoc(pairs.drop_first(), p);
        assert(enc_vv(u) =~= enc_vv(pairs) + enc_u64(p.0) + enc_u64(p.1));
    }
}

pub proof fn lemma_enc_path_snoc(p: Seq<PathElem>, e: PathElem)
    ensures
        enc_path(p.push(e)) == enc_path(p) + enc_elem(e),
    decreases p.len(),
{
    let u = p.push(e);
    if p.len() == 0 {
        assert(u[0] == e);
        assert(u.drop_first() =~= Seq::<PathElem>::empty());
        assert(enc_path(u.drop_first()) == Seq::<u8>::empty());
        assert(enc_path(u) =~= enc_path(p) + enc_elem(e));
    } else {
        assert(u[0] == p[0]);
        assert(u.drop_first() =~= p.drop_first().push(e));
        lemma_enc_path_snoc(p.drop_first(), e);
        assert(enc_path(u) =~= enc_path(p) + enc_elem(e));
    }
}

fn push_u64(out: &mut Vec<u8>, x: u64)
    ensures
        final(out)@ == old(out)@ + enc_u64(x),
{
    let mut b = u64_to_le_bytes(x);
    out.append(&mut b);
}

fn push_u32(out: &mut Vec<u8>, x: u32)
    ensures
        final(out)@ == old(out)@ + enc_u32(x),
{
    let mut b = u32_to_le_bytes(x);
    out.append(&mut b);
}

fn push_elem(out: &mut Vec<u8>, e: PathElem)
    ensures
        final(out)@ == old(out)@ + enc_elem(e),
{
    let ghost o = out@;
    if e.right {
        out.push(1u8);
    } else {
        out.push(0u8);
    }
    push_u64(out, e.replica);
    push_u64(out, e.seq);
    proof {
        assert(final(out)@ =~= o + enc_elem(e));
    }
}

#[verifier::loop_isolation(false)]
fn push_path(out: &mut Vec<u8>, p: &PosId)
    ensures
        final(out)@ == old(out)@ + enc_path(p@),
{
    let ghost o = out@;
    let n = p.elems.len();
    let mut i: usize = 0;
    proof {
        assert(p@.take(0) =~= Seq::<PathElem>::empty());
        assert(o + enc_path(p@.take(0)) =~= o);
    }
    while i < n
        invariant
            i <= n,
            out@ == o + enc_path(p@.take(i as int)),
        decreases n - i,
    {
        proof {
            assert(p@.take(i as int + 1) =~= p@.take(i as int).push(p@[i as int]));
            lemma_enc_path_snoc(p@.take(i as int), p@[i as int]);
        }
        push_elem(out, p.elems[i]);
        proof {
            assert(out@ =~= o + enc_path(p@.take(i as int + 1)));
        }
        i = i + 1;
    }
    proof {
        assert(p@.take(n as int) =~= p@);
    }
}

fn push_op(out: &mut Vec<u8>, op: &Op)
    ensures
        final(out)@ == old(out)@ + enc_op(op_abs(*op)),
{
    let ghost o = out@;
    match op {
        Op::Insert { pos, ch } => {
            out.push(1u8);
            push_u64(out, pos.elems.len() as u64);
            push_path(out, pos);
            push_u32(out, (*ch) as u32);
            proof {
                assert(final(out)@ =~= o + enc_op(op_abs(*op)));
            }
        },
        Op::Delete { id, target } => {
            out.push(2u8);
            push_u64(out, id.replica);
            push_u64(out, id.seq);
            push_u64(out, target.replica);
            push_u64(out, target.seq);
            proof {
                assert(final(out)@ =~= o + enc_op(op_abs(*op)));
            }
        },
    }
}

/// Encodes a complete transfer: kind, version vector, operations.
#[verifier::loop_isolation(false)]
pub fn encode_doc(kind: u8, vv: &VersionVector, ops: &Vec<Op>) -> (out: Vec<u8>)
    ensures
        out@ == enc_doc(kind, vv.pairs@, ops_abs(ops@)),
{
    let mut out: Vec<u8> = Vec::new();
    out.push(75u8);
    out.push(1u8);
    out.push(kind);
    proof {
        assert(out@ =~= seq![75u8, 1u8, kind]);
    }
    push_u64(&mut out, vv.pairs.len() as u64);
    let ghost h1 = out@;
    let m = vv.pairs.len();
    let mut i: usize = 0;
    proof {
        assert(vv.pairs@.take(0) =~= Seq::<(u64, u64)>::empty());
        assert(h1 + enc_vv(vv.pairs@.take(0)) =~= h1);
    }
    while i < m
        invariant
            i <= m,
            out@ == h1 + enc_vv(vv.pairs@.take(i as int)),
        decreases m - i,
    {
        proof {
            assert(vv.pairs@.take(i as int + 1) =~= vv.pairs@.take(i as int).push(
                vv.pairs@[i as int],
            ));
            lemma_enc_vv_snoc(vv.pairs@.take(i as int), vv.pairs@[i as int]);
        }
        let p = vv.pairs[i];
        push_u64(&mut out, p.0);
        push_u64(&mut out, p.1);
        proof {
            assert(out@ =~= h1 + enc_vv(vv.pairs@.take(i as int + 1)));
        }
        i = i + 1;
    }
    proof {
        assert(vv.pairs@.take(m as int) =~= vv.pairs@);
    }
    push_u64(&mut out, ops.len() as u64);
    let ghost h2 = out@;
    let c = ops.len();
    let mut k: usize = 0;
    proof {
        assert(ops_abs(ops@.take(0)) =~= Seq::<OpAbs>::empty());
        assert(h2 + enc_ops(ops_abs(ops@.take(0))) =~= h2);
    }
    while k < c
        invariant
            k <= c,
            out@ == h2 + enc_ops(ops_abs(ops@.take(k as int))),
        decreases c - k,
    {
        proof {
            assert(ops_abs(ops@.take(k as int + 1)) =~= ops_abs(ops@.take(k as int)).push(
                op_abs(ops@[k as int]),
            ));
            lemma_enc_ops_snoc(ops_abs(ops@.take(k as int)), op_abs(ops@[k as int]));
        }
        push_op(&mut out, &ops[k]);
        proof {
            assert(out@ =~= h2 + enc_ops(ops_abs(ops@.take(k as int + 1))));
        }
        k = k + 1;
    }
    proof {
        assert(ops@.take(c as int) =~= ops@);
        assert(ops_abs(ops@.take(c as int)) =~= ops_abs(ops@));
        assert(out@ =~= enc_doc(kind, vv.pairs@, ops_abs(ops@)));
    }
    out
}

pub open spec fn dec_u64_s(b: Seq<u8>, i: int) -> Option<(u64, int)> {
    if 0 <= i && i + 8 <= b.len() {
        Some((spec_u64_from_le_bytes(b.subrange(i, i + 8)), i + 8))
    } else {
        None
    }
}

pub open spec fn dec_u32_s(b: Seq<u8>, i: int) -> Option<(u32, int)> {
    if 0 <= i && i + 4 <= b.len() {
        Some((spec_u32_from_le_bytes(b.subrange(i, i + 4)), i + 4))
    } else {
        None
    }
}

pub open spec fn dec_elem_s(b: Seq<u8>, i: int) -> Option<(PathElem, int)> {
    if 0 <= i && i + 1 <= b.len() {
        match dec_u64_s(b, i + 1) {
            Some((rep, j)) => match dec_u64_s(b, j) {
                Some((sq, k)) => Some((PathElem { right: b[i] != 0, replica: rep, seq: sq }, k)),
                None => None,
            },
            None => None,
        }
    } else {
        None
    }
}

pub open spec fn dec_path_s(b: Seq<u8>, i: int, cnt: int) -> Option<(Seq<PathElem>, int)>
    decreases cnt,
{
    if cnt <= 0 {
        Some((Seq::empty(), i))
    } else {
        match dec_elem_s(b, i) {
            Some((e, j)) => match dec_path_s(b, j, cnt - 1) {
                Some((p, k)) => Some((seq![e] + p, k)),
                None => None,
            },
            None => None,
        }
    }
}

pub open spec fn dec_op_s(b: Seq<u8>, i: int) -> Option<(OpAbs, int)> {
    if 0 <= i && i + 1 <= b.len() {
        if b[i] == 1 {
            match dec_u64_s(b, i + 1) {
                Some((cnt, j)) => if cnt >= 1 {
                    match dec_path_s(b, j, cnt as int) {
                        Some((p, k)) => match dec_u32_s(b, k) {
                            Some((cv, m)) => if is_scalar(cv) {
                                Some((OpAbs::Insert { pos: p, ch: cv as char }, m))
                            } else {
                                None
                            },
                            None => None,
                        },
                        None => None,
                    }
                } else {
                    None
                },
                None => None,
            }
        } else if b[i] == 2 {
            match dec_u64_s(b, i + 1) {
                Some((a, j)) => match dec_u64_s(b, j) {
                    Some((s, k)) => match dec_u64_s(b, k) {
                        Some((tr, m)) => match dec_u64_s(b, m) {
                            Some((ts, e)) => Some(
                                (
                                    OpAbs::Delete {
                                        id: OpId { replica: a, seq: s },
                                        target: OpId { replica: tr, seq: ts },
                                    },
                                    e,
                                ),
                            ),
                            None => None,
                        },
                        None => None,
                    },
                    None => None,
                },
                None => None,
            }
        } else {
            None
        }
    } else {
        None
    }
}

pub open spec fn dec_ops_s(b: Seq<u8>, i: int, cnt: int) -> Option<(Seq<OpAbs>, int)>
    decreases cnt,
{
    if cnt <= 0 {
        Some((Seq::empty(), i))
    } else {
        match dec_op_s(b, i) {
            Some((op, j)) => match dec_ops_s(b, j, cnt - 1) {
                Some((ops, k)) => Some((seq![op] + ops, k)),
                None => None,
            },
            None => None,
        }
    }
}

pub open spec fn dec_vv_s(b: Seq<u8>, i: int, cnt: int) -> Option<(Seq<(u64, u64)>, int)>
    decreases cnt,
{
    if cnt <= 0 {
        Some((Seq::empty(), i))
    } else {
        match dec_u64_s(b, i) {
            Some((r, j)) => match dec_u64_s(b, j) {
                Some((v, k)) => match dec_vv_s(b, k, cnt - 1) {
                    Some((rest, m)) => if vv_has_key(rest, r) {
                        None
                    } else {
                        Some((seq![(r, v)] + rest, m))
                    },
                    None => None,
                },
                None => None,
            },
            None => None,
        }
    }
}

/// The decoded form of a complete transfer, `None` for malformed bytes:
/// a wrong tag or format version, an unknown kind, a truncated field, an
/// invalid character, a duplicated version-vector key, an empty position,
/// or trailing garbage.
pub open spec fn dec_doc_s(b: Seq<u8>) -> Option<(u8, Seq<(u64, u64)>, Seq<OpAbs>)> {
    if b.len() >= 3 && b[0] == 75 && b[1] == 1 && (b[2] == 1 || b[2] == 2) {
        match dec_u64_s(b, 3) {
            Some((m, i)) => match dec_vv_s(b, i, m as int) {
                Some((pairs, j)) => match dec_u64_s(b, j) {
                    Some((c, k)) => match dec_ops_s(b, k, c as int) {
                        Some((ops, e)) => if e == b.len() {
                            Some((b[2], pairs, ops))
                        } else {
                            None
                        },
                        None => None,
                    },
                    None => None,
                },
                None => None,
            },
            None => None,
        }
    } else {
        None
    }
}

/// Relies on char::from_u32: returns `Some` exactly for valid Unicode
/// scalar values, giving the character with that code point.
#[verifier::external_body]
fn char_from_u32(v: u32) -> (r: Option<char>)
    ensures
        r is Some <==> is_scalar(v),
        r matches Some(c) ==> c as u32 == v,
{
    char::from_u32(v)
}

fn read_u64(b: &Vec<u8>, i: usize) -> (r: Option<(u64, usize)>)
    ensures
        r is Some <==> dec_u64_s(b@, i as int) is Some,
        r matches Some(p) ==> dec_u64_s(b@, i as int) == Some((p.0, p.1 as int)),
{
    if i <= b.len() && b.len() - i >= 8 {
        let s = slice_subrange(b.as_slice(), i, i + 8);
        let x = u64_from_le_bytes(s);
        Some((x, i + 8))
    } else {
        None
    }
}

fn read_u32(b: &Vec<u8>, i: usize) -> (r: Option<(u32, usize)>)
    ensures
        r is Some <==> dec_u32_s(b@, i as int) is Some,
        r matches Some(p) ==> dec_u32_s(b@, i as int) == Some((p.0, p.1 as int)),
{
    if i <= b.len() && b.len() - i >= 4 {
        let s = slice_subrange(b.as_slice(), i, i + 4);
        let x = u32_from_le_bytes(s);
        Some((x, i + 4))
    } else {
        None
    }
}

fn read_elem(b: &Vec<u8>, i: usize) -> (r: Option<(PathElem, usize)>)
    ensures
        r is Some <==> dec_elem_s(b@, i as int) is Some,
        r matches Some(p) ==> dec_elem_s(b@, i as int) == Some((p.0, p.1 as int)),
{
    if i < b.len() {
        let right = b[i] != 0;
        match read_u64(b, i + 1) {
            Some((rep, j)) => match read_u64(b, j) {
                Some((sq, k)) => Some((PathElem { right, replica: rep, seq: sq }, k)),
                None => None,
            },
            None => None,
        }
    } else {
        None
    }
}

fn read_path(b: &Vec<u8>, i: usize, cnt: u64) -> (r: Option<(PosId, usize)>)
    ensures
        r is Some <==> dec_path_s(b@, i as int, cnt as int) is Some,
        r matches Some(p) ==> dec_path_s(b@, i as int, cnt as int) == Some((p.0@, p.1 as int)),
    decreases cnt,
{
    if cnt == 0 {
        let p = PosId { elems: Vec::new() };
        proof {
            assert(p@ =~= Seq::<PathElem>::empty());
        }
        Some((p, i))
    } else {
        match read_elem(b, i) {
            Some((e, j)) => match read_path(b, j, cnt - 1) {
                Some((mut p, k)) => {
                    let ghost rest = p@;
                    p.elems.insert(0, e);
                    proof {
                        assert(p@ =~= seq![e] + rest);
                    }
                    Some((p, k))
                },
                None => None,
            },
            None => None,
        }
    }
}

fn read_op(b: &Vec<u8>, i: usize) -> (r: Option<(Op, usize)>)
    ensures
        r is Some <==> dec_op_s(b@, i as int) is Some,
        r matches Some(p) ==> dec_op_s(b@, i as int) == Some((op_abs(p.0), p.1 as int)),
{
    if i < b.len() {
        let tag = b[i];
        if tag == 1 {
            match read_u64(b, i + 1) {
                Some((cnt, j)) => if cnt >= 1 {
                    match read_path(b, j, cnt) {
                        Some((pos, k)) => match read_u32(b, k) {
                            Some((cv, m)) => match char_from_u32(cv) {
                                Some(c) => {
                                    proof {
                                        char_u32_cast(c, cv);
                                    }
                                    Some((Op::Insert { pos, ch: c }, m))
                                },
                                None => None,
                            },
                            None => None,
                        },
                        None => None,
                    }
                } else {
                    None
                },
                None => None,
            }
        } else if tag == 2 {
            match read_u64(b, i + 1) {
                Some((a, j)) => match read_u64(b, j) {
                    Some((s, k)) => match read_u64(b, k) {
                        Some((tr, m)) => match read_u64(b, m) {
                            Some((ts, e)) => Some(
                                (
                                    Op::Delete {
                                        id: OpId { replica: a, seq: s },
                                        target: OpId { replica: tr, seq: ts },
                                    },
                                    e,
                                ),
                            ),
                            None => None,
                        },
                        None => None,
                    },
                    None => None,
                },
                None => None,
            }
        } else {
            None
        }
    } else {
        None
    }
}

fn read_ops(b: &Vec<u8>, i: usize, cnt: u64) -> (r: Option<(Vec<Op>, usize)>)
    ensures
        r is Some <==> dec_ops_s(b@, i as int, cnt as int) is Some,
        r matches Some(p) ==> dec_ops_s(b@, i as int, cnt as int) == Some(
            (ops_abs(p.0@), p.1 as int),
        ),
    decreases cnt,
{
    if cnt == 0 {
        proof {
            assert(ops_abs(Seq::<Op>::empty()) =~= Seq::<OpAbs>::empty());
        }
        Some((Vec::new(), i))
    } else {
        match read_op(b, i) {
            Some((op, j)) => match read_ops(b, j, cnt - 1) {
                Some((mut ops, k)) => {
                    let ghost rest = ops@;
                    let ghost oab = op_abs(op);
                    ops.insert(0, op);
                    proof {
                        assert(ops@ =~= seq![ops@[0]] + rest);
                        assert(ops_abs(ops@) =~= seq![oab] + ops_abs(rest));
                    }
                    Some((ops, k))
                },
                None => None,
            },
            None => None,
        }
    }
}

#[verifier::loop_isolation(false)]
fn vv_key_present(pairs: &Vec<(u64, u64)>, r: u64) -> (found: bool)
    ensures
        found == vv_has_key(pairs@, r),
{
    let n = pairs.len();
    let mut i: usize = 0;
    while i < n
        invariant
            i <= n,
            forall|k: int| 0 <= k < i ==> (#[trigger] pairs@[k]).0 != r,
        decreases n - i,
    {
        if pairs[i].0 == r {
            return true;
        }
        i = i + 1;
    }
    false
}

fn read_vv(b: &Vec<u8>, i: usize, cnt: u64) -> (r: Option<(Vec<(u64, u64)>, usize)>)
    ensures
        r is Some <==> dec_vv_s(b@, i as int, cnt as int) is Some,
        r matches Some(p) ==> dec_vv_s(b@, i as int, cnt as int) == Some((p.0@, p.1 as int)),
    decreases cnt,
{
    if cnt == 0 {
        let v: Vec<(u64, u64)> = Vec::new();
        proof {
            assert(v@ =~= Seq::<(u64, u64)>::empty());
        }
        Some((v, i))
    } else {
        match read_u64(b, i) {
            Some((rep, j)) => match read_u64(b, j) {
                Some((v, k)) => match read_vv(b, k, cnt - 1) {
                    Some((mut rest, m)) => {
                        if vv_key_present(&rest, rep) {
                            None
                        } else {
                            let ghost r0 = rest@;
                            rest.insert(0, (rep, v));
                            proof {
                                assert(rest@ =~= seq![(rep, v)] + r0);
                            }
                            Some((rest, m))
                        }
                    },
                    None => None,
                },
                None => None,
            },
            None => None,
        }
    }
}

/// Decodes a complete transfer, or `None` when the bytes are malformed.
pub fn decode_doc(b: &Vec<u8>) -> (r: Option<(u8, Vec<(u64, u64)>, Vec<Op>)>)
    ensures
        r is Some <==> dec_doc_s(b@) is Some,
        r matches Some(t) ==> dec_doc_s(b@) == Some((t.0, t.1@, ops_abs(t.2@))),
{
    if b.len() >= 3 && b[0] == 75 && b[1] == 1 && (b[2] == 1 || b[2] == 2) {
        let kind = b[2];
        match read_u64(b, 3) {
            Some((m, i)) => match read_vv(b, i, m) {
                Some((pairs, j)) => match read_u64(b, j) {
                    Some((c, k)) => match read_ops(b, k, c) {
                        Some((ops, e)) => if e == b.len() {
                            Some((kind, pairs, ops))
                        } else {
                            None
                        },
                        None => None,
                    },
                    None => None,
                },
                None => None,
            },
            None => None,
        }
    } else {
        None
    }
}

pub proof fn lemma_enc_vv_len(pairs: Seq<(u64, u64)>)
    ensures
        enc_vv(pairs).len() == 16 * pairs.len(),
    decreases pairs.len(),
{
    lemma_enc_lens();
    if pairs.len() > 0 {
        lemma_enc_vv_len(pairs.drop_first());
    }
}

proof fn lemma_subrange_cat(b: Seq<u8>, i: int, x: Seq<u8>, y: Seq<u8>)
    requires
        0 <= i,
        i + x.len() + y.len() <= b.len(),
        b.subrange(i, i + x.len() + y.len()) == x + y,
    ensures
        b.subrange(i, i + x.len()) == x,
        b.subrange(i + x.len(), i + x.len() + y.len()) == y,
{
    let whole = b.subrange(i, i + x.len() + y.len());
    assert forall|m: int| 0 <= m < x.len() implies b.subrange(i, i + x.len())[m] == x[m] by {
        assert(whole[m] == (x + y)[m]);
        assert(whole[m] == b[i + m]);
        assert(b.subrange(i, i + x.len())[m] == b[i + m]);
    }
    assert(b.subrange(i, i + x.len()) =~= x);
    assert forall|m: int|
        0 <= m < y.len() implies b.subrange(i + x.len(), i + x.len() + y.len())[m] == y[m] by {
        assert(whole[x.len() + m] == (x + y)[x.len() + m]);
        assert(whole[x.len() + m] == b[i + x.len() + m]);
        assert(b.subrange(i + x.len(), i + x.len() + y.len())[m] == b[i + x.len() + m]);
    }
    assert(b.subrange(i + x.len(), i + x.len() + y.len()) =~= y);
}

proof fn lemma_parse_u64(b: Seq<u8>, i: int, x: u64)
    requires
        0 <= i,
        i + 8 <= b.len(),
        b.subrange(i, i + 8) == enc_u64(x),
    ensures
        dec_u64_s(b, i) == Some((x, i + 8)),
{
    lemma_auto_spec_u64_to_from_le_bytes();
}

proof fn lemma_parse_u32(b: Seq<u8>, i: int, x: u32)
    requires
        0 <= i,
        i + 4 <= b.len(),
        b.subrange(i, i + 4) == enc_u32(x),
    ensures
        dec_u32_s(b, i) == Some((x, i + 4)),
{
    lemma_auto_spec_u32_to_from_le_bytes();
    assert(spec_u32_to_le_bytes(x).len() == 4);
}

proof fn lemma_parse_elem(b: Seq<u8>, i: int, e: PathElem)
    requires
        0 <= i,
        i + 17 <= b.len(),
        b.subrange(i, i + 17) == enc_elem(e),
    ensures
        dec_elem_s(b, i) == Some((e, i + 17)),
{
    lemma_enc_lens();
    let t0 = seq![
        (if e.right {
            1u8
        } else {
            0u8
        }),
    ];
    let r1 = enc_u64(e.replica);
    let r2 = enc_u64(e.seq);
    lemma_subrange_cat(b, i, t0 + r1, r2);
    lemma_subrange_cat(b, i, t0, r1);
    assert(b.subrange(i, i + 1)[0] == b[i]);
    assert((b[i] != 0) == e.right);
    lemma_parse_u64(b, i + 1, e.replica);
    lemma_parse_u64(b, i + 9, e.seq);
}

proof fn lemma_parse_path(b: Seq<u8>, i: int, p: Seq<PathElem>)
    requires
        0 <= i,
        i + enc_path(p).len() <= b.len(),
        b.subrange(i, i + enc_path(p).len()) == enc_path(p),
    ensures
        dec_path_s(b, i, p.len() as int) == Some((p, i + enc_path(p).len())),
    decreases p.len(),
{
    lemma_enc_lens();
    lemma_enc_path_len(p);
    if p.len() > 0 {
        let tail = p.drop_first();
        lemma_enc_path_len(tail);
        lemma_subrange_cat(b, i, enc_elem(p[0]), enc_path(tail));
        lemma_parse_elem(b, i, p[0]);
        lemma_parse_path(b, i + 17, tail);
        assert(seq![p[0]] + tail =~= p);
    }
}

/// Well-formed image of an operation: an insert's position is non-empty and
/// of encodable length.
pub open spec fn wf_op_abs(op: OpAbs) -> bool {
    match op {
        OpAbs::Insert { pos, .. } => 1 <= pos.len() <= u64::MAX,
        OpAbs::Delete { .. } => true,
    }
}

proof fn lemma_parse_op(b: Seq<u8>, i: int, op: OpAbs)
    requires
        0 <= i,
        wf_op_abs(op),
        i + enc_op(op).len() <= b.len(),
        b.subrange(i, i + enc_op(op).len()) == enc_op(op),
    ensures
        dec_op_s(b, i) == Some((op, i + enc_op(op).len())),
{
    lemma_enc_lens();
    lemma_enc_op_len(op);
    match op {
        OpAbs::Insert { pos, ch } => {
            lemma_enc_path_len(pos);
            let t0 = seq![1u8];
            let l1 = enc_u64(pos.len() as u64);
            let pp = enc_path(pos);
            let cc = enc_u32(ch as u32);
            lemma_subrange_cat(b, i, (t0 + l1) + pp, cc);
            lemma_subrange_cat(b, i, t0 + l1, pp);
            lemma_subrange_cat(b, i, t0, l1);
            assert(b.subrange(i, i + 1)[0] == b[i]);
            assert(b[i] == 1);
            lemma_parse_u64(b, i + 1, pos.len() as u64);
            lemma_parse_path(b, i + 9, pos);
            lemma_parse_u32(b, i + 9 + pp.len(), ch as u32);
            char_is_scalar(ch);
            char_u32_cast(ch, ch as u32);
        },
        OpAbs::Delete { id, target } => {
            let t0 = seq![2u8];
            let a1 = enc_u64(id.replica);
            let a2 = enc_u64(id.seq);
            let a3 = enc_u64(target.replica);
            let a4 = enc_u64(target.seq);
            lemma_subrange_cat(b, i, ((t0 + a1) + a2) + a3, a4);
            lemma_subrange_cat(b, i, (t0 + a1) + a2, a3);
            lemma_subrange_cat(b, i, t0 + a1, a2);
            lemma_subrange_cat(b, i, t0, a1);
            assert(b.subrange(i, i + 1)[0] == b[i]);
            assert(b[i] == 2);
            lemma_parse_u64(b, i + 1, id.replica);
            lemma_parse_u64(b, i + 9, id.seq);
            lemma_parse_u64(b, i + 17, target.replica);
            lemma_parse_u64(b, i + 25, target.seq);
        },
    }
}

proof fn lemma_parse_ops(b: Seq<u8>, i: int, ops: Seq<OpAbs>)
    requires
        0 <= i,
        forall|k: int| 0 <= k < ops.len() ==> wf_op_abs(#[trigger] ops[k]),
        i + enc_ops(ops).len() <= b.len(),
        b.subrange(i, i + enc_ops(ops).len()) == enc_ops(ops),
    ensures
        dec_ops_s(b, i, ops.len() as int) == Some((ops, i + enc_ops(ops).len())),
    decreases ops.len(),
{
    if ops.len() > 0 {
        let tail = ops.drop_first();
        let hl = enc_op(ops[0]).len();
        lemma_enc_op_len(ops[0]);
        lemma_subrange_cat(b, i, enc_op(ops[0]), enc_ops(tail));
        lemma_parse_op(b, i, ops[0]);
        assert forall|k: int| 0 <= k < tail.len() implies wf_op_abs(#[trigger] tail[k]) by {
            assert(tail[k] == ops[k + 1]);
        }
        lemma_parse_ops(b, i + hl, tail);
        assert(seq![ops[0]] + tail =~= ops);
    }
}

proof fn lemma_parse_vv(b: Seq<u8>, i: int, pairs: Seq<(u64, u64)>)
    requires
        0 <= i,
        forall|m: int, n: int|
            0 <= m < n < pairs.len() ==> (#[trigger] pairs[m]).0 != (#[trigger] pairs[n]).0,
        i + enc_vv(pairs).len() <= b.len(),
        b.subrange(i, i + enc_vv(pairs).len()) == enc_vv(pairs),
    ensures
        dec_vv_s(b, i, pairs.len() as int) == Some((pairs, i + enc_vv(pairs).len())),
    decreases pairs.len(),
{
    lemma_enc_lens();
    lemma_enc_vv_len(pairs);
    if pairs.len() > 0 {
        let tail = pairs.drop_first();
        lemma_enc_vv_len(tail);
        lemma_subrange_cat(b, i, enc_u64(pairs[0].0) + enc_u64(pairs[0].1), enc_vv(tail));
        lemma_subrange_cat(b, i, enc_u64(pairs[0].0), enc_u64(pairs[0].1));
        lemma_parse_u64(b, i, pairs[0].0);
        lemma_parse_u64(b, i + 8, pairs[0].1);
        assert forall|m: int, n: int| 0 <= m < n < tail.len() implies (#[trigger] tail[m]).0 != (
        #[trigger] tail[n]).0 by {
            assert(tail[m] == pairs[m + 1]);
            assert(tail[n] == pairs[n + 1]);
        }
        lemma_parse_vv(b, i + 16, tail);
        assert forall|m: int| 0 <= m < tail.len() implies (#[trigger] tail[m]).0 != pairs[0].0 by {
            assert(tail[m] == pairs[m + 1]);
        }
        assert(!vv_has_key(tail, pairs[0].0));
        assert(seq![pairs[0]] + tail =~= pairs);
    }
}

/// Round trip: decoding an encoded transfer yields exactly what was encoded.
/// Together with the import contract this gives the reconstruction property:
/// a replica built from a snapshot holds the snapshot's operations exactly.
pub proof fn lemma_round_trip_doc(kind: u8, pairs: Seq<(u64, u64)>, ops: Seq<OpAbs>)
    requires
        kind == 1 || kind == 2,
        pairs.len() <= u64::MAX,
        ops.len() <= u64::MAX,
        forall|m: int, n: int|
            0 <= m < n < pairs.len() ==> (#[trigger] pairs[m]).0 != (#[trigger] pairs[n]).0,
        forall|k: int| 0 <= k < ops.len() ==> wf_op_abs(#[trigger] ops[k]),
    ensures
        dec_doc_s(enc_doc(kind, pairs, ops)) == Some((kind, pairs, ops)),
{
    lemma_enc_lens();
    lemma_enc_vv_len(pairs);
    let b = enc_doc(kind, pairs, ops);
    let h = seq![75u8, 1u8, kind];
    let m1 = enc_u64(pairs.len() as u64);
    let vvb = enc_vv(pairs);
    let c1 = enc_u64(ops.len() as u64);
    let ob = enc_ops(ops);
    let vl = vvb.len() as int;
    let ol = ob.len() as int;
    assert(b.len() == 19 + vl + ol);
    assert(b.subrange(0, b.len() as int) =~= b);
    lemma_subrange_cat(b, 0, ((h + m1) + vvb) + c1, ob);
    lemma_subrange_cat(b, 0, (h + m1) + vvb, c1);
    lemma_subrange_cat(b, 0, h + m1, vvb);
    lemma_subrange_cat(b, 0, h, m1);
    assert(b.subrange(0, 3)[0] == b[0]);
    assert(b.subrange(0, 3)[1] == b[1]);
    assert(b.subrange(0, 3)[2] == b[2]);
    assert(b[0] == 75 && b[1] == 1 && b[2] == kind);
    lemma_parse_u64(b, 3, pairs.len() as u64);
    lemma_parse_vv(b, 11, pairs);
    lemma_parse_u64(b, 11 + vl, ops.len() as u64);
    lemma_parse_ops(b, 19 + vl, ops);
}

proof fn lemma_dec_path_len(b: Seq<u8>, i: int, cnt: int)
    ensures
        dec_path_s(b, i, cnt) matches Some(p) ==> p.0.len() == if cnt >= 0 {
            cnt
        } else {
            0
        },
    decreases cnt,
{
    if cnt > 0 {
        match dec_elem_s(b, i) {
            Some((e, j)) => {
                lemma_dec_path_len(b, j, cnt - 1);
            },
            None => {},
        }
    }
}

proof fn lemma_dec_ops_wf(b: Seq<u8>, i: int, cnt: int)
    ensures
        dec_ops_s(b, i, cnt) matches Some(p) ==> forall|k: int|
            0 <= k < p.0.len() ==> wf_op_abs(#[trigger] p.0[k]),
    decreases cnt,
{
    if cnt > 0 {
        match dec_op_s(b, i) {
            Some((op, j)) => {
                lemma_dec_ops_wf(b, j, cnt - 1);
                if 0 <= i && i + 1 <= b.len() && b[i] == 1 {
                    match dec_u64_s(b, i + 1) {
                        Some((c, j2)) => {
                            lemma_dec_path_len(b, j2, c as int);
                        },
                        None => {},
                    }
                }
                match dec_ops_s(b, j, cnt - 1) {
                    Some((rest, k2)) => {
                        assert(wf_op_abs(op));
                        assert forall|k: int|
                            0 <= k < (seq![op] + rest).len() implies wf_op_abs(
                            #[trigger] (seq![op] + rest)[k],
                        ) by {
                            if k > 0 {
                                assert((seq![op] + rest)[k] == rest[k - 1]);
                            }
                        }
                    },
                    None => {},
                }
            },
            None => {},
        }
    }
}

proof fn lemma_dec_vv_unique(b: Seq<u8>, i: int, cnt: int)
    ensures
        dec_vv_s(b, i, cnt) matches Some(p) ==> forall|m: int, n: int|
            0 <= m < n < p.0.len() ==> (#[trigger] p.0[m]).0 != (#[trigger] p.0[n]).0,
    decreases cnt,
{
    if cnt > 0 {
        match dec_u64_s(b, i) {
            Some((r, j)) => match dec_u64_s(b, j) {
                Some((v, k)) => {
                lemma_dec_vv_unique(b, k, cnt - 1);
                match dec_vv_s(b, k, cnt - 1) {
                    Some((rest, m2)) => {
                    if !vv_has_key(rest, r) {
                        let pairs = seq![(r, v)] + rest;
                        assert forall|m: int, n: int| 0 <= m < n < pairs.len() implies (
                        #[trigger] pairs[m]).0 != (#[trigger] pairs[n]).0 by {
                            if m == 0 {
                                assert(pairs[n] == rest[n - 1]);
                                assert(!(exists|x: int|
                                    0 <= x < rest.len() && (#[trigger] rest[x]).0 == r));
                            } else {
                                assert(pairs[m] == rest[m - 1]);
                                assert(pairs[n] == rest[n - 1]);
                            }
                        }
                    }
                    },
                    None => {},
                }
                },
                None => {},
            },
            None => {},
        }
    }
}

/// Every well-formed decode yields encodable operations and a frontier
/// without duplicated replicas.
pub proof fn lemma_dec_doc_props(b: Seq<u8>)
    ensures
        dec_doc_s(b) matches Some(t) ==> {
            &&& forall|k: int| 0 <= k < t.2.len() ==> wf_op_abs(#[trigger] t.2[k])
            &&& forall|m: int, n: int|
                0 <= m < n < t.1.len() ==> (#[trigger] t.1[m]).0 != (#[trigger] t.1[n]).0
        },
{
    if b.len() >= 3 && b[0] == 75 && b[1] == 1 && (b[2] == 1 || b[2] == 2) {
        match dec_u64_s(b, 3) {
            Some((m, i)) => {
                lemma_dec_vv_unique(b, i, m as int);
                match dec_vv_s(b, i, m as int) {
                    Some((pairs, j)) => match dec_u64_s(b, j) {
                        Some((c, k)) => {
                            lemma_dec_ops_wf(b, k, c as int);
                        },
                        None => {},
                    },
                    None => {},
                }
            },
            None => {},
        }
    }
}

/// Appending an operation to the log extends its delta accordingly.
pub proof fn lemma_delta_snoc(ops: Seq<OpAbs>, op: OpAbs, rp: Seq<(u64, u64)>)
    ensures
        delta_of(ops.push(op), rp) == delta_of(ops, rp) + if keep_op(op, rp) {
            seq![op]
        } else {
            Seq::<OpAbs>::empty()
        },
    decreases ops.len(),
{
    let u = ops.push(op);
    if ops.len() == 0 {
        assert(u[0] == op);
        assert(u.drop_first() =~= Seq::<OpAbs>::empty());
        assert(delta_of(u.drop_first(), rp) == Seq::<OpAbs>::empty());
        if keep_op(op, rp) {
            assert(delta_of(u, rp) =~= delta_of(ops, rp) + seq![op]);
        } else {
            assert(delta_of(u, rp) =~= delta_of(ops, rp) + Seq::<OpAbs>::empty());
        }
    } else {
        assert(u[0] == ops[0]);
        assert(u.drop_first() =~= ops.drop_first().push(op));
        lemma_delta_snoc(ops.drop_first(), op, rp);
        if keep_op(op, rp) {
            assert(delta_of(u, rp) =~= delta_of(ops, rp) + seq![op]);
        } else {
            assert(delta_of(u, rp) =~= delta_of(ops, rp) + Seq::<OpAbs>::empty());
        }
    }
}

/// The identity of an operation's image.
pub open spec fn op_abs_id(op: OpAbs) -> OpId {
    match op {
        OpAbs::Insert { pos, .. } => crate::container::pos_id_of(pos),
        OpAbs::Delete { id, .. } => id,
    }
}

/// Whether a delta for the frontier `rp` must carry the operation: exactly
/// the operations the frontier does not cover.
pub open spec fn keep_op(op: OpAbs, rp: Seq<(u64, u64)>) -> bool {
    op_abs_id(op).seq > crate::version::vv_get(rp, op_abs_id(op).replica)
}

/// The operations of an incremental delta against the frontier `rp`.
pub open spec fn delta_of(ops: Seq<OpAbs>, rp: Seq<(u64, u64)>) -> Seq<OpAbs>
    decreases ops.len(),
{
    if ops.len() == 0 {
        Seq::empty()
    } else {
        (if keep_op(ops[0], rp) {
            seq![ops[0]]
        } else {
            Seq::<OpAbs>::empty()
        }) + delta_of(ops.drop_first(), rp)
    }
}

/// Delta minimality over the operation section: a delta never encodes more
/// operation bytes than the full log, and encodes strictly fewer as soon as
/// the reference frontier already covers one logged operation.
pub proof fn lemma_delta_shorter_ops(ops: Seq<OpAbs>, rp: Seq<(u64, u64)>)
    ensures
        delta_of(ops, rp).len() <= ops.len(),
        enc_ops(delta_of(ops, rp)).len() <= enc_ops(ops).len(),
        (exists|k: int| 0 <= k < ops.len() && !keep_op(#[trigger] ops[k], rp)) ==> enc_ops(
            delta_of(ops, rp),
        ).len() < enc_ops(ops).len(),
    decreases ops.len(),
{
    if ops.len() > 0 {
        let tail = ops.drop_first();
        lemma_delta_shorter_ops(tail, rp);
        lemma_enc_op_len(ops[0]);
        let d = delta_of(ops, rp);
        let dt = delta_of(tail, rp);
        if keep_op(ops[0], rp) {
            assert(d =~= seq![ops[0]] + dt);
            assert((seq![ops[0]] + dt).drop_first() =~= dt);
            assert(enc_ops(d) =~= enc_op(ops[0]) + enc_ops(dt));
        } else {
            assert(d =~= dt);
        }
        assert(enc_ops(ops) =~= enc_op(ops[0]) + enc_ops(tail));
        if exists|k: int| 0 <= k < ops.len() && !keep_op(#[trigger] ops[k], rp) {
            let k = choose|k: int| 0 <= k < ops.len() && !keep_op(#[trigger] ops[k], rp);
            if k > 0 {
                assert(!keep_op(tail[k - 1], rp));
            }
        }
    }
}

/// Delta minimality: an incremental delta for a frontier `rp` is never
/// longer than the full snapshot of the same replica, and is strictly
/// shorter once `rp` already covers at least one logged operation.
pub proof fn lemma_delta_minimality(pairs: Seq<(u64, u64)>, ops: Seq<OpAbs>, rp: Seq<(u64, u64)>)
    ensures
        enc_doc(2, pairs, delta_of(ops, rp)).len() <= enc_doc(1, pairs, ops).len(),
        (exists|k: int| 0 <= k < ops.len() && !keep_op(#[trigger] ops[k], rp)) ==> enc_doc(
            2,
            pairs,
            delta_of(ops, rp),
        ).len() < enc_doc(1, pairs, ops).len(),
{
    lemma_enc_lens();
    lemma_delta_shorter_ops(ops, rp);
}

} // verus!
