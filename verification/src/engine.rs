//! The document engine: one replica's handle on the shared document.
//!
//! The engine owns the run container, the causal frontier, the purely local
//! change counter, and the log of every operation it has applied.  Local
//! edits mint fresh operation identities; imports merge foreign operations
//! idempotently and absorb the foreign frontier.

use crate::container::{
    abs_has_id, abs_tombed, dup_pos, lemma_flip_absorbed, lemma_flip_ids, lemma_flip_tombed,
    lemma_has_id_abs, pos_id_of, tomb_flip, Container, Op,
};
use crate::ids::{OpId, PathElem};
use crate::position::{
    count_newlines_prefix, count_nl, lemma_count_nl_concat, lemma_count_nl_nonneg, line_count,
    resolve, resolve_spec,
};
use crate::version::{vv_get, VersionVector};
use crate::codec::{
    dec_doc_s, decode_doc, delta_of, enc_doc, encode_doc, lemma_dec_doc_props, op_abs, op_abs_id,
    ops_abs, wf_op_abs, OpAbs,
};
use vstd::prelude::*;

verus! {

/// One edit request: a line/column coordinate, text to insert there, and a
/// count of characters to delete backwards from there.
pub struct EditDelta {
    pub line: usize,
    pub col: usize,
    pub insert: Option<String>,
    pub delete: Option<usize>,
}

/// The error returned for bytes the codec cannot accept.  The import is
/// atomic: on this error nothing in the engine has changed.
#[derive(Clone, Copy, PartialEq, Eq, Structural, Debug)]
pub enum DecodeError {
    Malformed,
}

/// The characters an edit inserts.
pub open spec fn ins_spec(d: &EditDelta) -> Seq<char> {
    match d.insert {
        Some(s) => s@,
        None => Seq::empty(),
    }
}

/// The backward delete count an edit requests.
pub open spec fn del_spec(d: &EditDelta) -> int {
    match d.delete {
        Some(n) => n as int,
        None => 0,
    }
}

/// Relies on String::push: appends exactly the given character.
#[verifier::external_body]
pub fn push_char(s: &mut String, c: char)
    ensures
        final(s)@ == old(s)@.push(c),
{
    s.push(c);
}

/// Collects the characters of a string slice.
#[verifier::loop_isolation(false)]
pub fn str_chars(s: &str) -> (v: Vec<char>)
    ensures
        v@ == s@,
{
    let n = s.unicode_len();
    let mut v: Vec<char> = Vec::new();
    let mut i: usize = 0;
    proof {
        assert(s@.take(0) =~= Seq::<char>::empty());
    }
    while i < n
        invariant
            i <= n,
            n == s@.len(),
            v@ == s@.take(i as int),
        decreases n - i,
    {
        let c = s.get_char(i);
        v.push(c);
        proof {
            assert(s@.take(i as int + 1) =~= s@.take(i as int).push(s@[i as int]));
        }
        i = i + 1;
    }
    proof {
        assert(s@.take(n as int) =~= s@);
    }
    v
}

/// Builds a string from a character sequence.
#[verifier::loop_isolation(false)]
pub fn chars_to_string(v: &Vec<char>) -> (s: String)
    ensures
        s@ == v@,
{
    let mut s = String::new();
    let mut i: usize = 0;
    proof {
        assert(v@.take(0) =~= Seq::<char>::empty());
    }
    while i < v.len()
        invariant
            i <= v@.len(),
            s@ == v@.take(i as int),
        decreases v@.len() - i,
    {
        push_char(&mut s, v[i]);
        proof {
            assert(v@.take(i as int + 1) =~= v@.take(i as int).push(v@[i as int]));
        }
        i = i + 1;
    }
    proof {
        assert(v@.take(v@.len() as int) =~= v@);
    }
    s
}

/// Copies an operation.
fn dup_op(op: &Op) -> (r: Op)
    ensures
        op_abs(r) == op_abs(*op),
{
    match op {
        Op::Insert { pos, ch } => Op::Insert { pos: dup_pos(pos), ch: *ch },
        Op::Delete { id, target } => Op::Delete { id: *id, target: *target },
    }
}

proof fn lemma_log_wf_push(lg: Seq<Op>, op: Op)
    requires
        forall|k: int| 0 <= k < lg.len() ==> wf_op_abs(op_abs(#[trigger] lg[k])),
        wf_op_abs(op_abs(op)),
    ensures
        forall|k: int|
            0 <= k < lg.push(op).len() ==> wf_op_abs(op_abs(#[trigger] lg.push(op)[k])),
{
    assert forall|k: int| 0 <= k < lg.push(op).len() implies wf_op_abs(
        op_abs(#[trigger] lg.push(op)[k]),
    ) by {
        if k < lg.len() {
            assert(lg.push(op)[k] == lg[k]);
        } else {
            assert(lg.push(op)[k] == op);
        }
    }
}

/// Whether the image is an insert minting the identity `(q, s)`.
pub open spec fn ins_id_at(oa: OpAbs, q: u64, s: u64) -> bool {
    match oa {
        OpAbs::Insert { pos, .. } => pos_id_of(pos).replica == q && pos_id_of(pos).seq == s,
        OpAbs::Delete { .. } => false,
    }
}

/// Whether an insert's identity is covered by the frontier `pairs`, as the
/// frontier of an honest transfer covers every operation it carries;
/// deletes impose nothing here.
pub open spec fn ins_covered(oa: OpAbs, pairs: Seq<(u64, u64)>) -> bool {
    match oa {
        OpAbs::Insert { pos, .. } => pos_id_of(pos).seq <= vv_get(pairs, pos_id_of(pos).replica),
        OpAbs::Delete { .. } => true,
    }
}

/// The delete operations of a buffer, as (identity, target) pairs in order.
pub open spec fn pend_pairs(p: Seq<Op>) -> Seq<(OpId, OpId)>
    decreases p.len(),
{
    if p.len() == 0 {
        Seq::empty()
    } else {
        match p[0] {
            Op::Delete { id, target } => seq![(id, target)] + pend_pairs(p.drop_first()),
            Op::Insert { .. } => pend_pairs(p.drop_first()),
        }
    }
}

pub proof fn lemma_pend_pairs_snoc(p: Seq<Op>, op: Op)
    ensures
        pend_pairs(p.push(op)) == pend_pairs(p) + (match op {
            Op::Delete { id, target } => seq![(id, target)],
            Op::Insert { .. } => Seq::<(OpId, OpId)>::empty(),
        }),
    decreases p.len(),
{
    let u = p.push(op);
    let tailcase = match op {
        Op::Delete { id, target } => seq![(id, target)],
        Op::Insert { .. } => Seq::<(OpId, OpId)>::empty(),
    };
    if p.len() == 0 {
        assert(u[0] == op);
        assert(u.drop_first() =~= Seq::<Op>::empty());
        assert(pend_pairs(u.drop_first()) == Seq::<(OpId, OpId)>::empty());
        assert(pend_pairs(u) =~= pend_pairs(p) + tailcase);
    } else {
        assert(u[0] == p[0]);
        assert(u.drop_first() =~= p.drop_first().push(op));
        lemma_pend_pairs_snoc(p.drop_first(), op);
        assert(pend_pairs(u) =~= pend_pairs(p) + tailcase);
    }
}

pub proof fn lemma_ops_abs_snoc(lg: Seq<Op>, op: Op)
    ensures
        ops_abs(lg.push(op)) == ops_abs(lg).push(op_abs(op)),
{
    assert forall|j: int|
        0 <= j < lg.push(op).len() implies ops_abs(lg.push(op))[j] == ops_abs(lg).push(
        op_abs(op),
    )[j] by {
        if j < lg.len() {
            assert(lg.push(op)[j] == lg[j]);
        } else {
            assert(lg.push(op)[j] == op);
        }
    }
    assert(ops_abs(lg.push(op)) =~= ops_abs(lg).push(op_abs(op)));
}

/// Appending a fresh insert to a log that replays to `st` makes it replay
/// to `st` plus the new visible run.
pub proof fn lemma_replay_insert_step(
    lg: Seq<Op>,
    op: Op,
    st: Set<(Seq<PathElem>, OpId, char, bool)>,
    posv: Seq<PathElem>,
    chv: char,
)
    requires
        merge_phase(Set::<(Seq<PathElem>, OpId, char, bool)>::empty(), ops_abs(lg)) == (
            st,
            Seq::<(OpId, OpId)>::empty(),
        ),
        op_abs(op) == (OpAbs::Insert { pos: posv, ch: chv }),
        !abs_has_id(st, pos_id_of(posv)),
    ensures
        merge_phase(Set::<(Seq<PathElem>, OpId, char, bool)>::empty(), ops_abs(lg.push(op)))
            == (st.insert((posv, pos_id_of(posv), chv, false)), Seq::<(OpId, OpId)>::empty()),
{
    lemma_ops_abs_snoc(lg, op);
    lemma_phase_snoc(
        Set::<(Seq<PathElem>, OpId, char, bool)>::empty(),
        ops_abs(lg),
        op_abs(op),
    );
}

/// Appending a delete of a present identity to a log that replays to `st`
/// makes it replay to `st` with that identity tombstoned.
pub proof fn lemma_replay_delete_step(
    lg: Seq<Op>,
    op: Op,
    st: Set<(Seq<PathElem>, OpId, char, bool)>,
    idv: OpId,
    tv: OpId,
)
    requires
        merge_phase(Set::<(Seq<PathElem>, OpId, char, bool)>::empty(), ops_abs(lg)) == (
            st,
            Seq::<(OpId, OpId)>::empty(),
        ),
        op_abs(op) == (OpAbs::Delete { id: idv, target: tv }),
        abs_has_id(st, tv),
    ensures
        merge_phase(Set::<(Seq<PathElem>, OpId, char, bool)>::empty(), ops_abs(lg.push(op)))
            == (tomb_flip(st, tv), Seq::<(OpId, OpId)>::empty()),
{
    lemma_ops_abs_snoc(lg, op);
    lemma_phase_snoc(
        Set::<(Seq<PathElem>, OpId, char, bool)>::empty(),
        ops_abs(lg),
        op_abs(op),
    );
}

/// One batch pass over a run set: an insert with a fresh identity enters
/// visible, a delete tombstones a present target or joins the waiting list.
pub open spec fn merge_phase(
    st: Set<(Seq<PathElem>, OpId, char, bool)>,
    ops: Seq<OpAbs>,
) -> (Set<(Seq<PathElem>, OpId, char, bool)>, Seq<(OpId, OpId)>)
    decreases ops.len(),
{
    if ops.len() == 0 {
        (st, Seq::empty())
    } else {
        match ops[0] {
            OpAbs::Insert { pos, ch } => {
                let st1 = if abs_has_id(st, pos_id_of(pos)) {
                    st
                } else {
                    st.insert((pos, pos_id_of(pos), ch, false))
                };
                merge_phase(st1, ops.drop_first())
            },
            OpAbs::Delete { id, target } => {
                if abs_has_id(st, target) {
                    merge_phase(tomb_flip(st, target), ops.drop_first())
                } else {
                    let r = merge_phase(st, ops.drop_first());
                    (r.0, seq![(id, target)] + r.1)
                }
            },
        }
    }
}

/// The waiting list replayed once a batch's inserts are in: a delete whose
/// target is now present fires, the rest stay buffered, in order.
pub open spec fn retry_phase(
    st: Set<(Seq<PathElem>, OpId, char, bool)>,
    pend: Seq<(OpId, OpId)>,
) -> (Set<(Seq<PathElem>, OpId, char, bool)>, Seq<(OpId, OpId)>)
    decreases pend.len(),
{
    if pend.len() == 0 {
        (st, Seq::empty())
    } else if abs_has_id(st, pend[0].1) {
        retry_phase(tomb_flip(st, pend[0].1), pend.drop_first())
    } else {
        let r = retry_phase(st, pend.drop_first());
        (r.0, seq![pend[0]] + r.1)
    }
}

/// The run set and the buffer after merging a batch: the batch pass, then
/// the waiting list — the old buffer first, newly buffered deletes after.
pub open spec fn merge_spec(
    st: Set<(Seq<PathElem>, OpId, char, bool)>,
    pend0: Seq<(OpId, OpId)>,
    ops: Seq<OpAbs>,
) -> (Set<(Seq<PathElem>, OpId, char, bool)>, Seq<(OpId, OpId)>) {
    let p = merge_phase(st, ops);
    retry_phase(p.0, pend0 + p.1)
}

pub proof fn lemma_phase_snoc(
    st: Set<(Seq<PathElem>, OpId, char, bool)>,
    ops: Seq<OpAbs>,
    o: OpAbs,
)
    ensures
        merge_phase(st, ops.push(o)) == ({
            let p = merge_phase(st, ops);
            match o {
                OpAbs::Insert { pos, ch } => (
                    if abs_has_id(p.0, pos_id_of(pos)) {
                        p.0
                    } else {
                        p.0.insert((pos, pos_id_of(pos), ch, false))
                    },
                    p.1,
                ),
                OpAbs::Delete { id, target } => if abs_has_id(p.0, target) {
                    (tomb_flip(p.0, target), p.1)
                } else {
                    (p.0, p.1.push((id, target)))
                },
            }
        }),
    decreases ops.len(),
{
    let u = ops.push(o);
    let p = merge_phase(st, ops);
    if ops.len() == 0 {
        assert(u[0] == o);
        assert(u.drop_first() =~= Seq::<OpAbs>::empty());
        match o {
            OpAbs::Insert { pos, ch } => {
                let st1 = if abs_has_id(st, pos_id_of(pos)) {
                    st
                } else {
                    st.insert((pos, pos_id_of(pos), ch, false))
                };
                assert(merge_phase(st1, u.drop_first()) == (st1, Seq::<(OpId, OpId)>::empty()));
            },
            OpAbs::Delete { id, target } => {
                if abs_has_id(st, target) {
                    assert(merge_phase(tomb_flip(st, target), u.drop_first()) == (
                        tomb_flip(st, target),
                        Seq::<(OpId, OpId)>::empty(),
                    ));
                } else {
                    assert(merge_phase(st, u.drop_first()) == (
                        st,
                        Seq::<(OpId, OpId)>::empty(),
                    ));
                    assert(seq![(id, target)] + Seq::<(OpId, OpId)>::empty()
                        =~= Seq::<(OpId, OpId)>::empty().push((id, target)));
                    assert(p.1.push((id, target)) =~= seq![(id, target)]
                        + Seq::<(OpId, OpId)>::empty());
                }
            },
        }
    } else {
        assert(u[0] == ops[0]);
        assert(u.drop_first() =~= ops.drop_first().push(o));
        match ops[0] {
            OpAbs::Insert { pos, ch } => {
                let st1 = if abs_has_id(st, pos_id_of(pos)) {
                    st
                } else {
                    st.insert((pos, pos_id_of(pos), ch, false))
                };
                lemma_phase_snoc(st1, ops.drop_first(), o);
            },
            OpAbs::Delete { id, target } => {
                if abs_has_id(st, target) {
                    lemma_phase_snoc(tomb_flip(st, target), ops.drop_first(), o);
                } else {
                    lemma_phase_snoc(st, ops.drop_first(), o);
                    let rp = merge_phase(st, ops.drop_first());
                    match o {
                        OpAbs::Insert { .. } => {},
                        OpAbs::Delete { id: id2, target: t2 } => {
                            if !abs_has_id(rp.0, t2) {
                                assert(seq![(id, target)] + rp.1.push((id2, t2)) =~= (seq![
                                    (id, target),
                                ] + rp.1).push((id2, t2)));
                            }
                        },
                    }
                }
            },
        }
    }
}

/// An operation the run set has fully absorbed: an insert's identity is
/// present, and a delete's target — wherever it is present at all — is
/// fully tombstoned.
pub open spec fn op_absorbed(st: Set<(Seq<PathElem>, OpId, char, bool)>, oa: OpAbs) -> bool {
    match oa {
        OpAbs::Insert { pos, .. } => abs_has_id(st, pos_id_of(pos)),
        OpAbs::Delete { target, .. } => abs_has_id(st, target) ==> abs_tombed(st, target),
    }
}

/// The outcome a batch pass guarantees per operation: an insert's identity
/// is present; a delete is tombstoned, buffered, or its target is absent.
pub open spec fn op_settled(
    p0: Set<(Seq<PathElem>, OpId, char, bool)>,
    p1: Seq<(OpId, OpId)>,
    oa: OpAbs,
) -> bool {
    match oa {
        OpAbs::Insert { pos, .. } => abs_has_id(p0, pos_id_of(pos)),
        OpAbs::Delete { id, target } => (abs_has_id(p0, target) && abs_tombed(p0, target))
            || p1.contains((id, target)) || !abs_has_id(p0, target),
    }
}

proof fn lemma_phase_props(st: Set<(Seq<PathElem>, OpId, char, bool)>, ops: Seq<OpAbs>)
    ensures
        ({
            let p = merge_phase(st, ops);
            &&& forall|x: OpId| abs_has_id(st, x) ==> abs_has_id(p.0, x)
            &&& forall|x: OpId|
                abs_has_id(st, x) && abs_tombed(st, x) ==> abs_tombed(p.0, x)
            &&& forall|k: int| 0 <= k < ops.len() ==> op_settled(p.0, p.1, #[trigger] ops[k])
        }),
    decreases ops.len(),
{
    if ops.len() > 0 {
        let p = merge_phase(st, ops);
        let tail = ops.drop_first();
        match ops[0] {
            OpAbs::Insert { pos, ch } => {
                let id = pos_id_of(pos);
                let st1 = if abs_has_id(st, id) {
                    st
                } else {
                    st.insert((pos, id, ch, false))
                };
                assert forall|x: OpId| abs_has_id(st, x) implies abs_has_id(st1, x) by {
                    let e = choose|e: (Seq<PathElem>, OpId, char, bool)|
                        st.contains(e) && e.1 == x;
                    assert(st1.contains(e));
                }
                assert(abs_has_id(st1, id)) by {
                    if !abs_has_id(st, id) {
                        assert(st1.contains((pos, id, ch, false)));
                    }
                }
                assert forall|x: OpId|
                    abs_has_id(st, x) && abs_tombed(st, x) implies abs_tombed(st1, x) by {
                    if !abs_has_id(st, id) {
                        assert forall|e: (Seq<PathElem>, OpId, char, bool)|
                            st1.contains(e) && e.1 == x implies e.3 by {
                            if e == (pos, id, ch, false) {
                                assert(x == id);
                                assert(abs_has_id(st, id));
                            }
                        }
                    }
                }
                lemma_phase_props(st1, tail);
                assert forall|k: int| 0 <= k < ops.len() implies op_settled(
                    p.0,
                    p.1,
                    #[trigger] ops[k],
                ) by {
                    if k > 0 {
                        assert(tail[k - 1] == ops[k]);
                    }
                }
            },
            OpAbs::Delete { id, target } => {
                if abs_has_id(st, target) {
                    let st1 = tomb_flip(st, target);
                    lemma_flip_ids(st, target);
                    lemma_flip_tombed(st, target, target);
                    assert forall|x: OpId|
                        abs_has_id(st, x) && abs_tombed(st, x) implies abs_tombed(st1, x) by {
                        lemma_flip_tombed(st, target, x);
                    }
                    lemma_phase_props(st1, tail);
                    assert forall|k: int| 0 <= k < ops.len() implies op_settled(
                        p.0,
                        p.1,
                        #[trigger] ops[k],
                    ) by {
                        if k == 0 {
                            assert(abs_has_id(st1, target) && abs_tombed(st1, target));
                        } else {
                            assert(tail[k - 1] == ops[k]);
                        }
                    }
                } else {
                    let r = merge_phase(st, tail);
                    lemma_phase_props(st, tail);
                    assert(p.1 == seq![(id, target)] + r.1);
                    assert(p.1[0] == (id, target));
                    assert(p.1.contains((id, target)));
                    assert forall|k: int| 0 <= k < ops.len() implies op_settled(
                        p.0,
                        p.1,
                        #[trigger] ops[k],
                    ) by {
                        if k > 0 {
                            assert(tail[k - 1] == ops[k]);
                            match ops[k] {
                                OpAbs::Delete { id: id2, target: t2 } => {
                                    if r.1.contains((id2, t2)) {
                                        let j = choose|j: int|
                                            0 <= j < r.1.len() && r.1[j] == (id2, t2);
                                        assert(p.1[j + 1] == (id2, t2));
                                        assert(p.1.contains((id2, t2)));
                                    }
                                },
                                OpAbs::Insert { .. } => {},
                            }
                        }
                    }
                }
            },
        }
    }
}

proof fn lemma_phase_absorbed(st: Set<(Seq<PathElem>, OpId, char, bool)>, ops: Seq<OpAbs>)
    requires
        forall|k: int| 0 <= k < ops.len() ==> op_absorbed(st, #[trigger] ops[k]),
    ensures
        merge_phase(st, ops).0 == st,
        forall|j: int|
            0 <= j < merge_phase(st, ops).1.len() ==> !abs_has_id(
                st,
                (#[trigger] merge_phase(st, ops).1[j]).1,
            ),
    decreases ops.len(),
{
    if ops.len() > 0 {
        let p = merge_phase(st, ops);
        let tail = ops.drop_first();
        assert(op_absorbed(st, ops[0]));
        assert forall|k: int| 0 <= k < tail.len() implies op_absorbed(
            st,
            #[trigger] tail[k],
        ) by {
            assert(tail[k] == ops[k + 1]);
        }
        match ops[0] {
            OpAbs::Insert { pos, ch } => {
                lemma_phase_absorbed(st, tail);
            },
            OpAbs::Delete { id, target } => {
                if abs_has_id(st, target) {
                    lemma_flip_absorbed(st, target);
                    lemma_phase_absorbed(st, tail);
                } else {
                    lemma_phase_absorbed(st, tail);
                    let r = merge_phase(st, tail);
                    assert forall|j: int| 0 <= j < p.1.len() implies !abs_has_id(
                        st,
                        (#[trigger] p.1[j]).1,
                    ) by {
                        if j > 0 {
                            assert(p.1[j] == r.1[j - 1]);
                        }
                    }
                }
            },
        }
    }
}

proof fn lemma_retry_props(st: Set<(Seq<PathElem>, OpId, char, bool)>, pend: Seq<(OpId, OpId)>)
    ensures
        ({
            let r = retry_phase(st, pend);
            &&& forall|x: OpId| abs_has_id(r.0, x) == abs_has_id(st, x)
            &&& forall|x: OpId|
                abs_has_id(st, x) && abs_tombed(st, x) ==> abs_tombed(r.0, x)
            &&& forall|j: int|
                0 <= j < pend.len() ==> (abs_tombed(r.0, (#[trigger] pend[j]).1) || !abs_has_id(
                    r.0,
                    pend[j].1,
                ))
            &&& forall|j: int| 0 <= j < r.1.len() ==> !abs_has_id(r.0, (#[trigger] r.1[j]).1)
        }),
    decreases pend.len(),
{
    if pend.len() > 0 {
        let r = retry_phase(st, pend);
        let tail = pend.drop_first();
        if abs_has_id(st, pend[0].1) {
            let st1 = tomb_flip(st, pend[0].1);
            lemma_flip_ids(st, pend[0].1);
            lemma_flip_tombed(st, pend[0].1, pend[0].1);
            assert forall|x: OpId|
                abs_has_id(st, x) && abs_tombed(st, x) implies abs_tombed(st1, x) by {
                lemma_flip_tombed(st, pend[0].1, x);
            }
            lemma_retry_props(st1, tail);
            assert forall|j: int|
                0 <= j < pend.len() implies (abs_tombed(r.0, (#[trigger] pend[j]).1)
                || !abs_has_id(r.0, pend[j].1)) by {
                if j > 0 {
                    assert(tail[j - 1] == pend[j]);
                }
            }
        } else {
            lemma_retry_props(st, tail);
            let rt = retry_phase(st, tail);
            assert(r.1 == seq![pend[0]] + rt.1);
            assert forall|j: int|
                0 <= j < pend.len() implies (abs_tombed(r.0, (#[trigger] pend[j]).1)
                || !abs_has_id(r.0, pend[j].1)) by {
                if j > 0 {
                    assert(tail[j - 1] == pend[j]);
                }
            }
            assert forall|j: int| 0 <= j < r.1.len() implies !abs_has_id(
                r.0,
                (#[trigger] r.1[j]).1,
            ) by {
                if j > 0 {
                    assert(r.1[j] == rt.1[j - 1]);
                } else {
                    assert(r.1[0] == pend[0]);
                }
            }
        }
    }
}

proof fn lemma_retry_absent(st: Set<(Seq<PathElem>, OpId, char, bool)>, pend: Seq<(OpId, OpId)>)
    requires
        forall|j: int| 0 <= j < pend.len() ==> !abs_has_id(st, (#[trigger] pend[j]).1),
    ensures
        retry_phase(st, pend).0 == st,
    decreases pend.len(),
{
    if pend.len() > 0 {
        let tail = pend.drop_first();
        assert(pend[0] == pend[0]);
        assert forall|j: int| 0 <= j < tail.len() implies !abs_has_id(
            st,
            (#[trigger] tail[j]).1,
        ) by {
            assert(tail[j] == pend[j + 1]);
        }
        lemma_retry_absent(st, tail);
    }
}

/// After a merge, every operation of the batch is absorbed, and every
/// delete still buffered has an absent target.
pub proof fn lemma_merge_establishes(
    st: Set<(Seq<PathElem>, OpId, char, bool)>,
    pend0: Seq<(OpId, OpId)>,
    ops: Seq<OpAbs>,
)
    ensures
        ({
            let mr = merge_spec(st, pend0, ops);
            &&& forall|k: int| 0 <= k < ops.len() ==> op_absorbed(mr.0, #[trigger] ops[k])
            &&& forall|j: int|
                0 <= j < mr.1.len() ==> !abs_has_id(mr.0, (#[trigger] mr.1[j]).1)
        }),
{
    let p = merge_phase(st, ops);
    let all = pend0 + p.1;
    let mr = merge_spec(st, pend0, ops);
    lemma_phase_props(st, ops);
    lemma_retry_props(p.0, all);
    assert forall|k: int| 0 <= k < ops.len() implies op_absorbed(mr.0, #[trigger] ops[k]) by {
        assert(op_settled(p.0, p.1, ops[k]));
        match ops[k] {
            OpAbs::Insert { pos, .. } => {
                assert(abs_has_id(p.0, pos_id_of(pos)));
            },
            OpAbs::Delete { id, target } => {
                if abs_has_id(p.0, target) && abs_tombed(p.0, target) {
                    assert(abs_tombed(mr.0, target));
                } else if p.1.contains((id, target)) {
                    let j = choose|j: int| 0 <= j < p.1.len() && p.1[j] == (id, target);
                    assert(all[pend0.len() + j] == (id, target));
                    assert(abs_tombed(mr.0, target) || !abs_has_id(mr.0, target));
                }
            },
        }
    }
}

/// Merging a batch the run set has already absorbed, over a buffer whose
/// targets are absent, leaves the run set exactly as it was.
pub proof fn lemma_merge_absorbed(
    st: Set<(Seq<PathElem>, OpId, char, bool)>,
    pend0: Seq<(OpId, OpId)>,
    ops: Seq<OpAbs>,
)
    requires
        forall|k: int| 0 <= k < ops.len() ==> op_absorbed(st, #[trigger] ops[k]),
        forall|j: int| 0 <= j < pend0.len() ==> !abs_has_id(st, (#[trigger] pend0[j]).1),
    ensures
        merge_spec(st, pend0, ops).0 == st,
{
    lemma_phase_absorbed(st, ops);
    let p = merge_phase(st, ops);
    let all = pend0 + p.1;
    assert forall|j: int| 0 <= j < all.len() implies !abs_has_id(
        st,
        (#[trigger] all[j]).1,
    ) by {
        if j < pend0.len() {
            assert(all[j] == pend0[j]);
        } else {
            assert(all[j] == p.1[j - pend0.len()]);
        }
    }
    lemma_retry_absent(st, all);
}

/// Idempotence of the merge: delivering the same batch a second time, over
/// the state and buffer the first delivery produced, changes the run set no
/// further — duplicated or re-delivered transfers are harmless.
pub proof fn lemma_merge_idempotent(
    st: Set<(Seq<PathElem>, OpId, char, bool)>,
    pend0: Seq<(OpId, OpId)>,
    ops: Seq<OpAbs>,
)
    ensures
        ({
            let r1 = merge_spec(st, pend0, ops);
            merge_spec(r1.0, r1.1, ops).0 == r1.0
        }),
{
    lemma_merge_establishes(st, pend0, ops);
    let r1 = merge_spec(st, pend0, ops);
    lemma_merge_absorbed(r1.0, r1.1, ops);
}

/// The engine: a single replica of the collaborative document.
pub struct KernEngine {
    pub replica: u64,
    pub container: Container,
    pub vv: VersionVector,
    pub version: u64,
    pub log: Vec<Op>,
    pub pending: Vec<Op>,
}

impl KernEngine {
    /// Engine well-formedness: consistent container and frontier, every
    /// run's identity covered by the frontier, and a log whose operations
    /// can always be encoded.
    pub open spec fn wf(self) -> bool {
        &&& self.container.wf()
        &&& self.vv.wf()
        &&& forall|i: int|
            0 <= i < self.container.entries@.len() ==> self.vv.covers(
                (#[trigger] self.container.entries@[i]).id,
            )
        &&& forall|k: int| 0 <= k < self.log@.len() ==> wf_op_abs(op_abs(#[trigger] self.log@[k]))
        &&& self.log_replays()
    }

    /// The log replays, from empty state and with nothing buffered, to
    /// exactly the engine's run set: the log is a faithful account of the
    /// document, which is what makes an exported snapshot sufficient to
    /// rebuild an identical replica.
    pub open spec fn log_replays(self) -> bool {
        merge_phase(Set::<(Seq<PathElem>, OpId, char, bool)>::empty(), ops_abs(self.log@)) == (
            self.container.abs(),
            Seq::<(OpId, OpId)>::empty(),
        )
    }

    /// The visible document text.
    pub open spec fn text(self) -> Seq<char> {
        self.container.text()
    }

    /// Whether the engine can still mint `m` fresh operation identities and
    /// bump its local version: the machine limit on the counters.
    pub open spec fn can_mint(self, m: nat) -> bool {
        self.vv.get_spec(self.replica) + m <= u64::MAX && self.version < u64::MAX
    }

    /// Replaces the visible range `[ds, de)` with `ins`, minting one delete
    /// per removed character and one insert per added character, and bumps
    /// the local version once.  When the identity counter would overflow,
    /// nothing changes.
    #[verifier::loop_isolation(false)]
    #[verifier::rlimit(100)]
    fn splice(&mut self, ds: usize, de: usize, ins: &Vec<char>) -> (minted: bool)
        requires
            old(self).wf(),
            ds <= de,
            de <= old(self).text().len(),
        ensures
            final(self).wf(),
            minted == old(self).can_mint((de - ds + ins@.len()) as nat),
            final(self).replica == old(self).replica,
            minted ==> {
                &&& final(self).text() == old(self).text().take(ds as int) + ins@ + old(
                    self,
                ).text().skip(de as int)
                &&& final(self).version == old(self).version + 1
            },
            !minted ==> *final(self) == *old(self),
    {
        let need: u128 = (de - ds) as u128 + ins.len() as u128;
        let cur = self.vv.get(self.replica);
        if !(cur as u128 + need <= u64::MAX as u128 && self.version < u64::MAX) {
            return false;
        }
        let ghost t = self.text();
        let ghost abs_pre = self.container.abs();
        let ghost empty_st = Set::<(Seq<PathElem>, OpId, char, bool)>::empty();
        let rep = self.replica;
        let targets = self.container.delete_visible_range(ds, de);
        let ghost c1 = self.container;
        let nt = targets.len();
        let mut i: usize = 0;
        proof {
            assert(targets@.take(0) =~= Seq::<OpId>::empty());
            assert(crate::container::fold_flip(abs_pre, targets@.take(0)) == abs_pre);
            lemma_has_id_abs(old(self).container);
        }
        while i < nt
            invariant
                i <= nt,
                self.replica == rep,
                self.container == c1,
                self.version == old(self).version,
                self.vv.wf(),
                self.vv.get_spec(rep) == cur + i,
                forall|q: u64| q != rep ==> self.vv.get_spec(q) == old(self).vv.get_spec(q),
                forall|k: int|
                    0 <= k < self.log@.len() ==> wf_op_abs(op_abs(#[trigger] self.log@[k])),
                merge_phase(empty_st, ops_abs(self.log@)).0 == crate::container::fold_flip(
                    abs_pre,
                    targets@.take(i as int),
                ),
                merge_phase(empty_st, ops_abs(self.log@)).1 == Seq::<(OpId, OpId)>::empty(),
            decreases nt - i,
        {
            let c2 = self.vv.get(rep);
            let id = OpId { replica: rep, seq: c2 + 1 };
            self.vv.advance_to(rep, c2 + 1);
            let ghost lg = self.log@;
            self.log.push(Op::Delete { id, target: targets[i] });
            proof {
                assert forall|k: int| 0 <= k < self.log@.len() implies wf_op_abs(
                    op_abs(#[trigger] self.log@[k]),
                ) by {
                    if k < lg.len() {
                        assert(self.log@[k] == lg[k]);
                    }
                }
                let tgt = targets@[i as int];
                assert(self.log@ == lg.push(Op::Delete { id, target: tgt }));
                assert(targets@.contains(tgt));
                assert(abs_has_id(abs_pre, tgt));
                crate::container::lemma_fold_flip_ids(abs_pre, targets@.take(i as int));
                lemma_replay_delete_step(
                    lg,
                    Op::Delete { id, target: tgt },
                    crate::container::fold_flip(abs_pre, targets@.take(i as int)),
                    id,
                    tgt,
                );
                crate::container::lemma_fold_flip_snoc(abs_pre, targets@.take(i as int), tgt);
                assert(targets@.take(i as int + 1) =~= targets@.take(i as int).push(tgt));
            }
            i = i + 1;
        }
        proof {
            assert(targets@.take(nt as int) =~= targets@);
        }
        let ghost t1 = self.text();
        let ni = ins.len();
        let mut i: usize = 0;
        proof {
            assert(ins@.take(0) =~= Seq::<char>::empty());
            assert(t1.take(ds as int) + ins@.take(0) =~= t1.take(ds as int));
            assert forall|j: int| 0 <= j < self.container.entries@.len() implies self.vv.covers(
                (#[trigger] self.container.entries@[j]).id,
            ) by {
                assert(self.container.entries@[j].id == old(self).container.entries@[j].id);
                assert(old(self).vv.covers(old(self).container.entries@[j].id));
            }
        }
        while i < ni
            invariant
                i <= ni,
                ni == ins@.len(),
                self.replica == rep,
                ds + i <= self.text().len(),
                self.text() =~= t1.take(ds as int) + ins@.take(i as int) + t1.skip(ds as int),
                self.version == old(self).version,
                self.container.wf(),
                self.vv.wf(),
                self.vv.get_spec(rep) == cur + (de - ds) + i,
                cur + (de - ds) + ni <= u64::MAX,
                forall|q: u64| q != rep ==> self.vv.get_spec(q) == old(self).vv.get_spec(q),
                forall|j: int|
                    0 <= j < self.container.entries@.len() ==> self.vv.covers(
                        (#[trigger] self.container.entries@[j]).id,
                    ),
                forall|k: int|
                    0 <= k < self.log@.len() ==> wf_op_abs(op_abs(#[trigger] self.log@[k])),
                merge_phase(empty_st, ops_abs(self.log@)).0 == self.container.abs(),
                merge_phase(empty_st, ops_abs(self.log@)).1 == Seq::<(OpId, OpId)>::empty(),
            decreases ni - i,
        {
            let c2 = self.vv.get(rep);
            let id = OpId { replica: rep, seq: c2 + 1 };
            proof {
                assert forall|j: int|
                    0 <= j < self.container.entries@.len() implies (
                #[trigger] self.container.entries@[j]).id != id by {
                    let eid = self.container.entries@[j].id;
                    assert(self.vv.covers(eid));
                    if eid.replica == rep {
                        assert(eid.seq <= c2);
                    }
                }
            }
            let ghost cpre = self.container;
            let ghost vpre = self.vv;
            self.vv.advance_to(rep, c2 + 1);
            let el = self.container.entries.len();
            proof {
                crate::container::lemma_text_of_len(self.container.entries@);
                assert(ds + i <= el);
            }
            let ghost tc = self.text();
            let pos = self.container.insert_char(ds + i, ins[i], id);
            let pl = pos.elems.len();
            let newop = Op::Insert { pos: dup_pos(&pos), ch: ins[i] };
            let ghost gop = newop;
            let ghost lg = self.log@;
            self.log.push(newop);
            proof {
                assert(1 <= pl <= u64::MAX);
                assert(self.log@ == lg.push(gop));
                assert(wf_op_abs(op_abs(gop)));
                lemma_log_wf_push(lg, gop);
                lemma_has_id_abs(cpre);
                assert(!cpre.has_id(id)) by {
                    if cpre.has_id(id) {
                        let jj = choose|jj: int|
                            0 <= jj < cpre.entries@.len() && (#[trigger] cpre.entries@[jj]).id
                                == id;
                        assert(false);
                    }
                }
                assert(!abs_has_id(cpre.abs(), id));
                assert(pos_id_of(pos@) == id);
                assert(self.log@ == lg.push(gop));
                assert(op_abs(gop) == (OpAbs::Insert { pos: pos@, ch: ins@[i as int] }));
                lemma_replay_insert_step(lg, gop, cpre.abs(), pos@, ins@[i as int]);
                assert forall|j: int|
                    0 <= j < self.container.entries@.len() implies self.vv.covers(
                    (#[trigger] self.container.entries@[j]).id,
                ) by {
                    let x = self.container.entries@[j].id;
                    assert(self.container.has_id(x));
                    if x != id {
                        assert(cpre.has_id(x));
                        let k = choose|k: int|
                            0 <= k < cpre.entries@.len() && (#[trigger] cpre.entries@[k]).id == x;
                        assert(vpre.covers(x));
                    }
                }
            }
            proof {
                assert(tc.take(ds as int + i as int) =~= t1.take(ds as int) + ins@.take(i as int));
                assert(tc.skip(ds as int + i as int) =~= t1.skip(ds as int));
                assert(ins@.take(i as int + 1) =~= ins@.take(i as int).push(ins@[i as int]));
                assert(self.text() =~= t1.take(ds as int) + ins@.take(i as int + 1) + t1.skip(
                    ds as int,
                ));
            }
            i = i + 1;
        }
        self.version = self.version + 1;
        proof {
            assert(ins@.take(ni as int) =~= ins@);
            assert(t1.take(ds as int) =~= t.take(ds as int));
            assert(t1.skip(ds as int) =~= t.skip(de as int));
            assert(final(self).text() =~= t.take(ds as int) + ins@ + t.skip(de as int));
        }
        true
    }

    /// Creates a fresh engine for the given replica identifier, holding the
    /// default welcome document.  Replica identifiers must be unique across
    /// replicas of one document.
    pub fn new(replica: u64) -> (e: KernEngine)
        ensures
            e.wf(),
            e.replica == replica,
            e.version == 0,
            e.text() == "# Welcome to Kern\n\nStart typing..."@,
    {
        let mut e = KernEngine {
            replica,
            container: Container::new(),
            vv: VersionVector::new(),
            version: 0,
            log: Vec::new(),
            pending: Vec::new(),
        };
        let welcome = str_chars("# Welcome to Kern\n\nStart typing...");
        proof {
            reveal_strlit("# Welcome to Kern\n\nStart typing...");
            assert(ops_abs(e.log@) =~= Seq::<OpAbs>::empty());
            assert(merge_phase(
                Set::<(Seq<PathElem>, OpId, char, bool)>::empty(),
                ops_abs(e.log@),
            ) == (
                Set::<(Seq<PathElem>, OpId, char, bool)>::empty(),
                Seq::<(OpId, OpId)>::empty(),
            ));
        }
        let minted = e.splice(0, 0, &welcome);
        e.version = 0;
        proof {
            assert(e.text() =~= "# Welcome to Kern\n\nStart typing..."@);
        }
        e
    }

    /// The local change counter.
    pub fn get_version(&self) -> (v: u64)
        ensures
            v == self.version,
    {
        self.version
    }

    /// The visible document text.
    pub fn get_text(&self) -> (s: String)
        requires
            self.wf(),
        ensures
            s@ == self.text(),
    {
        let chars = self.container.visible_chars();
        chars_to_string(&chars)
    }

    /// No buffered delete's target is present: the buffer holds exactly the
    /// operations still waiting for their causal dependency.
    pub open spec fn pending_clear(self) -> bool {
        forall|k: int|
            0 <= k < self.pending@.len() ==> match #[trigger] self.pending@[k] {
                Op::Delete { target, .. } => !self.container.has_id(target),
                Op::Insert { .. } => true,
            }
    }

    /// Encodes the entire state: every logged operation plus the frontier.
    /// Importing these bytes into an empty replica reconstructs the document.
    pub fn export_snapshot(&self) -> (out: Vec<u8>)
        ensures
            out@ == enc_doc(1, self.vv.pairs@, ops_abs(self.log@)),
    {
        encode_doc(1, &self.vv, &self.log)
    }

    /// Encodes only the operations the reference frontier does not cover.
    /// `lemma_delta_shorter` shows the result never exceeds the snapshot and
    /// shrinks strictly once the reference covers a logged operation.
    #[verifier::loop_isolation(false)]
    pub fn export_delta(&self, reference: &VersionVector) -> (out: Vec<u8>)
        requires
            self.wf(),
            reference.wf(),
        ensures
            out@ == enc_doc(2, self.vv.pairs@, delta_of(ops_abs(self.log@), reference.pairs@)),
    {
        let ghost rp = reference.pairs@;
        let mut kept: Vec<Op> = Vec::new();
        let n = self.log.len();
        let mut i: usize = 0;
        proof {
            assert(ops_abs(self.log@.take(0)) =~= Seq::<OpAbs>::empty());
            assert(ops_abs(kept@) =~= delta_of(ops_abs(self.log@.take(0)), rp));
        }
        while i < n
            invariant
                i <= n,
                n == self.log@.len(),
                ops_abs(kept@) == delta_of(ops_abs(self.log@.take(i as int)), rp),
            decreases n - i,
        {
            let id = match &self.log[i] {
                Op::Insert { pos, .. } => {
                    let l = pos.elems[pos.elems.len() - 1];
                    OpId { replica: l.replica, seq: l.seq }
                },
                Op::Delete { id, .. } => *id,
            };
            proof {
                assert(id == op_abs_id(op_abs(self.log@[i as int])));
                assert(ops_abs(self.log@.take(i as int + 1)) =~= ops_abs(
                    self.log@.take(i as int),
                ).push(op_abs(self.log@[i as int])));
                crate::codec::lemma_delta_snoc(
                    ops_abs(self.log@.take(i as int)),
                    op_abs(self.log@[i as int]),
                    rp,
                );
            }
            if id.seq > reference.get(id.replica) {
                let ghost k0 = kept@;
                let c = dup_op(&self.log[i]);
                let ghost gc = c;
                kept.push(c);
                proof {
                    assert(ops_abs(kept@) =~= ops_abs(k0).push(op_abs(gc)));
                    assert(ops_abs(kept@) =~= delta_of(ops_abs(self.log@.take(i as int + 1)), rp));
                }
            } else {
                proof {
                    assert(ops_abs(kept@) + Seq::<OpAbs>::empty() =~= ops_abs(kept@));
                    assert(ops_abs(kept@) =~= delta_of(ops_abs(self.log@.take(i as int + 1)), rp));
                }
            }
            i = i + 1;
        }
        proof {
            assert(self.log@.take(n as int) =~= self.log@);
        }
        encode_doc(2, &self.vv, &kept)
    }

    /// Encodes the operations no other replica is known to have: the delta
    /// against the empty frontier, which carries the whole log.
    pub fn export_updates(&self) -> (out: Vec<u8>)
        requires
            self.wf(),
        ensures
            out@ == enc_doc(
                2,
                self.vv.pairs@,
                delta_of(ops_abs(self.log@), Seq::<(u64, u64)>::empty()),
            ),
    {
        let reference = VersionVector::new();
        proof {
            assert(reference.pairs@ =~= Seq::<(u64, u64)>::empty());
        }
        self.export_delta(&reference)
    }

    /// Applies a batch of foreign operations.  An insert whose identity is
    /// already present is skipped; a delete tombstones its target, a no-op
    /// when the run is already tombstoned; a delete whose target has not
    /// arrived is buffered, and the buffer is retried after every batch.
    /// The resulting run set and buffer are exactly `merge_spec` of the old
    /// run set, the old buffer and the batch.
    #[verifier::loop_isolation(false)]
    #[verifier::rlimit(100)]
    fn merge_ops(&mut self, ops: &Vec<Op>)
        requires
            old(self).wf(),
            forall|k: int| 0 <= k < ops@.len() ==> wf_op_abs(op_abs(#[trigger] ops@[k])),
        ensures
            final(self).wf(),
            final(self).replica == old(self).replica,
            final(self).version == old(self).version,
            final(self).pending_clear(),
            ({
                let mr = merge_spec(
                    old(self).container.abs(),
                    pend_pairs(old(self).pending@),
                    ops_abs(ops@),
                );
                final(self).container.abs() == mr.0 && pend_pairs(final(self).pending@) == mr.1
            }),
            forall|q: u64| final(self).vv.get_spec(q) >= old(self).vv.get_spec(q),
            forall|q: u64|
                final(self).vv.get_spec(q) == old(self).vv.get_spec(q) || exists|k: int|
                    0 <= k < ops@.len() && #[trigger] ins_id_at(
                        op_abs(ops@[k]),
                        q,
                        final(self).vv.get_spec(q),
                    ),
    {
        let ghost abs0 = old(self).container.abs();
        let ghost opsa = ops_abs(ops@);
        let ghost empty_st = Set::<(Seq<PathElem>, OpId, char, bool)>::empty();
        let ghost mut accp: Seq<(OpId, OpId)> = Seq::empty();
        let n = ops.len();
        let mut i: usize = 0;
        proof {
            assert(opsa.skip(0) =~= opsa);
            assert(pend_pairs(old(self).pending@) + accp =~= pend_pairs(old(self).pending@));
            assert(accp + merge_phase(self.container.abs(), opsa.skip(0)).1 =~= merge_phase(
                abs0,
                opsa,
            ).1);
        }
        while i < n
            invariant
                i <= n,
                self.wf(),
                self.replica == old(self).replica,
                self.version == old(self).version,
                pend_pairs(self.pending@) == pend_pairs(old(self).pending@) + accp,
                self.pending@.len() >= old(self).pending@.len(),
                forall|k: int|
                    0 <= k < old(self).pending@.len() ==> #[trigger] self.pending@[k] == old(
                        self,
                    ).pending@[k],
                merge_phase(abs0, opsa).0 == merge_phase(
                    self.container.abs(),
                    opsa.skip(i as int),
                ).0,
                merge_phase(abs0, opsa).1 == accp + merge_phase(
                    self.container.abs(),
                    opsa.skip(i as int),
                ).1,
                forall|q: u64| self.vv.get_spec(q) >= old(self).vv.get_spec(q),
                forall|q: u64|
                    self.vv.get_spec(q) == old(self).vv.get_spec(q) || exists|k: int|
                        0 <= k < i && #[trigger] ins_id_at(op_abs(ops@[k]), q, self.vv.get_spec(q)),
                merge_phase(empty_st, ops_abs(self.log@)).0 == self.container.abs(),
                merge_phase(empty_st, ops_abs(self.log@)).1 == Seq::<(OpId, OpId)>::empty(),
            decreases n - i,
        {
            proof {
                assert(opsa.skip(i as int)[0] == opsa[i as int]);
                assert(opsa[i as int] == op_abs(ops@[i as int]));
                assert(opsa.skip(i as int).drop_first() =~= opsa.skip(i as int + 1));
                lemma_has_id_abs(self.container);
            }
            match &ops[i] {
                Op::Insert { pos, ch } => {
                    let l = pos.elems[pos.elems.len() - 1];
                    let id = OpId { replica: l.replica, seq: l.seq };
                    proof {
                        assert(id == pos_id_of(pos@));
                    }
                    let ghost cpre = self.container;
                    let ghost vpre = self.vv;
                    let applied = self.container.apply_insert(pos, *ch);
                    if applied {
                        self.vv.advance_to(id.replica, id.seq);
                    }
                    proof {
                        assert(abs_has_id(cpre.abs(), id) == !applied);
                        assert(merge_phase(cpre.abs(), opsa.skip(i as int)) == merge_phase(
                            self.container.abs(),
                            opsa.skip(i as int + 1),
                        ));
                        assert forall|q: u64|
                            self.vv.get_spec(q) == old(self).vv.get_spec(q) || exists|k: int|
                                0 <= k < i + 1 && #[trigger] ins_id_at(
                                    op_abs(ops@[k]),
                                    q,
                                    self.vv.get_spec(q),
                                ) by {
                            if self.vv.get_spec(q) != vpre.get_spec(q) {
                                assert(ins_id_at(op_abs(ops@[i as int]), q, self.vv.get_spec(q)));
                            } else if vpre.get_spec(q) != old(self).vv.get_spec(q) {
                                let k = choose|k: int|
                                    0 <= k < i && #[trigger] ins_id_at(
                                        op_abs(ops@[k]),
                                        q,
                                        vpre.get_spec(q),
                                    );
                                assert(ins_id_at(op_abs(ops@[k]), q, self.vv.get_spec(q)));
                            }
                        }
                    }
                    if applied {
                        let newop = Op::Insert { pos: dup_pos(pos), ch: *ch };
                        let ghost gop = newop;
                        let ghost lg = self.log@;
                        let ghost pd = self.pending@;
                        let pl = pos.elems.len();
                        self.log.push(newop);
                        proof {
                            assert(1 <= pl <= u64::MAX);
                            assert(self.log@ == lg.push(gop));
                            lemma_log_wf_push(lg, gop);
                            assert(ops_abs(lg.push(gop)) =~= ops_abs(lg).push(op_abs(gop)));
                            assert(ops_abs(self.log@) == ops_abs(lg).push(op_abs(gop)));
                            lemma_phase_snoc(empty_st, ops_abs(lg), op_abs(gop));
                            lemma_has_id_abs(cpre);
                            assert(!abs_has_id(cpre.abs(), id));
                            assert(pos_id_of(pos@) == id);
                        }
                    }
                    proof {
                        assert forall|j: int|
                            0 <= j < self.container.entries@.len() implies self.vv.covers(
                            (#[trigger] self.container.entries@[j]).id,
                        ) by {
                            let x = self.container.entries@[j].id;
                            assert(self.container.has_id(x));
                            if x != id {
                                assert(cpre.has_id(x));
                                let w = choose|w: int|
                                    0 <= w < cpre.entries@.len() && (
                                #[trigger] cpre.entries@[w]).id == x;
                                assert(vpre.covers(x));
                            }
                        }
                    }
                },
                Op::Delete { id, target } => {
                    let id = *id;
                    let target = *target;
                    let ghost cpre = self.container;
                    let found = self.container.apply_delete(target);
                    proof {
                        assert(abs_has_id(cpre.abs(), target) == found);
                    }
                    if !found {
                        let ghost pd = self.pending@;
                        self.pending.push(Op::Delete { id, target });
                        proof {
                            assert(self.pending@ == pd.push(Op::Delete { id, target }));
                            lemma_pend_pairs_snoc(pd, Op::Delete { id, target });
                            assert((pend_pairs(old(self).pending@) + accp) + seq![(id, target)]
                                =~= pend_pairs(old(self).pending@) + (accp + seq![(id, target)]));
                            assert(merge_phase(cpre.abs(), opsa.skip(i as int)).0 == merge_phase(
                                self.container.abs(),
                                opsa.skip(i as int + 1),
                            ).0);
                            assert(merge_phase(cpre.abs(), opsa.skip(i as int)).1 == seq![
                                (id, target),
                            ] + merge_phase(self.container.abs(), opsa.skip(i as int + 1)).1);
                            assert(accp + (seq![(id, target)] + merge_phase(
                                self.container.abs(),
                                opsa.skip(i as int + 1),
                            ).1) =~= (accp + seq![(id, target)]) + merge_phase(
                                self.container.abs(),
                                opsa.skip(i as int + 1),
                            ).1);
                            accp = accp + seq![(id, target)];
                        }
                    } else {
                        let ghost lg = self.log@;
                        self.log.push(Op::Delete { id, target });
                        proof {
                            lemma_log_wf_push(lg, Op::Delete { id, target });
                            assert(merge_phase(cpre.abs(), opsa.skip(i as int)) == merge_phase(
                                self.container.abs(),
                                opsa.skip(i as int + 1),
                            ));
                            let dabs = op_abs(Op::Delete { id, target });
                            assert(self.log@ == lg.push(Op::Delete { id, target }));
                            lemma_ops_abs_snoc(lg, Op::Delete { id, target });
                            assert(ops_abs(self.log@) == ops_abs(lg).push(dabs));
                            lemma_phase_snoc(empty_st, ops_abs(lg), dabs);
                        }
                    }
                },
            }
            i = i + 1;
        }
        proof {
            assert(opsa.skip(n as int) =~= Seq::<OpAbs>::empty());
            assert(merge_phase(abs0, opsa).0 == self.container.abs());
            assert(accp + Seq::<(OpId, OpId)>::empty() =~= accp);
            assert(merge_phase(abs0, opsa).1 == accp);
        }
        let ghost vmid = self.vv;
        let ghost stmid = self.container.abs();
        let mut old_pend: Vec<(OpId, OpId)> = Vec::new();
        let np = self.pending.len();
        let mut k: usize = 0;
        proof {
            assert(self.pending@.take(0) =~= Seq::<Op>::empty());
            assert(old_pend@ =~= pend_pairs(self.pending@.take(0)));
        }
        while k < np
            invariant
                k <= np,
                np == self.pending@.len(),
                old_pend@ == pend_pairs(self.pending@.take(k as int)),
            decreases np - k,
        {
            proof {
                assert(self.pending@.take(k as int + 1) =~= self.pending@.take(k as int).push(
                    self.pending@[k as int],
                ));
                lemma_pend_pairs_snoc(self.pending@.take(k as int), self.pending@[k as int]);
            }
            match &self.pending[k] {
                Op::Delete { id, target } => {
                    let ghost p0 = old_pend@;
                    old_pend.push((*id, *target));
                    proof {
                        assert(old_pend@ =~= p0 + seq![(*id, *target)]);
                    }
                },
                Op::Insert { .. } => {
                    proof {
                        assert(old_pend@ + Seq::<(OpId, OpId)>::empty() =~= old_pend@);
                    }
                },
            }
            k = k + 1;
        }
        proof {
            assert(self.pending@.take(np as int) =~= self.pending@);
            assert(old_pend@ == pend_pairs(old(self).pending@) + accp);
        }
        let ghost pall = old_pend@;
        self.pending = Vec::new();
        let m = old_pend.len();
        let mut k: usize = 0;
        proof {
            assert(pall.skip(0) =~= pall);
            assert(pend_pairs(self.pending@) =~= Seq::<(OpId, OpId)>::empty());
            assert(pend_pairs(self.pending@) + retry_phase(
                self.container.abs(),
                pall.skip(0),
            ).1 =~= retry_phase(stmid, pall).1);
        }
        while k < m
            invariant
                k <= m,
                m == pall.len(),
                old_pend@ == pall,
                self.container.wf(),
                self.vv == vmid,
                self.replica == old(self).replica,
                self.version == old(self).version,
                forall|j: int|
                    0 <= j < self.container.entries@.len() ==> self.vv.covers(
                        (#[trigger] self.container.entries@[j]).id,
                    ),
                forall|j: int|
                    0 <= j < self.log@.len() ==> wf_op_abs(op_abs(#[trigger] self.log@[j])),
                self.pending_clear(),
                retry_phase(stmid, pall).0 == retry_phase(
                    self.container.abs(),
                    pall.skip(k as int),
                ).0,
                retry_phase(stmid, pall).1 == pend_pairs(self.pending@) + retry_phase(
                    self.container.abs(),
                    pall.skip(k as int),
                ).1,
                merge_phase(empty_st, ops_abs(self.log@)).0 == self.container.abs(),
                merge_phase(empty_st, ops_abs(self.log@)).1 == Seq::<(OpId, OpId)>::empty(),
            decreases m - k,
        {
            proof {
                assert(pall.skip(k as int)[0] == pall[k as int]);
                assert(pall.skip(k as int).drop_first() =~= pall.skip(k as int + 1));
                lemma_has_id_abs(self.container);
            }
            let (id, target) = old_pend[k];
            let ghost cpre2 = self.container;
            let ghost pend2 = self.pending@;
            let found = self.container.apply_delete(target);
            proof {
                assert(abs_has_id(cpre2.abs(), target) == found);
                assert forall|j: int| 0 <= j < self.pending@.len() implies match #[trigger] self
                    .pending@[j] {
                    Op::Delete { target: t2, .. } => !self.container.has_id(t2),
                    Op::Insert { .. } => true,
                } by {}
            }
            if found {
                let ghost lg = self.log@;
                self.log.push(Op::Delete { id, target });
                proof {
                    lemma_log_wf_push(lg, Op::Delete { id, target });
                    assert(retry_phase(cpre2.abs(), pall.skip(k as int)) == retry_phase(
                        self.container.abs(),
                        pall.skip(k as int + 1),
                    ));
                    let dabs = op_abs(Op::Delete { id, target });
                    assert(self.log@ == lg.push(Op::Delete { id, target }));
                    lemma_ops_abs_snoc(lg, Op::Delete { id, target });
                    assert(ops_abs(self.log@) == ops_abs(lg).push(dabs));
                    lemma_phase_snoc(empty_st, ops_abs(lg), dabs);
                }
            } else {
                let ghost pend3 = self.pending@;
                self.pending.push(Op::Delete { id, target });
                proof {
                    assert(self.pending@ == pend3.push(Op::Delete { id, target }));
                    lemma_pend_pairs_snoc(pend3, Op::Delete { id, target });
                    assert(retry_phase(cpre2.abs(), pall.skip(k as int)).0 == retry_phase(
                        self.container.abs(),
                        pall.skip(k as int + 1),
                    ).0);
                    assert(retry_phase(cpre2.abs(), pall.skip(k as int)).1 == seq![(id, target)]
                        + retry_phase(self.container.abs(), pall.skip(k as int + 1)).1);
                    assert(pend_pairs(pend3) + (seq![(id, target)] + retry_phase(
                        self.container.abs(),
                        pall.skip(k as int + 1),
                    ).1) =~= (pend_pairs(pend3) + seq![(id, target)]) + retry_phase(
                        self.container.abs(),
                        pall.skip(k as int + 1),
                    ).1);
                    assert forall|j: int| 0 <= j < self.pending@.len() implies match #[trigger] self
                        .pending@[j] {
                        Op::Delete { target: t2, .. } => !self.container.has_id(t2),
                        Op::Insert { .. } => true,
                    } by {
                        if j < pend3.len() {
                            assert(self.pending@[j] == pend3[j]);
                        } else {
                            assert(self.pending@[j] == (Op::Delete { id, target }));
                        }
                    }
                }
            }
            k = k + 1;
        }
        proof {
            assert(pall.skip(m as int) =~= Seq::<(OpId, OpId)>::empty());
            assert(retry_phase(stmid, pall).0 == self.container.abs());
            assert(pend_pairs(self.pending@) + Seq::<(OpId, OpId)>::empty() =~= pend_pairs(
                self.pending@,
            ));
            assert(retry_phase(stmid, pall).1 == pend_pairs(self.pending@));
            assert(pall =~= pend_pairs(old(self).pending@) + merge_phase(abs0, opsa).1);
        }
    }
    /// Imports foreign bytes.  On well-formed input the operations are
    /// merged exactly once each, the foreign frontier is absorbed, the local
    /// version bumps, and every line of the resulting document is reported
    /// for re-render.  Malformed bytes are rejected with no change at all.
    /// Operations are applied at most once, keyed by their identity, so
    /// re-importing a transfer already applied leaves the visible text as
    /// it was.
    #[verifier::loop_isolation(false)]
    #[verifier::rlimit(100)]
    pub fn load_from_bytes(&mut self, data: &Vec<u8>) -> (r: Result<Vec<usize>, DecodeError>)
        requires
            old(self).wf(),
        ensures
            final(self).wf(),
            final(self).replica == old(self).replica,
            r is Ok <==> dec_doc_s(data@) is Some,
            r is Err ==> *final(self) == *old(self),
            r is Ok ==> {
                &&& final(self).version == if old(self).version < u64::MAX {
                    old(self).version + 1
                } else {
                    old(self).version as int
                }
                &&& forall|q: u64| final(self).vv.get_spec(q) >= old(self).vv.get_spec(q)
                &&& final(self).pending_clear()
            },
            dec_doc_s(data@) matches Some(t) ==> {
                &&& ({
                    let mr = merge_spec(
                        old(self).container.abs(),
                        pend_pairs(old(self).pending@),
                        t.2,
                    );
                    final(self).container.abs() == mr.0 && pend_pairs(final(self).pending@)
                        == mr.1
                })
                &&& forall|q: u64| final(self).vv.get_spec(q) >= vv_get(t.1, q)
                &&& (forall|j: int| 0 <= j < t.2.len() ==> ins_covered(#[trigger] t.2[j], t.1))
                    ==> forall|q: u64|
                    final(self).vv.get_spec(q) == if vv_get(t.1, q) > old(self).vv.get_spec(q) {
                        vv_get(t.1, q)
                    } else {
                        old(self).vv.get_spec(q)
                    }
            },
            r matches Ok(lines) ==> lines@ == Seq::new(
                line_count(final(self).text()) as nat,
                |i: int| i as usize,
            ),
    {
        match decode_doc(data) {
            None => Err(DecodeError::Malformed),
            Some((kind, pairs, ops)) => {
                proof {
                    lemma_dec_doc_props(data@);
                    assert(dec_doc_s(data@) == Some((kind, pairs@, ops_abs(ops@))));
                    assert forall|k: int| 0 <= k < ops@.len() implies wf_op_abs(
                        op_abs(#[trigger] ops@[k]),
                    ) by {
                        let tt = dec_doc_s(data@).unwrap();
                        assert(wf_op_abs(tt.2[k]));
                        assert(ops_abs(ops@)[k] == op_abs(ops@[k]));
                    }
                    assert forall|m: int, n: int| 0 <= m < n < pairs@.len() implies (
                    #[trigger] pairs@[m]).0 != (#[trigger] pairs@[n]).0 by {
                        let tt = dec_doc_s(data@).unwrap();
                        assert(tt.1[m].0 != tt.1[n].0);
                    }
                }
                let vvdec = VersionVector { pairs };
                proof {
                    assert(vvdec.wf());
                }
                self.merge_ops(&ops);
                let ghost vafter = self.vv;
                self.vv.absorb(&vvdec);
                proof {
                    let tt = dec_doc_s(data@).unwrap();
                    assert(tt.2 == ops_abs(ops@));
                    assert(tt.1 == vvdec.pairs@);
                    if forall|j: int| 0 <= j < tt.2.len() ==> ins_covered(#[trigger] tt.2[j], tt.1) {
                        assert forall|q: u64|
                            self.vv.get_spec(q) == (if vv_get(tt.1, q) > old(self).vv.get_spec(q) {
                                vv_get(tt.1, q)
                            } else {
                                old(self).vv.get_spec(q)
                            }) by {
                            if vafter.get_spec(q) != old(self).vv.get_spec(q) {
                                let k = choose|k: int|
                                    0 <= k < ops@.len() && #[trigger] ins_id_at(
                                        op_abs(ops@[k]),
                                        q,
                                        vafter.get_spec(q),
                                    );
                                assert(tt.2[k] == op_abs(ops@[k]));
                                assert(ins_covered(tt.2[k], tt.1));
                                assert(vafter.get_spec(q) <= vv_get(tt.1, q));
                            }
                        }
                    }
                }
                if self.version < u64::MAX {
                    self.version = self.version + 1;
                }
                let t = self.container.visible_chars();
                let c = count_newlines_prefix(&t, t.len());
                proof {
                    assert(t@.take(t@.len() as int) =~= t@);
                }
                let mut lines: Vec<usize> = Vec::new();
                let mut i: usize = 0;
                proof {
                    assert(lines@ =~= Seq::new(0, |x: int| x as usize));
                }
                while i < c
                    invariant
                        i <= c,
                        lines@ == Seq::new(i as nat, |x: int| x as usize),
                    decreases c - i,
                {
                    lines.push(i);
                    proof {
                        assert(lines@ =~= Seq::new((i + 1) as nat, |x: int| x as usize));
                    }
                    i = i + 1;
                }
                lines.push(c);
                proof {
                    assert(lines@ =~= Seq::new((c + 1) as nat, |x: int| x as usize));
                    assert(line_count(final(self).text()) == c + 1);
                }
                Ok(lines)
            },
        }
    }

    /// Applies one edit: resolves the line/column against the current text,
    /// deletes the requested count backwards from there (clamped at the
    /// document start), inserts the given text at the deletion point, bumps
    /// the local version once, and returns the indices of the lines a
    /// renderer must redraw: the line where the edit starts, the requested
    /// line itself, and — when the edit adds or removes line separators —
    /// every line from the edit down to the last line of the old or the new
    /// document, whichever reaches further, so lines introduced as well as
    /// lines removed are reported.  When the identity counter would
    /// overflow, nothing changes and no lines are reported.
    #[verifier::loop_isolation(false)]
    #[verifier::rlimit(100)]
    pub fn apply_edit(&mut self, delta: &EditDelta) -> (lines: Vec<usize>)
        requires
            old(self).wf(),
        ensures
            final(self).wf(),
            final(self).replica == old(self).replica,
            ({
                let t = old(self).text();
                let p = resolve_spec(t, delta.line as int, delta.col as int);
                let d = del_spec(delta);
                let eff: int = if d <= p {
                    d
                } else {
                    p
                };
                let ds = p - eff;
                let ins = ins_spec(delta);
                if old(self).can_mint((eff + ins.len()) as nat) {
                    &&& final(self).text() == t.take(ds) + ins + t.skip(p)
                    &&& final(self).version == old(self).version + 1
                    &&& ({
                        let sl = count_nl(t.take(ds));
                        let hi = if line_count(t) > line_count(final(self).text()) {
                            line_count(t) - 1
                        } else {
                            line_count(final(self).text()) - 1
                        };
                        if count_nl(ins) == 0 && count_nl(t.subrange(ds, p)) == 0 {
                            lines@ == (if delta.line as int > sl {
                                seq![sl as usize, delta.line]
                            } else {
                                seq![sl as usize]
                            })
                        } else {
                            lines@ == Seq::new((hi + 1 - sl) as nat, |i: int| (sl + i) as usize)
                                + (if delta.line as int > hi {
                                seq![delta.line]
                            } else {
                                Seq::<usize>::empty()
                            })
                        }
                    })
                } else {
                    *final(self) == *old(self) && lines@ == Seq::<usize>::empty()
                }
            }),
    {
        let text = self.container.visible_chars();
        let pos = resolve(&text, delta.line, delta.col);
        let d = match &delta.delete {
            Some(n) => *n,
            None => 0,
        };
        let eff = if d <= pos {
            d
        } else {
            pos
        };
        let ds = pos - eff;
        let ins = match &delta.insert {
            Some(s) => str_chars(s.as_str()),
            None => Vec::new(),
        };
        proof {
            assert(ins@ == ins_spec(delta));
        }
        let minted = self.splice(ds, pos, &ins);
        if !minted {
            return Vec::new();
        }
        let sl = count_newlines_prefix(&text, ds);
        let ci = count_newlines_prefix(&ins, ins.len());
        let cs = count_newlines_prefix(&text, pos);
        proof {
            assert(text@.take(pos as int) =~= text@.take(ds as int) + text@.subrange(
                ds as int,
                pos as int,
            ));
            lemma_count_nl_concat(text@.take(ds as int), text@.subrange(ds as int, pos as int));
            lemma_count_nl_nonneg(text@.subrange(ds as int, pos as int));
            assert(ins@.take(ins@.len() as int) =~= ins@);
        }
        let ndel = cs - sl;
        if ci == 0 && ndel == 0 {
            let mut lines: Vec<usize> = Vec::new();
            lines.push(sl);
            if delta.line > sl {
                lines.push(delta.line);
                proof {
                    assert(lines@ =~= seq![sl, delta.line]);
                }
            } else {
                proof {
                    assert(lines@ =~= seq![sl]);
                }
            }
            lines
        } else {
            let ct = count_newlines_prefix(&text, text.len());
            let nt = self.container.visible_chars();
            let cn = count_newlines_prefix(&nt, nt.len());
            let hi = if ct > cn {
                ct
            } else {
                cn
            };
            proof {
                assert(nt@.take(nt@.len() as int) =~= nt@);
                assert(text@.take(text@.len() as int) =~= text@);
                let t = old(self).text();
                assert(self.text() =~= t.take(ds as int) + ins@ + t.skip(pos as int));
                lemma_count_nl_concat(t.take(ds as int) + ins@, t.skip(pos as int));
                lemma_count_nl_concat(t.take(ds as int), ins@);
                lemma_count_nl_nonneg(ins@);
                lemma_count_nl_nonneg(t.skip(pos as int));
                assert(cn >= sl);
                assert(hi >= sl);
            }
            let mut lines: Vec<usize> = Vec::new();
            let mut i: usize = sl;
            proof {
                assert(lines@ =~= Seq::new(0, |x: int| (sl + x) as usize));
            }
            while i < hi
                invariant
                    sl <= i <= hi,
                    lines@ == Seq::new((i - sl) as nat, |x: int| (sl + x) as usize),
                decreases hi - i,
            {
                lines.push(i);
                proof {
                    assert(lines@ =~= Seq::new((i + 1 - sl) as nat, |x: int| (sl + x) as usize));
                }
                i = i + 1;
            }
            lines.push(hi);
            let ghost base = lines@;
            proof {
                assert(base =~= Seq::new((hi + 1 - sl) as nat, |x: int| (sl + x) as usize));
                assert(line_count(final(self).text()) == cn + 1);
                assert(line_count(old(self).text()) == ct + 1);
            }
            if delta.line > hi {
                lines.push(delta.line);
                proof {
                    assert(lines@ =~= base + seq![delta.line]);
                }
            } else {
                proof {
                    assert(lines@ =~= base + Seq::<usize>::empty());
                }
            }
            lines
        }
    }

    /// Replaces the entire visible content, bumping the local version once.
    pub fn set_text(&mut self, content: &str) -> (minted: bool)
        requires
            old(self).wf(),
        ensures
            final(self).wf(),
            minted == old(self).can_mint((old(self).text().len() + content@.len()) as nat),
            minted ==> {
                &&& final(self).text() == content@
                &&& final(self).version == old(self).version + 1
            },
            !minted ==> *final(self) == *old(self),
    {
        let chars = str_chars(content);
        let text = self.container.visible_chars();
        let n = text.len();
        let minted = self.splice(0, n, &chars);
        proof {
            if minted {
                let t = old(self).text();
                assert(t.take(0) =~= Seq::<char>::empty());
                assert(t.skip(n as int) =~= Seq::<char>::empty());
                assert(final(self).text() =~= content@);
            }
        }
        minted
    }
}

impl Default for KernEngine {
    /// A fresh engine with replica identifier zero.
    fn default() -> (e: Self)
        ensures
            e.wf(),
            e.replica == 0,
            e.version == 0,
            e.text() == "# Welcome to Kern\n\nStart typing..."@,
    {
        Self::new(0)
    }
}

/// Idempotence at the engine level: let `a` be a replica before an import,
/// `b` the same replica after that import merged the batch `ops`, and `c`
/// the replica after a second import of the very same batch.  The second
/// import changes neither the run set nor the visible text.  The two
/// hypotheses are exactly what `load_from_bytes` ensures of each import.
pub proof fn lemma_engine_import_idempotent(
    a: KernEngine,
    b: KernEngine,
    c: KernEngine,
    ops: Seq<OpAbs>,
)
    requires
        b.wf(),
        c.wf(),
        b.container.abs() == merge_spec(a.container.abs(), pend_pairs(a.pending@), ops).0,
        pend_pairs(b.pending@) == merge_spec(a.container.abs(), pend_pairs(a.pending@), ops).1,
        c.container.abs() == merge_spec(b.container.abs(), pend_pairs(b.pending@), ops).0,
    ensures
        c.container.abs() == b.container.abs(),
        c.text() == b.text(),
{
    lemma_merge_idempotent(a.container.abs(), pend_pairs(a.pending@), ops);
    lemma_engine_convergence(c, b);
}

/// Round trip: a replica that merges another replica's entire log into
/// empty state — which is what importing that replica's snapshot into an
/// empty engine does — ends with the same run set and materializes the same
/// text.  The hypothesis on `b` is exactly what `load_from_bytes` ensures
/// of an empty importer, since a well-formed log replays to its own run
/// set without buffering.
pub proof fn lemma_snapshot_rebuilds(a: KernEngine, b: KernEngine)
    requires
        a.wf(),
        b.wf(),
        b.container.abs() == merge_spec(
            Set::<(Seq<PathElem>, OpId, char, bool)>::empty(),
            Seq::<(OpId, OpId)>::empty(),
            ops_abs(a.log@),
        ).0,
    ensures
        b.container.abs() == a.container.abs(),
        b.text() == a.text(),
{
    let p = merge_phase(Set::<(Seq<PathElem>, OpId, char, bool)>::empty(), ops_abs(a.log@));
    assert(p == (a.container.abs(), Seq::<(OpId, OpId)>::empty()));
    assert(Seq::<(OpId, OpId)>::empty() + p.1 =~= Seq::<(OpId, OpId)>::empty());
    assert(retry_phase(p.0, Seq::<(OpId, OpId)>::empty()) == (
        p.0,
        Seq::<(OpId, OpId)>::empty(),
    ));
    lemma_engine_convergence(b, a);
}

/// Convergence at the engine level: two well-formed replicas holding the
/// same run set materialize identical text, whatever order the operations
/// that built them arrived in.
pub proof fn lemma_engine_convergence(a: KernEngine, b: KernEngine)
    requires
        a.wf(),
        b.wf(),
        a.container.abs() == b.container.abs(),
    ensures
        a.text() == b.text(),
{
    crate::container::lemma_convergence(a.container.entries@, b.container.entries@);
}

} // verus!
