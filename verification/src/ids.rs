//! Operation identities and totally ordered position identifiers.
//!
//! Every inserted character is tagged with an [`OpId`], a pair of replica
//! identifier and per-replica sequence number, and addressed by a [`PosId`]:
//! a path in an unbounded binary tree whose in-order traversal gives the
//! document order.  The path order is a strict total order, and between any
//! two distinct positions a fresh position can always be allocated, so
//! concurrent inserts at the same place are ordered deterministically by the
//! identities involved and never collide.

use vstd::prelude::*;

verus! {

/// Identity of one operation: the minting replica and that replica's
/// sequence number at minting time.  Globally unique and immutable.
#[derive(Clone, Copy, PartialEq, Eq, Structural, Debug, Hash)]
pub struct OpId {
    pub replica: u64,
    pub seq: u64,
}

/// One step of a position path: a tree direction (`right`) plus the identity
/// of the operation that allocated the step, which disambiguates concurrent
/// allocations of the same direction.
#[derive(Clone, Copy, PartialEq, Eq, Structural, Debug, Hash)]
pub struct PathElem {
    pub right: bool,
    pub replica: u64,
    pub seq: u64,
}

/// Strict order on path steps: left before right, then by replica, then by
/// sequence number.
pub open spec fn elem_lt(a: PathElem, b: PathElem) -> bool {
    ||| (!a.right && b.right)
    ||| (a.right == b.right && a.replica < b.replica)
    ||| (a.right == b.right && a.replica == b.replica && a.seq < b.seq)
}

/// A position identifier: a non-empty path in an unbounded binary tree.
/// The last step always carries the identity of the operation that inserted
/// the character sitting at this position.
#[derive(Clone, Debug)]
pub struct PosId {
    pub elems: Vec<PathElem>,
}

impl View for PosId {
    type V = Seq<PathElem>;

    open spec fn view(&self) -> Seq<PathElem> {
        self.elems@
    }
}

/// Strict total order on paths: in-order traversal of the tree.  A path
/// extended to the left comes before its prefix, a path extended to the
/// right comes after it; paths that first differ at a step are ordered by
/// that step.
pub open spec fn path_lt(a: Seq<PathElem>, b: Seq<PathElem>) -> bool
    decreases a.len() + b.len(),
{
    if a.len() == 0 && b.len() == 0 {
        false
    } else if a.len() == 0 {
        b[0].right
    } else if b.len() == 0 {
        !a[0].right
    } else if a[0] == b[0] {
        path_lt(a.drop_first(), b.drop_first())
    } else {
        elem_lt(a[0], b[0])
    }
}

/// `a` is a (not necessarily proper) prefix of `b`.
pub open spec fn is_prefix(a: Seq<PathElem>, b: Seq<PathElem>) -> bool {
    a.len() <= b.len() && a =~= b.subrange(0, a.len() as int)
}

/// The path order is irreflexive.
pub proof fn lemma_path_lt_irrefl(a: Seq<PathElem>)
    ensures
        !path_lt(a, a),
    decreases a.len(),
{
    if a.len() > 0 {
        lemma_path_lt_irrefl(a.drop_first());
    }
}

/// Any two distinct paths are ordered one way or the other, never both.
pub proof fn lemma_path_lt_total(a: Seq<PathElem>, b: Seq<PathElem>)
    ensures
        a =~= b || path_lt(a, b) || path_lt(b, a),
        !(path_lt(a, b) && path_lt(b, a)),
    decreases a.len() + b.len(),
{
    if a.len() > 0 && b.len() > 0 && a[0] == b[0] {
        lemma_path_lt_total(a.drop_first(), b.drop_first());
        if a.drop_first() =~= b.drop_first() {
            assert forall|i: int| 0 <= i < a.len() implies a[i] == b[i] by {
                if i > 0 {
                    assert(a.drop_first()[i - 1] == b.drop_first()[i - 1]);
                }
            }
            assert(a =~= b);
        }
    }
}

/// The path order is transitive.
pub proof fn lemma_path_lt_trans(a: Seq<PathElem>, b: Seq<PathElem>, c: Seq<PathElem>)
    requires
        path_lt(a, b),
        path_lt(b, c),
    ensures
        path_lt(a, c),
    decreases a.len() + b.len() + c.len(),
{
    if a.len() > 0 && b.len() > 0 && c.len() > 0 && a[0] == b[0] && b[0] == c[0] {
        lemma_path_lt_trans(a.drop_first(), b.drop_first(), c.drop_first());
    }
}

/// Comparing a path with an extension of itself is decided by the direction
/// of the first extra step.
pub proof fn lemma_path_lt_extension(a: Seq<PathElem>, s: Seq<PathElem>)
    requires
        s.len() > 0,
    ensures
        path_lt(a, a + s) == s[0].right,
        path_lt(a + s, a) == !s[0].right,
    decreases a.len(),
{
    if a.len() == 0 {
        assert(a + s =~= s);
    } else {
        lemma_path_lt_extension(a.drop_first(), s);
        assert((a + s).drop_first() =~= a.drop_first() + s);
        assert((a + s)[0] == a[0]);
    }
}

/// Compares two positions in the document order.
pub fn path_lt_exec(a: &PosId, b: &PosId) -> (r: bool)
    ensures
        r == path_lt(a@, b@),
{
    let alen = a.elems.len();
    let blen = b.elems.len();
    let mut i: usize = 0;
    proof {
        assert(a@.skip(0) =~= a@);
        assert(b@.skip(0) =~= b@);
    }
    while i < alen && i < blen
        invariant
            i <= alen,
            i <= blen,
            alen == a@.len(),
            blen == b@.len(),
            path_lt(a@, b@) == path_lt(a@.skip(i as int), b@.skip(i as int)),
        decreases alen - i,
    {
        let x = a.elems[i];
        let y = b.elems[i];
        proof {
            assert(a@.skip(i as int)[0] == a@[i as int]);
            assert(b@.skip(i as int)[0] == b@[i as int]);
        }
        if x.right == y.right && x.replica == y.replica && x.seq == y.seq {
            proof {
                assert(a@.skip(i as int).drop_first() =~= a@.skip(i as int + 1));
                assert(b@.skip(i as int).drop_first() =~= b@.skip(i as int + 1));
            }
            i = i + 1;
        } else {
            return (!x.right && y.right) || (x.right == y.right && (x.replica < y.replica || (
            x.replica == y.replica && x.seq < y.seq)));
        }
    }
    if i < blen {
        proof {
            assert(b@.skip(i as int)[0] == b@[i as int]);
        }
        b.elems[i].right
    } else if i < alen {
        proof {
            assert(a@.skip(i as int)[0] == a@[i as int]);
        }
        !a.elems[i].right
    } else {
        false
    }
}

/// Tests whether `a`'s path is a prefix of `b`'s.
pub fn is_prefix_exec(a: &PosId, b: &PosId) -> (r: bool)
    ensures
        r == is_prefix(a@, b@),
{
    let alen = a.elems.len();
    if alen > b.elems.len() {
        return false;
    }
    let mut i: usize = 0;
    while i < alen
        invariant
            i <= alen,
            alen == a@.len(),
            alen <= b@.len(),
            forall|j: int| 0 <= j < i ==> a@[j] == b@[j],
        decreases alen - i,
    {
        let x = a.elems[i];
        let y = b.elems[i];
        if !(x.right == y.right && x.replica == y.replica && x.seq == y.seq) {
            proof {
                assert(b@.subrange(0, a@.len() as int)[i as int] == b@[i as int]);
            }
            return false;
        }
        i = i + 1;
    }
    proof {
        assert(a@ =~= b@.subrange(0, a@.len() as int));
    }
    true
}

/// Allocates a position strictly between `l` (or the document start when
/// `None`) and `r` (or the document end when `None`).  The final path step
/// carries `id`, so two allocations never produce the same position as long
/// as their operation identities differ.
pub fn alloc_between(l: Option<&PosId>, r: Option<&PosId>, id: OpId) -> (p: PosId)
    requires
        l matches Some(lp) ==> (r matches Some(rp) ==> path_lt(lp@, rp@)),
    ensures
        p@.len() > 0,
        p@.last().replica == id.replica,
        p@.last().seq == id.seq,
        l matches Some(lp) ==> path_lt(lp@, p@),
        r matches Some(rp) ==> path_lt(p@, rp@),
{
    match (l, r) {
        (None, None) => {
            PosId { elems: vec![PathElem { right: true, replica: id.replica, seq: id.seq }] }
        },
        (None, Some(rp)) => {
            let e = PathElem { right: false, replica: id.replica, seq: id.seq };
            let mut elems = rp.elems.clone();
            proof {
                assert(elems@ =~= rp@);
            }
            elems.push(e);
            proof {
                assert(elems@ =~= rp@ + seq![e]);
                lemma_path_lt_extension(rp@, seq![e]);
            }
            PosId { elems }
        },
        (Some(lp), None) => {
            let e = PathElem { right: true, replica: id.replica, seq: id.seq };
            let mut elems = lp.elems.clone();
            proof {
                assert(elems@ =~= lp@);
            }
            elems.push(e);
            proof {
                assert(elems@ =~= lp@ + seq![e]);
                lemma_path_lt_extension(lp@, seq![e]);
            }
            PosId { elems }
        },
        (Some(lp), Some(rp)) => {
            if is_prefix_exec(lp, rp) {
                let e = PathElem { right: false, replica: id.replica, seq: id.seq };
                let mut elems = rp.elems.clone();
                proof {
                    assert(elems@ =~= rp@);
                }
                elems.push(e);
                proof {
                    let lv = lp@;
                    let rv = rp@;
                    lemma_path_lt_irrefl(rv);
                    if lv.len() == rv.len() {
                        assert(lv =~= rv);
                    }
                    let s = rv.subrange(lv.len() as int, rv.len() as int);
                    assert(rv =~= lv + s);
                    lemma_path_lt_extension(lv, s);
                    lemma_path_lt_extension(rv, seq![e]);
                    lemma_path_lt_extension(lv, s + seq![e]);
                    assert((s + seq![e])[0] == s[0]);
                    assert(elems@ =~= rv + seq![e]);
                    assert(elems@ =~= lv + (s + seq![e]));
                }
                PosId { elems }
            } else {
                let e = PathElem { right: true, replica: id.replica, seq: id.seq };
                let mut elems = lp.elems.clone();
                proof {
                    assert(elems@ =~= lp@);
                }
                elems.push(e);
                proof {
                    assert(elems@ =~= lp@ + seq![e]);
                    assert(elems@ =~= lp@.push(e));
                    lemma_path_lt_extension(lp@, seq![e]);
                    lemma_path_lt_not_prefix_extend(lp@, rp@, e);
                }
                PosId { elems }
            }
        },
    }
}

/// A path strictly below another that is not its prefix stays strictly below
/// after being extended by one step.
pub proof fn lemma_path_lt_not_prefix_extend(l: Seq<PathElem>, r: Seq<PathElem>, e: PathElem)
    requires
        path_lt(l, r),
        !is_prefix(l, r),
    ensures
        path_lt(l.push(e), r),
    decreases l.len() + r.len(),
{
    if l.len() == 0 {
        assert(is_prefix(l, r));
    } else if r.len() == 0 {
        assert(l.push(e)[0] == l[0]);
    } else if l[0] == r[0] {
        if is_prefix(l.drop_first(), r.drop_first()) {
            assert forall|i: int| 0 <= i < l.len() implies l[i] == r.subrange(
                0,
                l.len() as int,
            )[i] by {
                if i > 0 {
                    assert(l.drop_first()[i - 1] == r.drop_first().subrange(
                        0,
                        l.drop_first().len() as int,
                    )[i - 1]);
                }
            }
            assert(l =~= r.subrange(0, l.len() as int));
        }
        lemma_path_lt_not_prefix_extend(l.drop_first(), r.drop_first(), e);
        assert(l.push(e).drop_first() =~= l.drop_first().push(e));
        assert(l.push(e)[0] == l[0]);
    } else {
        assert(l.push(e)[0] == l[0]);
    }
}

} // verus!
