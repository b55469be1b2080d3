//! The causal frontier: a version vector mapping each replica to the highest
//! sequence number known from it, plus the purely local change counter kept
//! by the engine.

use crate::ids::OpId;
use vstd::pervasive::VecAdditionalExecFns;
use vstd::prelude::*;

verus! {

/// The highest sequence number recorded for `r`, `0` when `r` is absent.
pub open spec fn vv_get(s: Seq<(u64, u64)>, r: u64) -> u64
    decreases s.len(),
{
    if s.len() == 0 {
        0u64
    } else if s[0].0 == r {
        s[0].1
    } else {
        vv_get(s.drop_first(), r)
    }
}

/// Whether some slot records replica `r`.
pub open spec fn vv_has_key(s: Seq<(u64, u64)>, r: u64) -> bool {
    exists|i: int| 0 <= i < s.len() && (#[trigger] s[i]).0 == r
}

proof fn lemma_vv_get_at(s: Seq<(u64, u64)>, i: int)
    requires
        0 <= i < s.len(),
        forall|k: int| 0 <= k < i ==> (#[trigger] s[k]).0 != s[i].0,
    ensures
        vv_get(s, s[i].0) == s[i].1,
    decreases i,
{
    if i > 0 {
        assert(s.drop_first()[i - 1] == s[i]);
        assert forall|k: int| 0 <= k < i - 1 implies (#[trigger] s.drop_first()[k]).0 != s
            .drop_first()[i - 1].0 by {
            assert(s.drop_first()[k] == s[k + 1]);
        }
        lemma_vv_get_at(s.drop_first(), i - 1);
    }
}

proof fn lemma_vv_get_update(s: Seq<(u64, u64)>, i: int, v: u64, q: u64)
    requires
        0 <= i < s.len(),
        forall|k: int| 0 <= k < i ==> (#[trigger] s[k]).0 != s[i].0,
    ensures
        vv_get(s.update(i, (s[i].0, v)), q) == if q == s[i].0 {
            v
        } else {
            vv_get(s, q)
        },
    decreases i,
{
    let t = s.update(i, (s[i].0, v));
    if i == 0 {
        assert(t[0] == (s[0].0, v));
        assert(t.drop_first() =~= s.drop_first());
    } else {
        assert(t[0] == s[0]);
        assert(t.drop_first() =~= s.drop_first().update(i - 1, (s[i].0, v)));
        assert(s.drop_first()[i - 1] == s[i]);
        assert forall|k: int| 0 <= k < i - 1 implies (#[trigger] s.drop_first()[k]).0 != s
            .drop_first()[i - 1].0 by {
            assert(s.drop_first()[k] == s[k + 1]);
        }
        lemma_vv_get_update(s.drop_first(), i - 1, v, q);
    }
}

proof fn lemma_vv_get_push(s: Seq<(u64, u64)>, r: u64, v: u64, q: u64)
    requires
        !vv_has_key(s, r),
    ensures
        vv_get(s.push((r, v)), q) == if q == r {
            v
        } else {
            vv_get(s, q)
        },
    decreases s.len(),
{
    let t = s.push((r, v));
    if s.len() == 0 {
        assert(t[0] == (r, v));
        assert(t.drop_first() =~= Seq::<(u64, u64)>::empty());
        assert(vv_get(t.drop_first(), q) == 0);
    } else {
        assert(t[0] == s[0]);
        assert(s[0].0 != r);
        assert(t.drop_first() =~= s.drop_first().push((r, v)));
        assert forall|i: int| 0 <= i < s.drop_first().len() implies (#[trigger] s.drop_first()[
        i]).0 != r by {
            assert(s.drop_first()[i] == s[i + 1]);
        }
        lemma_vv_get_push(s.drop_first(), r, v, q);
    }
}

/// A causal frontier: for each replica, the highest sequence number of an
/// operation from that replica that this replica has applied.
pub struct VersionVector {
    pub pairs: Vec<(u64, u64)>,
}

impl VersionVector {
    /// Replicas are recorded at most once.
    pub open spec fn wf(self) -> bool {
        forall|i: int, j: int|
            0 <= i < j < self.pairs@.len() ==> (#[trigger] self.pairs@[i]).0 != (
            #[trigger] self.pairs@[j]).0
    }

    /// The frontier as a mathematical function from replica to sequence
    /// number, `0` for replicas never heard from.
    pub open spec fn get_spec(self, r: u64) -> u64 {
        vv_get(self.pairs@, r)
    }

    /// An operation is known exactly when the frontier reaches its sequence
    /// number.
    pub open spec fn covers(self, id: OpId) -> bool {
        id.seq <= self.get_spec(id.replica)
    }

    /// Creates the empty frontier.
    pub fn new() -> (v: VersionVector)
        ensures
            v.wf(),
            forall|r: u64| v.get_spec(r) == 0,
            v.pairs@.len() == 0,
    {
        VersionVector { pairs: Vec::new() }
    }

    /// Reads the frontier entry for `r`.
    #[verifier::loop_isolation(false)]
    pub fn get(&self, r: u64) -> (v: u64)
        requires
            self.wf(),
        ensures
            v == self.get_spec(r),
    {
        let n = self.pairs.len();
        let mut i: usize = 0;
        while i < n
            invariant
                i <= n,
                forall|k: int| 0 <= k < i ==> (#[trigger] self.pairs@[k]).0 != r,
            decreases n - i,
        {
            let p = self.pairs[i];
            if p.0 == r {
                proof {
                    lemma_vv_get_at(self.pairs@, i as int);
                }
                return p.1;
            }
            i = i + 1;
        }
        proof {
            lemma_vv_get_absent(self.pairs@, r);
        }
        0
    }

    /// Raises the entry for `r` to at least `v`, leaving every other entry
    /// unchanged.
    #[verifier::loop_isolation(false)]
    pub fn advance_to(&mut self, r: u64, v: u64)
        requires
            old(self).wf(),
        ensures
            final(self).wf(),
            forall|q: u64|
                final(self).get_spec(q) == if q == r {
                    if v > old(self).get_spec(r) {
                        v
                    } else {
                        old(self).get_spec(r)
                    }
                } else {
                    old(self).get_spec(q)
                },
    {
        let n = self.pairs.len();
        let mut i: usize = 0;
        while i < n
            invariant
                i <= n,
                self == old(self),
                forall|k: int| 0 <= k < i ==> (#[trigger] self.pairs@[k]).0 != r,
            decreases n - i,
        {
            let p = self.pairs[i];
            if p.0 == r {
                proof {
                    lemma_vv_get_at(self.pairs@, i as int);
                }
                if v > p.1 {
                    self.pairs.set(i, (r, v));
                    proof {
                        lemma_vv_get_update(old(self).pairs@, i as int, v, r);
                        assert forall|q: u64| final(self).get_spec(q) == (if q == r {
                            v
                        } else {
                            old(self).get_spec(q)
                        }) by {
                            lemma_vv_get_update(old(self).pairs@, i as int, v, q);
                        }
                        assert forall|i1: int, i2: int|
                            0 <= i1 < i2 < self.pairs@.len() implies (
                        #[trigger] self.pairs@[i1]).0 != (#[trigger] self.pairs@[i2]).0 by {
                            assert(old(self).pairs@[i1].0 != old(self).pairs@[i2].0);
                        }
                    }
                }
                return ;
            }
            i = i + 1;
        }
        proof {
            lemma_vv_get_absent(self.pairs@, r);
        }
        let ghost s0 = self.pairs@;
        self.pairs.push((r, v));
        proof {
            assert forall|q: u64| final(self).get_spec(q) == (if q == r {
                v
            } else {
                old(self).get_spec(q)
            }) by {
                lemma_vv_get_push(s0, r, v, q);
            }
            assert forall|i1: int, i2: int| 0 <= i1 < i2 < self.pairs@.len() implies (
            #[trigger] self.pairs@[i1]).0 != (#[trigger] self.pairs@[i2]).0 by {
                if i2 < s0.len() {
                    assert(s0[i1].0 != s0[i2].0);
                } else {
                    assert(self.pairs@[i2] == (r, v));
                    assert(s0[i1].0 != r);
                }
            }
        }
    }

    /// Absorbs a foreign frontier: the result is the pointwise maximum, the
    /// join of the two causal histories.
    #[verifier::loop_isolation(false)]
    pub fn absorb(&mut self, other: &VersionVector)
        requires
            old(self).wf(),
            other.wf(),
        ensures
            final(self).wf(),
            forall|q: u64|
                final(self).get_spec(q) == if other.get_spec(q) > old(self).get_spec(q) {
                    other.get_spec(q)
                } else {
                    old(self).get_spec(q)
                },
    {
        let n = other.pairs.len();
        let mut k: usize = 0;
        proof {
            assert(other.pairs@.take(0) =~= Seq::<(u64, u64)>::empty());
            assert forall|q: u64| vv_get(other.pairs@.take(0), q) == 0 by {
                assert(other.pairs@.take(0).len() == 0);
            }
        }
        while k < n
            invariant
                k <= n,
                self.wf(),
                forall|q: u64|
                    self.get_spec(q) == if vv_get(other.pairs@.take(k as int), q) > old(
                        self,
                    ).get_spec(q) {
                        vv_get(other.pairs@.take(k as int), q)
                    } else {
                        old(self).get_spec(q)
                    },
            decreases n - k,
        {
            let p = other.pairs[k];
            proof {
                assert forall|i: int| 0 <= i < other.pairs@.take(k as int).len() implies (
                #[trigger] other.pairs@.take(k as int)[i]).0 != p.0 by {
                    assert(other.pairs@[i].0 != other.pairs@[k as int].0);
                }
                assert(!vv_has_key(other.pairs@.take(k as int), p.0));
                lemma_vv_get_absent(other.pairs@.take(k as int), p.0);
                assert(other.pairs@.take(k as int + 1) =~= other.pairs@.take(k as int).push(p));
            }
            self.advance_to(p.0, p.1);
            proof {
                assert forall|q: u64|
                    vv_get(other.pairs@.take(k as int + 1), q) == (if q == p.0 {
                        p.1
                    } else {
                        vv_get(other.pairs@.take(k as int), q)
                    }) by {
                    lemma_vv_get_push(other.pairs@.take(k as int), p.0, p.1, q);
                }
            }
            k = k + 1;
        }
        proof {
            assert(other.pairs@.take(n as int) =~= other.pairs@);
        }
    }
}

proof fn lemma_vv_get_absent(s: Seq<(u64, u64)>, r: u64)
    requires
        forall|i: int| 0 <= i < s.len() ==> (#[trigger] s[i]).0 != r,
    ensures
        vv_get(s, r) == 0,
    decreases s.len(),
{
    if s.len() > 0 {
        assert forall|i: int| 0 <= i < s.drop_first().len() implies (#[trigger] s.drop_first()[
        i]).0 != r by {
            assert(s.drop_first()[i] == s[i + 1]);
        }
        lemma_vv_get_absent(s.drop_first(), r);
    }
}

} // verus!
