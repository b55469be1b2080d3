//! The sequence CRDT container: an ordered list of single-character runs,
//! visible or tombstoned, sorted by position identifier.
//!
//! The container supports local edits at visible offsets, application of
//! foreign operations keyed by operation identity, and materialization of
//! the visible text.  Its state is determined by the *set* of runs it holds:
//! two well-formed containers holding the same run set materialize identical
//! text, which is the convergence property of the data type.

use crate::ids::{
    alloc_between, lemma_path_lt_irrefl, lemma_path_lt_total, lemma_path_lt_trans, path_lt,
    path_lt_exec, OpId, PathElem, PosId,
};
use vstd::pervasive::VecAdditionalExecFns;
use vstd::prelude::*;

verus! {

/// One character run: a single character with its position, the identity of
/// the operation that inserted it, and its tombstone flag.
#[derive(Clone, Debug)]
pub struct Entry {
    pub pos: PosId,
    pub id: OpId,
    pub ch: char,
    pub tomb: bool,
}

/// A replicated operation, as exchanged between replicas.
#[derive(Clone, Debug)]
pub enum Op {
    /// Insert `ch` at position `pos`; the operation's identity is carried by
    /// the last step of `pos`.
    Insert { pos: PosId, ch: char },
    /// Tombstone the run inserted by `target`; `id` is the delete's own
    /// identity.
    Delete { id: OpId, target: OpId },
}

/// Mathematical image of one run, used to speak about run *sets*.
pub open spec fn entry_abs(e: Entry) -> (Seq<PathElem>, OpId, char, bool) {
    (e.pos@, e.id, e.ch, e.tomb)
}

/// The visible text contributed by one run.
pub open spec fn entry_text(e: Entry) -> Seq<char> {
    if e.tomb {
        Seq::empty()
    } else {
        seq![e.ch]
    }
}

/// The visible text of a run sequence, in order.
pub open spec fn text_of(s: Seq<Entry>) -> Seq<char>
    decreases s.len(),
{
    if s.len() == 0 {
        Seq::empty()
    } else {
        entry_text(s[0]) + text_of(s.drop_first())
    }
}

/// The set of run images of a run sequence.
pub open spec fn abs_of(s: Seq<Entry>) -> Set<(Seq<PathElem>, OpId, char, bool)>
    decreases s.len(),
{
    if s.len() == 0 {
        Set::empty()
    } else {
        abs_of(s.drop_first()).insert(entry_abs(s[0]))
    }
}

/// A single run is well formed when its path is non-empty and its last step
/// carries the run's operation identity.
pub open spec fn wf_entry(e: Entry) -> bool {
    &&& e.pos@.len() > 0
    &&& e.pos@.last().replica == e.id.replica
    &&& e.pos@.last().seq == e.id.seq
}

/// Runs strictly sorted by position.
pub open spec fn sorted_entries(s: Seq<Entry>) -> bool {
    forall|i: int, j: int| 0 <= i < j < s.len() ==> path_lt(#[trigger] s[i].pos@, #[trigger] s[j].pos@)
}

pub proof fn lemma_text_of_concat(s1: Seq<Entry>, s2: Seq<Entry>)
    ensures
        text_of(s1 + s2) == text_of(s1) + text_of(s2),
    decreases s1.len(),
{
    if s1.len() == 0 {
        assert(s1 + s2 =~= s2);
        assert(text_of(s1) + text_of(s2) =~= text_of(s2));
    } else {
        assert((s1 + s2).drop_first() =~= s1.drop_first() + s2);
        assert((s1 + s2)[0] == s1[0]);
        lemma_text_of_concat(s1.drop_first(), s2);
        assert(text_of(s1 + s2) =~= text_of(s1) + text_of(s2));
    }
}

pub proof fn lemma_text_of_singleton(e: Entry)
    ensures
        text_of(seq![e]) == entry_text(e),
{
    let s = seq![e];
    assert(s.len() == 1);
    assert(s[0] == e);
    assert(s.drop_first().len() == 0);
    assert(text_of(s.drop_first()) == Seq::<char>::empty());
    assert(text_of(s) == entry_text(e) + Seq::<char>::empty());
    assert(entry_text(e) + Seq::<char>::empty() =~= entry_text(e));
}

pub proof fn lemma_abs_of_singleton(e: Entry)
    ensures
        abs_of(seq![e]) == Set::<(Seq<PathElem>, OpId, char, bool)>::empty().insert(entry_abs(e)),
{
    let s = seq![e];
    assert(s.len() == 1);
    assert(s[0] == e);
    assert(s.drop_first().len() == 0);
    assert(abs_of(s.drop_first()) == Set::<(Seq<PathElem>, OpId, char, bool)>::empty());
}

pub proof fn lemma_text_of_len(s: Seq<Entry>)
    ensures
        text_of(s).len() <= s.len(),
    decreases s.len(),
{
    if s.len() > 0 {
        lemma_text_of_len(s.drop_first());
    }
}

pub proof fn lemma_abs_of_contains(s: Seq<Entry>, x: (Seq<PathElem>, OpId, char, bool))
    ensures
        abs_of(s).contains(x) <==> exists|i: int| 0 <= i < s.len() && entry_abs(#[trigger] s[i]) == x,
    decreases s.len(),
{
    if s.len() > 0 {
        lemma_abs_of_contains(s.drop_first(), x);
        if abs_of(s).contains(x) {
            if entry_abs(s[0]) == x {
                assert(entry_abs(s[0]) == x);
            } else {
                let i = choose|i: int|
                    0 <= i < s.drop_first().len() && entry_abs(s.drop_first()[i]) == x;
                assert(entry_abs(s[i + 1]) == x);
            }
        }
        if exists|i: int| 0 <= i < s.len() && entry_abs(#[trigger] s[i]) == x {
            let i = choose|i: int| 0 <= i < s.len() && entry_abs(#[trigger] s[i]) == x;
            if i > 0 {
                assert(entry_abs(s.drop_first()[i - 1]) == x);
            }
        }
    }
}

pub proof fn lemma_abs_of_concat(s1: Seq<Entry>, s2: Seq<Entry>)
    ensures
        abs_of(s1 + s2) == abs_of(s1).union(abs_of(s2)),
    decreases s1.len(),
{
    if s1.len() == 0 {
        assert(s1 + s2 =~= s2);
        assert(abs_of(s1).union(abs_of(s2)) =~= abs_of(s2));
    } else {
        assert((s1 + s2).drop_first() =~= s1.drop_first() + s2);
        assert((s1 + s2)[0] == s1[0]);
        lemma_abs_of_concat(s1.drop_first(), s2);
        assert(abs_of(s1 + s2) =~= abs_of(s1).union(abs_of(s2)));
    }
}

/// Copies a position identifier.
pub fn dup_pos(p: &PosId) -> (q: PosId)
    ensures
        q@ == p@,
{
    let elems = p.elems.clone();
    proof {
        assert forall|i: int| 0 <= i < elems@.len() implies elems@[i] == p.elems@[i] by {}
        assert(elems@ =~= p.elems@);
    }
    PosId { elems }
}

/// The ordered run store.
pub struct Container {
    pub entries: Vec<Entry>,
}

impl Container {
    /// Well-formedness: runs sorted strictly by position, each run internally
    /// consistent, and operation identities unique.
    pub open spec fn wf(self) -> bool {
        &&& sorted_entries(self.entries@)
        &&& forall|i: int| 0 <= i < self.entries@.len() ==> wf_entry(#[trigger] self.entries@[i])
        &&& forall|i: int, j: int|
            0 <= i < j < self.entries@.len() ==> (#[trigger] self.entries@[i]).id != (
            #[trigger] self.entries@[j]).id
    }

    /// The visible text.
    pub open spec fn text(self) -> Seq<char> {
        text_of(self.entries@)
    }

    /// The run set: the container's full mathematical state.
    pub open spec fn abs(self) -> Set<(Seq<PathElem>, OpId, char, bool)> {
        abs_of(self.entries@)
    }

    /// True when some run carries the given operation identity.
    pub open spec fn has_id(self, id: OpId) -> bool {
        exists|i: int| 0 <= i < self.entries@.len() && (#[trigger] self.entries@[i]).id == id
    }

    /// Creates an empty container.
    pub fn new() -> (c: Container)
        ensures
            c.wf(),
            c.text() == Seq::<char>::empty(),
            c.abs() == Set::<(Seq<PathElem>, OpId, char, bool)>::empty(),
            c.entries@.len() == 0,
    {
        Container { entries: Vec::new() }
    }

    /// The visible characters, in order.
    pub fn visible_chars(&self) -> (v: Vec<char>)
        ensures
            v@ == self.text(),
    {
        let mut v: Vec<char> = Vec::new();
        let mut j: usize = 0;
        let n = self.entries.len();
        proof {
            assert(self.entries@.take(0) =~= Seq::<Entry>::empty());
        }
        while j < n
            invariant
                j <= n,
                n == self.entries@.len(),
                v@ == text_of(self.entries@.take(j as int)),
            decreases n - j,
        {
            proof {
                assert(self.entries@.take(j as int + 1) =~= self.entries@.take(j as int)
                    + seq![self.entries@[j as int]]);
                lemma_text_of_concat(self.entries@.take(j as int), seq![self.entries@[j as int]]);
                lemma_text_of_singleton(self.entries@[j as int]);
            }
            if !self.entries[j].tomb {
                v.push(self.entries[j].ch);
            }
            j = j + 1;
        }
        proof {
            assert(self.entries@.take(n as int) =~= self.entries@);
        }
        v
    }

    /// Inserts `ch` at visible offset `k`, allocating a position between the
    /// neighboring runs and tagging it with the fresh identity `id`.
    /// Returns the allocated position, so the caller can record the insert
    /// operation in its log.
    pub fn insert_char(&mut self, k: usize, ch: char, id: OpId) -> (pos: PosId)
        requires
            old(self).wf(),
            k <= old(self).text().len(),
            forall|i: int|
                0 <= i < old(self).entries@.len() ==> (#[trigger] old(self).entries@[i]).id != id,
        ensures
            final(self).wf(),
            final(self).text() == old(self).text().take(k as int) + seq![ch] + old(
                self,
            ).text().skip(k as int),
            pos@.len() > 0,
            pos@.last().replica == id.replica,
            pos@.last().seq == id.seq,
            final(self).abs() == old(self).abs().insert((pos@, id, ch, false)),
            final(self).entries@.len() == old(self).entries@.len() + 1,
            forall|x: OpId| final(self).has_id(x) <==> old(self).has_id(x) || x == id,
    {
        let ghost t = self.text();
        let n = self.entries.len();
        let mut j: usize = 0;
        let mut seen: usize = 0;
        proof {
            assert(self.entries@.take(0) =~= Seq::<Entry>::empty());
            assert(t.take(0) =~= Seq::<char>::empty());
        }
        while j < n && (seen < k || self.entries[j].tomb)
            invariant
                j <= n,
                seen <= k,
                seen <= j,
                n == self.entries@.len(),
                self == old(self),
                t == self.text(),
                k <= t.len(),
                text_of(self.entries@.take(j as int)) == t.take(seen as int),
            decreases n - j,
        {
            proof {
                let ev = self.entries@;
                assert(ev.take(j as int + 1) =~= ev.take(j as int) + seq![ev[j as int]]);
                lemma_text_of_concat(ev.take(j as int), seq![ev[j as int]]);
                lemma_text_of_singleton(ev[j as int]);
                assert(ev.take(j as int) + ev.skip(j as int) =~= ev);
                lemma_text_of_concat(ev.take(j as int), ev.skip(j as int));
                assert(text_of(ev.skip(j as int)) =~= t.skip(seen as int));
                if !ev[j as int].tomb {
                    assert(ev.skip(j as int)[0] == ev[j as int]);
                    assert(ev.skip(j as int).drop_first() =~= ev.skip(j as int + 1));
                    assert(t.skip(seen as int)[0] == ev[j as int].ch);
                    assert(t.take(seen as int + 1) =~= t.take(seen as int) + seq![t[seen as int]]);
                }
            }
            if !self.entries[j].tomb {
                seen = seen + 1;
            }
            j = j + 1;
        }
        proof {
            let ev = self.entries@;
            if j == n {
                assert(ev.take(n as int) =~= ev);
                assert(t.take(seen as int).len() == t.len());
            }
            assert(seen == k);
            assert(ev.take(j as int) + ev.skip(j as int) =~= ev);
            lemma_text_of_concat(ev.take(j as int), ev.skip(j as int));
            assert(text_of(ev.skip(j as int)) =~= t.skip(k as int));
        }
        let pos = if n == 0 {
            alloc_between(None, None, id)
        } else if j == 0 {
            alloc_between(None, Some(&self.entries[0].pos), id)
        } else if j == n {
            alloc_between(Some(&self.entries[n - 1].pos), None, id)
        } else {
            alloc_between(Some(&self.entries[j - 1].pos), Some(&self.entries[j].pos), id)
        };
        let e = Entry { pos: dup_pos(&pos), id, ch, tomb: false };
        self.entries.insert(j, e);
        proof {
            let ov = old(self).entries@;
            let nv = self.entries@;
            let ne = nv[j as int];
            assert(nv =~= ov.take(j as int) + seq![ne] + ov.skip(j as int));
            lemma_text_of_concat(ov.take(j as int) + seq![ne], ov.skip(j as int));
            lemma_text_of_concat(ov.take(j as int), seq![ne]);
            lemma_text_of_singleton(ne);
            assert(final(self).text() =~= t.take(k as int) + seq![ch] + t.skip(k as int));
            lemma_abs_of_concat(ov.take(j as int) + seq![ne], ov.skip(j as int));
            lemma_abs_of_concat(ov.take(j as int), seq![ne]);
            lemma_abs_of_singleton(ne);
            lemma_abs_of_concat(ov.take(j as int), ov.skip(j as int));
            assert(ov.take(j as int) + ov.skip(j as int) =~= ov);
            assert(final(self).abs() =~= old(self).abs().insert((pos@, id, ch, false)));
            assert forall|a: int, b: int| 0 <= a < b < nv.len() implies path_lt(
                nv[a].pos@,
                nv[b].pos@,
            ) by {
                if b < j {
                } else if a < j && b == j {
                    if a < j - 1 {
                        lemma_path_lt_trans(ov[a].pos@, ov[j - 1].pos@, ne.pos@);
                    }
                } else if a == j {
                    if b > j + 1 {
                        lemma_path_lt_trans(ne.pos@, ov[j as int].pos@, ov[b - 1].pos@);
                    }
                }
            }
            assert forall|x: OpId| final(self).has_id(x) implies (old(self).has_id(x) || x
                == id) by {
                let i = choose|i: int| 0 <= i < nv.len() && (#[trigger] nv[i]).id == x;
                if i < j {
                    assert(ov[i].id == x);
                } else if i > j {
                    assert(ov[i - 1].id == x);
                }
            }
            assert forall|x: OpId| (old(self).has_id(x) || x == id) implies final(self).has_id(
                x,
            ) by {
                if x == id {
                    assert(nv[j as int].id == x);
                } else {
                    let i = choose|i: int| 0 <= i < ov.len() && (#[trigger] ov[i]).id == x;
                    if i < j {
                        assert(nv[i].id == x);
                    } else {
                        assert(nv[i + 1].id == x);
                    }
                }
            }
        }
        pos
    }

    /// Tombstones the visible characters in `[ds, de)`, leaving everything
    /// else in place.  Returns the insert identities of the tombstoned runs,
    /// in document order, so the caller can log one delete operation each.
    pub fn delete_visible_range(&mut self, ds: usize, de: usize) -> (targets: Vec<OpId>)
        requires
            old(self).wf(),
            ds <= de,
            de <= old(self).text().len(),
        ensures
            final(self).wf(),
            final(self).text() == old(self).text().take(ds as int) + old(self).text().skip(
                de as int,
            ),
            targets@.len() == de - ds,
            final(self).entries@.len() == old(self).entries@.len(),
            forall|i: int|
                0 <= i < final(self).entries@.len() ==> {
                    &&& (#[trigger] final(self).entries@[i]).pos@ == old(self).entries@[i].pos@
                    &&& final(self).entries@[i].id == old(self).entries@[i].id
                    &&& final(self).entries@[i].ch == old(self).entries@[i].ch
                    &&& final(self).entries@[i].tomb == (old(self).entries@[i].tomb
                        || targets@.contains(old(self).entries@[i].id))
                },
            forall|x: OpId| #[trigger] targets@.contains(x) ==> old(self).has_id(x),
            forall|x: OpId| final(self).has_id(x) <==> old(self).has_id(x),
            final(self).abs() == fold_flip(old(self).abs(), targets@),
    {
        let ghost t = old(self).text();
        let ghost ov = old(self).entries@;
        let n = self.entries.len();
        let mut targets: Vec<OpId> = Vec::new();
        let mut j: usize = 0;
        let mut seen: usize = 0;
        proof {
            assert(ov.take(0) =~= Seq::<Entry>::empty());
            assert(t.take(0) =~= Seq::<char>::empty());
            assert(self.entries@.take(0) =~= Seq::<Entry>::empty());
        }
        while j < n
            invariant
                j <= n,
                seen <= j,
                seen <= t.len(),
                ds <= de <= t.len(),
                n == self.entries@.len(),
                n == ov.len(),
                t == text_of(ov),
                forall|i: int| j <= i < n ==> #[trigger] self.entries@[i] == ov[i],
                forall|i: int|
                    0 <= i < j ==> {
                        &&& (#[trigger] self.entries@[i]).pos@ == ov[i].pos@
                        &&& self.entries@[i].id == ov[i].id
                        &&& self.entries@[i].ch == ov[i].ch
                        &&& self.entries@[i].tomb == (ov[i].tomb || targets@.contains(ov[i].id))
                    },
                forall|x: OpId|
                    #[trigger] targets@.contains(x) ==> exists|i: int|
                        0 <= i < j && (#[trigger] ov[i]).id == x && !ov[i].tomb,
                forall|i1: int, i2: int|
                    0 <= i1 < i2 < n ==> (#[trigger] ov[i1]).id != (#[trigger] ov[i2]).id,
                text_of(ov.take(j as int)) == t.take(seen as int),
                targets@.len() == if seen <= ds {
                    0int
                } else if seen <= de {
                    seen - ds
                } else {
                    de - ds
                },
                text_of(self.entries@.take(j as int)) == (if seen <= ds {
                    t.take(seen as int)
                } else if seen <= de {
                    t.take(ds as int)
                } else {
                    t.take(ds as int) + t.subrange(de as int, seen as int)
                }),
            decreases n - j,
        {
            let ghost bv = self.entries@;
            proof {
                assert(ov.take(j as int + 1) =~= ov.take(j as int) + seq![ov[j as int]]);
                lemma_text_of_concat(ov.take(j as int), seq![ov[j as int]]);
                lemma_text_of_singleton(ov[j as int]);
                assert(ov.take(j as int) + ov.skip(j as int) =~= ov);
                lemma_text_of_concat(ov.take(j as int), ov.skip(j as int));
                assert(text_of(ov.skip(j as int)) =~= t.skip(seen as int));
                if !ov[j as int].tomb {
                    assert(ov.skip(j as int)[0] == ov[j as int]);
                    assert(ov.skip(j as int).drop_first() =~= ov.skip(j as int + 1));
                    assert(t.skip(seen as int)[0] == ov[j as int].ch);
                    assert(seen < t.len());
                    assert(t.take(seen as int + 1) =~= t.take(seen as int) + seq![t[seen as int]]);
                }
            }
            let vis = !self.entries[j].tomb;
            let in_range = vis && seen >= ds && seen < de;
            if in_range {
                let ent_pos = dup_pos(&self.entries[j].pos);
                let eid = self.entries[j].id;
                let ech = self.entries[j].ch;
                let ne = Entry { pos: ent_pos, id: eid, ch: ech, tomb: true };
                self.entries.set(j, ne);
                let ghost tg0 = targets@;
                targets.push(eid);
                proof {
                    assert(targets@ =~= tg0.push(eid));
                    assert forall|x: OpId| #[trigger] targets@.contains(x) implies (tg0.contains(x)
                        || x == eid) by {
                        let kk = choose|kk: int| 0 <= kk < targets@.len() && targets@[kk] == x;
                        if kk < tg0.len() {
                            assert(tg0[kk] == x);
                        }
                    }
                    assert forall|x: OpId| #[trigger] tg0.contains(x) implies targets@.contains(
                        x,
                    ) by {
                        let kk = choose|kk: int| 0 <= kk < tg0.len() && tg0[kk] == x;
                        assert(targets@[kk] == x);
                    }
                    assert(targets@[tg0.len() as int] == eid);
                    assert(targets@.contains(eid));
                }
            }
            proof {
                let nv = self.entries@;
                assert(nv.take(j as int) =~= bv.take(j as int));
                assert(nv.take(j as int + 1) =~= nv.take(j as int) + seq![nv[j as int]]);
                lemma_text_of_concat(nv.take(j as int), seq![nv[j as int]]);
                lemma_text_of_singleton(nv[j as int]);
                assert(text_of(nv.take(j as int)) + Seq::<char>::empty() =~= text_of(
                    nv.take(j as int),
                ));
                if in_range {
                    if seen == ds {
                        assert(t.take(seen as int) =~= t.take(ds as int));
                    }
                } else if vis && seen >= de {
                    assert(t.subrange(de as int, seen as int) + seq![t[seen as int]] =~= t.subrange(
                        de as int,
                        seen as int + 1,
                    ));
                    if seen == de {
                        assert(t.subrange(de as int, de as int) =~= Seq::<char>::empty());
                        assert(t.take(ds as int) + Seq::<char>::empty() =~= t.take(ds as int));
                        assert(t.take(ds as int) + t.subrange(de as int, de as int + 1)
                            =~= t.take(ds as int) + seq![t[de as int]]);
                    }
                    assert((t.take(ds as int) + t.subrange(de as int, seen as int)) + seq![
                        t[seen as int],
                    ] =~= t.take(ds as int) + t.subrange(de as int, seen as int + 1));
                }
                if vis {
                    assert(!ov[j as int].tomb);
                    assert(seen < t.len());
                }
            }
            if vis {
                seen = seen + 1;
            }
            j = j + 1;
        }
        proof {
            assert(ov.take(n as int) =~= ov);
            assert(t.take(seen as int).len() == t.len());
            assert(seen == t.len());
            let nv = self.entries@;
            assert(nv.take(n as int) =~= nv);
            if de < seen {
                assert(t.subrange(de as int, seen as int) =~= t.skip(de as int));
            } else {
                assert(t.skip(de as int) =~= Seq::<char>::empty());
                assert(t.take(ds as int) + t.skip(de as int) =~= t.take(ds as int));
                if seen <= ds {
                    assert(t.take(seen as int) =~= t.take(ds as int));
                }
            }
            assert(final(self).text() =~= t.take(ds as int) + t.skip(de as int));
            assert forall|i1: int, i2: int| 0 <= i1 < i2 < nv.len() implies path_lt(
                nv[i1].pos@,
                nv[i2].pos@,
            ) by {
                assert(path_lt(ov[i1].pos@, ov[i2].pos@));
            }
            assert forall|x: OpId| final(self).has_id(x) implies old(self).has_id(x) by {
                let i = choose|i: int| 0 <= i < nv.len() && (#[trigger] nv[i]).id == x;
                assert(ov[i].id == x);
            }
            assert forall|x: OpId| old(self).has_id(x) implies final(self).has_id(x) by {
                let i = choose|i: int| 0 <= i < ov.len() && (#[trigger] ov[i]).id == x;
                assert(nv[i].id == x);
            }
            lemma_fold_flip_pointwise(ov, nv, targets@);
        }
        targets
    }

    /// Applies a foreign insert.  A run whose identity is already present is
    /// skipped, so application is idempotent.
    #[verifier::loop_isolation(false)]
    pub fn apply_insert(&mut self, pos: &PosId, ch: char) -> (applied: bool)
        requires
            old(self).wf(),
            pos@.len() > 0,
        ensures
            final(self).wf(),
            applied == !old(self).has_id(pos_id_of(pos@)),
            !applied ==> *final(self) == *old(self),
            applied ==> final(self).abs() == old(self).abs().insert(
                (pos@, pos_id_of(pos@), ch, false),
            ),
            applied ==> final(self).entries@.len() == old(self).entries@.len() + 1,
            !applied ==> final(self).abs() == old(self).abs(),
            forall|x: OpId|
                final(self).has_id(x) <==> old(self).has_id(x) || (applied && x == pos_id_of(
                    pos@,
                )),
    {
        let n = self.entries.len();
        let plast = pos.elems[pos.elems.len() - 1];
        let id = OpId { replica: plast.replica, seq: plast.seq };
        proof {
            assert(pos@.last() == pos@[pos@.len() - 1]);
            assert(id == pos_id_of(pos@));
        }
        let mut i: usize = 0;
        while i < n
            invariant
                i <= n,
                n == self.entries@.len(),
                self == old(self),
                forall|k: int| 0 <= k < i ==> (#[trigger] self.entries@[k]).id != id,
            decreases n - i,
        {
            if self.entries[i].id.replica == id.replica && self.entries[i].id.seq == id.seq {
                proof {
                    assert(old(self).entries@[i as int].id == id);
                    assert(old(self).has_id(pos_id_of(pos@)));
                }
                return false;
            }
            i = i + 1;
        }
        let mut j: usize = 0;
        while j < n && path_lt_exec(&self.entries[j].pos, pos)
            invariant
                j <= n,
                n == self.entries@.len(),
                self == old(self),
                forall|k: int| 0 <= k < n ==> (#[trigger] self.entries@[k]).id != id,
                forall|k: int| 0 <= k < j ==> path_lt((#[trigger] self.entries@[k]).pos@, pos@),
            decreases n - j,
        {
            j = j + 1;
        }
        proof {
            if j < n {
                lemma_path_lt_total(self.entries@[j as int].pos@, pos@);
                if self.entries@[j as int].pos@ =~= pos@ {
                    assert(self.entries@[j as int].pos@.last() == pos@.last());
                    assert(self.entries@[j as int].id == id);
                }
                assert(path_lt(pos@, self.entries@[j as int].pos@));
            }
        }
        let e = Entry { pos: dup_pos(pos), id, ch, tomb: false };
        self.entries.insert(j, e);
        proof {
            let ov = old(self).entries@;
            let nv = self.entries@;
            let ne = nv[j as int];
            assert(nv =~= ov.take(j as int) + seq![ne] + ov.skip(j as int));
            lemma_abs_of_concat(ov.take(j as int) + seq![ne], ov.skip(j as int));
            lemma_abs_of_concat(ov.take(j as int), seq![ne]);
            lemma_abs_of_singleton(ne);
            lemma_abs_of_concat(ov.take(j as int), ov.skip(j as int));
            assert(ov.take(j as int) + ov.skip(j as int) =~= ov);
            assert(final(self).abs() =~= old(self).abs().insert((pos@, id, ch, false)));
            assert forall|a: int, b: int| 0 <= a < b < nv.len() implies path_lt(
                nv[a].pos@,
                nv[b].pos@,
            ) by {
                if a == j {
                    if b > j + 1 {
                        lemma_path_lt_trans(ne.pos@, ov[j as int].pos@, ov[b - 1].pos@);
                    }
                }
            }
            assert forall|x: OpId| final(self).has_id(x) implies (old(self).has_id(x) || x
                == id) by {
                let k = choose|k: int| 0 <= k < nv.len() && (#[trigger] nv[k]).id == x;
                if k < j {
                    assert(ov[k].id == x);
                } else if k > j {
                    assert(ov[k - 1].id == x);
                }
            }
            assert forall|x: OpId| (old(self).has_id(x) || x == id) implies final(self).has_id(
                x,
            ) by {
                if x == id {
                    assert(nv[j as int].id == x);
                } else {
                    let k = choose|k: int| 0 <= k < ov.len() && (#[trigger] ov[k]).id == x;
                    if k < j {
                        assert(nv[k].id == x);
                    } else {
                        assert(nv[k + 1].id == x);
                    }
                }
            }
        }
        true
    }

    /// Applies a foreign delete: tombstones the run inserted by `target`.
    /// Returns whether the target was present; when it is absent the
    /// container is unchanged and the caller buffers the operation.
    pub fn apply_delete(&mut self, target: OpId) -> (found: bool)
        requires
            old(self).wf(),
        ensures
            final(self).wf(),
            found == old(self).has_id(target),
            final(self).entries@.len() == old(self).entries@.len(),
            forall|i: int|
                0 <= i < final(self).entries@.len() ==> {
                    &&& (#[trigger] final(self).entries@[i]).pos@ == old(self).entries@[i].pos@
                    &&& final(self).entries@[i].id == old(self).entries@[i].id
                    &&& final(self).entries@[i].ch == old(self).entries@[i].ch
                    &&& final(self).entries@[i].tomb == (old(self).entries@[i].tomb || old(
                        self,
                    ).entries@[i].id == target)
                },
            forall|x: OpId| final(self).has_id(x) <==> old(self).has_id(x),
            !found ==> *final(self) == *old(self),
            found ==> final(self).abs() == tomb_flip(old(self).abs(), target),
    {
        let ghost ov = old(self).entries@;
        let n = self.entries.len();
        let mut i: usize = 0;
        let mut found = false;
        while i < n
            invariant
                i <= n,
                !found ==> *self == *old(self),
                n == self.entries@.len(),
                n == ov.len(),
                forall|k: int| i <= k < n ==> #[trigger] self.entries@[k] == ov[k],
                forall|k: int|
                    0 <= k < i ==> {
                        &&& (#[trigger] self.entries@[k]).pos@ == ov[k].pos@
                        &&& self.entries@[k].id == ov[k].id
                        &&& self.entries@[k].ch == ov[k].ch
                        &&& self.entries@[k].tomb == (ov[k].tomb || ov[k].id == target)
                    },
                found == exists|k: int| 0 <= k < i && (#[trigger] ov[k]).id == target,
            decreases n - i,
        {
            if self.entries[i].id.replica == target.replica && self.entries[i].id.seq == target.seq
             {
                let ent_pos = dup_pos(&self.entries[i].pos);
                let eid = self.entries[i].id;
                let ech = self.entries[i].ch;
                let ne = Entry { pos: ent_pos, id: eid, ch: ech, tomb: true };
                self.entries.set(i, ne);
                found = true;
                proof {
                    assert(ov[i as int].id == target);
                }
            } else {
                proof {
                    if exists|k: int| 0 <= k < i + 1 && (#[trigger] ov[k]).id == target {
                        let k = choose|k: int| 0 <= k < i + 1 && (#[trigger] ov[k]).id == target;
                        assert(k < i || k == i);
                    }
                }
            }
            i = i + 1;
        }
        proof {
            let nv = self.entries@;
            assert forall|i1: int, i2: int| 0 <= i1 < i2 < nv.len() implies path_lt(
                nv[i1].pos@,
                nv[i2].pos@,
            ) by {
                assert(path_lt(ov[i1].pos@, ov[i2].pos@));
            }
            assert forall|x: OpId| final(self).has_id(x) implies old(self).has_id(x) by {
                let k = choose|k: int| 0 <= k < nv.len() && (#[trigger] nv[k]).id == x;
                assert(ov[k].id == x);
            }
            assert forall|x: OpId| old(self).has_id(x) implies final(self).has_id(x) by {
                let k = choose|k: int| 0 <= k < ov.len() && (#[trigger] ov[k]).id == x;
                assert(nv[k].id == x);
            }
            if found {
                assert forall|x: (Seq<PathElem>, OpId, char, bool)|
                    final(self).abs().contains(x) implies tomb_flip(
                    old(self).abs(),
                    target,
                ).contains(x) by {
                    lemma_abs_of_contains(nv, x);
                    let i = choose|i: int|
                        0 <= i < nv.len() && entry_abs(#[trigger] nv[i]) == x;
                    let y = entry_abs(ov[i]);
                    lemma_abs_of_contains(ov, y);
                    assert(old(self).abs().contains(y));
                    assert((if y.1 == target {
                        (y.0, y.1, y.2, true)
                    } else {
                        y
                    }) == x);
                }
                assert forall|x: (Seq<PathElem>, OpId, char, bool)|
                    tomb_flip(old(self).abs(), target).contains(x) implies final(self).abs().contains(
                    x,
                ) by {
                    let a = choose|a: (Seq<PathElem>, OpId, char, bool)|
                        old(self).abs().contains(a) && (if a.1 == target {
                            (a.0, a.1, a.2, true)
                        } else {
                            a
                        }) == x;
                    lemma_abs_of_contains(ov, a);
                    let i = choose|i: int|
                        0 <= i < ov.len() && entry_abs(#[trigger] ov[i]) == a;
                    assert(entry_abs(nv[i]) == x);
                    lemma_abs_of_contains(nv, x);
                }
                assert(final(self).abs() =~= tomb_flip(old(self).abs(), target));
            }
        }
        found
    }
}

/// The operation identity carried by a position: the operation that
/// allocated its last step.
pub open spec fn pos_id_of(p: Seq<PathElem>) -> OpId {
    OpId { replica: p.last().replica, seq: p.last().seq }
}

/// Whether some run in the set carries the given identity.
pub open spec fn abs_has_id(st: Set<(Seq<PathElem>, OpId, char, bool)>, id: OpId) -> bool {
    exists|e: (Seq<PathElem>, OpId, char, bool)| st.contains(e) && e.1 == id
}

/// The run set after a delete of `target`: every targeted run tombstoned,
/// everything else untouched.
pub open spec fn tomb_flip(
    st: Set<(Seq<PathElem>, OpId, char, bool)>,
    target: OpId,
) -> Set<(Seq<PathElem>, OpId, char, bool)> {
    st.map(
        |e: (Seq<PathElem>, OpId, char, bool)|
            if e.1 == target {
                (e.0, e.1, e.2, true)
            } else {
                e
            },
    )
}

/// All runs carrying the given identity are tombstoned.
pub open spec fn abs_tombed(st: Set<(Seq<PathElem>, OpId, char, bool)>, t: OpId) -> bool {
    forall|e: (Seq<PathElem>, OpId, char, bool)| st.contains(e) && e.1 == t ==> e.3
}

/// Tombstoning never changes which identities are present.
pub proof fn lemma_flip_ids(st: Set<(Seq<PathElem>, OpId, char, bool)>, u: OpId)
    ensures
        forall|x: OpId| abs_has_id(tomb_flip(st, u), x) == abs_has_id(st, x),
{
    assert forall|x: OpId| abs_has_id(tomb_flip(st, u), x) == abs_has_id(st, x) by {
        if abs_has_id(st, x) {
            let e = choose|e: (Seq<PathElem>, OpId, char, bool)| st.contains(e) && e.1 == x;
            let f = if e.1 == u {
                (e.0, e.1, e.2, true)
            } else {
                e
            };
            assert(tomb_flip(st, u).contains(f));
            assert(f.1 == x);
        }
        if abs_has_id(tomb_flip(st, u), x) {
            let f = choose|f: (Seq<PathElem>, OpId, char, bool)|
                tomb_flip(st, u).contains(f) && f.1 == x;
            let a = choose|a: (Seq<PathElem>, OpId, char, bool)|
                st.contains(a) && (if a.1 == u {
                    (a.0, a.1, a.2, true)
                } else {
                    a
                }) == f;
            assert(a.1 == x);
        }
    }
}

/// Tombstoning `u` leaves `u` fully tombstoned, and keeps any fully
/// tombstoned identity fully tombstoned.
pub proof fn lemma_flip_tombed(st: Set<(Seq<PathElem>, OpId, char, bool)>, u: OpId, t: OpId)
    ensures
        abs_tombed(tomb_flip(st, u), u),
        abs_tombed(st, t) ==> abs_tombed(tomb_flip(st, u), t),
{
    assert forall|e: (Seq<PathElem>, OpId, char, bool)|
        tomb_flip(st, u).contains(e) && e.1 == u implies e.3 by {
        let a = choose|a: (Seq<PathElem>, OpId, char, bool)|
            st.contains(a) && (if a.1 == u {
                (a.0, a.1, a.2, true)
            } else {
                a
            }) == e;
    }
    if abs_tombed(st, t) {
        assert forall|e: (Seq<PathElem>, OpId, char, bool)|
            tomb_flip(st, u).contains(e) && e.1 == t implies e.3 by {
            let a = choose|a: (Seq<PathElem>, OpId, char, bool)|
                st.contains(a) && (if a.1 == u {
                    (a.0, a.1, a.2, true)
                } else {
                    a
                }) == e;
            assert(a.1 == t || e.3);
        }
    }
}

/// Re-deleting an identity that is already fully tombstoned changes
/// nothing.
pub proof fn lemma_flip_absorbed(st: Set<(Seq<PathElem>, OpId, char, bool)>, t: OpId)
    requires
        abs_tombed(st, t),
    ensures
        tomb_flip(st, t) == st,
{
    assert forall|x: (Seq<PathElem>, OpId, char, bool)|
        st.contains(x) implies tomb_flip(st, t).contains(x) by {
        if x.1 == t {
            assert(x.3);
            assert((if x.1 == t {
                (x.0, x.1, x.2, true)
            } else {
                x
            }) == x);
        }
    }
    assert forall|x: (Seq<PathElem>, OpId, char, bool)|
        tomb_flip(st, t).contains(x) implies st.contains(x) by {
        let a = choose|a: (Seq<PathElem>, OpId, char, bool)|
            st.contains(a) && (if a.1 == t {
                (a.0, a.1, a.2, true)
            } else {
                a
            }) == x;
        if a.1 == t {
            assert(a.3);
            assert(x == a);
        }
    }
    assert(tomb_flip(st, t) =~= st);
}

/// The run set after deleting each identity in `ts`, in order.
pub open spec fn fold_flip(
    st: Set<(Seq<PathElem>, OpId, char, bool)>,
    ts: Seq<OpId>,
) -> Set<(Seq<PathElem>, OpId, char, bool)>
    decreases ts.len(),
{
    if ts.len() == 0 {
        st
    } else {
        fold_flip(tomb_flip(st, ts[0]), ts.drop_first())
    }
}

pub proof fn lemma_fold_flip_snoc(
    st: Set<(Seq<PathElem>, OpId, char, bool)>,
    ts: Seq<OpId>,
    t: OpId,
)
    ensures
        fold_flip(st, ts.push(t)) == tomb_flip(fold_flip(st, ts), t),
    decreases ts.len(),
{
    let u = ts.push(t);
    if ts.len() == 0 {
        assert(u[0] == t);
        assert(u.drop_first() =~= Seq::<OpId>::empty());
        assert(fold_flip(tomb_flip(st, t), u.drop_first()) == tomb_flip(st, t));
    } else {
        assert(u[0] == ts[0]);
        assert(u.drop_first() =~= ts.drop_first().push(t));
        lemma_fold_flip_snoc(tomb_flip(st, ts[0]), ts.drop_first(), t);
    }
}

pub proof fn lemma_fold_flip_ids(st: Set<(Seq<PathElem>, OpId, char, bool)>, ts: Seq<OpId>)
    ensures
        forall|x: OpId| abs_has_id(fold_flip(st, ts), x) == abs_has_id(st, x),
    decreases ts.len(),
{
    if ts.len() > 0 {
        lemma_flip_ids(st, ts[0]);
        lemma_fold_flip_ids(tomb_flip(st, ts[0]), ts.drop_first());
    }
}

/// Pointwise tombstoning of one identity is the set-level delete.
pub proof fn lemma_abs_flip_pointwise(s1: Seq<Entry>, s2: Seq<Entry>, t: OpId)
    requires
        s1.len() == s2.len(),
        forall|i: int|
            0 <= i < s1.len() ==> {
                &&& (#[trigger] s2[i]).pos@ == s1[i].pos@
                &&& s2[i].id == s1[i].id
                &&& s2[i].ch == s1[i].ch
                &&& s2[i].tomb == (s1[i].tomb || s1[i].id == t)
            },
    ensures
        abs_of(s2) == tomb_flip(abs_of(s1), t),
{
    assert forall|x: (Seq<PathElem>, OpId, char, bool)|
        abs_of(s2).contains(x) implies tomb_flip(abs_of(s1), t).contains(x) by {
        lemma_abs_of_contains(s2, x);
        let i = choose|i: int| 0 <= i < s2.len() && entry_abs(#[trigger] s2[i]) == x;
        let y = entry_abs(s1[i]);
        lemma_abs_of_contains(s1, y);
        assert(abs_of(s1).contains(y));
        assert((if y.1 == t {
            (y.0, y.1, y.2, true)
        } else {
            y
        }) == x);
    }
    assert forall|x: (Seq<PathElem>, OpId, char, bool)|
        tomb_flip(abs_of(s1), t).contains(x) implies abs_of(s2).contains(x) by {
        let a = choose|a: (Seq<PathElem>, OpId, char, bool)|
            abs_of(s1).contains(a) && (if a.1 == t {
                (a.0, a.1, a.2, true)
            } else {
                a
            }) == x;
        lemma_abs_of_contains(s1, a);
        let i = choose|i: int| 0 <= i < s1.len() && entry_abs(#[trigger] s1[i]) == a;
        assert(entry_abs(s2[i]) == x);
        lemma_abs_of_contains(s2, x);
    }
    assert(abs_of(s2) =~= tomb_flip(abs_of(s1), t));
}

/// Pointwise tombstoning of a list of identities is the fold of the
/// set-level deletes.
pub proof fn lemma_fold_flip_pointwise(s1: Seq<Entry>, s2: Seq<Entry>, ts: Seq<OpId>)
    requires
        s1.len() == s2.len(),
        forall|i: int|
            0 <= i < s1.len() ==> {
                &&& (#[trigger] s2[i]).pos@ == s1[i].pos@
                &&& s2[i].id == s1[i].id
                &&& s2[i].ch == s1[i].ch
                &&& s2[i].tomb == (s1[i].tomb || ts.contains(s1[i].id))
            },
    ensures
        abs_of(s2) == fold_flip(abs_of(s1), ts),
    decreases ts.len(),
{
    if ts.len() == 0 {
        assert forall|i: int| 0 <= i < s1.len() implies (#[trigger] s2[i]).tomb
            == s1[i].tomb by {
            if ts.contains(s1[i].id) {
                let j = choose|j: int| 0 <= j < ts.len() && ts[j] == s1[i].id;
            }
        }
        assert forall|x: (Seq<PathElem>, OpId, char, bool)|
            abs_of(s2).contains(x) implies abs_of(s1).contains(x) by {
            lemma_abs_of_contains(s2, x);
            let i = choose|i: int| 0 <= i < s2.len() && entry_abs(#[trigger] s2[i]) == x;
            assert(entry_abs(s1[i]) == x);
            lemma_abs_of_contains(s1, x);
        }
        assert forall|x: (Seq<PathElem>, OpId, char, bool)|
            abs_of(s1).contains(x) implies abs_of(s2).contains(x) by {
            lemma_abs_of_contains(s1, x);
            let i = choose|i: int| 0 <= i < s1.len() && entry_abs(#[trigger] s1[i]) == x;
            assert(entry_abs(s2[i]) == x);
            lemma_abs_of_contains(s2, x);
        }
        assert(abs_of(s2) =~= abs_of(s1));
    } else {
        let t0 = ts[0];
        let smid = Seq::new(
            s1.len(),
            |i: int|
                Entry {
                    pos: s1[i].pos,
                    id: s1[i].id,
                    ch: s1[i].ch,
                    tomb: s1[i].tomb || s1[i].id == t0,
                },
        );
        lemma_abs_flip_pointwise(s1, smid, t0);
        assert forall|i: int|
            0 <= i < smid.len() implies {
            &&& (#[trigger] s2[i]).pos@ == smid[i].pos@
            &&& s2[i].id == smid[i].id
            &&& s2[i].ch == smid[i].ch
            &&& s2[i].tomb == (smid[i].tomb || ts.drop_first().contains(smid[i].id))
        } by {
            if ts.contains(s1[i].id) {
                let j = choose|j: int| 0 <= j < ts.len() && ts[j] == s1[i].id;
                if j > 0 {
                    assert(ts.drop_first()[j - 1] == s1[i].id);
                }
            }
            if ts.drop_first().contains(s1[i].id) {
                let j = choose|j: int|
                    0 <= j < ts.drop_first().len() && ts.drop_first()[j] == s1[i].id;
                assert(ts[j + 1] == s1[i].id);
            }
        }
        lemma_fold_flip_pointwise(smid, s2, ts.drop_first());
    }
}

/// A container carries an identity exactly when its run set does.
pub proof fn lemma_has_id_abs(c: Container)
    ensures
        forall|id: OpId| c.has_id(id) <==> abs_has_id(c.abs(), id),
{
    assert forall|id: OpId| c.has_id(id) <==> abs_has_id(c.abs(), id) by {
        if c.has_id(id) {
            let i = choose|i: int|
                0 <= i < c.entries@.len() && (#[trigger] c.entries@[i]).id == id;
            lemma_abs_of_contains(c.entries@, entry_abs(c.entries@[i]));
            assert(c.abs().contains(entry_abs(c.entries@[i])));
        }
        if abs_has_id(c.abs(), id) {
            let e = choose|e: (Seq<PathElem>, OpId, char, bool)| c.abs().contains(e) && e.1 == id;
            lemma_abs_of_contains(c.entries@, e);
            let i = choose|i: int|
                0 <= i < c.entries@.len() && entry_abs(#[trigger] c.entries@[i]) == e;
            assert(c.entries@[i].id == id);
        }
    }
}

/// The visible text depends only on each run's character and tombstone
/// flag, position for position.
pub proof fn lemma_text_of_pointwise(s1: Seq<Entry>, s2: Seq<Entry>)
    requires
        s1.len() == s2.len(),
        forall|i: int|
            0 <= i < s1.len() ==> (#[trigger] s2[i]).ch == s1[i].ch && s2[i].tomb == s1[i].tomb,
    ensures
        text_of(s1) == text_of(s2),
    decreases s1.len(),
{
    if s1.len() > 0 {
        assert forall|i: int|
            0 <= i < s1.drop_first().len() implies (#[trigger] s2.drop_first()[i]).ch
            == s1.drop_first()[i].ch && s2.drop_first()[i].tomb == s1.drop_first()[i].tomb by {
            assert(s2.drop_first()[i] == s2[i + 1]);
            assert(s1.drop_first()[i] == s1[i + 1]);
        }
        lemma_text_of_pointwise(s1.drop_first(), s2.drop_first());
        assert(s2[0].ch == s1[0].ch && s2[0].tomb == s1[0].tomb);
        assert(text_of(s1) =~= text_of(s2));
    }
}

/// Idempotence of delete application: tombstoning a run that is already
/// tombstoned leaves the visible text unchanged.  `s2` relates to `s1` as a
/// run sequence after re-applying a delete of `target` whose first
/// application has already happened; together with the skip of inserts
/// whose identity is present, re-merging operations a replica has already
/// applied cannot change its text.
pub proof fn lemma_redelete_preserves_text(s1: Seq<Entry>, s2: Seq<Entry>, target: OpId)
    requires
        s1.len() == s2.len(),
        forall|i: int|
            0 <= i < s1.len() ==> {
                &&& (#[trigger] s2[i]).ch == s1[i].ch
                &&& s2[i].id == s1[i].id
                &&& s2[i].tomb == (s1[i].tomb || s1[i].id == target)
            },
        forall|i: int| 0 <= i < s1.len() && (#[trigger] s1[i]).id == target ==> s1[i].tomb,
    ensures
        text_of(s1) == text_of(s2),
{
    assert forall|i: int|
        0 <= i < s1.len() implies (#[trigger] s2[i]).ch == s1[i].ch && s2[i].tomb
        == s1[i].tomb by {
        if s1[i].id == target {
            assert(s1[i].tomb);
        }
    }
    lemma_text_of_pointwise(s1, s2);
}

/// Convergence of the data type: two sorted run sequences with the same run
/// set are pointwise equal in their visible text.  Since applying a set of
/// operations only ever builds the run set, the arrival order cannot change
/// the materialized document.
pub proof fn lemma_convergence(s1: Seq<Entry>, s2: Seq<Entry>)
    requires
        sorted_entries(s1),
        sorted_entries(s2),
        abs_of(s1) == abs_of(s2),
    ensures
        text_of(s1) == text_of(s2),
    decreases s1.len(),
{
    if s1.len() == 0 {
        if s2.len() > 0 {
            lemma_abs_of_contains(s2, entry_abs(s2[0]));
            lemma_abs_of_contains(s1, entry_abs(s2[0]));
            assert(false);
        }
    } else if s2.len() == 0 {
        lemma_abs_of_contains(s1, entry_abs(s1[0]));
        lemma_abs_of_contains(s2, entry_abs(s1[0]));
        assert(false);
    } else {
        lemma_abs_of_contains(s1, entry_abs(s1[0]));
        lemma_abs_of_contains(s2, entry_abs(s1[0]));
        let j = choose|j: int| 0 <= j < s2.len() && entry_abs(#[trigger] s2[j]) == entry_abs(s1[0]);
        lemma_abs_of_contains(s2, entry_abs(s2[0]));
        lemma_abs_of_contains(s1, entry_abs(s2[0]));
        let i = choose|i: int| 0 <= i < s1.len() && entry_abs(#[trigger] s1[i]) == entry_abs(s2[0]);
        if j > 0 && i > 0 {
            assert(path_lt(s2[0].pos@, s2[j].pos@));
            assert(path_lt(s1[0].pos@, s1[i].pos@));
            lemma_path_lt_total(s1[0].pos@, s2[0].pos@);
            assert(false);
        }
        assert(entry_abs(s1[0]) == entry_abs(s2[0]));
        assert forall|x: (Seq<PathElem>, OpId, char, bool)|
            abs_of(s1.drop_first()).contains(x) implies abs_of(s2.drop_first()).contains(x) by {
            lemma_tail_abs_step(s1, s2, x);
        }
        assert forall|x: (Seq<PathElem>, OpId, char, bool)|
            abs_of(s2.drop_first()).contains(x) implies abs_of(s1.drop_first()).contains(x) by {
            lemma_tail_abs_step(s2, s1, x);
        }
        assert(abs_of(s1.drop_first()) =~= abs_of(s2.drop_first()));
        assert forall|a: int, b: int| 0 <= a < b < s1.drop_first().len() implies path_lt(
            (#[trigger] s1.drop_first()[a]).pos@,
            (#[trigger] s1.drop_first()[b]).pos@,
        ) by {
            assert(path_lt(s1[a + 1].pos@, s1[b + 1].pos@));
        }
        assert forall|a: int, b: int| 0 <= a < b < s2.drop_first().len() implies path_lt(
            (#[trigger] s2.drop_first()[a]).pos@,
            (#[trigger] s2.drop_first()[b]).pos@,
        ) by {
            assert(path_lt(s2[a + 1].pos@, s2[b + 1].pos@));
        }
        lemma_convergence(s1.drop_first(), s2.drop_first());
        assert(entry_text(s1[0]) == entry_text(s2[0]));
        assert(text_of(s1) =~= text_of(s2));
    }
}

/// Helper step: with heads of equal image and strict sorting, the tail run
/// sets correspond.
proof fn lemma_tail_abs_step(s1: Seq<Entry>, s2: Seq<Entry>, x: (Seq<PathElem>, OpId, char, bool))
    requires
        s1.len() > 0,
        s2.len() > 0,
        sorted_entries(s1),
        sorted_entries(s2),
        abs_of(s1) == abs_of(s2),
        entry_abs(s1[0]) == entry_abs(s2[0]),
        abs_of(s1.drop_first()).contains(x),
    ensures
        abs_of(s2.drop_first()).contains(x),
{
    lemma_abs_of_contains(s1.drop_first(), x);
    let ii = choose|ii: int|
        0 <= ii < s1.drop_first().len() && entry_abs(#[trigger] s1.drop_first()[ii]) == x;
    assert(entry_abs(s1[ii + 1]) == x);
    lemma_abs_of_contains(s1, x);
    lemma_abs_of_contains(s2, x);
    let jj = choose|jj: int| 0 <= jj < s2.len() && entry_abs(#[trigger] s2[jj]) == x;
    if jj == 0 {
        assert(path_lt(s1[0].pos@, s1[ii + 1].pos@));
        assert(x.0 == s1[0].pos@);
        lemma_path_lt_irrefl(s1[0].pos@);
        assert(false);
    }
    assert(entry_abs(s2.drop_first()[jj - 1]) == x);
    lemma_abs_of_contains(s2.drop_first(), x);
}

} // verus!
