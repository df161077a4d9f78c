//! The solver state: clause store, assignment table, watch index, trail and
//! trail limits, and the pending / proven implication edges of the prober —
//! together with the invariants that tie them to one another.

use vstd::prelude::*;

use crate::clause::Clause;
use crate::frames::ImpEdge;
use crate::logic::lit_false;
use crate::logic::lit_true;
use crate::logic::lit_var;
use crate::logic::valid_lit;

verus! {

/// The watch bucket owned by literal `l`: each variable owns two disjoint
/// buckets, one per polarity.
pub open spec fn watch_idx(l: i32) -> int {
    2 * lit_var(l) + if l < 0 {
        1int
    } else {
        0int
    }
}

/// Negation of a literal (valid literals never sit at the edge of `i32`).
pub open spec fn neg_lit(l: i32) -> i32 {
    (-(l as int)) as i32
}

/// The sequence of buckets, each bucket seen as a sequence of clause ids.
pub open spec fn buckets_of(w: Seq<Vec<usize>>) -> Seq<Seq<usize>> {
    Seq::new(w.len(), |b: int| w[b]@)
}

/// The formula stored in a clause sequence: just the literal lists.
pub open spec fn formula_of(clauses: Seq<Clause>) -> Seq<Seq<i32>> {
    Seq::new(clauses.len(), |i: int| clauses[i].lits@)
}

/// Clause id `cid` occurs in bucket `b`.
pub open spec fn bucket_has(w: Seq<Seq<usize>>, b: int, cid: int) -> bool {
    0 <= b < w.len() && exists|k: int| 0 <= k < w[b].len() && w[b][k] == cid
}

/// Every bucket entry is a live clause id whose clause currently watches a
/// literal of that bucket.
pub open spec fn watch_sound(clauses: Seq<Clause>, w: Seq<Seq<usize>>) -> bool {
    forall|b: int, k: int|
        0 <= b < w.len() && 0 <= k < w[b].len() ==> {
            &&& (#[trigger] w[b][k]) < clauses.len()
            &&& clauses[w[b][k] as int].lits@.len() > 0
            &&& (watch_idx(clauses[w[b][k] as int].watched0()) == b || watch_idx(
                clauses[w[b][k] as int].watched1(),
            ) == b)
        }
}

/// Every watched literal of every clause has that clause registered in its
/// bucket.
pub open spec fn watch_cover(clauses: Seq<Clause>, w: Seq<Seq<usize>>) -> bool {
    forall|i: int|
        0 <= i < clauses.len() && (#[trigger] clauses[i]).lits@.len() > 0 ==> {
            &&& bucket_has(w, watch_idx(clauses[i].watched0()), i)
            &&& bucket_has(w, watch_idx(clauses[i].watched1()), i)
        }
}

/// No bucket lists the same clause twice.
pub open spec fn watch_nodup(w: Seq<Seq<usize>>) -> bool {
    forall|b: int, k1: int, k2: int|
        0 <= b < w.len() && 0 <= k1 < k2 < w[b].len() ==> w[b][k1] != w[b][k2]
}

/// The clause's literal list has the "(not from or not y or to)" shape the
/// prober extracts candidates from.
pub open spec fn probe_shape(c: Seq<i32>, from: int, to: int) -> bool {
    c.len() == 3 && exists|j: int, k: int, m: int|
        {
            &&& 0 <= j < 3 && 0 <= k < 3 && 0 <= m < 3
            &&& j != k && j != m && k != m
            &&& c[j] < 0 && lit_var(c[j]) == from
            &&& c[m] < 0
            &&& c[k] > 0 && lit_var(c[k]) == to
        }
}

/// An edge that is well formed for one solver state is well formed for any
/// state with the same variable count and the same literal lists.
pub proof fn lemma_edge_wf_transfer(o: Solver, s: Solver, e: ImpEdge)
    requires
        o.edge_wf(e),
        s.num_vars() == o.num_vars(),
        s.clauses@.len() == o.clauses@.len(),
        forall|i: int|
            0 <= i < s.clauses@.len() ==> (#[trigger] s.clauses@[i]).lits@ == o.clauses@[i].lits@,
    ensures
        s.edge_wf(e),
{
    let i = choose|i: int|
        0 <= i < o.clauses@.len() && probe_shape(
            o.clauses@[i].lits@,
            e.from as int,
            e.to as int,
        );
    assert(probe_shape(s.clauses@[i].lits@, e.from as int, e.to as int));
}

/// Edge well-formedness of all pending and proven edges carries over to a
/// state with the same variable count, the same literal lists, and edges drawn
/// from the old ones.
pub proof fn lemma_edges_wf_preserved(o: Solver, s: Solver)
    requires
        s.num_vars() == o.num_vars(),
        s.clauses@.len() == o.clauses@.len(),
        forall|i: int|
            0 <= i < s.clauses@.len() ==> (#[trigger] s.clauses@[i]).lits@ == o.clauses@[i].lits@,
        forall|e: int| 0 <= e < s.pending@.len() ==> o.edge_wf(#[trigger] s.pending@[e]),
        forall|e: int| 0 <= e < s.proven@.len() ==> o.edge_wf(#[trigger] s.proven@[e]),
    ensures
        forall|e: int| 0 <= e < s.pending@.len() ==> s.edge_wf(#[trigger] s.pending@[e]),
        forall|e: int| 0 <= e < s.proven@.len() ==> s.edge_wf(#[trigger] s.proven@[e]),
{
    assert forall|e: int| 0 <= e < s.pending@.len() implies s.edge_wf(
        #[trigger] s.pending@[e],
    ) by {
        lemma_edge_wf_transfer(o, s, s.pending@[e]);
    }
    assert forall|e: int| 0 <= e < s.proven@.len() implies s.edge_wf(
        #[trigger] s.proven@[e],
    ) by {
        lemma_edge_wf_transfer(o, s, s.proven@[e]);
    }
}

/// Bucket membership survives any change that only appends to buckets.
pub proof fn lemma_bucket_has_mono(w1: Seq<Seq<usize>>, w2: Seq<Seq<usize>>, b: int, cid: int)
    requires
        bucket_has(w1, b, cid),
        w2.len() == w1.len(),
        forall|x: int| 0 <= x < w1.len() ==> (#[trigger] w1[x]).len() <= w2[x].len(),
        forall|x: int, k: int|
            0 <= x < w1.len() && 0 <= k < w1[x].len() ==> (#[trigger] w2[x][k]) == w1[x][k],
    ensures
        bucket_has(w2, b, cid),
{
    let k = choose|k: int| 0 <= k < w1[b].len() && w1[b][k] == cid;
    assert(w2[b][k] == cid);
}

/// Watched-pair provenance across an engine operation: the clause either
/// keeps its watched pair (possibly with the slots swapped), or now watches
/// two literals that are not false under the reference assignment.
pub open spec fn pair_from(c2: Clause, c1: Clause, a: Seq<Option<bool>>) -> bool {
    ||| (c2.watched0() == c1.watched0() && c2.watched1() == c1.watched1())
    ||| (c2.watched0() == c1.watched1() && c2.watched1() == c1.watched0())
    ||| (!lit_false(a, c2.watched0()) && !lit_false(a, c2.watched1()))
}

/// `pair_from` for every clause of the store.
pub open spec fn pairs_from(s2: Solver, s1: Solver, a: Seq<Option<bool>>) -> bool {
    s2.clauses@.len() == s1.clauses@.len() && forall|i: int|
        0 <= i < s2.clauses@.len() ==> pair_from(
            #[trigger] s2.clauses@[i],
            s1.clauses@[i],
            a,
        )
}

/// A state trivially carries provenance from itself.
pub proof fn lemma_pairs_refl(s: Solver, a: Seq<Option<bool>>)
    ensures
        pairs_from(s, s, a),
{
    assert forall|i: int| 0 <= i < s.clauses@.len() implies pair_from(
        #[trigger] s.clauses@[i],
        s.clauses@[i],
        a,
    ) by {}
}

/// Provenance composes along an execution whose assignment only grows.
pub proof fn lemma_pairs_from_trans(
    s3: Solver,
    s2: Solver,
    s1: Solver,
    a: Seq<Option<bool>>,
    a2: Seq<Option<bool>>,
)
    requires
        pairs_from(s2, s1, a),
        pairs_from(s3, s2, a2),
        a2.len() == a.len(),
        forall|v: int| 0 <= v < a.len() && (#[trigger] a[v]) is Some ==> a2[v] == a[v],
    ensures
        pairs_from(s3, s1, a),
{
    assert forall|i: int| 0 <= i < s3.clauses@.len() implies pair_from(
        #[trigger] s3.clauses@[i],
        s1.clauses@[i],
        a,
    ) by {
        let c3 = s3.clauses@[i];
        let c2 = s2.clauses@[i];
        let c1 = s1.clauses@[i];
        assert(pair_from(c3, c2, a2));
        assert(pair_from(c2, c1, a));
        if !lit_false(a2, c3.watched0()) && !lit_false(a2, c3.watched1()) {
            assert(!lit_false(a, c3.watched0()) && !lit_false(a, c3.watched1()));
        }
    }
}

/// The strong invariant at rest implies the plain one: no clause watches two
/// false literals.
pub proof fn lemma_strong_implies_weak(s: Solver, pending: Seq<i32>)
    requires
        s.wf_core(),
        s.strong_pending(pending),
    ensures
        s.watches_ok_pending(pending),
{
    assert forall|i: int|
        0 <= i < s.clauses@.len() && (#[trigger] s.clauses@[i]).lits@.len() >= 2 && lit_false(
            s.assign@,
            s.clauses@[i].watched0(),
        ) && lit_false(s.assign@, s.clauses@[i].watched1()) implies pending.contains(
        neg_lit(s.clauses@[i].watched0()),
    ) || pending.contains(neg_lit(s.clauses@[i].watched1())) by {
        let c = s.clauses@[i];
        assert(s.slot_ok(c.watched0(), c.watched1(), pending));
        assert(valid_lit(c.watched1(), s.num_vars()));
    }
}

/// At a rest state with the strong invariant, satisfied unit clauses and no
/// empty clause, the assignment is unit-closed and has no false clause: it
/// is its own unit-propagation closure.
pub proof fn lemma_strong_up_closed(s: Solver)
    requires
        s.wf_core(),
        s.strong_rest(),
        s.units_true(),
        s.no_empty_clause(),
    ensures
        crate::logic::up_closed(s.formula(), s.assign@),
        !crate::logic::has_false_clause(s.formula(), s.assign@),
{
    let f = s.formula();
    let a = s.assign@;
    assert forall|i: int, j: int|
        0 <= i < f.len() && 0 <= j < f[i].len() && (forall|k: int|
            0 <= k < f[i].len() && k != j ==> lit_false(a, #[trigger] f[i][k])) && !lit_false(
            a,
            #[trigger] f[i][j],
        ) implies lit_true(a, f[i][j]) by {
        let c = s.clauses@[i];
        assert(f[i] == c.lits@);
        if c.lits@.len() == 1 {
            assert(lit_true(a, c.lits@[0]));
        } else {
            assert(s.slot_ok(c.watched0(), c.watched1(), Seq::empty()));
            assert(s.slot_ok(c.watched1(), c.watched0(), Seq::empty()));
            if j == c.w0 as int {
                assert(lit_false(a, c.watched1()));
                assert(lit_true(a, c.watched0()));
            } else if j == c.w1 as int {
                assert(lit_false(a, c.watched0()));
                assert(lit_true(a, c.watched1()));
            } else {
                assert(lit_false(a, c.watched0()));
                assert(lit_false(a, c.watched1()));
                assert(lit_true(a, c.watched0()));
                assert(false);
            }
        }
    }
    assert forall|i: int| 0 <= i < f.len() implies !crate::logic::clause_all_false(
        a,
        #[trigger] f[i],
    ) by {
        let c = s.clauses@[i];
        assert(f[i] == c.lits@);
        if c.lits@.len() == 1 {
            assert(lit_true(a, c.lits@[0]));
            assert(!lit_false(a, c.lits@[0]));
        } else {
            if crate::logic::clause_all_false(a, c.lits@) {
                assert(lit_false(a, c.watched0()));
                assert(lit_false(a, c.watched1()));
                assert(s.slot_ok(c.watched0(), c.watched1(), Seq::empty()));
                assert(lit_true(a, c.watched1()));
            }
        }
    }
}

/// The in-propagation form of the strong slot predicate: a false watched
/// literal has its falsifier pending, or is the falsified literal of a batch
/// still being drained, or its partner is true and level-ordered below it.
pub open spec fn loop_slot_ok(
    s: Solver,
    ws: i32,
    wo: i32,
    pending: Seq<i32>,
    falsified: i32,
    extra: bool,
) -> bool {
    lit_false(s.assign@, ws) ==> pending.contains(neg_lit(ws)) || (ws == falsified && extra)
        || (lit_true(s.assign@, wo) && s.ord_ok(lit_var(wo), lit_var(ws)))
}

/// One strong slot survives a step that only extends the assignment and the
/// queue, provided every newly falsified literal had its falsifier queued.
pub proof fn lemma_slot_step(
    pre: Solver,
    cur: Solver,
    qpre: Seq<i32>,
    qcur: Seq<i32>,
    ws: i32,
    wo: i32,
    falsified: i32,
    epre: bool,
    ecur: bool,
)
    requires
        pre.wf_core(),
        loop_slot_ok(pre, ws, wo, qpre, falsified, epre),
        epre ==> ecur,
        qpre.len() <= qcur.len(),
        forall|k: int| 0 <= k < qpre.len() ==> qcur[k] == #[trigger] qpre[k],
        cur.assign@.len() == pre.assign@.len(),
        cur.trail_limits@ == pre.trail_limits@,
        pre.trail@.is_prefix_of(cur.trail@),
        forall|v: int|
            0 <= v < pre.assign@.len() && (#[trigger] pre.assign@[v]) is Some ==> cur.assign@[v]
                == pre.assign@[v],
        forall|t: int|
            pre.trail@.len() <= t < cur.trail@.len() ==> pre.assign@[(
            #[trigger] cur.trail@[t]) as int] is None && ((cur.trail@[t]) as int)
                < pre.assign@.len(),
        forall|l: i32|
            #[trigger] lit_false(cur.assign@, l) && !lit_false(pre.assign@, l)
                ==> qcur.contains(neg_lit(l)),
    ensures
        loop_slot_ok(cur, ws, wo, qcur, falsified, ecur),
{
    if lit_false(cur.assign@, ws) {
        if !lit_false(pre.assign@, ws) {
            assert(qcur.contains(neg_lit(ws)));
        } else {
            if qpre.contains(neg_lit(ws)) {
                let k = choose|k: int| 0 <= k < qpre.len() && qpre[k] == neg_lit(ws);
                assert(qcur[k] == neg_lit(ws));
            } else if ws == falsified && epre {
            } else {
                assert(lit_true(pre.assign@, wo) && pre.ord_ok(lit_var(wo), lit_var(ws)));
                assert(lit_true(cur.assign@, wo));
                assert forall|k: int|
                    0 <= k < cur.trail_limits@.len() && cur.assigned_since(
                        lit_var(wo),
                        (#[trigger] cur.trail_limits@[k]) as int,
                    ) implies cur.assigned_since(
                    lit_var(ws),
                    cur.trail_limits@[k] as int,
                ) by {
                    let lim = cur.trail_limits@[k] as int;
                    let t = choose|t: int|
                        lim <= t < cur.trail@.len() && cur.trail@[t] as int == lit_var(wo);
                    if t >= pre.trail@.len() {
                        assert(pre.assign@[lit_var(wo)] is None);
                        assert(false);
                    }
                    assert(pre.trail@[t] as int == lit_var(wo));
                    assert(pre.assigned_since(lit_var(wo), lim));
                    assert(pre.assigned_since(lit_var(ws), lim));
                    let t2 = choose|t2: int|
                        lim <= t2 < pre.trail@.len() && pre.trail@[t2] as int == lit_var(ws);
                    assert(cur.trail@[t2] as int == lit_var(ws));
                }
            }
        }
    }
}

/// Pushing a checkpoint at the current trail length preserves the strong
/// invariant: nothing can have been assigned at or beyond the new checkpoint
/// yet.
pub proof fn lemma_strong_after_push_limit(o: Solver, s: Solver)
    requires
        o.strong_rest(),
        s.assign@ == o.assign@,
        s.trail@ == o.trail@,
        s.clauses@ == o.clauses@,
        s.trail_limits@.len() == o.trail_limits@.len() + 1,
        forall|k: int|
            0 <= k < o.trail_limits@.len() ==> s.trail_limits@[k] == o.trail_limits@[k],
        s.trail_limits@[s.trail_limits@.len() - 1] as int == o.trail@.len(),
    ensures
        s.strong_rest(),
{
    assert forall|i: int|
        0 <= i < s.clauses@.len() && (#[trigger] s.clauses@[i]).lits@.len() >= 2 implies {
        &&& s.slot_ok(s.clauses@[i].watched0(), s.clauses@[i].watched1(), Seq::empty())
        &&& s.slot_ok(s.clauses@[i].watched1(), s.clauses@[i].watched0(), Seq::empty())
    } by {
        let c = s.clauses@[i];
        assert(o.slot_ok(c.watched0(), c.watched1(), Seq::empty()));
        assert(o.slot_ok(c.watched1(), c.watched0(), Seq::empty()));
        assert forall|wt: int, wf2: int| o.ord_ok(wt, wf2) implies s.ord_ok(wt, wf2) by {
            assert forall|k: int|
                0 <= k < s.trail_limits@.len() && s.assigned_since(
                    wt,
                    (#[trigger] s.trail_limits@[k]) as int,
                ) implies s.assigned_since(wf2, s.trail_limits@[k] as int) by {
                if k < o.trail_limits@.len() {
                    assert(o.assigned_since(wt, o.trail_limits@[k] as int));
                    assert(o.assigned_since(wf2, o.trail_limits@[k] as int));
                } else {
                    assert(s.trail_limits@[k] as int == o.trail@.len());
                }
            }
        }
    }
}

/// Restoring the assignment, trail and checkpoints of a strong rest state
/// restores the strong invariant itself, provided every clause's watched
/// pair either survived unchanged or moved onto literals that are not false
/// there.
pub proof fn lemma_strong_after_restore(o: Solver, fin: Solver)
    requires
        o.wf_core(),
        o.strong_rest(),
        fin.assign@ == o.assign@,
        fin.trail@ == o.trail@,
        fin.trail_limits@ == o.trail_limits@,
        fin.clauses@.len() == o.clauses@.len(),
        forall|i: int|
            0 <= i < fin.clauses@.len() ==> (#[trigger] fin.clauses@[i]).lits@
                == o.clauses@[i].lits@,
        pairs_from(fin, o, o.assign@),
    ensures
        fin.strong_rest(),
{
    assert forall|i: int|
        0 <= i < fin.clauses@.len() && (#[trigger] fin.clauses@[i]).lits@.len() >= 2 implies {
        &&& fin.slot_ok(
            fin.clauses@[i].watched0(),
            fin.clauses@[i].watched1(),
            Seq::empty(),
        )
        &&& fin.slot_ok(
            fin.clauses@[i].watched1(),
            fin.clauses@[i].watched0(),
            Seq::empty(),
        )
    } by {
        let c2 = fin.clauses@[i];
        let c1 = o.clauses@[i];
        assert(pair_from(c2, c1, o.assign@));
        assert(o.slot_ok(c1.watched0(), c1.watched1(), Seq::empty()));
        assert(o.slot_ok(c1.watched1(), c1.watched0(), Seq::empty()));
        // the two states agree on everything the slot predicate reads
        assert forall|wt: int, wf2: int| o.ord_ok(wt, wf2) implies fin.ord_ok(wt, wf2) by {
            assert forall|k: int|
                0 <= k < fin.trail_limits@.len() && fin.assigned_since(
                    wt,
                    (#[trigger] fin.trail_limits@[k]) as int,
                ) implies fin.assigned_since(wf2, fin.trail_limits@[k] as int) by {
                assert(o.assigned_since(wt, o.trail_limits@[k] as int));
                assert(o.assigned_since(wf2, o.trail_limits@[k] as int));
            }
        }
    }
}

/// Two clause stores with the same literal lists carry the same formula.
pub proof fn lemma_formula_eq(c1: Seq<Clause>, c2: Seq<Clause>)
    requires
        c1.len() == c2.len(),
        forall|i: int| 0 <= i < c1.len() ==> (#[trigger] c1[i]).lits@ == c2[i].lits@,
    ensures
        formula_of(c1) == formula_of(c2),
{
    assert(formula_of(c1) =~= formula_of(c2));
}

pub struct Solver {
    /// The clause store, fixed after construction up to watch slots and visit
    /// counters.
    pub clauses: Vec<Clause>,
    /// Tri-state assignment table, indexed by variable; slot 0 is reserved.
    pub assign: Vec<Option<bool>>,
    /// Watch index: bucket `watch_idx(l)` lists the clauses watching `l`.
    pub watch: Vec<Vec<usize>>,
    /// Append-only log of assigned variables, in assignment order.
    pub trail: Vec<usize>,
    /// Checkpoint offsets into the trail, one per decision level.
    pub trail_limits: Vec<usize>,
    /// Implication candidates not yet probed.
    pub pending: Vec<ImpEdge>,
    /// Implications proven by failed-literal probing (informational only).
    pub proven: Vec<ImpEdge>,
}

impl Solver {
    /// Number of declared variables.
    pub open spec fn num_vars(self) -> int {
        self.assign@.len() - 1
    }

    /// The stored formula: the literal lists of all clauses.
    pub open spec fn formula(self) -> Seq<Seq<i32>> {
        formula_of(self.clauses@)
    }

    /// Variable `v` occurs on the trail.
    pub open spec fn trail_has(self, v: int) -> bool {
        exists|t: int| 0 <= t < self.trail@.len() && self.trail@[t] as int == v
    }

    /// The trail is exactly the set of assigned variables, in assignment
    /// order and without repetition.
    pub open spec fn trail_wf(self) -> bool {
        &&& forall|t: int|
            0 <= t < self.trail@.len() ==> 1 <= (#[trigger] self.trail@[t]) as int
                <= self.num_vars()
        &&& forall|t: int, u: int|
            0 <= t < u < self.trail@.len() ==> self.trail@[t] != self.trail@[u]
        &&& forall|t: int|
            0 <= t < self.trail@.len() ==> self.assign@[(#[trigger] self.trail@[t]) as int]
                is Some
        &&& forall|v: int|
            1 <= v <= self.num_vars() && (#[trigger] self.assign@[v]) is Some
                ==> self.trail_has(v)
    }

    /// Checkpoints never point past the trail and never decrease.
    pub open spec fn limits_wf(self) -> bool {
        &&& forall|i: int|
            0 <= i < self.trail_limits@.len() ==> (#[trigger] self.trail_limits@[i]) as int
                <= self.trail@.len()
        &&& forall|i: int, j: int|
            0 <= i <= j < self.trail_limits@.len() ==> self.trail_limits@[i]
                <= self.trail_limits@[j]
    }

    /// An implication edge speaks of declared variables and comes from a
    /// clause of the probe shape.
    pub open spec fn edge_wf(self, e: ImpEdge) -> bool {
        &&& 1 <= e.from as int <= self.num_vars()
        &&& 1 <= e.to as int <= self.num_vars()
        &&& exists|i: int|
            0 <= i < self.clauses@.len() && probe_shape(
                #[trigger] self.clauses@[i].lits@,
                e.from as int,
                e.to as int,
            )
    }

    /// Structural well-formedness of the whole solver state.
    pub open spec fn wf_core(self) -> bool {
        &&& self.assign@.len() >= 1
        &&& self.num_vars() <= i32::MAX as int
        &&& self.assign@[0] is None
        &&& self.watch@.len() == 2 * self.assign@.len()
        &&& forall|i: int|
            0 <= i < self.clauses@.len() ==> (#[trigger] self.clauses@[i]).wf(self.num_vars())
        &&& self.trail_wf()
        &&& self.limits_wf()
        &&& forall|e: int|
            0 <= e < self.pending@.len() ==> self.edge_wf(#[trigger] self.pending@[e])
        &&& forall|e: int|
            0 <= e < self.proven@.len() ==> self.edge_wf(#[trigger] self.proven@[e])
    }

    /// The watch index invariant: soundness, coverage and no duplicates.
    pub open spec fn watch_wf(self) -> bool {
        &&& watch_sound(self.clauses@, buckets_of(self.watch@))
        &&& watch_cover(self.clauses@, buckets_of(self.watch@))
        &&& watch_nodup(buckets_of(self.watch@))
    }

    /// Every clause whose two watched literals are both false has one of the
    /// falsifying assignments still pending in `pending` (a literal queued for
    /// propagation). With `pending` empty this is the at-rest watch invariant:
    /// no clause watches two false literals.
    pub open spec fn watches_ok_pending(self, pending: Seq<i32>) -> bool {
        forall|i: int|
            0 <= i < self.clauses@.len() && (#[trigger] self.clauses@[i]).lits@.len() >= 2
                && lit_false(self.assign@, self.clauses@[i].watched0()) && lit_false(
                self.assign@,
                self.clauses@[i].watched1(),
            ) ==> pending.contains(neg_lit(self.clauses@[i].watched0())) || pending.contains(
                neg_lit(self.clauses@[i].watched1()),
            )
    }

    /// The at-rest watch invariant.
    pub open spec fn watches_ok(self) -> bool {
        self.watches_ok_pending(Seq::empty())
    }

    /// Variable `v` occupies a trail position at or beyond `lim`.
    pub open spec fn assigned_since(self, v: int, lim: int) -> bool {
        exists|t: int| lim <= t < self.trail@.len() && self.trail@[t] as int == v
    }

    /// The satisfying watch was assigned at a decision level no deeper than
    /// the falsified one: every checkpoint below the true watch's trail
    /// position also lies below the false watch's, so an undo never clears
    /// the true watch while keeping the false one.
    pub open spec fn ord_ok(self, wtrue: int, wfalse: int) -> bool {
        forall|k: int|
            0 <= k < self.trail_limits@.len() && self.assigned_since(
                wtrue,
                (#[trigger] self.trail_limits@[k]) as int,
            ) ==> self.assigned_since(wfalse, self.trail_limits@[k] as int)
    }

    /// One watched literal is in the strong state: not false, or its
    /// falsifier still pending, or its partner true and level-ordered below
    /// it.
    pub open spec fn slot_ok(self, ws: i32, wo: i32, pending: Seq<i32>) -> bool {
        lit_false(self.assign@, ws) ==> pending.contains(neg_lit(ws)) || (lit_true(
            self.assign@,
            wo,
        ) && self.ord_ok(lit_var(wo), lit_var(ws)))
    }

    /// The strong two-watched-literal invariant, relative to a set of
    /// literals whose propagation is still pending: a clause may watch a
    /// false literal only while that literal's falsifier is pending, or if
    /// its partner is true and survives every undo that keeps the false one.
    pub open spec fn strong_pending(self, pending: Seq<i32>) -> bool {
        forall|i: int|
            0 <= i < self.clauses@.len() && (#[trigger] self.clauses@[i]).lits@.len() >= 2 ==> {
                &&& self.slot_ok(
                    self.clauses@[i].watched0(),
                    self.clauses@[i].watched1(),
                    pending,
                )
                &&& self.slot_ok(
                    self.clauses@[i].watched1(),
                    self.clauses@[i].watched0(),
                    pending,
                )
            }
    }

    /// The strong watch invariant at rest.
    pub open spec fn strong_rest(self) -> bool {
        self.strong_pending(Seq::empty())
    }

    /// Every unit clause is already satisfied (the load-time unit pass saw
    /// to it, and the search never undoes below that point).
    pub open spec fn units_true(self) -> bool {
        forall|i: int|
            0 <= i < self.clauses@.len() && (#[trigger] self.clauses@[i]).lits@.len() == 1
                ==> lit_true(self.assign@, self.clauses@[i].lits@[0])
    }

    /// No clause is empty (an empty clause makes the formula unsatisfiable
    /// before any search starts).
    pub open spec fn no_empty_clause(self) -> bool {
        forall|i: int| 0 <= i < self.clauses@.len() ==> (#[trigger] self.clauses@[i]).lits@.len()
            > 0
    }

    /// Full invariant between search steps.
    pub open spec fn inv(self) -> bool {
        self.wf_core() && self.watch_wf() && self.watches_ok()
    }

    /// Watch-list index of a literal.
    #[inline]
    pub fn idx(l: i32) -> (r: usize)
        requires
            l != 0,
            lit_var(l) <= i32::MAX as int,
            2 * lit_var(l) + 1 <= usize::MAX as int,
        ensures
            r as int == watch_idx(l),
    {
        if l < 0 {
            (-l) as usize * 2 + 1
        } else {
            l as usize * 2
        }
    }

    /// The truth value of literal `l` under `assign`: `None` while the
    /// variable is unassigned.
    #[inline]
    pub fn get_val(assign: &Vec<Option<bool>>, l: i32) -> (r: Option<bool>)
        requires
            l != 0,
            lit_var(l) <= i32::MAX as int,
            lit_var(l) < assign@.len(),
        ensures
            r == Some(true) <==> lit_true(assign@, l),
            r == Some(false) <==> lit_false(assign@, l),
            r is None <==> assign@[lit_var(l)] is None,
    {
        let v = if l < 0 {
            (-l) as usize
        } else {
            l as usize
        };
        match assign[v] {
            None => None,
            Some(b) => Some(b == (l > 0)),
        }
    }

    /// The engine's single assignment primitive: make `l` true and log its
    /// variable on the trail. Assignments are cleared only by trail undo.
    pub fn assign_lit(&mut self, l: i32)
        requires
            old(self).wf_core(),
            valid_lit(l, old(self).num_vars()),
            old(self).assign@[lit_var(l)] is None,
        ensures
            final(self).wf_core(),
            final(self).assign@ == old(self).assign@.update(lit_var(l), Some(l > 0)),
            final(self).trail@ == old(self).trail@.push(lit_var(l) as usize),
            lit_true(final(self).assign@, l),
            final(self).clauses@ == old(self).clauses@,
            final(self).watch@ == old(self).watch@,
            final(self).trail_limits@ == old(self).trail_limits@,
            final(self).pending@ == old(self).pending@,
            final(self).proven@ == old(self).proven@,
    {
        let v = if l < 0 {
            (-l) as usize
        } else {
            l as usize
        };
        self.assign[v] = Some(l > 0);
        self.trail.push(v);
        proof {
            let s = *self;
            let o = *old(self);
            assert forall|t: int, u: int|
                0 <= t < u < s.trail@.len() implies s.trail@[t] != s.trail@[u] by {
                if u == s.trail@.len() - 1 {
                    assert(o.assign@[o.trail@[t] as int] is Some);
                }
            }
            lemma_edges_wf_preserved(o, s);
            assert forall|w: int|
                1 <= w <= s.num_vars() && (#[trigger] s.assign@[w]) is Some implies s.trail_has(
                w,
            ) by {
                if w == v as int {
                    assert(s.trail@[s.trail@.len() - 1] as int == w);
                } else {
                    assert(o.assign@[w] is Some);
                    let t = choose|t: int|
                        0 <= t < o.trail@.len() && o.trail@[t] as int == w;
                    assert(s.trail@[t] as int == w);
                }
            }
        }
    }

    /// Undo to decision level `k`: pop the trail back to the checkpoint
    /// recorded at level `k`, unassigning each popped variable, then discard
    /// the checkpoints beyond `k`. This is the sole mechanism for reverting
    /// state: every variable assigned at or after the checkpoint is cleared,
    /// and every variable assigned strictly before it keeps its value.
    pub fn undo_to_level(&mut self, k: usize)
        requires
            old(self).wf_core(),
            k < old(self).trail_limits@.len(),
        ensures
            final(self).wf_core(),
            final(self).trail@ == old(self).trail@.take(
                old(self).trail_limits@[k as int] as int,
            ),
            final(self).trail_limits@ == old(self).trail_limits@.take(k as int),
            final(self).assign@.len() == old(self).assign@.len(),
            forall|v: int|
                0 <= v < old(self).assign@.len() ==> final(self).assign@[v] == (
                if exists|t: int|
                    old(self).trail_limits@[k as int] as int <= t < old(self).trail@.len()
                        && old(self).trail@[t] as int == v {
                    None::<bool>
                } else {
                    old(self).assign@[v]
                }),
            final(self).clauses@ == old(self).clauses@,
            final(self).watch@ == old(self).watch@,
            final(self).pending@ == old(self).pending@,
            final(self).proven@ == old(self).proven@,
    {
        let target = self.trail_limits[k];
        let ghost o = *old(self);
        let ghost tgt = target as int;
        while self.trail.len() > target
            invariant
                o.wf_core(),
                tgt == o.trail_limits@[k as int] as int,
                target as int == tgt,
                k < o.trail_limits@.len(),
                tgt <= self.trail@.len() <= o.trail@.len(),
                self.trail@ == o.trail@.take(self.trail@.len() as int),
                self.assign@.len() == o.assign@.len(),
                forall|v: int|
                    0 <= v < o.assign@.len() ==> self.assign@[v] == (
                    if exists|t: int|
                        self.trail@.len() <= t < o.trail@.len() && o.trail@[t] as int == v {
                        None::<bool>
                    } else {
                        o.assign@[v]
                    }),
                self.clauses@ == o.clauses@,
                self.watch@ == o.watch@,
                self.trail_limits@ == o.trail_limits@,
                self.pending@ == o.pending@,
                self.proven@ == o.proven@,
            decreases self.trail@.len(),
        {
            let ghost prev = *self;
            let v = self.trail.pop().unwrap();
            self.assign[v] = None;
            proof {
                let n = self.trail@.len() as int;
                assert(prev.trail@[n] as usize == v);
                assert(self.trail@ =~= o.trail@.take(n));
                assert forall|w: int| 0 <= w < o.assign@.len() implies self.assign@[w] == (
                if exists|t: int| n <= t < o.trail@.len() && o.trail@[t] as int == w {
                    None::<bool>
                } else {
                    o.assign@[w]
                }) by {
                    if w == v as int {
                        assert(o.trail@[n] as int == w);
                    } else {
                        assert(self.assign@[w] == prev.assign@[w]);
                        if exists|t: int| n <= t < o.trail@.len() && o.trail@[t] as int == w {
                            let t = choose|t: int|
                                n <= t < o.trail@.len() && o.trail@[t] as int == w;
                            assert(t != n);
                            assert(n + 1 <= t < o.trail@.len() && o.trail@[t] as int == w);
                        }
                    }
                }
            }
        }
        self.trail_limits.truncate(k);
        proof {
            let s = *self;
            assert(s.trail@.len() == tgt) by {
                assert(o.trail_limits@[k as int] as int <= o.trail@.len());
            }
            assert(s.trail@ =~= o.trail@.take(tgt));
            assert(s.trail_limits@ =~= o.trail_limits@.take(k as int));
            // Structural invariants of the shortened state.
            assert forall|i: int| 0 <= i < s.trail_limits@.len() implies (
            #[trigger] s.trail_limits@[i]) as int <= s.trail@.len() by {
                assert(o.trail_limits@[i] <= o.trail_limits@[k as int]);
            }
            assert forall|w: int|
                1 <= w <= s.num_vars() && (#[trigger] s.assign@[w]) is Some implies s.trail_has(
                w,
            ) by {
                assert(o.assign@[w] is Some);
                let t = choose|t: int| 0 <= t < o.trail@.len() && o.trail@[t] as int == w;
                if t >= tgt {
                    assert(s.assign@[w] is None);
                } else {
                    assert(s.trail@[t] as int == w);
                }
            }
            assert forall|t: int|
                0 <= t < s.trail@.len() implies s.assign@[(#[trigger] s.trail@[t]) as int]
                is Some by {
                let w = s.trail@[t] as int;
                assert(o.trail@[t] as int == w);
                assert(o.assign@[w] is Some);
                if exists|u: int| tgt <= u < o.trail@.len() && o.trail@[u] as int == w {
                    let u = choose|u: int| tgt <= u < o.trail@.len() && o.trail@[u] as int == w;
                    assert(o.trail@[t] == o.trail@[u] && t < u);
                }
            }
            lemma_edges_wf_preserved(o, s);
        }
    }
}

} // verus!
