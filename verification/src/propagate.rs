//! The propagation engine: processing one clause against a falsified watched
//! literal, draining one watch list, and driving unit propagation to a fixed
//! point or a conflict.

use vstd::prelude::*;

use crate::logic::assign_extends;
use crate::logic::assign_total;
use crate::logic::clause_holds;
use crate::logic::lit_false;
use crate::logic::lit_true;
use crate::logic::lit_var;
use crate::logic::valid_lit;
use crate::solver::buckets_of;
use crate::solver::loop_slot_ok;
use crate::solver::watch_idx;
use crate::solver::watch_nodup;
use crate::solver::watch_sound;
use crate::solver::Solver;

verus! {

/// After one batch step of `process_watch_list`, a clause other than the one
/// just processed keeps its registration in the virtual watch state (the real
/// buckets with the drained one spliced back).
proof fn lemma_cover_entry_after_step(
    wpre: Seq<Seq<usize>>,
    wcur: Seq<Seq<usize>>,
    vpre: Seq<Seq<usize>>,
    vcur: Seq<Seq<usize>>,
    keptpre: Seq<usize>,
    keptcur: Seq<usize>,
    bat: Seq<usize>,
    ii: int,
    fidx: int,
    cid: int,
    bm: int,
    x: int,
)
    requires
        0 <= fidx < wpre.len(),
        wcur.len() == wpre.len(),
        vpre == wpre.update(fidx, keptpre + bat.skip(ii)),
        vcur == wcur.update(fidx, keptcur + bat.skip(ii + 1)),
        forall|y: int| 0 <= y < wpre.len() ==> (#[trigger] wpre[y]).len() <= wcur[y].len(),
        forall|y: int, k: int|
            0 <= y < wpre.len() && 0 <= k < wpre[y].len() ==> (#[trigger] wcur[y][k])
                == wpre[y][k],
        keptcur == keptpre,
        0 <= ii < bat.len(),
        bat[ii] == cid,
        crate::solver::bucket_has(vpre, bm, x),
        x != cid,
    ensures
        crate::solver::bucket_has(vcur, bm, x),
{
    if bm != fidx {
        assert(vpre[bm] == wpre[bm]);
        crate::solver::lemma_bucket_has_mono(wpre, wcur, bm, x);
        assert(vcur[bm] == wcur[bm]);
    } else {
        let p = choose|p: int| 0 <= p < vpre[bm].len() && vpre[bm][p] == x;
        if p < keptpre.len() {
            assert(vcur[bm][p] == x);
        } else {
            let j = ii + (p - keptpre.len());
            assert(bat[j] == x);
            assert(j != ii);
            assert(vcur[bm][keptcur.len() + (j - ii - 1)] == bat.skip(ii + 1)[j - ii - 1]);
            assert(bat.skip(ii + 1)[j - ii - 1] == x);
        }
    }
}

/// Entry facts for draining one watch list: the batch holds exactly the
/// clauses watching the falsified literal, coverage holds once the batch is
/// (virtually) spliced back, and both the plain and the strong watch
/// invariants hold with the batch as extra pending material.
proof fn lemma_process_entry(
    o: Solver,
    s: Solver,
    bat: Seq<usize>,
    q0: Seq<i32>,
    lit: i32,
    falsified: i32,
    fidx: int,
)
    requires
        o.wf_core(),
        o.watch_wf(),
        valid_lit(lit, o.num_vars()),
        lit_true(o.assign@, lit),
        falsified == crate::solver::neg_lit(lit),
        crate::solver::neg_lit(falsified) == lit,
        valid_lit(falsified, o.num_vars()),
        fidx == watch_idx(falsified),
        lit_false(o.assign@, falsified),
        o.watches_ok_pending(q0.push(lit)),
        o.strong_pending(q0.push(lit)),
        bat == buckets_of(o.watch@)[fidx],
        s.clauses@ == o.clauses@,
        s.assign@ == o.assign@,
        s.trail@ == o.trail@,
        s.trail_limits@ == o.trail_limits@,
        s.watch@.len() == o.watch@.len(),
        buckets_of(s.watch@) == buckets_of(o.watch@).update(fidx, Seq::<usize>::empty()),
    ensures
        forall|j: int|
            0 <= j < bat.len() ==> (#[trigger] bat[j]) < o.clauses@.len()
                && o.clauses@[bat[j] as int].watches(falsified),
        crate::solver::watch_cover(
            s.clauses@,
            buckets_of(s.watch@).update(fidx, Seq::<usize>::empty() + bat.skip(0)),
        ),
        forall|x: int|
            0 <= x < s.clauses@.len() && (#[trigger] s.clauses@[x]).lits@.len() >= 2
                && lit_false(s.assign@, s.clauses@[x].watched0()) && lit_false(
                s.assign@,
                s.clauses@[x].watched1(),
            ) ==> {
                ||| q0.contains(crate::solver::neg_lit(s.clauses@[x].watched0()))
                ||| q0.contains(crate::solver::neg_lit(s.clauses@[x].watched1()))
                ||| (s.clauses@[x].watches(falsified) && exists|j: int|
                    0 <= j < bat.len() && bat[j] == x)
            },
        forall|x: int|
            0 <= x < s.clauses@.len() && (#[trigger] s.clauses@[x]).lits@.len() >= 2
                ==> loop_slot_ok(
                s,
                s.clauses@[x].watched0(),
                s.clauses@[x].watched1(),
                q0,
                falsified,
                exists|j: int| 0 <= j < bat.len() && bat[j] == x,
            ) && loop_slot_ok(
                s,
                s.clauses@[x].watched1(),
                s.clauses@[x].watched0(),
                q0,
                falsified,
                exists|j: int| 0 <= j < bat.len() && bat[j] == x,
            ),
{

            // with the batch spliced back in, the watch state is the original
            // one, so coverage and the entry facts carry over from it
            assert(Seq::<usize>::empty() + bat.skip(0) =~= bat);
            assert(buckets_of(s.watch@).update(fidx, Seq::<usize>::empty() + bat.skip(
                0,
            )) =~= buckets_of(o.watch@));
            assert forall|j: int| 0 <= j < bat.len() implies (#[trigger] bat[j])
                < o.clauses@.len() && o.clauses@[bat[j] as int].watches(falsified) by {
                let c = o.clauses@[bat[j] as int];
                assert(watch_idx(c.watched0()) == fidx || watch_idx(c.watched1())
                    == fidx);
                if watch_idx(c.watched0()) == fidx {
                    crate::construct::lemma_watch_idx_inj(c.watched0(), falsified);
                } else {
                    crate::construct::lemma_watch_idx_inj(c.watched1(), falsified);
                }
            }
            // the entry witness: a clause with both watches false either has a
            // queued witness already or watches the falsified literal itself,
            // in which case it sits in the batch
            assert forall|x: int|
                0 <= x < s.clauses@.len() && (#[trigger] s.clauses@[x]).lits@.len() >= 2
                    && lit_false(s.assign@, s.clauses@[x].watched0()) && lit_false(
                s.assign@,
                s.clauses@[x].watched1(),
            ) implies {
                ||| q0.contains(crate::solver::neg_lit(s.clauses@[x].watched0()))
                ||| q0.contains(crate::solver::neg_lit(s.clauses@[x].watched1()))
                ||| (s.clauses@[x].watches(falsified) && exists|j: int|
                    0 <= j < bat.len() && bat[j] == x)
            } by {
                let cx = s.clauses@[x];
                let p = q0.push(lit);
                assert(p.contains(crate::solver::neg_lit(cx.watched0())) || p.contains(
                    crate::solver::neg_lit(cx.watched1()),
                ));
                if p.contains(crate::solver::neg_lit(cx.watched0())) {
                    let k = choose|k: int|
                        0 <= k < p.len() && p[k] == crate::solver::neg_lit(cx.watched0());
                    if k < q0.len() {
                        assert(q0[k] == crate::solver::neg_lit(cx.watched0()));
                    } else {
                        assert(crate::solver::neg_lit(cx.watched0()) == lit);
                        assert(cx.watched0() == falsified);
                        assert(crate::solver::bucket_has(buckets_of(o.watch@), fidx, x));
                    }
                } else {
                    let k = choose|k: int|
                        0 <= k < p.len() && p[k] == crate::solver::neg_lit(cx.watched1());
                    if k < q0.len() {
                        assert(q0[k] == crate::solver::neg_lit(cx.watched1()));
                    } else {
                        assert(crate::solver::neg_lit(cx.watched1()) == lit);
                        assert(cx.watched1() == falsified);
                        assert(crate::solver::bucket_has(buckets_of(o.watch@), fidx, x));
                    }
                }
            }
            // the strong slots hold at entry, with the batch as extra pending
            assert forall|x: int|
                0 <= x < s.clauses@.len() && (#[trigger] s.clauses@[x]).lits@.len() >= 2
                    implies loop_slot_ok(
                s,
                s.clauses@[x].watched0(),
                s.clauses@[x].watched1(),
                q0,
                falsified,
                exists|j: int| 0 <= j < bat.len() && bat[j] == x,
            ) && loop_slot_ok(
                s,
                s.clauses@[x].watched1(),
                s.clauses@[x].watched0(),
                q0,
                falsified,
                exists|j: int| 0 <= j < bat.len() && bat[j] == x,
            ) by {
                let cx = s.clauses@[x];
                let p = q0.push(lit);
                if lit_false(s.assign@, cx.watched0()) {
                    assert(o.slot_ok(cx.watched0(), cx.watched1(), p));
                    if p.contains(crate::solver::neg_lit(cx.watched0())) {
                        let k = choose|k: int|
                            0 <= k < p.len() && p[k] == crate::solver::neg_lit(cx.watched0());
                        if k < q0.len() {
                            assert(q0[k] == crate::solver::neg_lit(cx.watched0()));
                        } else {
                            assert(crate::solver::neg_lit(cx.watched0()) == lit);
                            assert(cx.watched0() == falsified);
                            assert(crate::solver::bucket_has(
                                buckets_of(o.watch@),
                                fidx,
                                x,
                            ));
                        }
                    }
                }
                if lit_false(s.assign@, cx.watched1()) {
                    assert(o.slot_ok(cx.watched1(), cx.watched0(), p));
                    if p.contains(crate::solver::neg_lit(cx.watched1())) {
                        let k = choose|k: int|
                            0 <= k < p.len() && p[k] == crate::solver::neg_lit(cx.watched1());
                        if k < q0.len() {
                            assert(q0[k] == crate::solver::neg_lit(cx.watched1()));
                        } else {
                            assert(crate::solver::neg_lit(cx.watched1()) == lit);
                            assert(cx.watched1() == falsified);
                            assert(crate::solver::bucket_has(
                                buckets_of(o.watch@),
                                fidx,
                                x,
                            ));
                        }
                    }
                }
            }
}

impl Solver {
    /// Process one clause from the watch list of `falsified`. Returns
    /// `(keep, conflict)`: whether the clause stays in that watch list, and
    /// whether it is falsified outright under the current assignment.
    #[verifier::rlimit(50)]
    fn update_clause(&mut self, cid: usize, falsified: i32, q: &mut Vec<i32>) -> (r: (bool, bool))
        requires
            old(self).wf_core(),
            cid < old(self).clauses@.len(),
            valid_lit(falsified, old(self).num_vars()),
            lit_false(old(self).assign@, falsified),
            old(self).clauses@[cid as int].watches(falsified),
            watch_sound(old(self).clauses@, buckets_of(old(self).watch@)),
            watch_nodup(buckets_of(old(self).watch@)),
            // the caller has drained the falsified literal's watch list, so
            // this clause is not registered there at the moment
            !crate::solver::bucket_has(
                buckets_of(old(self).watch@),
                watch_idx(falsified),
                cid as int,
            ),
        ensures
            final(self).wf_core(),
            watch_sound(final(self).clauses@, buckets_of(final(self).watch@)),
            watch_nodup(buckets_of(final(self).watch@)),
            final(self).clauses@.len() == old(self).clauses@.len(),
            forall|i: int|
                0 <= i < old(self).clauses@.len() && i != cid ==> final(self).clauses@[i] == old(
                    self,
                ).clauses@[i],
            final(self).clauses@[cid as int].lits@ == old(self).clauses@[cid as int].lits@,
            // the diagnostic counter records this inspection (it saturates
            // instead of wrapping at the type's ceiling)
            final(self).clauses@[cid as int].visit_count as int == (if old(
                self,
            ).clauses@[cid as int].visit_count < usize::MAX {
                old(self).clauses@[cid as int].visit_count as int + 1
            } else {
                old(self).clauses@[cid as int].visit_count as int
            }),
            final(self).assign@.len() == old(self).assign@.len(),
            final(self).trail_limits@ == old(self).trail_limits@,
            final(self).pending@ == old(self).pending@,
            final(self).proven@ == old(self).proven@,
            final(self).watch@.len() == old(self).watch@.len(),
            // the falsified literal sits at the second watch slot after the
            // symmetric swap, so the first slot is the clause's other watch
            (old(self).clauses@[cid as int].watched0() == falsified
                ==> final(self).clauses@[cid as int].watched0()
                == old(self).clauses@[cid as int].watched1()),
            (old(self).clauses@[cid as int].watched0() != falsified
                ==> final(self).clauses@[cid as int].watched0()
                == old(self).clauses@[cid as int].watched0()),
            // assignments only grow
            forall|v: int|
                0 <= v < old(self).assign@.len() && (#[trigger] old(self).assign@[v]) is Some
                    ==> final(self).assign@[v] == old(self).assign@[v],
            // a kept clause keeps its watched pair, at most with the slots
            // swapped
            r.0 ==> ((final(self).clauses@[cid as int].watched0()
                == old(self).clauses@[cid as int].watched0()
                && final(self).clauses@[cid as int].watched1()
                == old(self).clauses@[cid as int].watched1()) || (
            final(self).clauses@[cid as int].watched0()
                == old(self).clauses@[cid as int].watched1()
                && final(self).clauses@[cid as int].watched1()
                == old(self).clauses@[cid as int].watched0())),
            // whatever was assigned is forced by the clause
            forall|b: Seq<Option<bool>>|
                assign_extends(b, old(self).assign@) && assign_total(b) && clause_holds(
                    b,
                    old(self).clauses@[cid as int].lits@,
                ) ==> assign_extends(b, final(self).assign@),
            // and is a unit consequence: any clean unit-closed extension of
            // the entry assignment already contains it
            forall|a: Seq<Option<bool>>|
                assign_extends(a, old(self).assign@) && crate::logic::up_closed(
                    old(self).formula(),
                    a,
                ) && !crate::logic::has_false_clause(old(self).formula(), a) ==> assign_extends(
                    a,
                    final(self).assign@,
                ),
            // conflict: the clause is falsified outright, nothing was changed
            r.1 ==> {
                &&& r.0
                &&& final(self).assign@ == old(self).assign@
                &&& final(q)@ == old(q)@
                &&& final(self).trail@ == old(self).trail@
                &&& final(self).watch@ == old(self).watch@
                &&& final(self).clauses@[cid as int].watches(falsified)
                &&& forall|j: int|
                    0 <= j < old(self).clauses@[cid as int].lits@.len() ==> lit_false(
                        old(self).assign@,
                        #[trigger] old(self).clauses@[cid as int].lits@[j],
                    )
            },
            // kept without conflict: satisfied at the first watch, either
            // already or by the unit assignment just made
            r.0 && !r.1 ==> {
                &&& final(self).clauses@[cid as int].watches(falsified)
                &&& lit_true(final(self).assign@, final(self).clauses@[cid as int].watched0())
                &&& {
                    ||| {
                        &&& final(self).assign@ == old(self).assign@
                        &&& final(q)@ == old(q)@
                        &&& final(self).trail@ == old(self).trail@
                        &&& final(self).watch@ == old(self).watch@
                    }
                    ||| {
                        let u = final(self).clauses@[cid as int].watched0();
                        &&& valid_lit(u, old(self).num_vars())
                        &&& old(self).assign@[lit_var(u)] is None
                        &&& final(self).assign@ == old(self).assign@.update(
                            lit_var(u),
                            Some(u > 0),
                        )
                        &&& final(q)@ == old(q)@.push(u)
                        &&& final(self).trail@ == old(self).trail@.push(lit_var(u) as usize)
                        &&& final(self).watch@ == old(self).watch@
                    }
                }
            },
            // moved: the second watch now observes an unfalsified literal and
            // the clause left the falsified literal's watch list
            !r.0 ==> {
                &&& !r.1
                &&& final(self).assign@ == old(self).assign@
                &&& final(q)@ == old(q)@
                &&& final(self).trail@ == old(self).trail@
                &&& final(self).clauses@[cid as int].lits@.len() >= 2
                &&& !final(self).clauses@[cid as int].watches(falsified)
                &&& !lit_false(final(self).assign@, final(self).clauses@[cid as int].watched1())
                &&& buckets_of(final(self).watch@) == buckets_of(old(self).watch@).update(
                    watch_idx(final(self).clauses@[cid as int].watched1()),
                    buckets_of(old(self).watch@)[watch_idx(
                        final(self).clauses@[cid as int].watched1(),
                    )].push(cid),
                )
            },
    {
        let ghost o = *old(self);
        let ghost c1 = o.clauses@[cid as int];
        // diagnostic counter; it saturates rather than wraps
        let vc = self.clauses[cid].visit_count;
        if vc < usize::MAX {
            self.clauses[cid].visit_count = vc + 1;
        }
        // symmetric handling: keep the falsified literal at the second slot
        if self.clauses[cid].lits[self.clauses[cid].w0] == falsified {
            let t = self.clauses[cid].w0;
            self.clauses[cid].w0 = self.clauses[cid].w1;
            self.clauses[cid].w1 = t;
        }
        proof {
            crate::solver::lemma_edges_wf_preserved(o, *self);
            let c = self.clauses@[cid as int];
            assert(c.lits@[c.w1 as int] == falsified);
            assert(c.wf(self.num_vars()));
        }
        let w0lit = self.clauses[cid].lits[self.clauses[cid].w0];
        if let Some(true) = Self::get_val(&self.assign, w0lit) {
            // satisfied: stay registered under the falsified literal's list
            return (true, false);
        }
        let j_opt = self.clauses[cid].find_replacement_watch(&self.assign);
        if let Some(j) = j_opt {
            // the core two-watched-literals step: move the second watch
            let ghost before = *self;
            self.clauses[cid].w1 = j;
            let nl = self.clauses[cid].lits[j];
            proof {
                let c = self.clauses@[cid as int];
                assert(nl != falsified && nl != w0lit) by {
                    assert(before.clauses@[cid as int].lits@[before.clauses@[cid as int].w1
                        as int] == falsified);
                }
                crate::solver::lemma_edges_wf_preserved(o, *self);
            }
            let b = Self::idx(nl);
            let ghost mid = *self;
            self.watch[b].push(cid);
            proof {
                crate::solver::lemma_edges_wf_preserved(o, *self);
                assert(buckets_of(self.watch@) =~= buckets_of(mid.watch@).update(
                    b as int,
                    buckets_of(mid.watch@)[b as int].push(cid),
                ));
                let wold = buckets_of(o.watch@);
                let wnew = buckets_of(self.watch@);
                let c2 = self.clauses@[cid as int];
                // the clause did not watch `nl` before, so it is not yet in
                // that bucket and no duplicate arises
                assert(!c1.watches(nl));
                assert forall|k: int| 0 <= k < wold[b as int].len() implies wold[b as int][k]
                    != cid by {
                    if wold[b as int][k] == cid {
                        assert(c1.watches(nl)) by {
                            crate::construct::lemma_watch_idx_inj(
                                if watch_idx(c1.watched0()) == b as int {
                                    c1.watched0()
                                } else {
                                    c1.watched1()
                                },
                                nl,
                            );
                        }
                    }
                }
                assert(watch_nodup(wnew));
                // soundness of every remaining bucket entry
                assert forall|x: int, k: int|
                    0 <= x < wnew.len() && 0 <= k < wnew[x].len() implies {
                    &&& (#[trigger] wnew[x][k]) < self.clauses@.len()
                    &&& self.clauses@[wnew[x][k] as int].lits@.len() > 0
                    &&& (watch_idx(self.clauses@[wnew[x][k] as int].watched0()) == x
                        || watch_idx(self.clauses@[wnew[x][k] as int].watched1()) == x)
                } by {
                    if x == b as int && k == wnew[x].len() - 1 {
                        assert(wnew[x][k] == cid);
                        assert(watch_idx(c2.watched1()) == x);
                    } else {
                        assert(wold[x][k] == wnew[x][k]);
                        let e = wold[x][k] as int;
                        if e == cid {
                            // the old registration watched one of the clause's
                            // two former literals; the falsified one is ruled
                            // out because that bucket is drained
                            assert(watch_idx(c1.watched0()) == x || watch_idx(c1.watched1())
                                == x);
                            if watch_idx(c1.watched0()) == x {
                                if c1.watched0() == falsified {
                                    assert(crate::solver::bucket_has(
                                        wold,
                                        watch_idx(falsified),
                                        cid as int,
                                    ));
                                    assert(false);
                                } else {
                                    assert(c2.watched0() == c1.watched0());
                                }
                            } else {
                                if c1.watched1() == falsified {
                                    assert(crate::solver::bucket_has(
                                        wold,
                                        watch_idx(falsified),
                                        cid as int,
                                    ));
                                    assert(false);
                                } else {
                                    assert(c2.watched0() == c1.watched1());
                                }
                            }
                        }
                    }
                }
                assert(watch_sound(self.clauses@, wnew));
            }
            return (false, false);
        }
        // no replacement: every literal other than the first watch is false
        proof {
            let c = self.clauses@[cid as int];
            assert forall|j2: int|
                0 <= j2 < c.lits@.len() && c.lits@[j2] != c.watched0() implies lit_false(
                self.assign@,
                #[trigger] c.lits@[j2],
            ) by {
                if j2 != c.w0 as int && j2 != c.w1 as int {
                } else {
                    assert(j2 == c.w1 as int);
                }
            }
        }
        match Self::get_val(&self.assign, w0lit) {
            Some(false) => {
                // conflict: the clause is false under the current assignment
                proof {
                    let c = self.clauses@[cid as int];
                    assert forall|j2: int| 0 <= j2 < c.lits@.len() implies lit_false(
                        self.assign@,
                        #[trigger] c.lits@[j2],
                    ) by {
                        if c.lits@[j2] == c.watched0() {
                        }
                    }
                }
                (true, true)
            },
            None => {
                // unit: the first watch is forced true
                let ghost pre = *self;
                self.assign_lit(w0lit);
                q.push(w0lit);
                proof {
                    let c = self.clauses@[cid as int];
                    assert(c == pre.clauses@[cid as int]);
                    assert forall|b2: Seq<Option<bool>>|
                        assign_extends(b2, o.assign@) && assign_total(b2) && clause_holds(
                            b2,
                            c1.lits@,
                        ) implies assign_extends(b2, self.assign@) by {
                        let j2 = choose|j2: int|
                            0 <= j2 < c1.lits@.len() && lit_true(b2, c1.lits@[j2]);
                        if c1.lits@[j2] != c.watched0() {
                            assert(lit_false(o.assign@, c1.lits@[j2]));
                            assert(b2[lit_var(c1.lits@[j2])] == o.assign@[lit_var(
                                c1.lits@[j2],
                            )]);
                            assert(false);
                        } else {
                            assert(lit_true(b2, c.watched0()));
                        }
                    }
                    // the assignment is the unit rule's conclusion on this
                    // clause: every clean unit-closed extension contains it
                    let u = c.watched0();
                    assert forall|a2: Seq<Option<bool>>|
                        assign_extends(a2, o.assign@) && crate::logic::up_closed(
                            o.formula(),
                            a2,
                        ) && !crate::logic::has_false_clause(o.formula(), a2) implies
                        assign_extends(a2, self.assign@) by {
                        assert(o.formula()[cid as int] == c1.lits@);
                        let jp = c.w0 as int;
                        assert(c1.lits@[jp] == u);
                        assert forall|k: int|
                            0 <= k < c1.lits@.len() && k != jp implies lit_false(
                            a2,
                            #[trigger] c1.lits@[k],
                        ) by {
                            assert(lit_false(o.assign@, c1.lits@[k]));
                            assert(a2[lit_var(c1.lits@[k])] == o.assign@[lit_var(
                                c1.lits@[k],
                            )]);
                        }
                        if lit_false(a2, u) {
                            assert(crate::logic::clause_all_false(a2, c1.lits@));
                            assert(crate::logic::has_false_clause(o.formula(), a2)) by {
                                assert(crate::logic::clause_all_false(
                                    a2,
                                    o.formula()[cid as int],
                                ));
                            }
                            assert(false);
                        }
                        assert(lit_true(a2, c1.lits@[jp]));
                        assert(a2[lit_var(u)] == Some(u > 0));
                    }
                }
                (true, false)
            },
            _ => (true, false),
        }
    }

    /// Drain the watch list of the literal falsified by `lit` becoming true,
    /// updating every clause registered there. Returns `false` on conflict; in
    /// that case the still-unprocessed part of the batch is spliced back so
    /// the watch index stays intact for the backtrack that follows.
    #[verifier::rlimit(100)]
    #[verifier::spinoff_prover]
    fn process_watch_list(
        &mut self,
        lit: i32,
        q: &mut Vec<i32>,
        Ghost(aref): Ghost<Seq<Option<bool>>>,
    ) -> (ok: bool)
        requires
            old(self).wf_core(),
            old(self).watch_wf(),
            valid_lit(lit, old(self).num_vars()),
            lit_true(old(self).assign@, lit),
            old(self).watches_ok_pending(old(q)@.push(lit)),
            old(self).strong_pending(old(q)@.push(lit)),
            // the falsifier and every queued literal were assigned at the
            // current decision level: above every checkpoint
            forall|k: int|
                0 <= k < old(self).trail_limits@.len() ==> old(self).assigned_since(
                    lit_var(lit),
                    (#[trigger] old(self).trail_limits@[k]) as int,
                ),
            forall|kq: int, k: int|
                0 <= kq < old(q)@.len() && 0 <= k < old(self).trail_limits@.len()
                    ==> old(self).assigned_since(
                    lit_var(#[trigger] old(q)@[kq]),
                    (#[trigger] old(self).trail_limits@[k]) as int,
                ),
            // the provenance reference: below the current assignment, with
            // the falsifier and all queued literals unassigned in it
            aref.len() == old(self).assign@.len(),
            forall|v: int|
                0 <= v < aref.len() && (#[trigger] aref[v]) is Some ==> old(self).assign@[v]
                    == aref[v],
            aref[lit_var(lit)] is None,
            forall|kq: int|
                0 <= kq < old(q)@.len() ==> aref[lit_var(#[trigger] old(q)@[kq])] is None,
        ensures
            final(self).wf_core(),
            final(self).watch_wf(),
            final(self).num_vars() == old(self).num_vars(),
            final(self).formula() == old(self).formula(),
            final(self).clauses@.len() == old(self).clauses@.len(),
            final(self).assign@.len() == old(self).assign@.len(),
            final(self).trail_limits@ == old(self).trail_limits@,
            final(self).pending@ == old(self).pending@,
            final(self).proven@ == old(self).proven@,
            forall|v: int|
                0 <= v < old(self).assign@.len() && (#[trigger] old(self).assign@[v]) is Some
                    ==> final(self).assign@[v] == old(self).assign@[v],
            old(self).trail@.is_prefix_of(final(self).trail@),
            forall|t: int|
                old(self).trail@.len() <= t < final(self).trail@.len() ==> old(self).assign@[(
                #[trigger] final(self).trail@[t]) as int] is None,
            old(q)@.is_prefix_of(final(q)@),
            forall|k: int|
                old(q)@.len() <= k < final(q)@.len() ==> valid_lit(
                    #[trigger] final(q)@[k],
                    old(self).num_vars(),
                ) && lit_true(final(self).assign@, final(q)@[k]) && (exists|t: int|
                    old(self).trail@.len() <= t < final(self).trail@.len()
                        && final(self).trail@[t] as int == lit_var(final(q)@[k])),
            crate::logic::count_none(final(self).assign@) + final(q)@.len()
                == crate::logic::count_none(old(self).assign@) + old(q)@.len(),
            forall|b: Seq<Option<bool>>|
                crate::logic::sat_extension(b, old(self).assign@, old(self).formula())
                    ==> assign_extends(b, final(self).assign@),
            // a clause not registered under the falsified literal is never
            // inspected here
            forall|x: int|
                0 <= x < old(self).clauses@.len() && !crate::solver::bucket_has(
                    buckets_of(old(self).watch@),
                    watch_idx(crate::solver::neg_lit(lit)),
                    x,
                ) ==> final(self).clauses@[x] == old(self).clauses@[x],
            // on a clean pass every registered clause was inspected exactly once
            ok ==> forall|x: int|
                0 <= x < old(self).clauses@.len() && crate::solver::bucket_has(
                    buckets_of(old(self).watch@),
                    watch_idx(crate::solver::neg_lit(lit)),
                    x,
                ) ==> (#[trigger] final(self).clauses@[x]).visit_count as int == (if old(
                    self,
                ).clauses@[x].visit_count < usize::MAX {
                    old(self).clauses@[x].visit_count as int + 1
                } else {
                    old(self).clauses@[x].visit_count as int
                }),
            ok ==> final(self).watches_ok_pending(final(q)@),
            ok ==> final(self).strong_pending(final(q)@),
            crate::solver::pairs_from(*final(self), *old(self), aref),
            forall|kq: int|
                0 <= kq < final(q)@.len() ==> aref[lit_var(#[trigger] final(q)@[kq])] is None,
            forall|kq: int, k: int|
                0 <= kq < final(q)@.len() && 0 <= k < old(self).trail_limits@.len()
                    ==> final(self).assigned_since(
                    lit_var(#[trigger] final(q)@[kq]),
                    (#[trigger] old(self).trail_limits@[k]) as int,
                ),
            // whatever was assigned here is forced by unit propagation
            forall|a: Seq<Option<bool>>|
                assign_extends(a, old(self).assign@) && crate::logic::up_closed(
                    old(self).formula(),
                    a,
                ) && !crate::logic::has_false_clause(old(self).formula(), a) ==> assign_extends(
                    a,
                    final(self).assign@,
                ),
            !ok ==> final(self).watches_ok_pending(final(q)@.push(lit)),
            !ok ==> forall|b: Seq<Option<bool>>|
                !crate::logic::sat_extension(b, old(self).assign@, old(self).formula()),
            // a conflict means unit propagation refutes the entry assignment
            !ok ==> crate::logic::up_refutes(old(self).formula(), old(self).assign@),
    {
        let ghost o = *old(self);
        let ghost q0 = old(q)@;
        let falsified = -lit;
        let fidx = Self::idx(falsified);
        proof {
            assert(falsified == crate::solver::neg_lit(lit));
            assert(crate::solver::neg_lit(falsified) == lit);
            assert(lit_false(o.assign@, falsified));
        }
        let mut batch: Vec<usize> = Vec::new();
        core::mem::swap(&mut batch, &mut self.watch[fidx]);
        proof {
            assert(buckets_of(self.watch@) =~= buckets_of(o.watch@).update(
                fidx as int,
                Seq::<usize>::empty(),
            ));
            assert(batch@ == buckets_of(o.watch@)[fidx as int]);
        }
        let ghost bat = batch@;
        proof {
            lemma_process_entry(o, *self, bat, q0, lit, falsified, fidx as int);
            assert(Seq::<usize>::empty() + bat.skip(0) =~= bat);
        }
        let mut kept: Vec<usize> = Vec::new();
        let mut conflict = false;
        let mut i: usize = 0;
        while i < batch.len() && !conflict
            invariant
                o.wf_core(),
                o.watch_wf(),
                valid_lit(lit, o.num_vars()),
                falsified == crate::solver::neg_lit(lit),
                crate::solver::neg_lit(falsified) == lit,
                valid_lit(falsified, o.num_vars()),
                fidx as int == watch_idx(falsified),
                batch@ == bat,
                bat == buckets_of(o.watch@)[fidx as int],
                i <= bat.len(),
                self.wf_core(),
                self.num_vars() == o.num_vars(),
                watch_sound(self.clauses@, buckets_of(self.watch@)),
                watch_nodup(buckets_of(self.watch@)),
                self.watch@.len() == o.watch@.len(),
                self.watch@[fidx as int]@.len() == 0,
                self.clauses@.len() == o.clauses@.len(),
                forall|x: int|
                    0 <= x < o.clauses@.len() ==> (#[trigger] self.clauses@[x]).lits@
                        == o.clauses@[x].lits@,
                self.assign@.len() == o.assign@.len(),
                lit_false(self.assign@, falsified),
                lit_true(self.assign@, lit),
                forall|v: int|
                    0 <= v < o.assign@.len() && (#[trigger] o.assign@[v]) is Some
                        ==> self.assign@[v] == o.assign@[v],
                self.trail_limits@ == o.trail_limits@,
                self.pending@ == o.pending@,
                self.proven@ == o.proven@,
                o.trail@.is_prefix_of(self.trail@),
                forall|t: int|
                    o.trail@.len() <= t < self.trail@.len() ==> o.assign@[(
                    #[trigger] self.trail@[t]) as int] is None,
                q0.is_prefix_of(q@),
                forall|k: int|
                    q0.len() <= k < q@.len() ==> valid_lit(#[trigger] q@[k], o.num_vars())
                        && lit_true(self.assign@, q@[k]) && (exists|t: int|
                        o.trail@.len() <= t < self.trail@.len() && self.trail@[t] as int
                            == lit_var(q@[k])),
                crate::logic::count_none(self.assign@) + q@.len() == crate::logic::count_none(
                    o.assign@,
                ) + q0.len(),
                forall|b: Seq<Option<bool>>|
                    crate::logic::sat_extension(b, o.assign@, o.formula()) ==> assign_extends(
                        b,
                        self.assign@,
                    ),
                // clauses outside the batch are untouched; processed ones
                // have been inspected exactly once
                forall|x: int|
                    0 <= x < o.clauses@.len() && (forall|p: int|
                        0 <= p < bat.len() ==> (#[trigger] bat[p]) != x) ==> (
                    #[trigger] self.clauses@[x]) == o.clauses@[x],
                forall|j: int|
                    0 <= j < i ==> (#[trigger] self.clauses@[bat[j] as int]).visit_count as int
                        == (if o.clauses@[bat[j] as int].visit_count < usize::MAX {
                        o.clauses@[bat[j] as int].visit_count as int + 1
                    } else {
                        o.clauses@[bat[j] as int].visit_count as int
                    }),
                // batch bookkeeping
                forall|j: int| 0 <= j < bat.len() ==> (#[trigger] bat[j]) < o.clauses@.len(),
                forall|j1: int, j2: int| 0 <= j1 < j2 < bat.len() ==> bat[j1] != bat[j2],
                forall|j: int|
                    i <= j < bat.len() ==> #[trigger] self.clauses@[bat[j] as int]
                        == o.clauses@[bat[j] as int] && o.clauses@[bat[j] as int].watches(
                        falsified,
                    ),
                // kept bookkeeping
                forall|k1: int, k2: int| 0 <= k1 < k2 < kept@.len() ==> kept@[k1] != kept@[k2],
                forall|k: int|
                    0 <= k < kept@.len() ==> exists|j: int|
                        0 <= j < i && bat[j] == #[trigger] kept@[k],
                forall|k: int|
                    0 <= k < kept@.len() ==> (#[trigger] kept@[k]) < o.clauses@.len()
                        && self.clauses@[kept@[k] as int].watches(falsified),
                // coverage over the virtual state that has the drained bucket
                // spliced back
                crate::solver::watch_cover(
                    self.clauses@,
                    buckets_of(self.watch@).update(fidx as int, kept@ + bat.skip(i as int)),
                ),
                // every clause with both watches false has a pending witness
                forall|x: int|
                    0 <= x < self.clauses@.len() && (#[trigger] self.clauses@[x]).lits@.len()
                        >= 2 && lit_false(self.assign@, self.clauses@[x].watched0())
                        && lit_false(self.assign@, self.clauses@[x].watched1()) ==> {
                        ||| q@.contains(crate::solver::neg_lit(self.clauses@[x].watched0()))
                        ||| q@.contains(crate::solver::neg_lit(self.clauses@[x].watched1()))
                        ||| (self.clauses@[x].watches(falsified) && (conflict || exists|j: int|
                            i <= j < bat.len() && bat[j] == x))
                    },
                // the strong per-slot invariant: a false watched literal has
                // its falsifier queued, sits in the still-unprocessed batch,
                // or its partner is true and level-ordered below it
                forall|x: int|
                    0 <= x < self.clauses@.len() && (#[trigger] self.clauses@[x]).lits@.len()
                        >= 2 ==> loop_slot_ok(
                        *self,
                        self.clauses@[x].watched0(),
                        self.clauses@[x].watched1(),
                        q@,
                        falsified,
                        conflict || exists|j: int| i <= j < bat.len() && bat[j] == x,
                    ) && loop_slot_ok(
                        *self,
                        self.clauses@[x].watched1(),
                        self.clauses@[x].watched0(),
                        q@,
                        falsified,
                        conflict || exists|j: int| i <= j < bat.len() && bat[j] == x,
                    ),
                // watched-pair provenance relative to the reference state
                forall|x: int|
                    0 <= x < self.clauses@.len() ==> crate::solver::pair_from(
                        #[trigger] self.clauses@[x],
                        o.clauses@[x],
                        aref,
                    ) || (exists|j: int| i <= j < bat.len() && bat[j] == x),
                // the reference sits below the current assignment, with all
                // queued literals and the falsifier unassigned in it
                aref.len() == o.assign@.len(),
                forall|v: int|
                    0 <= v < aref.len() && (#[trigger] aref[v]) is Some ==> self.assign@[v]
                        == aref[v],
                aref[lit_var(lit)] is None,
                forall|kq: int|
                    0 <= kq < q@.len() ==> aref[lit_var(#[trigger] q@[kq])] is None,
                // the falsifier and all queued literals sit above every
                // checkpoint
                forall|k: int|
                    0 <= k < o.trail_limits@.len() ==> o.assigned_since(
                        lit_var(lit),
                        (#[trigger] o.trail_limits@[k]) as int,
                    ),
                forall|k: int|
                    0 <= k < o.trail_limits@.len() ==> self.assigned_since(
                        lit_var(lit),
                        (#[trigger] o.trail_limits@[k]) as int,
                    ),
                forall|kq: int, k: int|
                    0 <= kq < q@.len() && 0 <= k < o.trail_limits@.len() ==> self.assigned_since(
                        lit_var(#[trigger] q@[kq]),
                        (#[trigger] o.trail_limits@[k]) as int,
                    ),
                // whatever has been assigned is forced by unit propagation
                forall|a: Seq<Option<bool>>|
                    assign_extends(a, o.assign@) && crate::logic::up_closed(o.formula(), a)
                        && !crate::logic::has_false_clause(o.formula(), a) ==> assign_extends(
                        a,
                        self.assign@,
                    ),
                conflict ==> exists|x: int|
                    0 <= x < self.clauses@.len() && crate::logic::clause_all_false(
                        self.assign@,
                        #[trigger] self.clauses@[x].lits@,
                    ),
            decreases bat.len() - i,
        {
            let cid = batch[i];
            let ghost pre = *self;
            let ghost qpre = q@;
            let ghost keptpre = kept@;
            let ghost ii = i as int;
            let (keep, confl) = self.update_clause(cid, falsified, q);
            if keep {
                kept.push(cid);
            }
            if confl {
                conflict = true;
            }
            proof {
                let c1 = pre.clauses@[cid as int];
                let c2 = self.clauses@[cid as int];
                let wpre = buckets_of(pre.watch@);
                let wcur = buckets_of(self.watch@);
                let vpre = wpre.update(fidx as int, keptpre + bat.skip(ii));
                let vcur = wcur.update(fidx as int, kept@ + bat.skip(ii + 1));
                // the swap preserves the set of watched literals
                assert(c2.watched0() == c1.watched0() || c2.watched0() == c1.watched1());
                assert(c2.watched0() != falsified ==> watch_idx(c2.watched0()) != fidx as int)
                    by {
                    if c2.watched0() != falsified {
                        crate::construct::lemma_watch_idx_inj_contra(c2.watched0(), falsified);
                    }
                }
                if keep {
                    // the clause stays put: the spliced bucket is unchanged
                    assert(self.watch@ == pre.watch@);
                    assert(kept@ + bat.skip(ii + 1) =~= keptpre + bat.skip(ii)) by {
                        assert(bat.skip(ii) =~= seq![bat[ii]] + bat.skip(ii + 1));
                        assert(keptpre + (seq![bat[ii]] + bat.skip(ii + 1)) =~= (keptpre
                            + seq![bat[ii]]) + bat.skip(ii + 1));
                        assert(keptpre + seq![bat[ii]] =~= keptpre.push(cid));
                    }
                    assert(vcur =~= vpre);
                    assert(c2.watches(falsified));
                    assert forall|x: int|
                        0 <= x < self.clauses@.len() && (#[trigger] self.clauses@[x]).lits@.len()
                            > 0 implies crate::solver::bucket_has(
                        vcur,
                        watch_idx(self.clauses@[x].watched0()),
                        x,
                    ) && crate::solver::bucket_has(
                        vcur,
                        watch_idx(self.clauses@[x].watched1()),
                        x,
                    ) by {
                        if x != cid as int {
                            assert(self.clauses@[x] == pre.clauses@[x]);
                        }
                    }
                } else {
                    // the clause moved: it was pushed onto the new literal's
                    // bucket and leaves the spliced one
                    let nl = c2.watched1();
                    let tb = watch_idx(nl);
                    assert(nl != falsified);
                    crate::construct::lemma_watch_idx_inj_contra(nl, falsified);
                    assert(tb != fidx as int);
                    assert(valid_lit(nl, o.num_vars()));
                    assert(0 <= tb < wpre.len());
                    assert(wcur == wpre.update(tb, wpre[tb].push(cid)));
                    // the pushed bucket extends the old one pointwise
                    assert forall|y: int| 0 <= y < wpre.len() implies (#[trigger] wpre[y]).len()
                        <= wcur[y].len() by {}
                    assert forall|y: int, k: int|
                        0 <= y < wpre.len() && 0 <= k < wpre[y].len() implies (
                    #[trigger] wcur[y][k]) == wpre[y][k] by {}
                    assert(wcur[fidx as int] == wpre[fidx as int]);
                    assert(self.watch@[fidx as int]@.len() == 0);
                    assert forall|x: int|
                        0 <= x < self.clauses@.len() && (#[trigger] self.clauses@[x]).lits@.len()
                            > 0 implies crate::solver::bucket_has(
                        vcur,
                        watch_idx(self.clauses@[x].watched0()),
                        x,
                    ) && crate::solver::bucket_has(
                        vcur,
                        watch_idx(self.clauses@[x].watched1()),
                        x,
                    ) by {
                        if x == cid as int {
                            // first watch: covered where it was covered before
                            let a0 = c2.watched0();
                            let bm = watch_idx(a0);
                            assert(a0 == c1.watched0() || a0 == c1.watched1());
                            assert(crate::solver::bucket_has(vpre, bm, x));
                            assert(a0 != falsified);
                            crate::construct::lemma_watch_idx_inj_contra(a0, falsified);
                            assert(bm != fidx as int);
                            assert(vpre[bm] == wpre[bm]);
                            assert(crate::solver::bucket_has(wpre, bm, x));
                            crate::solver::lemma_bucket_has_mono(wpre, wcur, bm, x);
                            let kk = choose|k: int|
                                0 <= k < wcur[bm].len() && wcur[bm][k] == x;
                            assert(vcur[bm][kk] == x);
                            assert(crate::solver::bucket_has(vcur, bm, x));
                            // second watch: the fresh registration
                            assert(wcur[tb][wcur[tb].len() - 1] == cid);
                            assert(vcur[tb][wcur[tb].len() - 1] == cid);
                            assert(crate::solver::bucket_has(vcur, tb, x));
                        } else {
                            assert(self.clauses@[x] == pre.clauses@[x]);
                            lemma_cover_entry_after_step(
                                wpre, wcur, vpre, vcur, keptpre, kept@, bat, ii,
                                fidx as int, cid as int,
                                watch_idx(self.clauses@[x].watched0()), x);
                            lemma_cover_entry_after_step(
                                wpre, wcur, vpre, vcur, keptpre, kept@, bat, ii,
                                fidx as int, cid as int,
                                watch_idx(self.clauses@[x].watched1()), x);
                        }
                    }
                }
                // pending-witness invariant
                assert forall|x: int|
                    0 <= x < self.clauses@.len() && (#[trigger] self.clauses@[x]).lits@.len()
                        >= 2 && lit_false(self.assign@, self.clauses@[x].watched0())
                        && lit_false(self.assign@, self.clauses@[x].watched1()) implies {
                    ||| q@.contains(crate::solver::neg_lit(self.clauses@[x].watched0()))
                    ||| q@.contains(crate::solver::neg_lit(self.clauses@[x].watched1()))
                    ||| (self.clauses@[x].watches(falsified) && (conflict || exists|j: int|
                        ii + 1 <= j < bat.len() && bat[j] == x))
                } by {
                    let cx = self.clauses@[x];
                    if x == cid as int {
                        if confl {
                            assert(c2.watches(falsified));
                        } else if keep {
                            assert(lit_true(self.assign@, c2.watched0()));
                        } else {
                            assert(!lit_false(self.assign@, c2.watched1()));
                        }
                    } else {
                        assert(cx == pre.clauses@[x]);
                        if lit_false(pre.assign@, cx.watched0()) && lit_false(
                            pre.assign@,
                            cx.watched1(),
                        ) {
                            if qpre.contains(crate::solver::neg_lit(cx.watched0())) {
                                let k = choose|k: int|
                                    0 <= k < qpre.len() && qpre[k] == crate::solver::neg_lit(
                                        cx.watched0(),
                                    );
                                assert(q@[k] == qpre[k]);
                            } else if qpre.contains(crate::solver::neg_lit(cx.watched1())) {
                                let k = choose|k: int|
                                    0 <= k < qpre.len() && qpre[k] == crate::solver::neg_lit(
                                        cx.watched1(),
                                    );
                                assert(q@[k] == qpre[k]);
                            } else {
                                let j = choose|j: int|
                                    ii <= j < bat.len() && bat[j] == x;
                                assert(j != ii);
                            }
                        } else {
                            // a watched literal of this clause was falsified
                            // by the unit assignment just made
                            assert(self.assign@ != pre.assign@);
                            let u = c2.watched0();
                            assert(self.assign@ == pre.assign@.update(
                                lit_var(u),
                                Some(u > 0),
                            ));
                            assert(crate::solver::neg_lit(crate::solver::neg_lit(u)) == u);
                            assert(q@[q@.len() - 1] == u);
                            if !lit_false(pre.assign@, cx.watched0()) {
                                assert(lit_var(cx.watched0()) == lit_var(u));
                                assert(cx.watched0() == crate::solver::neg_lit(u));
                                assert(q@.contains(crate::solver::neg_lit(cx.watched0())));
                            } else {
                                assert(lit_var(cx.watched1()) == lit_var(u));
                                assert(cx.watched1() == crate::solver::neg_lit(u));
                                assert(q@.contains(crate::solver::neg_lit(cx.watched1())));
                            }
                        }
                    }
                }
                // newly falsified literals always enter the queue
                assert forall|lf: i32|
                    #[trigger] lit_false(self.assign@, lf) && !lit_false(pre.assign@, lf)
                        implies q@.contains(crate::solver::neg_lit(lf)) by {
                    assert(self.assign@ != pre.assign@);
                    let u = c2.watched0();
                    assert(self.assign@ == pre.assign@.update(lit_var(u), Some(u > 0)));
                    assert(lit_var(lf) == lit_var(u));
                    assert(lf == crate::solver::neg_lit(u));
                    assert(q@[q@.len() - 1] == u);
                    assert(crate::solver::neg_lit(crate::solver::neg_lit(u)) == u);
                }
                // the falsifier sits above every checkpoint, now as before
                assert forall|k: int|
                    0 <= k < o.trail_limits@.len() implies self.assigned_since(
                    lit_var(falsified),
                    (#[trigger] o.trail_limits@[k]) as int,
                ) by {
                    assert(lit_var(falsified) == lit_var(lit));
                    let lim = o.trail_limits@[k] as int;
                    assert(o.assigned_since(lit_var(lit), lim));
                    let t = choose|t: int|
                        lim <= t < o.trail@.len() && o.trail@[t] as int == lit_var(lit);
                    assert(self.trail@[t] as int == lit_var(lit));
                }
                // the reference still sits below the assignment
                assert forall|v: int|
                    0 <= v < aref.len() && (#[trigger] aref[v]) is Some implies self.assign@[v]
                        == aref[v] by {
                    assert(pre.assign@[v] == aref[v]);
                }
                // strong slots after this step
                assert forall|x: int|
                    0 <= x < self.clauses@.len() && (#[trigger] self.clauses@[x]).lits@.len()
                        >= 2 implies loop_slot_ok(
                    *self,
                    self.clauses@[x].watched0(),
                    self.clauses@[x].watched1(),
                    q@,
                    falsified,
                    conflict || exists|j: int| ii + 1 <= j < bat.len() && bat[j] == x,
                ) && loop_slot_ok(
                    *self,
                    self.clauses@[x].watched1(),
                    self.clauses@[x].watched0(),
                    q@,
                    falsified,
                    conflict || exists|j: int| ii + 1 <= j < bat.len() && bat[j] == x,
                ) by {
                    let ecur = conflict || exists|j: int|
                        ii + 1 <= j < bat.len() && bat[j] == x;
                    if x != cid as int {
                        let epre = exists|j: int| ii <= j < bat.len() && bat[j] == x;
                        assert(epre ==> ecur) by {
                            if epre && !conflict {
                                let j = choose|j: int| ii <= j < bat.len() && bat[j] == x;
                                assert(j != ii);
                            }
                        }
                        assert(self.clauses@[x] == pre.clauses@[x]);
                        crate::solver::lemma_slot_step(
                            pre,
                            *self,
                            qpre,
                            q@,
                            pre.clauses@[x].watched0(),
                            pre.clauses@[x].watched1(),
                            falsified,
                            epre,
                            ecur,
                        );
                        crate::solver::lemma_slot_step(
                            pre,
                            *self,
                            qpre,
                            q@,
                            pre.clauses@[x].watched1(),
                            pre.clauses@[x].watched0(),
                            falsified,
                            epre,
                            ecur,
                        );
                    } else {
                        assert(c1 == o.clauses@[cid as int]);
                        assert(c1.watches(falsified));
                        if confl {
                            assert(conflict);
                            // every literal of the clause is false and either
                            // watched slot is the falsified one or has its
                            // falsifier queued
                            assert(c2.watches(falsified));
                            if c2.watched0() != falsified {
                                assert(c2.watched1() == falsified);
                                assert(lit_false(self.assign@, c2.watched0()));
                                assert(loop_slot_ok(
                                    pre,
                                    c2.watched0(),
                                    c2.watched1(),
                                    qpre,
                                    falsified,
                                    true,
                                )) by {
                                    assert((c2.watched0() == c1.watched0() && c2.watched1()
                                        == c1.watched1()) || (c2.watched0() == c1.watched1()
                                        && c2.watched1() == c1.watched0()));
                                }
                                assert(!lit_true(pre.assign@, c2.watched1()));
                                assert(qpre.contains(crate::solver::neg_lit(c2.watched0())));
                                let k = choose|k: int|
                                    0 <= k < qpre.len() && qpre[k] == crate::solver::neg_lit(
                                        c2.watched0(),
                                    );
                                assert(q@[k] == crate::solver::neg_lit(c2.watched0()));
                            } else {
                                assert(c2.watched1() != falsified || c2.watched0()
                                    == c2.watched1());
                                if c2.watched1() != falsified {
                                    assert(lit_false(self.assign@, c2.watched1()));
                                    assert(loop_slot_ok(
                                        pre,
                                        c2.watched1(),
                                        c2.watched0(),
                                        qpre,
                                        falsified,
                                        true,
                                    )) by {
                                        assert((c2.watched0() == c1.watched0()
                                            && c2.watched1() == c1.watched1()) || (
                                        c2.watched0() == c1.watched1() && c2.watched1()
                                            == c1.watched0()));
                                    }
                                    assert(!lit_true(pre.assign@, c2.watched0()));
                                    assert(qpre.contains(crate::solver::neg_lit(
                                        c2.watched1(),
                                    )));
                                    let k = choose|k: int|
                                        0 <= k < qpre.len() && qpre[k]
                                            == crate::solver::neg_lit(c2.watched1());
                                    assert(q@[k] == crate::solver::neg_lit(c2.watched1()));
                                }
                            }
                        } else if keep {
                            assert(lit_true(self.assign@, c2.watched0()));
                            assert(c2.watched1() == falsified) by {
                                if c2.watched0() == falsified {
                                    assert(lit_false(self.assign@, falsified));
                                }
                            }
                            assert(loop_slot_ok(
                                *self,
                                c2.watched1(),
                                c2.watched0(),
                                q@,
                                falsified,
                                ecur,
                            )) by {
                                assert(self.ord_ok(
                                    lit_var(c2.watched0()),
                                    lit_var(c2.watched1()),
                                )) by {
                                    assert forall|k: int|
                                        0 <= k < self.trail_limits@.len()
                                            && self.assigned_since(
                                            lit_var(c2.watched0()),
                                            (#[trigger] self.trail_limits@[k]) as int,
                                        ) implies self.assigned_since(
                                        lit_var(c2.watched1()),
                                        self.trail_limits@[k] as int,
                                    ) by {
                                        assert(self.trail_limits@ == o.trail_limits@);
                                        assert(self.assigned_since(
                                            lit_var(falsified),
                                            o.trail_limits@[k] as int,
                                        ));
                                    }
                                }
                            }
                            assert(loop_slot_ok(
                                *self,
                                c2.watched0(),
                                c2.watched1(),
                                q@,
                                falsified,
                                ecur,
                            )) by {
                                assert(!lit_false(self.assign@, c2.watched0()));
                            }
                        } else {
                            assert(!lit_false(self.assign@, c2.watched1()));
                            assert(loop_slot_ok(
                                *self,
                                c2.watched0(),
                                c2.watched1(),
                                q@,
                                falsified,
                                ecur,
                            )) by {
                                if lit_false(self.assign@, c2.watched0()) {
                                    assert(c2.watched0() != falsified);
                                    assert(loop_slot_ok(
                                        pre,
                                        c2.watched0(),
                                        falsified,
                                        qpre,
                                        falsified,
                                        true,
                                    )) by {
                                        assert(c2.watched0() == c1.watched0()
                                            || c2.watched0() == c1.watched1());
                                        assert(c1.watched0() == falsified || c1.watched1()
                                            == falsified);
                                    }
                                    assert(!lit_true(pre.assign@, falsified));
                                    assert(qpre.contains(crate::solver::neg_lit(
                                        c2.watched0(),
                                    )));
                                    let k = choose|k: int|
                                        0 <= k < qpre.len() && qpre[k]
                                            == crate::solver::neg_lit(c2.watched0());
                                    assert(q@[k] == crate::solver::neg_lit(c2.watched0()));
                                }
                            }
                        }
                    }
                }
                // provenance after this step
                assert forall|x: int|
                    0 <= x < self.clauses@.len() implies crate::solver::pair_from(
                    #[trigger] self.clauses@[x],
                    o.clauses@[x],
                    aref,
                ) || (exists|j: int| ii + 1 <= j < bat.len() && bat[j] == x) by {
                    if x != cid as int {
                        assert(self.clauses@[x] == pre.clauses@[x]);
                        if !crate::solver::pair_from(pre.clauses@[x], o.clauses@[x], aref) {
                            let j = choose|j: int| ii <= j < bat.len() && bat[j] == x;
                            assert(j != ii);
                        }
                    } else {
                        if keep {
                            assert(crate::solver::pair_from(c2, o.clauses@[cid as int], aref))
                                by {
                                assert(c1 == o.clauses@[cid as int]);
                            }
                        } else {
                            assert(!lit_false(aref, c2.watched1())) by {
                                if lit_false(aref, c2.watched1()) {
                                    assert(self.assign@[lit_var(c2.watched1())]
                                        == aref[lit_var(c2.watched1())]);
                                }
                            }
                            assert(!lit_false(aref, c2.watched0())) by {
                                if lit_false(aref, c2.watched0()) {
                                    assert(lit_false(pre.assign@, c2.watched0())) by {
                                        assert(pre.assign@[lit_var(c2.watched0())]
                                            == aref[lit_var(c2.watched0())]);
                                    }
                                    assert(c2.watched0() != falsified);
                                    assert(loop_slot_ok(
                                        pre,
                                        c2.watched0(),
                                        falsified,
                                        qpre,
                                        falsified,
                                        true,
                                    )) by {
                                        assert(c1 == o.clauses@[cid as int]);
                                        assert(c2.watched0() == c1.watched0()
                                            || c2.watched0() == c1.watched1());
                                        assert(c1.watched0() == falsified || c1.watched1()
                                            == falsified);
                                    }
                                    assert(!lit_true(pre.assign@, falsified));
                                    assert(qpre.contains(crate::solver::neg_lit(
                                        c2.watched0(),
                                    )));
                                    let kq = choose|kq: int|
                                        0 <= kq < qpre.len() && qpre[kq]
                                            == crate::solver::neg_lit(c2.watched0());
                                    assert(aref[lit_var(qpre[kq])] is None);
                                    assert(lit_var(qpre[kq]) == lit_var(c2.watched0()));
                                    assert(false);
                                }
                            }
                        }
                    }
                }
                // unit forcing composes through this step
                assert forall|a: Seq<Option<bool>>|
                    assign_extends(a, o.assign@) && crate::logic::up_closed(o.formula(), a)
                        && !crate::logic::has_false_clause(o.formula(), a) implies
                    assign_extends(a, self.assign@) by {
                    assert(assign_extends(a, pre.assign@));
                    crate::solver::lemma_formula_eq(o.clauses@, pre.clauses@);
                    assert(crate::logic::up_closed(pre.formula(), a));
                    assert(!crate::logic::has_false_clause(pre.formula(), a));
                }
                // queue entries stay unassigned in the reference and above
                // every checkpoint
                assert forall|kq: int|
                    0 <= kq < q@.len() implies aref[lit_var(#[trigger] q@[kq])] is None by {
                    if kq < qpre.len() {
                        assert(q@[kq] == qpre[kq]);
                    } else {
                        let u = c2.watched0();
                        assert(q@[kq] == u);
                        if aref[lit_var(u)] is Some {
                            assert(pre.assign@[lit_var(u)] == aref[lit_var(u)]);
                        }
                    }
                }
                assert forall|kq: int, k: int|
                    0 <= kq < q@.len() && 0 <= k < o.trail_limits@.len() implies
                    self.assigned_since(
                    lit_var(#[trigger] q@[kq]),
                    (#[trigger] o.trail_limits@[k]) as int,
                ) by {
                    let lim = o.trail_limits@[k] as int;
                    if kq < qpre.len() {
                        assert(q@[kq] == qpre[kq]);
                        assert(pre.assigned_since(lit_var(qpre[kq]), lim));
                        let t = choose|t: int|
                            lim <= t < pre.trail@.len() && pre.trail@[t] as int == lit_var(
                                qpre[kq],
                            );
                        assert(self.trail@[t] as int == lit_var(qpre[kq]));
                    } else {
                        let u = c2.watched0();
                        assert(q@[kq] == u);
                        assert(self.trail@ == pre.trail@.push(lit_var(u) as usize));
                        assert(lim <= o.trail@.len() <= pre.trail@.len());
                        assert(self.trail@[self.trail@.len() - 1] as int == lit_var(u));
                    }
                }
                // queued literals keep their facts under a grown assignment
                assert forall|k: int|
                    q0.len() <= k < q@.len() implies valid_lit(#[trigger] q@[k], o.num_vars())
                        && lit_true(self.assign@, q@[k]) && (exists|t: int|
                        o.trail@.len() <= t < self.trail@.len() && self.trail@[t] as int
                            == lit_var(q@[k])) by {
                    if k < qpre.len() {
                        assert(q@[k] == qpre[k]);
                        assert(lit_true(pre.assign@, qpre[k]));
                        let t = choose|t: int|
                            o.trail@.len() <= t < pre.trail@.len() && pre.trail@[t] as int
                                == lit_var(qpre[k]);
                        assert(self.trail@[t] == pre.trail@[t]);
                    } else {
                        assert(lit_true(self.assign@, q@[k]));
                        assert(self.trail@[self.trail@.len() - 1] as int == lit_var(q@[k]));
                    }
                }
                // count conservation
                if self.assign@ != pre.assign@ {
                    let u = c2.watched0();
                    crate::logic::lemma_count_none_update(
                        pre.assign@,
                        lit_var(u),
                        Some(u > 0),
                    );
                }
                // forcing composes through this step
                assert forall|b: Seq<Option<bool>>|
                    crate::logic::sat_extension(b, o.assign@, o.formula()) implies
                    assign_extends(b, self.assign@) by {
                    assert(assign_extends(b, pre.assign@));
                    assert(crate::logic::formula_holds(b, o.formula()));
                    assert(o.formula()[cid as int] == c1.lits@);
                    assert(clause_holds(b, c1.lits@));
                }
                // prefix facts
                assert(o.trail@.is_prefix_of(self.trail@)) by {
                    assert(o.trail@.is_prefix_of(pre.trail@));
                    if self.trail@ != pre.trail@ {
                        assert(pre.trail@.is_prefix_of(self.trail@));
                    }
                }
                assert(q0.is_prefix_of(q@)) by {
                    assert(q0.is_prefix_of(qpre));
                    if q@ != qpre {
                        assert(qpre.is_prefix_of(q@));
                    }
                }
                if confl {
                    assert(crate::logic::clause_all_false(
                        self.assign@,
                        self.clauses@[cid as int].lits@,
                    )) by {
                        assert(self.clauses@[cid as int].lits@ == c1.lits@);
                        assert forall|j: int| 0 <= j < c1.lits@.len() implies lit_false(
                            self.assign@,
                            #[trigger] c1.lits@[j],
                        ) by {
                            assert(lit_false(pre.assign@, c1.lits@[j]));
                        }
                    }
                }
            }
            i = i + 1;
        }
        let ghost spliced = kept@ + bat.skip(i as int);
        proof {
            // facts about the spliced list, derived while the batch-loop
            // invariants are still at hand
            assert forall|p: int| 0 <= p < spliced.len() implies (#[trigger] spliced[p])
                < self.clauses@.len() && self.clauses@[spliced[p] as int].watches(falsified) by {
                if p < kept@.len() {
                    assert(spliced[p] == kept@[p]);
                } else {
                    let j = i as int + (p - kept@.len());
                    assert(spliced[p] == bat[j]);
                    assert(self.clauses@[bat[j] as int] == o.clauses@[bat[j] as int]);
                }
            }
            assert forall|p1: int, p2: int|
                0 <= p1 < p2 < spliced.len() implies spliced[p1] != spliced[p2] by {
                if p1 < kept@.len() && p2 >= kept@.len() {
                    let j1 = choose|j: int| 0 <= j < i as int && bat[j] == kept@[p1];
                    let j2 = i as int + (p2 - kept@.len());
                    assert(spliced[p2] == bat[j2]);
                    assert(j1 < j2);
                } else if p1 >= kept@.len() {
                    assert(spliced[p1] == bat[i as int + (p1 - kept@.len())]);
                    assert(spliced[p2] == bat[i as int + (p2 - kept@.len())]);
                }
            }
        }
        let ghost exit1 = *self;
        let ghost qexit = q@;
        let ghost iexit = i as int;
        let ghost conflict_exit = conflict;
        while i < batch.len()
            invariant
                batch@ == bat,
                iexit <= i as int,
                i <= bat.len(),
                kept@ + bat.skip(i as int) == spliced,
            decreases bat.len() - i,
        {
            let ghost kpre = kept@;
            kept.push(batch[i]);
            proof {
                assert(kpre.push(bat[i as int]) + bat.skip(i as int + 1) =~= kpre + bat.skip(
                    i as int,
                ));
            }
            i = i + 1;
        }
        proof {
            assert(bat.skip(bat.len() as int) =~= Seq::<usize>::empty());
            assert(kept@ + Seq::<usize>::empty() =~= kept@);
            assert(kept@ == spliced);
        }
        let ghost preswap = *self;
        core::mem::swap(&mut kept, &mut self.watch[fidx]);
        proof {
            let wfin = buckets_of(self.watch@);
            let wold = buckets_of(preswap.watch@);
            assert(wfin =~= wold.update(fidx as int, spliced));
            assert(preswap == exit1);
            // well-formedness of the final state
            assert(self.wf_core()) by {
                crate::solver::lemma_edges_wf_preserved(exit1, *self);
            }
            // soundness: spliced entries watch the falsified literal, whose
            // bucket this is; other buckets are untouched
            assert forall|b2: int, k: int|
                0 <= b2 < wfin.len() && 0 <= k < wfin[b2].len() implies {
                &&& (#[trigger] wfin[b2][k]) < self.clauses@.len()
                &&& self.clauses@[wfin[b2][k] as int].lits@.len() > 0
                &&& (watch_idx(self.clauses@[wfin[b2][k] as int].watched0()) == b2 || watch_idx(
                    self.clauses@[wfin[b2][k] as int].watched1(),
                ) == b2)
            } by {
                if b2 == fidx as int {
                    assert(wfin[b2][k] == spliced[k]);
                    let cx = self.clauses@[spliced[k] as int];
                    assert(cx.watches(falsified));
                    assert(cx.watched0() == falsified || cx.watched1() == falsified);
                } else {
                    assert(wfin[b2][k] == wold[b2][k]);
                }
            }
            // no duplicates: the spliced bucket was shown pairwise distinct
            assert forall|b2: int, k1: int, k2: int|
                0 <= b2 < wfin.len() && 0 <= k1 < k2 < wfin[b2].len() implies wfin[b2][k1]
                    != wfin[b2][k2] by {
                if b2 != fidx as int {
                    assert(wfin[b2] == wold[b2]);
                }
            }
            // coverage: the final state is exactly the virtual state that the
            // batch-loop invariant tracked
            assert(crate::solver::watch_cover(self.clauses@, wfin)) by {
                assert(wfin == wold.update(fidx as int, spliced));
            }
            assert(self.watch_wf());
            // the stored formula is unchanged
            crate::solver::lemma_formula_eq(o.clauses@, self.clauses@);
            assert(self.formula() == o.formula());
            // untouched-clause and single-inspection facts
            assert forall|x: int|
                0 <= x < o.clauses@.len() && !crate::solver::bucket_has(
                    buckets_of(o.watch@),
                    watch_idx(crate::solver::neg_lit(lit)),
                    x,
                ) implies #[trigger] self.clauses@[x] == o.clauses@[x] by {
                assert forall|p: int| 0 <= p < bat.len() implies (#[trigger] bat[p]) != x by {
                    if bat[p] == x {
                        assert(crate::solver::bucket_has(buckets_of(o.watch@), fidx as int, x));
                    }
                }
            }
            if !conflict_exit {
                assert forall|x: int|
                    0 <= x < o.clauses@.len() && crate::solver::bucket_has(
                        buckets_of(o.watch@),
                        watch_idx(crate::solver::neg_lit(lit)),
                        x,
                    ) implies (#[trigger] self.clauses@[x]).visit_count as int == (if
                o.clauses@[x].visit_count < usize::MAX {
                    o.clauses@[x].visit_count as int + 1
                } else {
                    o.clauses@[x].visit_count as int
                }) by {
                    let p = choose|p: int|
                        0 <= p < buckets_of(o.watch@)[fidx as int].len() && buckets_of(
                            o.watch@,
                        )[fidx as int][p] == x;
                    assert(bat[p] == x);
                    assert(p < iexit);
                }
            }
            if conflict_exit {
                // a clause is false outright: no extension of the entry
                // assignment satisfies the formula
                let x = choose|x: int|
                    0 <= x < exit1.clauses@.len() && crate::logic::clause_all_false(
                        exit1.assign@,
                        exit1.clauses@[x].lits@,
                    );
                assert forall|b: Seq<Option<bool>>| !crate::logic::sat_extension(
                    b,
                    o.assign@,
                    o.formula(),
                ) by {
                    if crate::logic::sat_extension(b, o.assign@, o.formula()) {
                        assert(assign_extends(b, self.assign@));
                        crate::logic::lemma_all_false_clause_unsat(
                            self.assign@,
                            self.clauses@[x].lits@,
                            b,
                        );
                        assert(clause_holds(b, o.formula()[x]));
                        assert(o.formula()[x] == o.clauses@[x].lits@);
                        assert(o.clauses@[x].lits@ == self.clauses@[x].lits@);
                        assert(false);
                    }
                }
                // every doubly-false clause still has its witness queued, with
                // the current literal itself allowed as a witness
                assert forall|x2: int|
                    0 <= x2 < self.clauses@.len() && (#[trigger] self.clauses@[x2]).lits@.len()
                        >= 2 && lit_false(self.assign@, self.clauses@[x2].watched0())
                        && lit_false(self.assign@, self.clauses@[x2].watched1()) implies q@.push(
                    lit,
                ).contains(crate::solver::neg_lit(self.clauses@[x2].watched0())) || q@.push(
                    lit,
                ).contains(crate::solver::neg_lit(self.clauses@[x2].watched1())) by {
                    let cx = self.clauses@[x2];
                    let qp = q@.push(lit);
                    if q@.contains(crate::solver::neg_lit(cx.watched0())) {
                        let k = choose|k: int|
                            0 <= k < q@.len() && q@[k] == crate::solver::neg_lit(cx.watched0());
                        assert(qp[k] == crate::solver::neg_lit(cx.watched0()));
                    } else if q@.contains(crate::solver::neg_lit(cx.watched1())) {
                        let k = choose|k: int|
                            0 <= k < q@.len() && q@[k] == crate::solver::neg_lit(cx.watched1());
                        assert(qp[k] == crate::solver::neg_lit(cx.watched1()));
                    } else {
                        assert(cx.watches(falsified));
                        if cx.watched0() == falsified {
                            assert(qp[qp.len() - 1] == crate::solver::neg_lit(cx.watched0()));
                        } else {
                            assert(cx.watched1() == falsified);
                            assert(qp[qp.len() - 1] == crate::solver::neg_lit(cx.watched1()));
                        }
                    }
                }
            } else {
                // clean exit: the whole batch was processed, so every witness
                // is already on the queue
                assert(iexit == bat.len());
                assert(self.watches_ok_pending(q@));
                assert forall|x: int|
                    0 <= x < self.clauses@.len() && (#[trigger] self.clauses@[x]).lits@.len()
                        >= 2 implies self.slot_ok(
                    self.clauses@[x].watched0(),
                    self.clauses@[x].watched1(),
                    q@,
                ) && self.slot_ok(
                    self.clauses@[x].watched1(),
                    self.clauses@[x].watched0(),
                    q@,
                ) by {
                    assert(loop_slot_ok(
                        *self,
                        self.clauses@[x].watched0(),
                        self.clauses@[x].watched1(),
                        q@,
                        falsified,
                        conflict_exit || exists|j: int|
                            iexit <= j < bat.len() && bat[j] == x,
                    ));
                    assert(loop_slot_ok(
                        *self,
                        self.clauses@[x].watched1(),
                        self.clauses@[x].watched0(),
                        q@,
                        falsified,
                        conflict_exit || exists|j: int|
                            iexit <= j < bat.len() && bat[j] == x,
                    ));
                    assert(!(conflict_exit || exists|j: int|
                        iexit <= j < bat.len() && bat[j] == x));
                }
                assert(self.strong_pending(q@));
            }
            // provenance: processed clauses carry it, unprocessed ones are
            // untouched
            assert forall|x: int|
                0 <= x < self.clauses@.len() implies crate::solver::pair_from(
                #[trigger] self.clauses@[x],
                o.clauses@[x],
                aref,
            ) by {
                if !crate::solver::pair_from(self.clauses@[x], o.clauses@[x], aref) {
                    let j = choose|j: int| iexit <= j < bat.len() && bat[j] == x;
                    assert(self.clauses@[x] == o.clauses@[x]);
                }
            }
            assert(crate::solver::pairs_from(*self, o, aref));
            if conflict_exit {
                // unit propagation refutes the entry state: any clean
                // unit-closed extension would contain the conflict clause's
                // assignments and falsify it
                let xc = choose|xc: int|
                    0 <= xc < exit1.clauses@.len() && crate::logic::clause_all_false(
                        exit1.assign@,
                        exit1.clauses@[xc].lits@,
                    );
                assert forall|a: Seq<Option<bool>>|
                    assign_extends(a, o.assign@) && #[trigger] crate::logic::up_closed(
                        o.formula(),
                        a,
                    ) implies crate::logic::has_false_clause(o.formula(), a) by {
                    if !crate::logic::has_false_clause(o.formula(), a) {
                        assert(assign_extends(a, self.assign@));
                        assert(crate::logic::clause_all_false(a, self.clauses@[xc].lits@)) by {
                            assert forall|j: int|
                                0 <= j < self.clauses@[xc].lits@.len() implies lit_false(
                                a,
                                #[trigger] self.clauses@[xc].lits@[j],
                            ) by {
                                assert(lit_false(self.assign@, self.clauses@[xc].lits@[j]));
                            }
                        }
                        assert(crate::logic::clause_all_false(a, o.formula()[xc]));
                    }
                }
                assert(crate::logic::up_refutes(o.formula(), o.assign@));
            }
        }
        !conflict
    }

    /// Drive unit propagation from the newly-true literal `start` to a fixed
    /// point or a conflict. On success every clause with at least two
    /// literals watches two literals that are not both false (the watch
    /// invariant); on conflict no extension of the entry assignment satisfies
    /// the formula, and state is left intact for the backtrack to inspect and
    /// undo.
    pub fn propagate(&mut self, start: i32) -> (ok: bool)
        requires
            old(self).wf_core(),
            old(self).watch_wf(),
            valid_lit(start, old(self).num_vars()),
            lit_true(old(self).assign@, start),
            old(self).strong_pending(seq![start]),
            // the start literal was assigned at the current decision level
            forall|k: int|
                0 <= k < old(self).trail_limits@.len() ==> old(self).assigned_since(
                    lit_var(start),
                    (#[trigger] old(self).trail_limits@[k]) as int,
                ),
        ensures
            final(self).wf_core(),
            final(self).watch_wf(),
            final(self).num_vars() == old(self).num_vars(),
            final(self).formula() == old(self).formula(),
            final(self).clauses@.len() == old(self).clauses@.len(),
            final(self).assign@.len() == old(self).assign@.len(),
            final(self).trail_limits@ == old(self).trail_limits@,
            final(self).pending@ == old(self).pending@,
            final(self).proven@ == old(self).proven@,
            forall|v: int|
                0 <= v < old(self).assign@.len() && (#[trigger] old(self).assign@[v]) is Some
                    ==> final(self).assign@[v] == old(self).assign@[v],
            old(self).trail@.is_prefix_of(final(self).trail@),
            forall|t: int|
                old(self).trail@.len() <= t < final(self).trail@.len() ==> old(self).assign@[(
                #[trigger] final(self).trail@[t]) as int] is None,
            forall|b: Seq<Option<bool>>|
                crate::logic::sat_extension(b, old(self).assign@, old(self).formula())
                    ==> assign_extends(b, final(self).assign@),
            ok ==> final(self).watches_ok(),
            ok ==> final(self).strong_rest(),
            // watched pairs either survive or move onto literals that were
            // not false before the start literal was assigned
            crate::solver::pairs_from(
                *final(self),
                *old(self),
                old(self).assign@.update(lit_var(start), None),
            ),
            // every assignment made here is forced by unit propagation
            forall|a: Seq<Option<bool>>|
                assign_extends(a, old(self).assign@) && crate::logic::up_closed(
                    old(self).formula(),
                    a,
                ) && !crate::logic::has_false_clause(old(self).formula(), a) ==> assign_extends(
                    a,
                    final(self).assign@,
                ),
            // a conflict means unit propagation refutes the entry assignment
            !ok ==> crate::logic::up_refutes(old(self).formula(), old(self).assign@),
            // a pass that assigns nothing drains exactly one watch list: the
            // clauses registered there are inspected once, all others are
            // left untouched
            ok && final(self).trail@ == old(self).trail@ ==> forall|x: int|
                0 <= x < old(self).clauses@.len() ==> #[trigger] final(self).clauses@[x] == (
                if crate::solver::bucket_has(
                    buckets_of(old(self).watch@),
                    watch_idx(crate::solver::neg_lit(start)),
                    x,
                ) {
                    final(self).clauses@[x]
                } else {
                    old(self).clauses@[x]
                }) && (crate::solver::bucket_has(
                    buckets_of(old(self).watch@),
                    watch_idx(crate::solver::neg_lit(start)),
                    x,
                ) ==> final(self).clauses@[x].visit_count as int == (if old(
                    self,
                ).clauses@[x].visit_count < usize::MAX {
                    old(self).clauses@[x].visit_count as int + 1
                } else {
                    old(self).clauses@[x].visit_count as int
                })),
            !ok ==> forall|b: Seq<Option<bool>>|
                !crate::logic::sat_extension(b, old(self).assign@, old(self).formula()),
            // on conflict, every doubly-false clause has a falsifying variable
            // that is either the start literal's or one assigned here, so an
            // undo past this point restores the watch invariant
            !ok ==> forall|x: int|
                0 <= x < final(self).clauses@.len() && (#[trigger] final(self).clauses@[x]).lits@.len()
                    >= 2 && lit_false(
                    final(self).assign@,
                    final(self).clauses@[x].watched0(),
                ) && lit_false(final(self).assign@, final(self).clauses@[x].watched1()) ==> {
                    ||| lit_var(final(self).clauses@[x].watched0()) == lit_var(start)
                    ||| lit_var(final(self).clauses@[x].watched1()) == lit_var(start)
                    ||| exists|t: int|
                        old(self).trail@.len() <= t < final(self).trail@.len() && (lit_var(
                            final(self).clauses@[x].watched0(),
                        ) == final(self).trail@[t] as int || lit_var(
                            final(self).clauses@[x].watched1(),
                        ) == final(self).trail@[t] as int)
                },
    {
        let ghost o = *old(self);
        let ghost aref = o.assign@.update(lit_var(start), None);
        let mut q: Vec<i32> = Vec::new();
        q.push(start);
        proof {
            assert(q@ =~= seq![start]);
            crate::solver::lemma_strong_implies_weak(o, seq![start]);
            assert(crate::solver::pairs_from(o, o, aref)) by {
                assert forall|x: int| 0 <= x < o.clauses@.len() implies crate::solver::pair_from(
                    #[trigger] o.clauses@[x],
                    o.clauses@[x],
                    aref,
                ) by {}
            }
        }
        while q.len() > 0
            invariant
                o == *old(self),
                o.wf_core(),
                valid_lit(start, o.num_vars()),
                self.wf_core(),
                self.watch_wf(),
                self.num_vars() == o.num_vars(),
                self.clauses@.len() == o.clauses@.len(),
                forall|x: int|
                    0 <= x < o.clauses@.len() ==> (#[trigger] self.clauses@[x]).lits@
                        == o.clauses@[x].lits@,
                self.assign@.len() == o.assign@.len(),
                forall|v: int|
                    0 <= v < o.assign@.len() && (#[trigger] o.assign@[v]) is Some
                        ==> self.assign@[v] == o.assign@[v],
                self.trail_limits@ == o.trail_limits@,
                self.pending@ == o.pending@,
                self.proven@ == o.proven@,
                o.trail@.is_prefix_of(self.trail@),
                forall|t: int|
                    o.trail@.len() <= t < self.trail@.len() ==> o.assign@[(
                    #[trigger] self.trail@[t]) as int] is None,
                forall|k: int|
                    0 <= k < q@.len() ==> valid_lit(#[trigger] q@[k], o.num_vars()) && lit_true(
                        self.assign@,
                        q@[k],
                    ) && (q@[k] == start || exists|t: int|
                        o.trail@.len() <= t < self.trail@.len() && self.trail@[t] as int
                            == lit_var(q@[k])),
                self.watches_ok_pending(q@),
                self.strong_pending(q@),
                aref == o.assign@.update(lit_var(start), None),
                crate::solver::pairs_from(*self, o, aref),
                forall|kq: int|
                    0 <= kq < q@.len() ==> aref[lit_var(#[trigger] q@[kq])] is None,
                forall|kq: int, k: int|
                    0 <= kq < q@.len() && 0 <= k < o.trail_limits@.len()
                        ==> self.assigned_since(
                        lit_var(#[trigger] q@[kq]),
                        (#[trigger] o.trail_limits@[k]) as int,
                    ),
                forall|a: Seq<Option<bool>>|
                    assign_extends(a, o.assign@) && crate::logic::up_closed(o.formula(), a)
                        && !crate::logic::has_false_clause(o.formula(), a) ==> assign_extends(
                        a,
                        self.assign@,
                    ),
                forall|b: Seq<Option<bool>>|
                    crate::logic::sat_extension(b, o.assign@, o.formula()) ==> assign_extends(
                        b,
                        self.assign@,
                    ),
                // nothing has been processed while the start literal is still
                // queued and nothing was assigned
                self.trail@ == o.trail@ && q@.len() > 0 ==> q@ == seq![start]
                    && self.clauses@ == o.clauses@ && self.watch@ == o.watch@,
                // once the queue drained without assignments, exactly the
                // start literal's watch list was inspected
                self.trail@ == o.trail@ && q@.len() == 0 ==> forall|x: int|
                    0 <= x < o.clauses@.len() ==> #[trigger] self.clauses@[x] == (
                    if crate::solver::bucket_has(
                        buckets_of(o.watch@),
                        watch_idx(crate::solver::neg_lit(start)),
                        x,
                    ) {
                        self.clauses@[x]
                    } else {
                        o.clauses@[x]
                    }) && (crate::solver::bucket_has(
                        buckets_of(o.watch@),
                        watch_idx(crate::solver::neg_lit(start)),
                        x,
                    ) ==> self.clauses@[x].visit_count as int == (if o.clauses@[x].visit_count
                        < usize::MAX {
                        o.clauses@[x].visit_count as int + 1
                    } else {
                        o.clauses@[x].visit_count as int
                    })),
            decreases crate::logic::count_none(self.assign@) + q@.len(),
        {
            let ghost qhead = q@;
            let l = q.pop().unwrap();
            proof {
                crate::logic::lemma_count_none_nonneg(self.assign@);
                assert(q@.push(l) =~= qhead);
                assert(self.watches_ok_pending(q@.push(l)));
                assert(self.strong_pending(q@.push(l)));
                assert(l == qhead[qhead.len() - 1]);
                assert forall|k: int|
                    0 <= k < self.trail_limits@.len() implies self.assigned_since(
                    lit_var(l),
                    (#[trigger] self.trail_limits@[k]) as int,
                ) by {
                    assert(self.assigned_since(
                        lit_var(qhead[qhead.len() - 1]),
                        o.trail_limits@[k] as int,
                    ));
                }
                assert(aref[lit_var(l)] is None) by {
                    assert(aref[lit_var(qhead[qhead.len() - 1])] is None);
                }
                assert forall|v: int|
                    0 <= v < aref.len() && (#[trigger] aref[v]) is Some implies self.assign@[v]
                        == aref[v] by {
                    assert(v != lit_var(start));
                    assert(o.assign@[v] == aref[v]);
                }
            }
            let ghost selfpre = *self;
            let ghost qpre = q@;
            let ok = self.process_watch_list(l, &mut q, Ghost(aref));
            proof {
                crate::solver::lemma_formula_eq(o.clauses@, selfpre.clauses@);
                assert forall|x: int|
                    0 <= x < o.clauses@.len() implies (#[trigger] self.clauses@[x]).lits@
                        == o.clauses@[x].lits@ by {
                    assert(self.formula()[x] == selfpre.formula()[x]);
                    assert(self.formula()[x] == self.clauses@[x].lits@);
                    assert(selfpre.formula()[x] == selfpre.clauses@[x].lits@);
                }
                crate::logic::lemma_count_none_nonneg(self.assign@);
                // queued literals keep their facts: old entries persist, new
                // entries carry their own trail witnesses
                assert forall|k: int|
                    0 <= k < q@.len() implies valid_lit(#[trigger] q@[k], o.num_vars())
                        && lit_true(self.assign@, q@[k]) && (q@[k] == start || exists|t: int|
                        o.trail@.len() <= t < self.trail@.len() && self.trail@[t] as int
                            == lit_var(q@[k])) by {
                    if k < qpre.len() {
                        assert(q@[k] == qpre[k]);
                        assert(lit_true(selfpre.assign@, qpre[k]));
                        if qpre[k] != start {
                            let t = choose|t: int|
                                o.trail@.len() <= t < selfpre.trail@.len()
                                    && selfpre.trail@[t] as int == lit_var(qpre[k]);
                            assert(self.trail@[t] == selfpre.trail@[t]);
                        }
                    } else {
                        let t = choose|t: int|
                            selfpre.trail@.len() <= t < self.trail@.len()
                                && self.trail@[t] as int == lit_var(q@[k]);
                        assert(o.trail@.len() <= t);
                    }
                }
                assert forall|b: Seq<Option<bool>>|
                    crate::logic::sat_extension(b, o.assign@, o.formula()) implies
                    assign_extends(b, self.assign@) by {
                    assert(assign_extends(b, selfpre.assign@));
                    assert(crate::logic::sat_extension(
                        b,
                        selfpre.assign@,
                        selfpre.formula(),
                    ));
                }
                assert forall|a: Seq<Option<bool>>|
                    assign_extends(a, o.assign@) && crate::logic::up_closed(o.formula(), a)
                        && !crate::logic::has_false_clause(o.formula(), a) implies
                    assign_extends(a, self.assign@) by {
                    assert(assign_extends(a, selfpre.assign@));
                    assert(crate::logic::up_closed(selfpre.formula(), a));
                    assert(!crate::logic::has_false_clause(selfpre.formula(), a));
                }
                crate::solver::lemma_pairs_from_trans(*self, selfpre, o, aref, aref);
                assert(o.trail@.is_prefix_of(self.trail@)) by {
                    assert(selfpre.trail@.is_prefix_of(self.trail@));
                }
                if self.trail@ == o.trail@ {
                    assert(selfpre.trail@ == o.trail@) by {
                        assert(selfpre.trail@.is_prefix_of(self.trail@));
                        assert(o.trail@.is_prefix_of(selfpre.trail@));
                        assert(selfpre.trail@ =~= o.trail@);
                    }
                    assert(q@.len() == qpre.len()) by {
                        if q@.len() > qpre.len() {
                            let k = qpre.len() as int;
                            assert(valid_lit(q@[k], selfpre.num_vars()) && lit_true(
                                self.assign@,
                                q@[k],
                            ) && (exists|t: int|
                                selfpre.trail@.len() <= t < self.trail@.len()
                                    && self.trail@[t] as int == lit_var(q@[k])));
                            let t = choose|t: int|
                                selfpre.trail@.len() <= t < self.trail@.len()
                                    && self.trail@[t] as int == lit_var(q@[k]);
                            assert(false);
                        }
                    }
                    assert(q@ =~= qpre);
                    assert(qpre.len() == 0);
                    assert(qhead =~= seq![start]);
                    assert(l == start);
                }
            }
            if !ok {
                proof {
                    // translate queue witnesses into trail positions for the
                    // conflict postcondition
                    assert forall|x: int|
                        0 <= x < self.clauses@.len() && (#[trigger] self.clauses@[x]).lits@.len()
                            >= 2 && lit_false(self.assign@, self.clauses@[x].watched0())
                            && lit_false(self.assign@, self.clauses@[x].watched1()) implies {
                        ||| lit_var(self.clauses@[x].watched0()) == lit_var(start)
                        ||| lit_var(self.clauses@[x].watched1()) == lit_var(start)
                        ||| exists|t: int|
                            o.trail@.len() <= t < self.trail@.len() && (lit_var(
                                self.clauses@[x].watched0(),
                            ) == self.trail@[t] as int || lit_var(self.clauses@[x].watched1())
                                == self.trail@[t] as int)
                    } by {
                        let cx = self.clauses@[x];
                        let qw = q@.push(l);
                        assert(qw.contains(crate::solver::neg_lit(cx.watched0()))
                            || qw.contains(crate::solver::neg_lit(cx.watched1())));
                        if qw.contains(crate::solver::neg_lit(cx.watched0())) {
                            let k = choose|k: int|
                                0 <= k < qw.len() && qw[k] == crate::solver::neg_lit(
                                    cx.watched0(),
                                );
                            let m = qw[k];
                            assert(m == l || q@.contains(m));
                            assert(lit_var(cx.watched0()) == lit_var(m));
                            if m != start {
                                assert(exists|t: int|
                                    o.trail@.len() <= t < self.trail@.len()
                                        && self.trail@[t] as int == lit_var(m));
                            }
                        } else {
                            let k = choose|k: int|
                                0 <= k < qw.len() && qw[k] == crate::solver::neg_lit(
                                    cx.watched1(),
                                );
                            let m = qw[k];
                            assert(m == l || q@.contains(m));
                            assert(lit_var(cx.watched1()) == lit_var(m));
                            if m != start {
                                assert(exists|t: int|
                                    o.trail@.len() <= t < self.trail@.len()
                                        && self.trail@[t] as int == lit_var(m));
                            }
                        }
                    }
                    assert(self.formula() == o.formula());
                    assert forall|b: Seq<Option<bool>>| !crate::logic::sat_extension(
                        b,
                        o.assign@,
                        o.formula(),
                    ) by {
                        if crate::logic::sat_extension(b, o.assign@, o.formula()) {
                            assert(assign_extends(b, selfpre.assign@));
                            assert(crate::logic::sat_extension(
                                b,
                                selfpre.assign@,
                                selfpre.formula(),
                            ));
                            assert(false);
                        }
                    }
                    assert(crate::logic::up_refutes(o.formula(), o.assign@)) by {
                        assert forall|a: Seq<Option<bool>>|
                            assign_extends(a, o.assign@) && #[trigger] crate::logic::up_closed(
                                o.formula(),
                                a,
                            ) implies crate::logic::has_false_clause(o.formula(), a) by {
                            if !crate::logic::has_false_clause(o.formula(), a) {
                                assert(assign_extends(a, selfpre.assign@));
                                assert(crate::logic::up_closed(selfpre.formula(), a));
                                assert(!crate::logic::has_false_clause(
                                    selfpre.formula(),
                                    a,
                                ));
                                assert(crate::logic::up_refutes(
                                    selfpre.formula(),
                                    selfpre.assign@,
                                ));
                                assert(crate::logic::has_false_clause(selfpre.formula(), a));
                            }
                        }
                    }
                }
                return false;
            }
        }
        proof {
            assert(q@.len() == 0);
            assert(q@ =~= Seq::<i32>::empty());
            assert(self.watches_ok()) by {
                assert(self.watches_ok_pending(q@));
            }
            assert(self.strong_rest()) by {
                assert(self.strong_pending(q@));
            }
            crate::solver::lemma_formula_eq(o.clauses@, self.clauses@);
        }
        true
    }
}

} // verus!
