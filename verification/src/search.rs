//! The decision stack and search driver: assuming literals, failed-literal
//! probing, branching on one or two variables with trail-checkpointed undo,
//! and the top-level SAT/UNSAT loop.

use vstd::prelude::*;

use crate::frames::DecisionFrame;
use crate::frames::ImpEdge;
use crate::logic::assign_extends;
use crate::logic::assign_total;
use crate::logic::clause_holds;
use crate::logic::count_none;
use crate::logic::formula_holds;
use crate::logic::lit_false;
use crate::logic::lit_true;
use crate::logic::lit_var;
use crate::logic::sat_extension;
use crate::logic::valid_lit;
use crate::solver::lemma_pairs_refl;
use crate::solver::Solver;

verus! {

/// After an undo that clears every variable named by the witnesses of the
/// doubly-false clauses, the at-rest watch invariant holds again: unassigning
/// can never falsify a watched literal, and each previously doubly-false
/// clause lost at least one of its falsifying assignments.
pub proof fn lemma_watches_ok_after_undo(mid: Solver, fin: Solver, lo: int)
    requires
        fin.clauses@ == mid.clauses@,
        fin.assign@.len() == mid.assign@.len(),
        forall|v: int|
            0 <= v < mid.assign@.len() ==> #[trigger] fin.assign@[v] == mid.assign@[v]
                || fin.assign@[v] is None,
        forall|x: int|
            0 <= x < mid.clauses@.len() && (#[trigger] mid.clauses@[x]).lits@.len() >= 2
                && lit_false(mid.assign@, mid.clauses@[x].watched0()) && lit_false(
                mid.assign@,
                mid.clauses@[x].watched1(),
            ) ==> exists|t: int|
                lo <= t < mid.trail@.len() && (lit_var(mid.clauses@[x].watched0())
                    == mid.trail@[t] as int || lit_var(mid.clauses@[x].watched1())
                    == mid.trail@[t] as int),
        forall|t: int|
            lo <= t < mid.trail@.len() ==> ((#[trigger] mid.trail@[t]) as int)
                < fin.assign@.len() && fin.assign@[mid.trail@[t] as int] is None,
    ensures
        fin.watches_ok(),
{
    assert forall|x: int|
        0 <= x < fin.clauses@.len() && (#[trigger] fin.clauses@[x]).lits@.len() >= 2
            && lit_false(fin.assign@, fin.clauses@[x].watched0()) && lit_false(
            fin.assign@,
            fin.clauses@[x].watched1(),
        ) implies Seq::<i32>::empty().contains(
        crate::solver::neg_lit(fin.clauses@[x].watched0()),
    ) || Seq::<i32>::empty().contains(crate::solver::neg_lit(fin.clauses@[x].watched1())) by {
        let w0 = fin.clauses@[x].watched0();
        let w1 = fin.clauses@[x].watched1();
        assert(lit_false(mid.assign@, w0)) by {
            assert(fin.assign@[lit_var(w0)] == mid.assign@[lit_var(w0)] || fin.assign@[lit_var(
                w0,
            )] is None);
        }
        assert(lit_false(mid.assign@, w1)) by {
            assert(fin.assign@[lit_var(w1)] == mid.assign@[lit_var(w1)] || fin.assign@[lit_var(
                w1,
            )] is None);
        }
        let t = choose|t: int|
            lo <= t < mid.trail@.len() && (lit_var(mid.clauses@[x].watched0())
                == mid.trail@[t] as int || lit_var(mid.clauses@[x].watched1())
                == mid.trail@[t] as int);
        assert(fin.assign@[mid.trail@[t] as int] is None);
    }
}

/// Which of the four polarity combinations a total assignment picks for two
/// variables, in the order the pair frame tries them.
pub open spec fn combo_idx(b: Seq<Option<bool>>, v1: int, v2: int) -> int {
    (if b[v1] == Some(true) {
        0int
    } else {
        2int
    }) + (if b[v2] == Some(true) {
        0int
    } else {
        1int
    })
}

/// Some stored clause is the unit clause `(u)`.
pub open spec fn unit_clause_lit(cs: Seq<crate::clause::Clause>, u: i32) -> bool {
    exists|ci: int|
        0 <= ci < cs.len() && (#[trigger] cs[ci]).lits@.len() == 1 && cs[ci].lits@[0] == u
}

/// Undoing to a checkpoint taken at the entry trail length restores the entry
/// assignment exactly: the popped variables were all unassigned on entry, and
/// the rest were never touched.
pub proof fn lemma_undo_restores_assign(o: Solver, mid: Solver, fin: Solver)
    requires
        o.wf_core(),
        mid.wf_core(),
        o.assign@.len() == mid.assign@.len(),
        fin.assign@.len() == mid.assign@.len(),
        o.num_vars() == mid.num_vars(),
        o.trail@.is_prefix_of(mid.trail@),
        forall|v: int|
            0 <= v < o.assign@.len() && (#[trigger] o.assign@[v]) is Some ==> mid.assign@[v]
                == o.assign@[v],
        forall|t: int|
            o.trail@.len() <= t < mid.trail@.len() ==> o.assign@[(
            #[trigger] mid.trail@[t]) as int] is None,
        forall|v: int|
            0 <= v < mid.assign@.len() ==> #[trigger] fin.assign@[v] == (if exists|t: int|
                o.trail@.len() <= t < mid.trail@.len() && mid.trail@[t] as int == v {
                None::<bool>
            } else {
                mid.assign@[v]
            }),
    ensures
        fin.assign@ == o.assign@,
{
    assert forall|v: int| 0 <= v < o.assign@.len() implies fin.assign@[v] == o.assign@[v] by {
        if exists|t: int|
            o.trail@.len() <= t < mid.trail@.len() && mid.trail@[t] as int == v {
            let t = choose|t: int|
                o.trail@.len() <= t < mid.trail@.len() && mid.trail@[t] as int == v;
            assert(fin.assign@[v] is None);
            assert(o.assign@[v] is None);
        } else {
            assert(fin.assign@[v] == mid.assign@[v]);
            if o.assign@[v] is Some {
            } else {
                if mid.assign@[v] is Some {
                    assert(1 <= v <= mid.num_vars());
                    assert(mid.trail_has(v));
                    let t = choose|t: int|
                        0 <= t < mid.trail@.len() && mid.trail@[t] as int == v;
                    if t < o.trail@.len() {
                        assert(o.trail@[t] as int == v);
                        assert(o.assign@[v] is Some);
                    }
                }
            }
        }
    }
    assert(fin.assign@ =~= o.assign@);
}

impl Solver {
    /// Make the literal `l` hold: report whether it already does, or assign
    /// it and propagate. On success every total satisfying extension of the
    /// entry assignment that makes `l` true still extends the new state; on
    /// conflict no such extension exists at all.
    fn assume_literal(&mut self, l: i32) -> (ok: bool)
        requires
            old(self).inv(),
            old(self).strong_rest(),
            valid_lit(l, old(self).num_vars()),
        ensures
            crate::solver::pairs_from(*final(self), *old(self), old(self).assign@),
            old(self).units_true() ==> final(self).units_true(),
            old(self).no_empty_clause() ==> final(self).no_empty_clause(),
            ok ==> final(self).strong_rest(),
            // the assumption's success is exactly unit propagation's verdict
            !ok ==> crate::logic::assuming_refutes(
                old(self).formula(),
                old(self).assign@,
                l,
            ),
            old(self).units_true() && old(self).no_empty_clause() && ok
                ==> !crate::logic::assuming_refutes(old(self).formula(), old(self).assign@, l),
            // successful assumptions are forced through unit propagation
            ok ==> forall|a: Seq<Option<bool>>|
                assign_extends(a, old(self).assign@) && crate::logic::up_closed(
                    old(self).formula(),
                    a,
                ) && !crate::logic::has_false_clause(old(self).formula(), a) && lit_true(a, l)
                    ==> assign_extends(a, final(self).assign@),
            final(self).wf_core(),
            final(self).watch_wf(),
            final(self).num_vars() == old(self).num_vars(),
            final(self).formula() == old(self).formula(),
            final(self).clauses@.len() == old(self).clauses@.len(),
            final(self).assign@.len() == old(self).assign@.len(),
            final(self).trail_limits@ == old(self).trail_limits@,
            final(self).pending@ == old(self).pending@,
            final(self).proven@ == old(self).proven@,
            forall|v: int|
                0 <= v < old(self).assign@.len() && (#[trigger] old(self).assign@[v]) is Some
                    ==> final(self).assign@[v] == old(self).assign@[v],
            old(self).trail@.is_prefix_of(final(self).trail@),
            forall|t: int|
                old(self).trail@.len() <= t < final(self).trail@.len() ==> old(self).assign@[(
                #[trigger] final(self).trail@[t]) as int] is None,
            ok ==> final(self).watches_ok(),
            ok ==> lit_true(final(self).assign@, l),
            ok ==> forall|b: Seq<Option<bool>>|
                sat_extension(b, old(self).assign@, old(self).formula()) && lit_true(b, l)
                    ==> assign_extends(b, final(self).assign@),
            !ok ==> forall|b: Seq<Option<bool>>|
                sat_extension(b, old(self).assign@, old(self).formula()) ==> !lit_true(b, l),
            // on conflict each doubly-false clause names a variable assigned
            // here, so undoing past the entry trail length restores the watch
            // invariant
            !ok ==> forall|x: int|
                0 <= x < final(self).clauses@.len() && (#[trigger] final(self).clauses@[x]).lits@.len()
                    >= 2 && lit_false(
                    final(self).assign@,
                    final(self).clauses@[x].watched0(),
                ) && lit_false(final(self).assign@, final(self).clauses@[x].watched1())
                    ==> exists|t: int|
                    old(self).trail@.len() <= t < final(self).trail@.len() && (lit_var(
                        final(self).clauses@[x].watched0(),
                    ) == final(self).trail@[t] as int || lit_var(
                        final(self).clauses@[x].watched1(),
                    ) == final(self).trail@[t] as int),
    {
        let ghost o = *old(self);
        match Self::get_val(&self.assign, l) {
            Some(true) => {
                proof {
                    lemma_pairs_refl(*self, o.assign@);
                    if o.units_true() && o.no_empty_clause() {
                        assert(o.assign@.update(lit_var(l), Some(l > 0)) =~= o.assign@);
                        crate::solver::lemma_strong_up_closed(o);
                        assert(!crate::logic::up_refutes(o.formula(), o.assign@)) by {
                            assert(assign_extends(o.assign@, o.assign@));
                            assert(!crate::logic::has_false_clause(o.formula(), o.assign@));
                        }
                    }
                }
                true
            },
            Some(false) => {
                proof {
                    lemma_pairs_refl(*self, o.assign@);
                    assert forall|b: Seq<Option<bool>>|
                        sat_extension(b, o.assign@, o.formula()) implies !lit_true(b, l) by {
                        if sat_extension(b, o.assign@, o.formula()) {
                            assert(b[lit_var(l)] == o.assign@[lit_var(l)]);
                        }
                    }
                }
                false
            },
            None => {
                self.assign_lit(l);
                let ghost mid = *self;
                proof {
                    // newly falsified literals are exactly the assumption's
                    // negation, so the strong invariant holds with it pending
                    assert forall|lf: i32|
                        #[trigger] lit_false(mid.assign@, lf) && !lit_false(o.assign@, lf)
                            implies seq![l].contains(crate::solver::neg_lit(lf)) by {
                        assert(lit_var(lf) == lit_var(l));
                        assert(lf == crate::solver::neg_lit(l));
                        assert(seq![l][0] == crate::solver::neg_lit(lf));
                    }
                    assert forall|x: int|
                        0 <= x < mid.clauses@.len() && (#[trigger] mid.clauses@[x]).lits@.len()
                            >= 2 implies mid.slot_ok(
                        mid.clauses@[x].watched0(),
                        mid.clauses@[x].watched1(),
                        seq![l],
                    ) && mid.slot_ok(
                        mid.clauses@[x].watched1(),
                        mid.clauses@[x].watched0(),
                        seq![l],
                    ) by {
                        crate::solver::lemma_slot_step(
                            o,
                            mid,
                            Seq::<i32>::empty(),
                            seq![l],
                            mid.clauses@[x].watched0(),
                            mid.clauses@[x].watched1(),
                            l,
                            false,
                            false,
                        );
                        crate::solver::lemma_slot_step(
                            o,
                            mid,
                            Seq::<i32>::empty(),
                            seq![l],
                            mid.clauses@[x].watched1(),
                            mid.clauses@[x].watched0(),
                            l,
                            false,
                            false,
                        );
                    }
                    assert(mid.strong_pending(seq![l]));
                    assert forall|k: int|
                        0 <= k < mid.trail_limits@.len() implies mid.assigned_since(
                        lit_var(l),
                        (#[trigger] mid.trail_limits@[k]) as int,
                    ) by {
                        assert(mid.trail@[mid.trail@.len() - 1] as int == lit_var(l));
                        assert(o.trail_limits@[k] as int <= o.trail@.len());
                    }
                    assert(mid.formula() == o.formula()) by {
                        crate::solver::lemma_formula_eq(o.clauses@, mid.clauses@);
                    }
                }
                let r = self.propagate(l);
                proof {
                    // provenance: the reference with the assumption removed
                    // is the entry assignment itself
                    assert(mid.assign@.update(lit_var(l), None) =~= o.assign@);
                    assert(crate::solver::pairs_from(*self, o, o.assign@)) by {
                        assert(crate::solver::pairs_from(*self, mid, o.assign@));
                        assert forall|i: int|
                            0 <= i < self.clauses@.len() implies crate::solver::pair_from(
                            #[trigger] self.clauses@[i],
                            o.clauses@[i],
                            o.assign@,
                        ) by {
                            assert(crate::solver::pair_from(
                                self.clauses@[i],
                                mid.clauses@[i],
                                o.assign@,
                            ));
                            assert(mid.clauses@[i] == o.clauses@[i]);
                        }
                    }
                    if o.no_empty_clause() {
                        assert forall|i: int|
                            0 <= i < self.clauses@.len() implies (
                        #[trigger] self.clauses@[i]).lits@.len() > 0 by {
                            assert(self.clauses@[i].lits@ == o.clauses@[i].lits@) by {
                                assert(self.formula()[i] == o.formula()[i]);
                                assert(self.formula()[i] == self.clauses@[i].lits@);
                                assert(o.formula()[i] == o.clauses@[i].lits@);
                            }
                        }
                    }
                    // unit clauses stay satisfied under a grown assignment
                    if o.units_true() {
                        assert forall|i: int|
                            0 <= i < self.clauses@.len() && (
                            #[trigger] self.clauses@[i]).lits@.len() == 1 implies lit_true(
                            self.assign@,
                            self.clauses@[i].lits@[0],
                        ) by {
                            assert(self.clauses@[i].lits@ == o.clauses@[i].lits@) by {
                                assert(self.formula()[i] == o.formula()[i]);
                                assert(self.formula()[i] == self.clauses@[i].lits@);
                                assert(o.formula()[i] == o.clauses@[i].lits@);
                            }
                            assert(o.clauses@[i].lits@.len() == 1);
                            assert(lit_true(o.assign@, o.clauses@[i].lits@[0]));
                        }
                    }
                    if r {
                        assert forall|b: Seq<Option<bool>>|
                            sat_extension(b, o.assign@, o.formula()) && lit_true(b, l) implies
                            assign_extends(b, self.assign@) by {
                            assert(assign_extends(b, mid.assign@)) by {
                                assert(b[lit_var(l)] == Some(l > 0));
                            }
                            assert(sat_extension(b, mid.assign@, mid.formula()));
                        }
                        assert forall|a: Seq<Option<bool>>|
                            assign_extends(a, o.assign@) && crate::logic::up_closed(
                                o.formula(),
                                a,
                            ) && !crate::logic::has_false_clause(o.formula(), a) && lit_true(
                                a,
                                l,
                            ) implies assign_extends(a, self.assign@) by {
                            assert(assign_extends(a, mid.assign@)) by {
                                assert(a[lit_var(l)] == Some(l > 0));
                            }
                            assert(crate::logic::up_closed(mid.formula(), a));
                            assert(!crate::logic::has_false_clause(mid.formula(), a));
                        }
                        if o.units_true() && o.no_empty_clause() {
                            // the final state witnesses that propagation from
                            // the assumption reaches a clean fixed point
                            assert(self.units_true());
                            assert(self.no_empty_clause()) by {
                                assert forall|i: int|
                                    0 <= i < self.clauses@.len() implies (
                                #[trigger] self.clauses@[i]).lits@.len() > 0 by {
                                    assert(self.clauses@[i].lits@ == o.clauses@[i].lits@) by {
                                        assert(self.formula()[i] == o.formula()[i]);
                                        assert(self.formula()[i] == self.clauses@[i].lits@);
                                        assert(o.formula()[i] == o.clauses@[i].lits@);
                                    }
                                }
                            }
                            crate::solver::lemma_strong_up_closed(*self);
                            assert(!crate::logic::up_refutes(
                                o.formula(),
                                o.assign@.update(lit_var(l), Some(l > 0)),
                            )) by {
                                assert(mid.assign@ == o.assign@.update(
                                    lit_var(l),
                                    Some(l > 0),
                                ));
                                assert(assign_extends(self.assign@, mid.assign@)) by {
                                    assert forall|v: int|
                                        0 <= v < mid.assign@.len() && (
                                    #[trigger] mid.assign@[v]) is Some implies self.assign@[v]
                                        == mid.assign@[v] by {}
                                }
                                assert(crate::logic::up_closed(o.formula(), self.assign@))
                                    by {
                                    assert(self.formula() == o.formula());
                                }
                                assert(!crate::logic::has_false_clause(
                                    o.formula(),
                                    self.assign@,
                                ));
                            }
                            assert(!crate::logic::assuming_refutes(
                                o.formula(),
                                o.assign@,
                                l,
                            ));
                        }
                    } else {
                        assert(crate::logic::assuming_refutes(o.formula(), o.assign@, l))
                            by {
                            assert(crate::logic::up_refutes(mid.formula(), mid.assign@));
                            assert(mid.formula() == o.formula());
                            assert(mid.assign@ == o.assign@.update(lit_var(l), Some(l > 0)));
                        }
                        assert forall|b: Seq<Option<bool>>|
                            sat_extension(b, o.assign@, o.formula()) implies !lit_true(b, l) by {
                            if sat_extension(b, o.assign@, o.formula()) && lit_true(b, l) {
                                assert(assign_extends(b, mid.assign@)) by {
                                    assert(b[lit_var(l)] == Some(l > 0));
                                }
                                assert(sat_extension(b, mid.assign@, mid.formula()));
                                assert(false);
                            }
                        }
                        assert forall|x: int|
                            0 <= x < self.clauses@.len() && (
                            #[trigger] self.clauses@[x]).lits@.len() >= 2 && lit_false(
                                self.assign@,
                                self.clauses@[x].watched0(),
                            ) && lit_false(self.assign@, self.clauses@[x].watched1())
                                implies exists|t: int|
                            o.trail@.len() <= t < self.trail@.len() && (lit_var(
                                self.clauses@[x].watched0(),
                            ) == self.trail@[t] as int || lit_var(self.clauses@[x].watched1())
                                == self.trail@[t] as int) by {
                            let w0 = self.clauses@[x].watched0();
                            let w1 = self.clauses@[x].watched1();
                            if lit_var(w0) == lit_var(l) || lit_var(w1) == lit_var(l) {
                                assert(self.trail@[o.trail@.len() as int] as int == lit_var(
                                    l,
                                )) by {
                                    assert(mid.trail@ == o.trail@.push(lit_var(l) as usize));
                                    assert(mid.trail@.is_prefix_of(self.trail@));
                                }
                            } else {
                                let t = choose|t: int|
                                    mid.trail@.len() <= t < self.trail@.len() && (lit_var(w0)
                                        == self.trail@[t] as int || lit_var(w1)
                                        == self.trail@[t] as int);
                                assert(o.trail@.len() <= t);
                            }
                        }
                    }
                    assert(o.trail@.is_prefix_of(self.trail@)) by {
                        assert(mid.trail@.is_prefix_of(self.trail@));
                        assert(mid.trail@ == o.trail@.push(lit_var(l) as usize));
                    }
                    assert forall|t: int|
                        o.trail@.len() <= t < self.trail@.len() implies o.assign@[(
                        #[trigger] self.trail@[t]) as int] is None by {
                        if t == o.trail@.len() {
                            assert(self.trail@[t] == mid.trail@[t]);
                        } else {
                            assert(mid.assign@[self.trail@[t] as int] is None);
                            if o.assign@[self.trail@[t] as int] is Some {
                                assert(mid.assign@[self.trail@[t] as int] == o.assign@[(
                                self.trail@[t]) as int]);
                            }
                        }
                    }
                }
                r
            },
        }
    }

    /// Probe one implication candidate: assume `from` true and propagate; if
    /// that survives, assume `to` false and propagate. A conflict on the
    /// second assumption proves that `from` forces `to`, and the edge is
    /// recorded. Whatever the outcome, the probe is undone completely:
    /// assignment table, trail and checkpoints are exactly as before.
    pub fn probe_implication(&mut self, from: usize, to: usize)
        requires
            old(self).inv(),
            old(self).strong_rest(),
            old(self).units_true(),
            old(self).no_empty_clause(),
            1 <= from as int <= old(self).num_vars(),
            1 <= to as int <= old(self).num_vars(),
            exists|i: int|
                0 <= i < old(self).clauses@.len() && crate::solver::probe_shape(
                    #[trigger] old(self).clauses@[i].lits@,
                    from as int,
                    to as int,
                ),
        ensures
            final(self).inv(),
            final(self).strong_rest(),
            final(self).units_true(),
            final(self).no_empty_clause(),
            crate::solver::pairs_from(*final(self), *old(self), old(self).assign@),
            final(self).assign@ == old(self).assign@,
            final(self).trail@ == old(self).trail@,
            final(self).trail_limits@ == old(self).trail_limits@,
            final(self).num_vars() == old(self).num_vars(),
            final(self).formula() == old(self).formula(),
            final(self).clauses@.len() == old(self).clauses@.len(),
            final(self).pending@ == old(self).pending@,
            final(self).proven@ == old(self).proven@ || final(self).proven@ == old(
                self,
            ).proven@.push(ImpEdge { from, to }),
            // a recorded edge is a real implication under the entry state
            final(self).proven@ == old(self).proven@.push(ImpEdge { from, to })
                ==> forall|b: Seq<Option<bool>>|
                sat_extension(b, old(self).assign@, old(self).formula()) && b[from as int]
                    == Some(true) ==> b[to as int] == Some(true),
            // the edge is recorded exactly when the probe's two-step test
            // says so: assuming `from` propagates without conflict, and
            // assuming `to` false on top of that then conflicts
            final(self).proven@ == old(self).proven@.push(ImpEdge { from, to })
                <==> (!crate::logic::assuming_refutes(
                old(self).formula(),
                old(self).assign@,
                from as i32,
            ) && crate::logic::assuming_refutes(
                old(self).formula(),
                old(self).assign@.update(from as int, Some(true)),
                crate::solver::neg_lit(to as i32),
            )),
    {
        let ghost o = *old(self);
        let k0 = self.trail_limits.len();
        let cp = self.trail.len();
        self.trail_limits.push(cp);
        proof {
            assert(self.wf_core()) by {
                assert forall|i: int, j: int|
                    0 <= i <= j < self.trail_limits@.len() implies self.trail_limits@[i]
                        <= self.trail_limits@[j] by {
                    if j == self.trail_limits@.len() - 1 && i < j {
                        assert(o.trail_limits@[i] as int <= o.trail@.len());
                    }
                }
                crate::solver::lemma_edges_wf_preserved(o, *self);
            }
            crate::solver::lemma_strong_after_push_limit(o, *self);
        }
        let ghost s0 = *self;
        let fl = from as i32;
        let ok1 = self.assume_literal(fl);
        let ghost s1 = *self;
        proof {
            assert(crate::solver::pairs_from(s1, o, o.assign@)) by {
                assert(crate::solver::pairs_from(s1, s0, s0.assign@));
                assert forall|i: int|
                    0 <= i < s1.clauses@.len() implies crate::solver::pair_from(
                    #[trigger] s1.clauses@[i],
                    o.clauses@[i],
                    o.assign@,
                ) by {
                    assert(crate::solver::pair_from(s1.clauses@[i], s0.clauses@[i], s0.assign@));
                    assert(s0.clauses@[i] == o.clauses@[i]);
                    assert(s0.assign@ == o.assign@);
                }
            }
        }
        proof {
            // the first assumption's verdict, phrased over the entry state
            assert(s0.formula() == o.formula() && s0.assign@ == o.assign@);
            assert(s0.units_true() && s0.no_empty_clause());
            if !ok1 {
                assert(crate::logic::assuming_refutes(o.formula(), o.assign@, fl));
            } else {
                assert(!crate::logic::assuming_refutes(o.formula(), o.assign@, fl));
            }
            assert(lit_var(fl) == from as int);
        }
        let ghost aone = o.assign@.update(from as int, Some(true));
        if ok1 {
            let tl = -(to as i32);
            proof {
                assert(tl == crate::solver::neg_lit(to as i32));
                assert(lit_var(tl) == to as int);
                // the propagated state is interchangeable with the plain
                // assumption for refutation purposes
                assert(assign_extends(s1.assign@, aone)) by {
                    assert(lit_true(s1.assign@, fl));
                    assert forall|v: int|
                        0 <= v < aone.len() && (#[trigger] aone[v]) is Some implies
                        s1.assign@[v] == aone[v] by {
                        if v != from as int {
                            assert(o.assign@[v] is Some);
                            assert(s1.assign@[v] == o.assign@[v]);
                        }
                    }
                }
                assert forall|a: Seq<Option<bool>>|
                    assign_extends(a, aone) && #[trigger] crate::logic::up_closed(
                        o.formula(),
                        a,
                    ) && !crate::logic::has_false_clause(o.formula(), a) implies
                    assign_extends(a, s1.assign@) by {
                    assert(assign_extends(a, o.assign@)) by {
                        assert forall|v: int|
                            0 <= v < o.assign@.len() && (#[trigger] o.assign@[v]) is Some
                                implies a[v] == o.assign@[v] by {
                            assert(aone[v] == o.assign@[v] || v == from as int);
                            if v == from as int {
                                assert(o.assign@[v] == Some(true) || o.assign@[v] is None)
                                    by {
                                    assert(!lit_false(o.assign@, fl));
                                }
                            }
                        }
                    }
                    assert(aone[from as int] == Some(true));
                    assert(a[from as int] == Some(true));
                    assert(lit_true(a, fl));
                }
            }
            let ok2 = self.assume_literal(tl);
            proof {
                crate::solver::lemma_pairs_from_trans(*self, s1, o, o.assign@, s1.assign@);
                assert(s1.formula() == o.formula());
                assert(s1.units_true() && s1.no_empty_clause());
                // transfer the second verdict from the propagated state down
                // to the plain assumption
                assert(crate::logic::assuming_refutes(o.formula(), s1.assign@, tl)
                    == crate::logic::assuming_refutes(o.formula(), aone, tl)) by {
                    let vt = to as int;
                    if crate::logic::lit_false(aone, tl) {
                        assert(crate::logic::lit_false(s1.assign@, tl)) by {
                            assert(s1.assign@[vt] == aone[vt]);
                        }
                    } else if s1.assign@[vt] is Some {
                        crate::solver::lemma_strong_up_closed(s1);
                        if crate::logic::lit_false(s1.assign@, tl) {
                            // propagation made `to` true: refuted either way
                            assert(crate::logic::up_refutes(
                                o.formula(),
                                aone.update(vt, Some(false)),
                            )) by {
                                assert forall|a: Seq<Option<bool>>|
                                    assign_extends(a, aone.update(vt, Some(false)))
                                        && #[trigger] crate::logic::up_closed(o.formula(), a)
                                        implies crate::logic::has_false_clause(
                                    o.formula(),
                                    a,
                                ) by {
                                    if !crate::logic::has_false_clause(o.formula(), a) {
                                        assert(assign_extends(a, aone)) by {
                                            assert forall|v: int|
                                                0 <= v < aone.len() && (
                                            #[trigger] aone[v]) is Some implies a[v]
                                                == aone[v] by {
                                                assert(v != vt) by {
                                                    assert(aone[vt] is None);
                                                }
                                                assert(aone.update(vt, Some(false))[v]
                                                    == aone[v]);
                                            }
                                        }
                                        assert(assign_extends(a, s1.assign@));
                                        assert(a[vt] == s1.assign@[vt]);
                                        assert(s1.assign@[vt] == Some(true));
                                        assert(a[vt] == aone.update(vt, Some(false))[vt]);
                                        assert(false);
                                    }
                                }
                            }
                        } else {
                            // propagation made `to` false: no refutation on
                            // either side, the state itself is the witness
                            assert(s1.assign@[vt] == Some(false));
                            assert(!crate::logic::up_refutes(
                                o.formula(),
                                s1.assign@.update(vt, Some(false)),
                            )) by {
                                assert(s1.assign@.update(vt, Some(false)) =~= s1.assign@);
                                assert(assign_extends(s1.assign@, s1.assign@));
                            }
                            assert(!crate::logic::up_refutes(
                                o.formula(),
                                aone.update(vt, Some(false)),
                            )) by {
                                assert(assign_extends(s1.assign@, aone.update(
                                    vt,
                                    Some(false),
                                ))) by {
                                    assert forall|v: int|
                                        0 <= v < aone.len() && (#[trigger] aone.update(
                                            vt,
                                            Some(false),
                                        )[v]) is Some implies s1.assign@[v] == aone.update(
                                        vt,
                                        Some(false),
                                    )[v] by {
                                        if v != vt {
                                            assert(aone.update(vt, Some(false))[v]
                                                == aone[v]);
                                        }
                                    }
                                }
                            }
                            assert(!crate::logic::lit_false(s1.assign@, tl));
                        }
                    } else {
                        assert(aone[vt] is None) by {
                            if aone[vt] is Some {
                                assert(s1.assign@[vt] == aone[vt]);
                            }
                        }
                        crate::logic::lemma_refutes_transfer(
                            o.formula(),
                            aone,
                            s1.assign@,
                            vt,
                            Some(false),
                        );
                        assert(!crate::logic::lit_false(s1.assign@, tl));
                        assert(!crate::logic::lit_false(aone, tl));
                    }
                }
                if ok2 {
                    assert(!crate::logic::assuming_refutes(o.formula(), s1.assign@, tl)) by {
                        assert(s1.formula() == o.formula());
                        assert(s1.assign@ == s1.assign@);
                    }
                    assert(!crate::logic::assuming_refutes(o.formula(), aone, tl));
                } else {
                    assert(crate::logic::assuming_refutes(o.formula(), s1.assign@, tl));
                    assert(crate::logic::assuming_refutes(o.formula(), aone, tl));
                }
            }
            if !ok2 {
                let ghost spre = *self;
                self.proven.push(ImpEdge { from, to });
                proof {
                    // the recorded edge keeps its backing clause, and the
                    // implication itself follows from the two assumptions
                    assert forall|x: int|
                        0 <= x < self.clauses@.len() implies (
                        #[trigger] self.clauses@[x]).lits@ == o.clauses@[x].lits@ by {
                        assert(self.formula()[x] == o.formula()[x]);
                        assert(self.formula()[x] == self.clauses@[x].lits@);
                        assert(o.formula()[x] == o.clauses@[x].lits@);
                    }
                    assert(spre.wf_core());
                    assert(o.edge_wf(ImpEdge { from, to }));
                    crate::solver::lemma_edges_wf_preserved(o, *self);
                    assert(self.wf_core());
                    assert forall|b: Seq<Option<bool>>|
                        sat_extension(b, o.assign@, o.formula()) && b[from as int] == Some(
                            true,
                        ) implies b[to as int] == Some(true) by {
                        assert(lit_true(b, fl));
                        assert(s0.assign@ == o.assign@ && s0.formula() == o.formula());
                        assert(assign_extends(b, s1.assign@));
                        assert(sat_extension(b, s1.assign@, s1.formula()));
                        assert(!lit_true(b, tl));
                        assert(b[to as int] is Some);
                    }
                }
            }
        }
        let ghost s2 = *self;
        self.undo_to_level(k0);
        proof {
            // exact restoration: the popped variables were all unassigned on
            // entry, and nothing below the checkpoint was touched
            assert(s2.trail_limits@[k0 as int] as int == o.trail@.len());
            assert(o.trail@.is_prefix_of(s2.trail@));
            assert(self.trail@ =~= o.trail@) by {
                assert(self.trail@ == s2.trail@.take(o.trail@.len() as int));
            }
            assert(self.trail_limits@ =~= o.trail_limits@) by {
                assert(self.trail_limits@ == s2.trail_limits@.take(k0 as int));
                assert(s2.trail_limits@ == o.trail_limits@.push(cp));
            }
            assert forall|v: int| 0 <= v < o.assign@.len() implies self.assign@[v]
                == o.assign@[v] by {
                if exists|t: int|
                    o.trail@.len() <= t < s2.trail@.len() && s2.trail@[t] as int == v {
                    let t = choose|t: int|
                        o.trail@.len() <= t < s2.trail@.len() && s2.trail@[t] as int == v;
                    assert(self.assign@[v] is None);
                    if t < s1.trail@.len() {
                        assert(s0.assign@[s1.trail@[t] as int] is None);
                    } else {
                        assert(s1.assign@[s2.trail@[t] as int] is None);
                        if o.assign@[v] is Some {
                            assert(s1.assign@[v] == o.assign@[v]);
                        }
                    }
                } else {
                    assert(self.assign@[v] == s2.assign@[v]);
                    if o.assign@[v] is Some {
                        assert(s2.assign@[v] == o.assign@[v]);
                    } else {
                        if s2.assign@[v] is Some {
                            assert(1 <= v <= s2.num_vars());
                            assert(s2.trail_has(v));
                            let t = choose|t: int|
                                0 <= t < s2.trail@.len() && s2.trail@[t] as int == v;
                            if t < o.trail@.len() {
                                assert(o.trail@[t] as int == v);
                                assert(o.assign@[v] is Some);
                            }
                        }
                    }
                }
            }
            assert(self.assign@ =~= o.assign@);
            // the watch invariant is restored by the undo
            lemma_watches_ok_after_undo(s2, *self, o.trail@.len() as int);
            assert(self.watch_wf()) by {
                assert(self.watch@ == s2.watch@);
                assert(self.clauses@ == s2.clauses@);
            }
            assert(self.formula() == o.formula()) by {
                assert(self.clauses@ == s2.clauses@);
                crate::solver::lemma_formula_eq(self.clauses@, s2.clauses@);
            }
            // provenance survives the undo, so the strong invariant is
            // restored with the assignment
            assert(crate::solver::pairs_from(*self, o, o.assign@)) by {
                assert(crate::solver::pairs_from(s2, o, o.assign@));
                assert(self.clauses@ == s2.clauses@);
                assert forall|i: int|
                    0 <= i < self.clauses@.len() implies crate::solver::pair_from(
                    #[trigger] self.clauses@[i],
                    o.clauses@[i],
                    o.assign@,
                ) by {
                    assert(crate::solver::pair_from(s2.clauses@[i], o.clauses@[i], o.assign@));
                }
            }
            assert forall|i: int|
                0 <= i < self.clauses@.len() implies (#[trigger] self.clauses@[i]).lits@
                    == o.clauses@[i].lits@ by {
                assert(self.formula()[i] == o.formula()[i]);
                assert(self.formula()[i] == self.clauses@[i].lits@);
                assert(o.formula()[i] == o.clauses@[i].lits@);
            }
            crate::solver::lemma_strong_after_restore(o, *self);
            assert(self.units_true()) by {
                assert forall|i: int|
                    0 <= i < self.clauses@.len() && (#[trigger] self.clauses@[i]).lits@.len()
                        == 1 implies lit_true(self.assign@, self.clauses@[i].lits@[0]) by {
                    assert(self.clauses@[i].lits@ == o.clauses@[i].lits@);
                    assert(o.clauses@[i].lits@.len() == 1);
                    assert(lit_true(o.assign@, o.clauses@[i].lits@[0]));
                }
            }
            assert(self.no_empty_clause()) by {
                assert forall|i: int| 0 <= i < self.clauses@.len() implies (
                #[trigger] self.clauses@[i]).lits@.len() > 0 by {
                    assert(self.clauses@[i].lits@ == o.clauses@[i].lits@);
                }
            }
        }
    }

    /// Does the clause at `i` hold under the current assignment?
    fn clause_true(&self, i: usize) -> (r: bool)
        requires
            self.wf_core(),
            i < self.clauses@.len(),
        ensures
            r == clause_holds(self.assign@, self.clauses@[i as int].lits@),
    {
        let n = self.clauses[i].lits.len();
        let mut j: usize = 0;
        while j < n
            invariant
                self.wf_core(),
                i < self.clauses@.len(),
                n == self.clauses@[i as int].lits@.len(),
                j <= n,
                forall|k: int|
                    0 <= k < j ==> !lit_true(
                        self.assign@,
                        #[trigger] self.clauses@[i as int].lits@[k],
                    ),
            decreases n - j,
        {
            let cand = self.clauses[i].lits[j];
            if let Some(true) = Self::get_val(&self.assign, cand) {
                return true;
            }
            j = j + 1;
        }
        false
    }

    /// The first two unassigned variables, in ascending order of variable id.
    fn find_two_unassigned(&self) -> (r: (Option<usize>, Option<usize>))
        requires
            self.wf_core(),
        ensures
            match r.0 {
                None => r.1 is None && (forall|v: int|
                    1 <= v <= self.num_vars() ==> (#[trigger] self.assign@[v]) is Some),
                Some(v1) => {
                    &&& 1 <= v1 as int <= self.num_vars()
                    &&& self.assign@[v1 as int] is None
                    &&& forall|v: int|
                        1 <= v < v1 as int ==> (#[trigger] self.assign@[v]) is Some
                    &&& match r.1 {
                        None => forall|v: int|
                            1 <= v <= self.num_vars() && v != v1 as int ==> (
                            #[trigger] self.assign@[v]) is Some,
                        Some(v2) => {
                            &&& (v1 as int) < v2 as int <= self.num_vars()
                            &&& self.assign@[v2 as int] is None
                            &&& forall|v: int|
                                (v1 as int) < v < v2 as int ==> (
                                #[trigger] self.assign@[v]) is Some
                        },
                    }
                },
            },
    {
        let n = self.assign.len();
        let mut first: Option<usize> = None;
        let mut second: Option<usize> = None;
        let mut v: usize = 1;
        while v < n && second.is_none()
            invariant
                self.wf_core(),
                n == self.assign@.len(),
                1 <= v <= n,
                match first {
                    None => second is None && (forall|w: int|
                        1 <= w < v ==> (#[trigger] self.assign@[w]) is Some),
                    Some(v1) => {
                        &&& 1 <= v1 as int
                        &&& (v1 as int) < v as int
                        &&& self.assign@[v1 as int] is None
                        &&& match second {
                            None => forall|w: int|
                                1 <= w < v && w != v1 as int ==> (
                                #[trigger] self.assign@[w]) is Some,
                            Some(v2) => {
                                &&& (v1 as int) < v2 as int
                                &&& (v2 as int) < v as int
                                &&& self.assign@[v2 as int] is None
                                &&& forall|w: int|
                                    1 <= w < v2 as int && w != v1 as int ==> (
                                    #[trigger] self.assign@[w]) is Some
                            },
                        }
                    },
                },
            decreases n - v,
        {
            if self.assign[v].is_none() {
                if first.is_none() {
                    first = Some(v);
                } else {
                    second = Some(v);
                }
            }
            v = v + 1;
        }
        (first, second)
    }

    /// Does every clause hold under the current assignment?
    fn is_satisfied(&self) -> (r: bool)
        requires
            self.wf_core(),
        ensures
            r == formula_holds(self.assign@, self.formula()),
    {
        let n = self.clauses.len();
        let mut i: usize = 0;
        while i < n
            invariant
                self.wf_core(),
                n == self.clauses@.len(),
                i <= n,
                forall|k: int| 0 <= k < i ==> clause_holds(self.assign@, #[trigger] self.formula()[k]),
            decreases n - i,
        {
            if !self.clause_true(i) {
                proof {
                    assert(self.formula()[i as int] == self.clauses@[i as int].lits@);
                }
                return false;
            }
            i = i + 1;
        }
        true
    }

    /// Try one alternative of a single-variable frame: checkpoint, assume the
    /// chosen polarity, and search on. On failure the checkpoint is undone
    /// completely, and no satisfying total extension of the entry state picks
    /// this polarity for the variable.
    fn try_assignment(&mut self, var: usize, pol: bool) -> (r: bool)
        requires
            old(self).inv(),
            old(self).strong_rest(),
            old(self).units_true(),
            old(self).no_empty_clause(),
            1 <= var as int <= old(self).num_vars(),
            old(self).assign@[var as int] is None,
        ensures
            final(self).strong_rest(),
            final(self).units_true(),
            final(self).no_empty_clause(),
            crate::solver::pairs_from(*final(self), *old(self), old(self).assign@),
            final(self).wf_core(),
            final(self).watch_wf(),
            final(self).num_vars() == old(self).num_vars(),
            final(self).formula() == old(self).formula(),
            final(self).clauses@.len() == old(self).clauses@.len(),
            final(self).assign@.len() == old(self).assign@.len(),
            final(self).pending@.len() <= old(self).pending@.len(),
            r ==> final(self).watches_ok() && formula_holds(
                final(self).assign@,
                final(self).formula(),
            ),
            // success commits the tried polarity, completes a total
            // assignment, and preserves everything assigned on entry
            r ==> final(self).assign@[var as int] == Some(pol),
            r ==> forall|v: int|
                1 <= v <= old(self).num_vars() ==> (#[trigger] final(self).assign@[v]) is Some,
            r ==> forall|v: int|
                0 <= v < old(self).assign@.len() && (#[trigger] old(self).assign@[v]) is Some
                    ==> final(self).assign@[v] == old(self).assign@[v],
            !r ==> {
                &&& final(self).assign@ == old(self).assign@
                &&& final(self).trail@ == old(self).trail@
                &&& final(self).trail_limits@ == old(self).trail_limits@
                &&& final(self).watches_ok()
                &&& forall|b: Seq<Option<bool>>|
                    sat_extension(b, old(self).assign@, old(self).formula()) ==> b[var as int]
                        != Some(pol)
            },
        decreases count_none(self.assign@), self.pending@.len(), 0int,
    {
        let ghost o = *old(self);
        let k0 = self.trail_limits.len();
        let cp = self.trail.len();
        self.trail_limits.push(cp);
        proof {
            assert(self.wf_core()) by {
                assert forall|i: int, j: int|
                    0 <= i <= j < self.trail_limits@.len() implies self.trail_limits@[i]
                        <= self.trail_limits@[j] by {
                    if j == self.trail_limits@.len() - 1 && i < j {
                        assert(o.trail_limits@[i] as int <= o.trail@.len());
                    }
                }
                crate::solver::lemma_edges_wf_preserved(o, *self);
            }
            crate::solver::lemma_strong_after_push_limit(o, *self);
        }
        let ghost s0 = *self;
        let l: i32 = if pol {
            var as i32
        } else {
            -(var as i32)
        };
        proof {
            assert(valid_lit(l, o.num_vars()));
            assert(lit_var(l) == var as int);
        }
        let ok = self.assume_literal(l);
        let ghost s1 = *self;
        proof {
            assert(crate::solver::pairs_from(s1, o, o.assign@)) by {
                assert(crate::solver::pairs_from(s1, s0, s0.assign@));
                assert forall|i: int|
                    0 <= i < s1.clauses@.len() implies crate::solver::pair_from(
                    #[trigger] s1.clauses@[i],
                    o.clauses@[i],
                    o.assign@,
                ) by {
                    assert(crate::solver::pair_from(s1.clauses@[i], s0.clauses@[i], s0.assign@));
                    assert(s0.clauses@[i] == o.clauses@[i]);
                    assert(s0.assign@ == o.assign@);
                }
            }
        }
        if ok {
            proof {
                crate::logic::lemma_count_none_lt(o.assign@, s1.assign@, var as int);
                crate::logic::lemma_count_none_nonneg(s1.assign@);
            }
            let r2 = self.solve_recursive();
            proof {
                crate::solver::lemma_pairs_from_trans(*self, s1, o, o.assign@, s1.assign@);
            }
            if r2 {
                return true;
            }
        }
        let ghost s2 = *self;
        self.undo_to_level(k0);
        proof {
            assert(s2.trail_limits@[k0 as int] as int == o.trail@.len());
            assert(self.trail@ =~= o.trail@) by {
                assert(o.trail@.is_prefix_of(s2.trail@));
                assert(self.trail@ == s2.trail@.take(o.trail@.len() as int));
            }
            assert(self.trail_limits@ =~= o.trail_limits@) by {
                assert(self.trail_limits@ == s2.trail_limits@.take(k0 as int));
                assert(s2.trail_limits@ == o.trail_limits@.push(cp));
            }
            assert forall|t: int|
                o.trail@.len() <= t < s2.trail@.len() implies o.assign@[(
                #[trigger] s2.trail@[t]) as int] is None by {
                if t < s1.trail@.len() {
                    assert(s0.assign@[s1.trail@[t] as int] is None);
                } else {
                    assert(s1.assign@[s2.trail@[t] as int] is None);
                    if o.assign@[s2.trail@[t] as int] is Some {
                        assert(s1.assign@[s2.trail@[t] as int] == o.assign@[(s2.trail@[t])
                            as int]);
                    }
                }
            }
            lemma_undo_restores_assign(o, s2, *self);
            lemma_watches_ok_after_undo(s2, *self, o.trail@.len() as int);
            assert(self.watch_wf()) by {
                assert(self.watch@ == s2.watch@);
                assert(self.clauses@ == s2.clauses@);
            }
            assert(self.formula() == o.formula()) by {
                crate::solver::lemma_formula_eq(self.clauses@, s2.clauses@);
            }
            assert(crate::solver::pairs_from(*self, o, o.assign@)) by {
                assert(crate::solver::pairs_from(s2, o, o.assign@));
                assert forall|i: int|
                    0 <= i < self.clauses@.len() implies crate::solver::pair_from(
                    #[trigger] self.clauses@[i],
                    o.clauses@[i],
                    o.assign@,
                ) by {
                    assert(crate::solver::pair_from(s2.clauses@[i], o.clauses@[i], o.assign@));
                    assert(self.clauses@[i] == s2.clauses@[i]);
                }
            }
            assert forall|i: int|
                0 <= i < self.clauses@.len() implies (#[trigger] self.clauses@[i]).lits@
                    == o.clauses@[i].lits@ by {
                assert(self.formula()[i] == o.formula()[i]);
                assert(self.formula()[i] == self.clauses@[i].lits@);
                assert(o.formula()[i] == o.clauses@[i].lits@);
            }
            crate::solver::lemma_strong_after_restore(o, *self);
            assert(self.units_true()) by {
                assert forall|i: int|
                    0 <= i < self.clauses@.len() && (#[trigger] self.clauses@[i]).lits@.len()
                        == 1 implies lit_true(self.assign@, self.clauses@[i].lits@[0]) by {
                    assert(self.clauses@[i].lits@ == o.clauses@[i].lits@);
                    assert(o.clauses@[i].lits@.len() == 1);
                    assert(lit_true(o.assign@, o.clauses@[i].lits@[0]));
                }
            }
            assert(self.no_empty_clause()) by {
                assert forall|i: int| 0 <= i < self.clauses@.len() implies (
                #[trigger] self.clauses@[i]).lits@.len() > 0 by {
                    assert(self.clauses@[i].lits@ == o.clauses@[i].lits@);
                }
            }
            assert forall|b: Seq<Option<bool>>|
                sat_extension(b, o.assign@, o.formula()) implies b[var as int] != Some(pol) by {
                if sat_extension(b, o.assign@, o.formula()) && b[var as int] == Some(pol) {
                    assert(lit_true(b, l));
                    assert(sat_extension(b, s0.assign@, s0.formula()));
                    assert(ok);
                    assert(assign_extends(b, s1.assign@));
                    assert(sat_extension(b, s1.assign@, s1.formula()));
                    assert(false);
                }
            }
        }
        false
    }

    /// Try one polarity combination of a pair frame: checkpoint, assume both
    /// literals in turn, and search on. On failure the checkpoint is undone
    /// completely, and no satisfying total extension of the entry state picks
    /// this combination for the two variables.
    fn try_pair_assignment(&mut self, var1: usize, pol1: bool, var2: usize, pol2: bool) -> (r:
        bool)
        requires
            old(self).inv(),
            1 <= var1 as int <= old(self).num_vars(),
            1 <= var2 as int <= old(self).num_vars(),
            var1 != var2,
            old(self).strong_rest(),
            old(self).units_true(),
            old(self).no_empty_clause(),
            old(self).assign@[var1 as int] is None,
            old(self).assign@[var2 as int] is None,
        ensures
            final(self).strong_rest(),
            final(self).units_true(),
            final(self).no_empty_clause(),
            crate::solver::pairs_from(*final(self), *old(self), old(self).assign@),
            final(self).wf_core(),
            final(self).watch_wf(),
            final(self).num_vars() == old(self).num_vars(),
            final(self).formula() == old(self).formula(),
            final(self).clauses@.len() == old(self).clauses@.len(),
            final(self).assign@.len() == old(self).assign@.len(),
            final(self).pending@.len() <= old(self).pending@.len(),
            r ==> final(self).watches_ok() && formula_holds(
                final(self).assign@,
                final(self).formula(),
            ),
            // success commits both tried polarities, completes a total
            // assignment, and preserves everything assigned on entry
            r ==> final(self).assign@[var1 as int] == Some(pol1) && final(self).assign@[var2
                as int] == Some(pol2),
            r ==> forall|v: int|
                1 <= v <= old(self).num_vars() ==> (#[trigger] final(self).assign@[v]) is Some,
            r ==> forall|v: int|
                0 <= v < old(self).assign@.len() && (#[trigger] old(self).assign@[v]) is Some
                    ==> final(self).assign@[v] == old(self).assign@[v],
            !r ==> {
                &&& final(self).assign@ == old(self).assign@
                &&& final(self).trail@ == old(self).trail@
                &&& final(self).trail_limits@ == old(self).trail_limits@
                &&& final(self).watches_ok()
                &&& forall|b: Seq<Option<bool>>|
                    sat_extension(b, old(self).assign@, old(self).formula()) ==> !(b[var1
                        as int] == Some(pol1) && b[var2 as int] == Some(pol2))
            },
        decreases count_none(self.assign@), self.pending@.len(), 0int,
    {
        let ghost o = *old(self);
        let k0 = self.trail_limits.len();
        let cp = self.trail.len();
        self.trail_limits.push(cp);
        proof {
            assert(self.wf_core()) by {
                assert forall|i: int, j: int|
                    0 <= i <= j < self.trail_limits@.len() implies self.trail_limits@[i]
                        <= self.trail_limits@[j] by {
                    if j == self.trail_limits@.len() - 1 && i < j {
                        assert(o.trail_limits@[i] as int <= o.trail@.len());
                    }
                }
                crate::solver::lemma_edges_wf_preserved(o, *self);
            }
            crate::solver::lemma_strong_after_push_limit(o, *self);
        }
        let ghost s0 = *self;
        let l1: i32 = if pol1 {
            var1 as i32
        } else {
            -(var1 as i32)
        };
        let l2: i32 = if pol2 {
            var2 as i32
        } else {
            -(var2 as i32)
        };
        proof {
            assert(valid_lit(l1, o.num_vars()) && lit_var(l1) == var1 as int);
            assert(valid_lit(l2, o.num_vars()) && lit_var(l2) == var2 as int);
        }
        let ok1 = self.assume_literal(l1);
        let ghost s1 = *self;
        proof {
            assert(crate::solver::pairs_from(s1, o, o.assign@)) by {
                assert(crate::solver::pairs_from(s1, s0, s0.assign@));
                assert forall|i: int|
                    0 <= i < s1.clauses@.len() implies crate::solver::pair_from(
                    #[trigger] s1.clauses@[i],
                    o.clauses@[i],
                    o.assign@,
                ) by {
                    assert(crate::solver::pair_from(s1.clauses@[i], s0.clauses@[i], s0.assign@));
                    assert(s0.clauses@[i] == o.clauses@[i]);
                    assert(s0.assign@ == o.assign@);
                }
            }
        }
        let mut ok = ok1;
        if ok1 {
            ok = self.assume_literal(l2);
            proof {
                crate::solver::lemma_pairs_from_trans(*self, s1, o, o.assign@, s1.assign@);
            }
        }
        let ghost s2 = *self;
        if ok {
            proof {
                crate::logic::lemma_count_none_lt(o.assign@, s2.assign@, var1 as int);
                crate::logic::lemma_count_none_nonneg(s2.assign@);
            }
            let r2 = self.solve_recursive();
            proof {
                crate::solver::lemma_pairs_from_trans(*self, s2, o, o.assign@, s2.assign@);
            }
            if r2 {
                return true;
            }
        }
        let ghost s3 = *self;
        self.undo_to_level(k0);
        proof {
            assert(s3.trail_limits@[k0 as int] as int == o.trail@.len());
            assert(self.trail@ =~= o.trail@) by {
                assert(o.trail@.is_prefix_of(s3.trail@));
                assert(self.trail@ == s3.trail@.take(o.trail@.len() as int));
            }
            assert(self.trail_limits@ =~= o.trail_limits@) by {
                assert(self.trail_limits@ == s3.trail_limits@.take(k0 as int));
                assert(s3.trail_limits@ == o.trail_limits@.push(cp));
            }
            assert forall|t: int|
                o.trail@.len() <= t < s3.trail@.len() implies o.assign@[(
                #[trigger] s3.trail@[t]) as int] is None by {
                if t < s1.trail@.len() {
                    assert(s0.assign@[s1.trail@[t] as int] is None);
                } else if t < s2.trail@.len() {
                    assert(s1.assign@[s2.trail@[t] as int] is None);
                    if o.assign@[s2.trail@[t] as int] is Some {
                        assert(s1.assign@[s2.trail@[t] as int] == o.assign@[(s2.trail@[t])
                            as int]);
                    }
                } else {
                    assert(s2.assign@[s3.trail@[t] as int] is None);
                    if o.assign@[s3.trail@[t] as int] is Some {
                        assert(s2.assign@[s3.trail@[t] as int] == o.assign@[(s3.trail@[t])
                            as int]);
                    }
                }
            }
            lemma_undo_restores_assign(o, s3, *self);
            lemma_watches_ok_after_undo(s3, *self, o.trail@.len() as int);
            assert(self.watch_wf()) by {
                assert(self.watch@ == s3.watch@);
                assert(self.clauses@ == s3.clauses@);
            }
            assert(self.formula() == o.formula()) by {
                crate::solver::lemma_formula_eq(self.clauses@, s3.clauses@);
            }
            assert(crate::solver::pairs_from(*self, o, o.assign@)) by {
                assert(crate::solver::pairs_from(s3, o, o.assign@));
                assert forall|i: int|
                    0 <= i < self.clauses@.len() implies crate::solver::pair_from(
                    #[trigger] self.clauses@[i],
                    o.clauses@[i],
                    o.assign@,
                ) by {
                    assert(crate::solver::pair_from(s3.clauses@[i], o.clauses@[i], o.assign@));
                    assert(self.clauses@[i] == s3.clauses@[i]);
                }
            }
            assert forall|i: int|
                0 <= i < self.clauses@.len() implies (#[trigger] self.clauses@[i]).lits@
                    == o.clauses@[i].lits@ by {
                assert(self.formula()[i] == o.formula()[i]);
                assert(self.formula()[i] == self.clauses@[i].lits@);
                assert(o.formula()[i] == o.clauses@[i].lits@);
            }
            crate::solver::lemma_strong_after_restore(o, *self);
            assert(self.units_true()) by {
                assert forall|i: int|
                    0 <= i < self.clauses@.len() && (#[trigger] self.clauses@[i]).lits@.len()
                        == 1 implies lit_true(self.assign@, self.clauses@[i].lits@[0]) by {
                    assert(self.clauses@[i].lits@ == o.clauses@[i].lits@);
                    assert(o.clauses@[i].lits@.len() == 1);
                    assert(lit_true(o.assign@, o.clauses@[i].lits@[0]));
                }
            }
            assert(self.no_empty_clause()) by {
                assert forall|i: int| 0 <= i < self.clauses@.len() implies (
                #[trigger] self.clauses@[i]).lits@.len() > 0 by {
                    assert(self.clauses@[i].lits@ == o.clauses@[i].lits@);
                }
            }
            assert forall|b: Seq<Option<bool>>|
                sat_extension(b, o.assign@, o.formula()) implies !(b[var1 as int] == Some(pol1)
                    && b[var2 as int] == Some(pol2)) by {
                if sat_extension(b, o.assign@, o.formula()) && b[var1 as int] == Some(pol1)
                    && b[var2 as int] == Some(pol2) {
                    assert(lit_true(b, l1));
                    assert(sat_extension(b, s0.assign@, s0.formula()));
                    assert(ok1);
                    assert(assign_extends(b, s1.assign@));
                    assert(sat_extension(b, s1.assign@, s1.formula()));
                    assert(lit_true(b, l2));
                    assert(ok);
                    assert(assign_extends(b, s2.assign@));
                    assert(sat_extension(b, s2.assign@, s2.formula()));
                    assert(false);
                }
            }
        }
        false
    }

    /// The main search loop, one call per decision frame. While implication
    /// candidates are pending, each is probed (an `Implication` frame, no
    /// second alternative). Otherwise the next one or two unassigned
    /// variables, in ascending id order, open a `Single` or `Pair` frame whose
    /// alternatives are tried in order until one subtree reports satisfiable
    /// or all are exhausted. With no variable left, the assignment is checked
    /// against every clause.
    fn solve_recursive(&mut self) -> (r: bool)
        requires
            old(self).inv(),
            old(self).strong_rest(),
            old(self).units_true(),
            old(self).no_empty_clause(),
        ensures
            final(self).strong_rest(),
            final(self).units_true(),
            final(self).no_empty_clause(),
            crate::solver::pairs_from(*final(self), *old(self), old(self).assign@),
            final(self).wf_core(),
            final(self).watch_wf(),
            final(self).num_vars() == old(self).num_vars(),
            final(self).formula() == old(self).formula(),
            final(self).clauses@.len() == old(self).clauses@.len(),
            final(self).assign@.len() == old(self).assign@.len(),
            final(self).pending@.len() <= old(self).pending@.len(),
            r ==> final(self).watches_ok() && formula_holds(
                final(self).assign@,
                final(self).formula(),
            ),
            // a satisfiable verdict comes with a total assignment extending
            // the entry assignment
            r ==> forall|v: int|
                1 <= v <= old(self).num_vars() ==> (#[trigger] final(self).assign@[v]) is Some,
            r ==> forall|v: int|
                0 <= v < old(self).assign@.len() && (#[trigger] old(self).assign@[v]) is Some
                    ==> final(self).assign@[v] == old(self).assign@[v],
            !r ==> {
                &&& final(self).assign@ == old(self).assign@
                &&& final(self).trail@ == old(self).trail@
                &&& final(self).trail_limits@ == old(self).trail_limits@
                &&& final(self).watches_ok()
                &&& forall|b: Seq<Option<bool>>|
                    !sat_extension(b, old(self).assign@, old(self).formula())
            },
        decreases count_none(self.assign@), self.pending@.len(), 1int,
    {
        let ghost o = *old(self);
        let frame: DecisionFrame;
        if self.pending.len() > 0 {
            let e = self.pending.pop().unwrap();
            proof {
                assert(e == o.pending@[o.pending@.len() - 1]);
                assert(o.edge_wf(e));
                crate::solver::lemma_edges_wf_preserved(o, *self);
                assert(self.wf_core());
            }
            frame = DecisionFrame::Implication { edge: e };
        } else {
            let (n1, n2) = self.find_two_unassigned();
            match (n1, n2) {
                (None, _) => {
                    // every variable is assigned: the leaf check decides
                    let sat = self.is_satisfied();
                    proof {
                        lemma_pairs_refl(*self, o.assign@);
                        if !sat {
                            assert forall|b: Seq<Option<bool>>| !sat_extension(
                                b,
                                o.assign@,
                                o.formula(),
                            ) by {
                                if sat_extension(b, o.assign@, o.formula()) {
                                    assert(crate::logic::assign_total(o.assign@)) by {
                                        assert(o.assign@[0] is None);
                                    }
                                    assert forall|i: int, j: int|
                                        0 <= i < o.formula().len() && 0 <= j < (
                                        #[trigger] o.formula()[i]).len() implies valid_lit(
                                        #[trigger] o.formula()[i][j],
                                        o.num_vars(),
                                    ) by {
                                        assert(o.formula()[i] == o.clauses@[i].lits@);
                                    }
                                    crate::logic::lemma_total_extension_agrees(
                                        b,
                                        o.assign@,
                                        o.formula(),
                                        o.num_vars(),
                                    );
                                    assert(false);
                                }
                            }
                        }
                    }
                    return sat;
                },
                (Some(v1), None) => {
                    frame = DecisionFrame::Single {
                        var: v1,
                        tried_polarity: true,
                        tried_both: false,
                    };
                },
                (Some(v1), Some(v2)) => {
                    frame = DecisionFrame::Pair {
                        var1: v1,
                        var2: v2,
                        tried_combinations: 0,
                        tried_all: false,
                    };
                },
            }
        }
        let ghost m = *self;
        match frame {
            DecisionFrame::Implication { edge } => {
                // probes never leave residual state; once tested the frame is
                // resolved for good
                self.probe_implication(edge.from, edge.to);
                let ghost sp = *self;
                let r = self.solve_recursive();
                proof {
                    crate::solver::lemma_pairs_from_trans(*self, sp, o, o.assign@, sp.assign@);
                    if !r {
                        assert(self.assign@ == o.assign@);
                        assert(self.trail@ == o.trail@);
                        assert(self.trail_limits@ == o.trail_limits@);
                    }
                }
                r
            },
            DecisionFrame::Single { var, mut tried_polarity, mut tried_both } => {
                loop
                    invariant
                        o == *old(self),
                        self.inv(),
                        self.strong_rest(),
                        self.units_true(),
                        self.no_empty_clause(),
                        crate::solver::pairs_from(*self, o, o.assign@),
                        self.num_vars() == o.num_vars(),
                        self.formula() == o.formula(),
                        self.clauses@.len() == o.clauses@.len(),
                        self.assign@ == o.assign@,
                        self.trail@ == o.trail@,
                        self.trail_limits@ == o.trail_limits@,
                        self.pending@.len() <= o.pending@.len(),
                        1 <= var as int <= o.num_vars(),
                        o.assign@[var as int] is None,
                        !tried_both ==> tried_polarity,
                        tried_both ==> !tried_polarity,
                        tried_both ==> forall|b: Seq<Option<bool>>|
                            sat_extension(b, o.assign@, o.formula()) ==> b[var as int] != Some(
                                true,
                            ),
                    decreases (if tried_both {
                        0int
                    } else {
                        1int
                    }),
                {
                    let ghost sc = *self;
                    if self.try_assignment(var, tried_polarity) {
                        proof {
                            crate::solver::lemma_pairs_from_trans(
                                *self,
                                sc,
                                o,
                                o.assign@,
                                sc.assign@,
                            );
                        }
                        return true;
                    }
                    proof {
                        crate::solver::lemma_pairs_from_trans(
                            *self,
                            sc,
                            o,
                            o.assign@,
                            sc.assign@,
                        );
                    }
                    if tried_both {
                        proof {
                            assert forall|b: Seq<Option<bool>>| !sat_extension(
                                b,
                                o.assign@,
                                o.formula(),
                            ) by {
                                if sat_extension(b, o.assign@, o.formula()) {
                                    assert(b.len() == o.assign@.len());
                                    assert(1 <= var as int && (var as int) < b.len());
                                    assert(b[var as int] is Some);
                                    let bv: bool = b[var as int]->0;
                                    assert(b[var as int] == Some(bv));
                                    assert(b[var as int] != Some(true));
                                    assert(b[var as int] != Some(false));
                                    assert(bv != true && bv != false);
                                }
                            }
                        }
                        return false;
                    }
                    // flip polarity and mark both alternatives as taken
                    tried_polarity = false;
                    tried_both = true;
                }
            },
            DecisionFrame::Pair { var1, var2, mut tried_combinations, mut tried_all } => {
                while !tried_all
                    invariant
                        o == *old(self),
                        self.inv(),
                        self.strong_rest(),
                        self.units_true(),
                        self.no_empty_clause(),
                        crate::solver::pairs_from(*self, o, o.assign@),
                        self.num_vars() == o.num_vars(),
                        self.formula() == o.formula(),
                        self.clauses@.len() == o.clauses@.len(),
                        self.assign@ == o.assign@,
                        self.trail@ == o.trail@,
                        self.trail_limits@ == o.trail_limits@,
                        self.pending@.len() <= o.pending@.len(),
                        1 <= var1 as int <= o.num_vars(),
                        1 <= var2 as int <= o.num_vars(),
                        var1 != var2,
                        o.assign@[var1 as int] is None,
                        o.assign@[var2 as int] is None,
                        tried_combinations <= 4,
                        tried_all ==> tried_combinations == 4,
                        !tried_all ==> tried_combinations < 4,
                        forall|b: Seq<Option<bool>>|
                            sat_extension(b, o.assign@, o.formula()) ==> combo_idx(
                                b,
                                var1 as int,
                                var2 as int,
                            ) >= tried_combinations as int,
                    decreases 4 - tried_combinations,
                {
                    let p1 = tried_combinations < 2;
                    let p2 = tried_combinations % 2 == 0;
                    let ghost tc = tried_combinations as int;
                    let ghost sc = *self;
                    if self.try_pair_assignment(var1, p1, var2, p2) {
                        proof {
                            crate::solver::lemma_pairs_from_trans(
                                *self,
                                sc,
                                o,
                                o.assign@,
                                sc.assign@,
                            );
                        }
                        return true;
                    }
                    proof {
                        crate::solver::lemma_pairs_from_trans(
                            *self,
                            sc,
                            o,
                            o.assign@,
                            sc.assign@,
                        );
                    }
                    proof {
                        assert forall|b: Seq<Option<bool>>|
                            sat_extension(b, o.assign@, o.formula()) implies combo_idx(
                            b,
                            var1 as int,
                            var2 as int,
                        ) >= tc + 1 by {
                            assert(b[var1 as int] is Some && b[var2 as int] is Some);
                            assert(!(b[var1 as int] == Some(p1) && b[var2 as int] == Some(
                                p2,
                            )));
                            if combo_idx(b, var1 as int, var2 as int) == tc {
                                assert(b[var1 as int] == Some(p1) && b[var2 as int] == Some(
                                    p2,
                                ));
                            }
                        }
                    }
                    tried_combinations = tried_combinations + 1;
                    if tried_combinations == 4 {
                        tried_all = true;
                    }
                }
                proof {
                    assert forall|b: Seq<Option<bool>>| !sat_extension(
                        b,
                        o.assign@,
                        o.formula(),
                    ) by {
                        if sat_extension(b, o.assign@, o.formula()) {
                            assert(b[var1 as int] is Some && b[var2 as int] is Some);
                            assert(combo_idx(b, var1 as int, var2 as int) <= 3);
                        }
                    }
                }
                false
            },
        }
    }

    /// Decide satisfiability. An empty clause is an immediate contradiction;
    /// otherwise the load-time unit clauses are applied and propagated, and
    /// the search runs to a verdict. On a true result the solver's assignment
    /// satisfies every stored clause; on a false result no total assignment
    /// over the declared variables satisfies the formula.
    pub fn solve(&mut self) -> (r: bool)
        requires
            old(self).inv(),
            forall|v: int|
                0 <= v < old(self).assign@.len() ==> (#[trigger] old(self).assign@[v]) is None,
            old(self).trail@.len() == 0,
            old(self).trail_limits@.len() == 0,
        ensures
            final(self).num_vars() == old(self).num_vars(),
            final(self).formula() == old(self).formula(),
            final(self).assign@.len() == old(self).assign@.len(),
            r ==> formula_holds(final(self).assign@, final(self).formula()),
            // a SAT verdict assigns every declared variable
            r ==> forall|v: int|
                1 <= v <= old(self).num_vars() ==> (#[trigger] final(self).assign@[v]) is Some,
            !r ==> forall|b: Seq<Option<bool>>|
                b.len() == old(self).assign@.len() && assign_total(b) ==> !formula_holds(
                    b,
                    old(self).formula(),
                ),
    {
        let ghost o = *old(self);
        let nclauses = self.clauses.len();
        // an empty clause is a permanent contradiction, independent of any
        // assignment
        let mut i: usize = 0;
        while i < nclauses
            invariant
                o == *old(self),
                *self == o,
                nclauses == self.clauses@.len(),
                i <= nclauses,
                forall|k: int| 0 <= k < i ==> (#[trigger] self.clauses@[k]).lits@.len() > 0,
            decreases nclauses - i,
        {
            if self.clauses[i].lits.len() == 0 {
                proof {
                    assert forall|b: Seq<Option<bool>>|
                        b.len() == o.assign@.len() && assign_total(b) implies !formula_holds(
                        b,
                        o.formula(),
                    ) by {
                        assert(o.formula()[i as int] == o.clauses@[i as int].lits@);
                        assert(!clause_holds(b, o.formula()[i as int]));
                    }
                }
                return false;
            }
            i = i + 1;
        }
        proof {
            // nothing is assigned yet, so no watched literal is false
            assert(self.strong_rest()) by {
                assert forall|x: int|
                    0 <= x < self.clauses@.len() && (#[trigger] self.clauses@[x]).lits@.len()
                        >= 2 implies self.slot_ok(
                    self.clauses@[x].watched0(),
                    self.clauses@[x].watched1(),
                    Seq::empty(),
                ) && self.slot_ok(
                    self.clauses@[x].watched1(),
                    self.clauses@[x].watched0(),
                    Seq::empty(),
                ) by {
                    assert(valid_lit(self.clauses@[x].watched0(), self.num_vars()));
                    assert(valid_lit(self.clauses@[x].watched1(), self.num_vars()));
                }
            }
            assert(o.no_empty_clause());
        }
        // gather the unit clauses present at load time
        let mut units: Vec<i32> = Vec::new();
        let mut j: usize = 0;
        while j < nclauses
            invariant
                o == *old(self),
                *self == o,
                o.inv(),
                nclauses == self.clauses@.len(),
                j <= nclauses,
                forall|k: int|
                    0 <= k < units@.len() ==> valid_lit(#[trigger] units@[k], o.num_vars())
                        && unit_clause_lit(o.clauses@, units@[k]),
                forall|ci: int|
                    0 <= ci < j && (#[trigger] o.clauses@[ci]).lits@.len() == 1
                        ==> units@.contains(o.clauses@[ci].lits@[0]),
            decreases nclauses - j,
        {
            if self.clauses[j].lits.len() == 1 {
                let u = self.clauses[j].lits[0];
                let ghost upre = units@;
                units.push(u);
                proof {
                    assert(valid_lit(u, o.num_vars()));
                    assert(unit_clause_lit(o.clauses@, u)) by {
                        assert((j as int) < o.clauses@.len() && o.clauses@[j as int].lits@.len()
                            == 1 && o.clauses@[j as int].lits@[0] == u);
                    }
                    assert forall|k: int|
                        0 <= k < units@.len() implies valid_lit(
                        #[trigger] units@[k],
                        o.num_vars(),
                    ) && unit_clause_lit(o.clauses@, units@[k]) by {
                        if k < upre.len() {
                            assert(units@[k] == upre[k]);
                        } else {
                            assert(units@[k] == u);
                        }
                    }
                    assert forall|ci: int|
                        0 <= ci < j + 1 && (#[trigger] o.clauses@[ci]).lits@.len() == 1
                            implies units@.contains(o.clauses@[ci].lits@[0]) by {
                        if ci < j {
                            let k = choose|k: int|
                                0 <= k < upre.len() && upre[k] == o.clauses@[ci].lits@[0];
                            assert(units@[k] == o.clauses@[ci].lits@[0]);
                        } else {
                            assert(units@[units@.len() - 1] == o.clauses@[ci].lits@[0]);
                        }
                    }
                }
            } else {
                proof {
                    assert forall|ci: int|
                        0 <= ci < j + 1 && (#[trigger] o.clauses@[ci]).lits@.len() == 1
                            implies units@.contains(o.clauses@[ci].lits@[0]) by {}
                }
            }
            j = j + 1;
        }
        // apply them: a conflict here proves the formula unsatisfiable
        let mut k: usize = 0;
        while k < units.len()
            invariant
                o == *old(self),
                o.inv(),
                self.inv(),
                self.strong_rest(),
                self.no_empty_clause(),
                forall|k2: int| 0 <= k2 < k ==> lit_true(self.assign@, #[trigger] units@[k2]),
                forall|ci: int|
                    0 <= ci < o.clauses@.len() && (#[trigger] o.clauses@[ci]).lits@.len() == 1
                        ==> units@.contains(o.clauses@[ci].lits@[0]),
                forall|ci: int|
                    0 <= ci < self.clauses@.len() ==> (#[trigger] self.clauses@[ci]).lits@
                        == o.clauses@[ci].lits@,
                self.num_vars() == o.num_vars(),
                self.formula() == o.formula(),
                self.assign@.len() == o.assign@.len(),
                k <= units@.len(),
                forall|k2: int|
                    0 <= k2 < units@.len() ==> valid_lit(#[trigger] units@[k2], o.num_vars())
                        && unit_clause_lit(o.clauses@, units@[k2]),
                forall|b: Seq<Option<bool>>|
                    b.len() == o.assign@.len() && assign_total(b) && formula_holds(
                        b,
                        o.formula(),
                    ) ==> assign_extends(b, self.assign@),
            decreases units@.len() - k,
        {
            let u = units[k];
            let ghost pre = *self;
            let ok = self.assume_literal(u);
            proof {
                assert forall|b: Seq<Option<bool>>|
                    b.len() == o.assign@.len() && assign_total(b) && formula_holds(
                        b,
                        o.formula(),
                    ) implies assign_extends(b, self.assign@) && lit_true(b, u) by {
                    assert(assign_extends(b, pre.assign@));
                    assert(sat_extension(b, pre.assign@, pre.formula()));
                    assert(lit_true(b, u)) by {
                        assert(unit_clause_lit(o.clauses@, u));
                        let ci = choose|ci: int|
                            0 <= ci < o.clauses@.len() && (#[trigger] o.clauses@[ci]).lits@.len()
                                == 1 && o.clauses@[ci].lits@[0] == u;
                        assert(clause_holds(b, o.formula()[ci]));
                        assert(o.formula()[ci] == o.clauses@[ci].lits@);
                        let jj = choose|jj: int|
                            0 <= jj < o.clauses@[ci].lits@.len() && lit_true(
                                b,
                                o.clauses@[ci].lits@[jj],
                            );
                        assert(jj == 0);
                    }
                    if ok {
                        assert(assign_extends(b, self.assign@));
                    }
                }
            }
            if !ok {
                proof {
                    assert forall|b: Seq<Option<bool>>|
                        b.len() == o.assign@.len() && assign_total(b) implies !formula_holds(
                        b,
                        o.formula(),
                    ) by {
                        if formula_holds(b, o.formula()) {
                            assert(lit_true(b, u));
                            assert(sat_extension(b, pre.assign@, pre.formula()));
                            assert(!lit_true(b, u));
                        }
                    }
                }
                return false;
            }
            proof {
                assert forall|k2: int|
                    0 <= k2 < k + 1 implies lit_true(self.assign@, #[trigger] units@[k2]) by {
                    if k2 < k as int {
                        assert(lit_true(pre.assign@, units@[k2]));
                    } else {
                        assert(lit_true(self.assign@, u));
                    }
                }
                assert forall|ci: int|
                    0 <= ci < self.clauses@.len() implies (#[trigger] self.clauses@[ci]).lits@
                        == o.clauses@[ci].lits@ by {
                    assert(self.formula()[ci] == pre.formula()[ci]);
                    assert(self.formula()[ci] == self.clauses@[ci].lits@);
                    assert(pre.formula()[ci] == pre.clauses@[ci].lits@);
                    assert(pre.clauses@[ci].lits@ == o.clauses@[ci].lits@);
                }
            }
            k = k + 1;
        }
        proof {
            // every load-time unit clause is now satisfied
            assert(self.units_true()) by {
                assert forall|ci: int|
                    0 <= ci < self.clauses@.len() && (#[trigger] self.clauses@[ci]).lits@.len()
                        == 1 implies lit_true(self.assign@, self.clauses@[ci].lits@[0]) by {
                    assert(self.clauses@[ci].lits@ == o.clauses@[ci].lits@);
                    assert(o.clauses@[ci].lits@.len() == 1);
                    assert(units@.contains(o.clauses@[ci].lits@[0]));
                    let kk = choose|kk: int|
                        0 <= kk < units@.len() && units@[kk] == o.clauses@[ci].lits@[0];
                    assert(lit_true(self.assign@, units@[kk]));
                }
            }
        }
        // search
        let ghost prerec = *self;
        let r = self.solve_recursive();
        proof {
            if !r {
                assert forall|b: Seq<Option<bool>>|
                    b.len() == o.assign@.len() && assign_total(b) implies !formula_holds(
                    b,
                    o.formula(),
                ) by {
                    if formula_holds(b, o.formula()) {
                        assert(assign_extends(b, prerec.assign@));
                        assert(sat_extension(b, prerec.assign@, prerec.formula()));
                    }
                }
            }
        }
        r
    }
}

} // verus!
