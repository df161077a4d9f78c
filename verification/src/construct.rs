//! Construction of a solver from a variable count and a list of clauses:
//! clause storage, initial watch registration, and extraction of the
//! implication-probe candidates.

use vstd::prelude::*;

use crate::clause::Clause;
use crate::frames::ImpEdge;
use crate::logic::clause_holds;
use crate::logic::formula_holds;
use crate::logic::lit_var;
use crate::logic::valid_lit;
use crate::logic::lemma_clause_holds_by_contains;
use crate::solver::buckets_of;
use crate::solver::bucket_has;
use crate::solver::probe_shape;
use crate::solver::watch_idx;
use crate::solver::watch_nodup;
use crate::solver::watch_sound;
use crate::solver::Solver;

verus! {

/// The formula named by a list of literal lists.
pub open spec fn input_formula(cl: Seq<Vec<i32>>) -> Seq<Seq<i32>> {
    Seq::new(cl.len(), |i: int| cl[i]@)
}

/// Two distinct nonzero literals own distinct watch buckets.
pub proof fn lemma_watch_idx_inj(l1: i32, l2: i32)
    requires
        l1 != 0,
        l2 != 0,
        watch_idx(l1) == watch_idx(l2),
    ensures
        l1 == l2,
{
}

/// Membership test on a literal list.
fn vec_has_lit(v: &Vec<i32>, x: i32) -> (r: bool)
    ensures
        r == v@.contains(x),
{
    let mut i: usize = 0;
    while i < v.len()
        invariant
            i <= v@.len(),
            forall|j: int| 0 <= j < i ==> v@[j] != x,
        decreases v@.len() - i,
    {
        if v[i] == x {
            assert(v@.contains(x));
            return true;
        }
        i = i + 1;
    }
    false
}

/// Copy a literal list, keeping the first occurrence of each literal.
fn dedup_lits(lits: &Vec<i32>) -> (r: Vec<i32>)
    ensures
        forall|j: int, k: int| 0 <= j < k < r@.len() ==> r@[j] != r@[k],
        forall|l: i32| r@.contains(l) <==> lits@.contains(l),
        (r@.len() == 0 <==> lits@.len() == 0),
        forall|j: int| 0 <= j < r@.len() ==> lits@.contains(#[trigger] r@[j]),
{
    let mut r: Vec<i32> = Vec::new();
    let mut i: usize = 0;
    while i < lits.len()
        invariant
            i <= lits@.len(),
            forall|j: int, k: int| 0 <= j < k < r@.len() ==> r@[j] != r@[k],
            forall|j: int| 0 <= j < i ==> r@.contains(#[trigger] lits@[j]),
            forall|j: int| 0 <= j < r@.len() ==> lits@.contains(#[trigger] r@[j]),
            r@.len() == 0 <==> i == 0,
        decreases lits@.len() - i,
    {
        let x = lits[i];
        if !vec_has_lit(&r, x) {
            let ghost rold = r@;
            r.push(x);
            proof {
                assert forall|j: int| 0 <= j < i + 1 implies r@.contains(
                    #[trigger] lits@[j],
                ) by {
                    if j < i {
                        let k = choose|k: int| 0 <= k < rold.len() && rold[k] == lits@[j];
                        assert(r@[k] == lits@[j]);
                    } else {
                        assert(r@[r@.len() - 1] == lits@[j]);
                    }
                }
            }
        }
        i = i + 1;
    }
    proof {
        assert forall|l: i32| lits@.contains(l) implies r@.contains(l) by {
            let j = choose|j: int| 0 <= j < lits@.len() && lits@[j] == l;
        }
        assert forall|l: i32| r@.contains(l) implies lits@.contains(l) by {
            let j = choose|j: int| 0 <= j < r@.len() && r@[j] == l;
        }
        if lits@.len() > 0 {
            assert(r@.contains(lits@[0]));
        }
    }
    r
}

impl Solver {
    /// The variable of a literal.
    #[inline]
    pub fn lit_to_var(l: i32) -> (r: usize)
        requires
            l != 0,
            lit_var(l) <= i32::MAX as int,
        ensures
            r as int == lit_var(l),
    {
        if l < 0 {
            (-l) as usize
        } else {
            l as usize
        }
    }

    /// Register each clause under the watch bucket of its watched literals:
    /// the 0th watched literal always, the 1st as well when the clause has
    /// more than one literal.
    fn init_watches(&mut self)
        requires
            old(self).wf_core(),
            forall|b: int| 0 <= b < old(self).watch@.len() ==> (#[trigger] old(
                self,
            ).watch@[b])@.len() == 0,
            forall|i: int|
                0 <= i < old(self).clauses@.len() ==> (#[trigger] old(self).clauses@[i]).w0 == 0,
        ensures
            final(self).wf_core(),
            final(self).watch_wf(),
            final(self).clauses@ == old(self).clauses@,
            final(self).assign@ == old(self).assign@,
            final(self).trail@ == old(self).trail@,
            final(self).trail_limits@ == old(self).trail_limits@,
            final(self).pending@ == old(self).pending@,
            final(self).proven@ == old(self).proven@,
    {
        let ghost o = *old(self);
        let n = self.clauses.len();
        let mut i: usize = 0;
        while i < n
            invariant
                o.wf_core(),
                n == self.clauses@.len(),
                i <= n,
                self.clauses@ == o.clauses@,
                self.assign@ == o.assign@,
                self.trail@ == o.trail@,
                self.trail_limits@ == o.trail_limits@,
                self.pending@ == o.pending@,
                self.proven@ == o.proven@,
                self.watch@.len() == o.watch@.len(),
                watch_sound(self.clauses@, buckets_of(self.watch@)),
                watch_nodup(buckets_of(self.watch@)),
                forall|b: int, k: int|
                    0 <= b < self.watch@.len() && 0 <= k < self.watch@[b]@.len() ==> (
                    #[trigger] self.watch@[b]@[k]) < i,
                forall|j: int|
                    0 <= j < i && (#[trigger] self.clauses@[j]).lits@.len() > 0 ==> bucket_has(
                        buckets_of(self.watch@),
                        watch_idx(self.clauses@[j].watched0()),
                        j,
                    ) && bucket_has(
                        buckets_of(self.watch@),
                        watch_idx(self.clauses@[j].watched1()),
                        j,
                    ),
            decreases n - i,
        {
            let ghost pre = *self;
            let len = self.clauses[i].lits.len();
            if len > 0 {
                let ghost before = *self;
                let l0 = self.clauses[i].lits[self.clauses[i].w0];
                let b0 = Self::idx(l0);
                self.watch[b0].push(i);
                proof {
                    assert(buckets_of(self.watch@) =~= buckets_of(before.watch@).update(
                        b0 as int,
                        buckets_of(before.watch@)[b0 as int].push(i),
                    ));
                }
                if len > 1 {
                    let ghost mid = *self;
                    let l1 = self.clauses[i].lits[self.clauses[i].w1];
                    let b1 = Self::idx(l1);
                    proof {
                        assert(l0 == self.clauses@[i as int].watched0());
                        assert(l1 == self.clauses@[i as int].watched1());
                        assert(l0 != l1);
                        lemma_watch_idx_inj_contra(l0, l1);
                    }
                    self.watch[b1].push(i);
                    proof {
                        assert(buckets_of(self.watch@) =~= buckets_of(mid.watch@).update(
                            b1 as int,
                            buckets_of(mid.watch@)[b1 as int].push(i),
                        ));
                        let w = buckets_of(self.watch@);
                        assert(w[b0 as int][w[b0 as int].len() - 1] == i);
                        assert(w[b1 as int][w[b1 as int].len() - 1] == i);
                        assert(bucket_has(w, b0 as int, i as int));
                        assert(bucket_has(w, b1 as int, i as int));
                    }
                } else {
                    proof {
                        let w = buckets_of(self.watch@);
                        assert(self.clauses@[i as int].w1 == 0);
                        assert(self.clauses@[i as int].watched1()
                            == self.clauses@[i as int].watched0());
                        assert(w[b0 as int][w[b0 as int].len() - 1] == i);
                        assert(bucket_has(w, b0 as int, i as int));
                    }
                }
            }
            proof {
                let wpre = buckets_of(pre.watch@);
                let wcur = buckets_of(self.watch@);
                assert forall|j: int|
                    0 <= j < i as int + 1 && (#[trigger] self.clauses@[j]).lits@.len() > 0
                        implies bucket_has(
                    wcur,
                    watch_idx(self.clauses@[j].watched0()),
                    j,
                ) && bucket_has(wcur, watch_idx(self.clauses@[j].watched1()), j) by {
                    if j < i as int {
                        crate::solver::lemma_bucket_has_mono(
                            wpre,
                            wcur,
                            watch_idx(self.clauses@[j].watched0()),
                            j,
                        );
                        crate::solver::lemma_bucket_has_mono(
                            wpre,
                            wcur,
                            watch_idx(self.clauses@[j].watched1()),
                            j,
                        );
                    }
                }
            }
            i = i + 1;
        }
        proof {
            crate::solver::lemma_edges_wf_preserved(o, *self);
        }
    }

    /// Record one probe candidate, checking its backing clause shape.
    fn push_edge(&mut self, from: usize, to: usize, Ghost(i): Ghost<int>)
        requires
            old(self).wf_core(),
            0 <= i < old(self).clauses@.len(),
            probe_shape(old(self).clauses@[i].lits@, from as int, to as int),
            1 <= from as int <= old(self).num_vars(),
            1 <= to as int <= old(self).num_vars(),
        ensures
            final(self).wf_core(),
            final(self).pending@ == old(self).pending@.push(ImpEdge { from, to }),
            final(self).clauses@ == old(self).clauses@,
            final(self).assign@ == old(self).assign@,
            final(self).watch@ == old(self).watch@,
            final(self).trail@ == old(self).trail@,
            final(self).trail_limits@ == old(self).trail_limits@,
            final(self).proven@ == old(self).proven@,
    {
        let ghost o = *old(self);
        self.pending.push(ImpEdge { from, to });
        proof {
            assert(o.edge_wf(ImpEdge { from, to }));
            crate::solver::lemma_edges_wf_preserved(o, *self);
        }
    }

    /// Scan the clause store for 3-literal clauses with exactly one positive
    /// literal, and queue the two "negative variable implies positive
    /// variable" candidate edges each such clause suggests.
    fn extract_candidates(&mut self)
        requires
            old(self).wf_core(),
        ensures
            final(self).wf_core(),
            final(self).clauses@ == old(self).clauses@,
            final(self).assign@ == old(self).assign@,
            final(self).watch@ == old(self).watch@,
            final(self).trail@ == old(self).trail@,
            final(self).trail_limits@ == old(self).trail_limits@,
            final(self).proven@ == old(self).proven@,
    {
        let ghost o = *old(self);
        let n = self.clauses.len();
        let mut i: usize = 0;
        while i < n
            invariant
                o.wf_core(),
                self.wf_core(),
                n == self.clauses@.len(),
                i <= n,
                self.clauses@ == o.clauses@,
                self.assign@ == o.assign@,
                self.watch@ == o.watch@,
                self.trail@ == o.trail@,
                self.trail_limits@ == o.trail_limits@,
                self.proven@ == o.proven@,
            decreases n - i,
        {
            if self.clauses[i].lits.len() == 3 {
                let a = self.clauses[i].lits[0];
                let b = self.clauses[i].lits[1];
                let d = self.clauses[i].lits[2];
                proof {
                    assert(valid_lit(a, self.num_vars()));
                    assert(valid_lit(b, self.num_vars()));
                    assert(valid_lit(d, self.num_vars()));
                }
                if a > 0 && b < 0 && d < 0 {
                    let to = Self::lit_to_var(a);
                    let ghost ii = i as int;
                    self.push_edge(Self::lit_to_var(b), to, Ghost(ii));
                    self.push_edge(Self::lit_to_var(d), to, Ghost(ii));
                } else if a < 0 && b > 0 && d < 0 {
                    let to = Self::lit_to_var(b);
                    let ghost ii = i as int;
                    self.push_edge(Self::lit_to_var(a), to, Ghost(ii));
                    self.push_edge(Self::lit_to_var(d), to, Ghost(ii));
                } else if a < 0 && b < 0 && d > 0 {
                    let to = Self::lit_to_var(d);
                    let ghost ii = i as int;
                    self.push_edge(Self::lit_to_var(a), to, Ghost(ii));
                    self.push_edge(Self::lit_to_var(b), to, Ghost(ii));
                }
            }
            i = i + 1;
        }
    }

    /// Build a solver for `num_vars` variables and the given clauses. The
    /// stored formula keeps one copy of each clause literal and is
    /// satisfaction-equivalent to the input; all variables start unassigned.
    pub fn from_formula(num_vars: usize, clause_lits: &Vec<Vec<i32>>) -> (s: Solver)
        requires
            num_vars as int <= i32::MAX as int,
            2 * (num_vars as int + 1) <= usize::MAX as int,
            forall|i: int, j: int|
                0 <= i < clause_lits@.len() && 0 <= j < clause_lits@[i]@.len() ==> valid_lit(
                    #[trigger] clause_lits@[i]@[j],
                    num_vars as int,
                ),
        ensures
            s.inv(),
            s.num_vars() == num_vars as int,
            forall|v: int| 0 <= v < s.assign@.len() ==> s.assign@[v] is None,
            s.trail@.len() == 0,
            s.trail_limits@.len() == 0,
            s.proven@.len() == 0,
            s.clauses@.len() == clause_lits@.len(),
            forall|i: int|
                0 <= i < s.clauses@.len() ==> ((#[trigger] s.clauses@[i]).lits@.len() == 0
                    <==> clause_lits@[i]@.len() == 0),
            // initial watch placement and zeroed diagnostics, per construction
            forall|i: int|
                0 <= i < s.clauses@.len() ==> (#[trigger] s.clauses@[i]).w0 == 0
                    && s.clauses@[i].w1 == (if s.clauses@[i].lits@.len() > 1 {
                    1usize
                } else {
                    0usize
                }) && s.clauses@[i].visit_count == 0,
            // each stored clause holds exactly the literals of its input
            // clause, one copy of each
            forall|i: int, l: i32|
                0 <= i < s.clauses@.len() ==> ((#[trigger] s.clauses@[i].lits@.contains(l))
                    <==> clause_lits@[i]@.contains(l)),
            forall|i: int, j: int, k: int|
                0 <= i < s.clauses@.len() && 0 <= j < k < s.clauses@[i].lits@.len()
                    ==> #[trigger] s.clauses@[i].lits@[j] != #[trigger] s.clauses@[i].lits@[k],
            forall|b: Seq<Option<bool>>|
                formula_holds(b, input_formula(clause_lits@)) ==> formula_holds(b, s.formula()),
            forall|b: Seq<Option<bool>>|
                formula_holds(b, s.formula()) ==> formula_holds(b, input_formula(clause_lits@)),
    {
        let mut clauses: Vec<Clause> = Vec::new();
        let mut ci: usize = 0;
        while ci < clause_lits.len()
            invariant
                ci <= clause_lits@.len(),
                clauses@.len() == ci,
                num_vars as int <= i32::MAX as int,
                forall|i: int, j: int|
                    0 <= i < clause_lits@.len() && 0 <= j < clause_lits@[i]@.len() ==> valid_lit(
                        #[trigger] clause_lits@[i]@[j],
                        num_vars as int,
                    ),
                forall|i: int|
                    0 <= i < ci ==> (#[trigger] clauses@[i]).wf(num_vars as int),
                forall|i: int|
                    0 <= i < ci ==> (#[trigger] clauses@[i]).w0 == 0 && clauses@[i].w1 == (
                    if clauses@[i].lits@.len() > 1 {
                        1usize
                    } else {
                        0usize
                    }) && clauses@[i].visit_count == 0,
                forall|i: int, l: i32|
                    0 <= i < ci ==> ((#[trigger] clauses@[i].lits@.contains(l))
                        <==> clause_lits@[i]@.contains(l)),
                forall|i: int|
                    0 <= i < ci ==> ((#[trigger] clauses@[i]).lits@.len() == 0
                        <==> clause_lits@[i]@.len() == 0),
            decreases clause_lits@.len() - ci,
        {
            let deduped = dedup_lits(&clause_lits[ci]);
            proof {
                assert forall|j: int| 0 <= j < deduped@.len() implies valid_lit(
                    #[trigger] deduped@[j],
                    num_vars as int,
                ) by {
                    assert(clause_lits@[ci as int]@.contains(deduped@[j]));
                    let k = choose|k: int|
                        0 <= k < clause_lits@[ci as int]@.len() && clause_lits@[ci as int]@[k]
                            == deduped@[j];
                }
            }
            let w1: usize = if deduped.len() > 1 {
                1
            } else {
                0
            };
            clauses.push(Clause { lits: deduped, w0: 0, w1, visit_count: 0 });
            ci = ci + 1;
        }
        let mut assign: Vec<Option<bool>> = Vec::new();
        let mut vi: usize = 0;
        while vi < num_vars + 1
            invariant
                vi <= num_vars as int + 1,
                num_vars as int + 1 <= usize::MAX as int,
                assign@.len() == vi,
                forall|v: int| 0 <= v < vi ==> assign@[v] is None,
            decreases num_vars + 1 - vi,
        {
            assign.push(None);
            vi = vi + 1;
        }
        let mut watch: Vec<Vec<usize>> = Vec::new();
        let nb = (num_vars + 1) * 2;
        let mut bi: usize = 0;
        while bi < nb
            invariant
                bi <= nb,
                watch@.len() == bi,
                forall|b: int| 0 <= b < bi ==> (#[trigger] watch@[b])@.len() == 0,
            decreases nb - bi,
        {
            watch.push(Vec::new());
            bi = bi + 1;
        }
        let mut s = Solver {
            clauses,
            assign,
            watch,
            trail: Vec::new(),
            trail_limits: Vec::new(),
            pending: Vec::new(),
            proven: Vec::new(),
        };
        proof {
            assert(s.wf_core());
        }
        s.init_watches();
        s.extract_candidates();
        proof {
            assert(s.watches_ok()) by {
                assert forall|i: int|
                    0 <= i < s.clauses@.len() && (#[trigger] s.clauses@[i]).lits@.len() >= 2
                        && crate::logic::lit_false(s.assign@, s.clauses@[i].watched0())
                        && crate::logic::lit_false(s.assign@, s.clauses@[i].watched1())
                        implies Seq::<i32>::empty().contains(
                    crate::solver::neg_lit(s.clauses@[i].watched0()),
                ) || Seq::<i32>::empty().contains(
                    crate::solver::neg_lit(s.clauses@[i].watched1()),
                ) by {
                    assert(valid_lit(s.clauses@[i].watched0(), s.num_vars()));
                    assert(s.assign@[lit_var(s.clauses@[i].watched0())] is None);
                }
            }
            assert forall|b: Seq<Option<bool>>|
                formula_holds(b, input_formula(clause_lits@)) implies formula_holds(
                b,
                s.formula(),
            ) by {
                assert forall|i: int| 0 <= i < s.formula().len() implies clause_holds(
                    b,
                    #[trigger] s.formula()[i],
                ) by {
                    assert(clause_holds(b, input_formula(clause_lits@)[i]));
                    lemma_clause_holds_by_contains(b, clause_lits@[i]@, s.clauses@[i].lits@);
                }
            }
            assert forall|b: Seq<Option<bool>>|
                formula_holds(b, s.formula()) implies formula_holds(
                b,
                input_formula(clause_lits@),
            ) by {
                assert forall|i: int|
                    0 <= i < input_formula(clause_lits@).len() implies clause_holds(
                    b,
                    #[trigger] input_formula(clause_lits@)[i],
                ) by {
                    assert(clause_holds(b, s.formula()[i]));
                    lemma_clause_holds_by_contains(b, s.clauses@[i].lits@, clause_lits@[i]@);
                }
            }
        }
        s
    }
}

/// Contrapositive helper: distinct literals, distinct buckets.
pub proof fn lemma_watch_idx_inj_contra(l1: i32, l2: i32)
    requires
        l1 != 0,
        l2 != 0,
        l1 != l2,
    ensures
        watch_idx(l1) != watch_idx(l2),
{
}

} // verus!
