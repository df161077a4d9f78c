//! The mathematical model of CNF satisfiability: literals, partial assignments,
//! clause and formula satisfaction, and extension of partial assignments to
//! total ones. The solver's contracts are stated over these functions.

use vstd::prelude::*;

verus! {

/// The variable of a literal: its magnitude.
pub open spec fn lit_var(l: i32) -> int {
    if l < 0 {
        -(l as int)
    } else {
        l as int
    }
}

/// A literal is valid when it is nonzero and its variable lies in `[1, nvars]`.
pub open spec fn valid_lit(l: i32, nvars: int) -> bool {
    l != 0 && 1 <= lit_var(l) <= nvars
}

/// The literal is true under the partial assignment `a` (indexed by variable,
/// slot 0 unused).
pub open spec fn lit_true(a: Seq<Option<bool>>, l: i32) -> bool {
    0 <= lit_var(l) < a.len() && a[lit_var(l)] == Some(l > 0)
}

/// The literal is false under `a`: its variable is assigned the opposite polarity.
pub open spec fn lit_false(a: Seq<Option<bool>>, l: i32) -> bool {
    0 <= lit_var(l) < a.len() && a[lit_var(l)] == Some(l < 0)
}

/// The clause (a disjunction) holds under `a`: some literal of it is true.
pub open spec fn clause_holds(a: Seq<Option<bool>>, c: Seq<i32>) -> bool {
    exists|j: int| 0 <= j < c.len() && lit_true(a, c[j])
}

/// The formula (a conjunction of clauses) holds under `a`.
pub open spec fn formula_holds(a: Seq<Option<bool>>, f: Seq<Seq<i32>>) -> bool {
    forall|i: int| 0 <= i < f.len() ==> clause_holds(a, #[trigger] f[i])
}

/// Every variable `1..a.len()` is assigned.
pub open spec fn assign_total(a: Seq<Option<bool>>) -> bool {
    forall|v: int| 1 <= v < a.len() ==> (#[trigger] a[v]) is Some
}

/// `b` extends `a`: same variable count, and `b` agrees with `a` wherever `a`
/// is assigned.
pub open spec fn assign_extends(b: Seq<Option<bool>>, a: Seq<Option<bool>>) -> bool {
    &&& b.len() == a.len()
    &&& forall|v: int| 0 <= v < a.len() && (#[trigger] a[v]) is Some ==> b[v] == a[v]
}

/// `b` is a total assignment that extends `a` and satisfies `f`: a model of `f`
/// within the part of the search space below `a`.
pub open spec fn sat_extension(
    b: Seq<Option<bool>>,
    a: Seq<Option<bool>>,
    f: Seq<Seq<i32>>,
) -> bool {
    assign_extends(b, a) && assign_total(b) && formula_holds(b, f)
}

/// Two assignments that agree on the variables of a clause give it the same value.
pub proof fn lemma_clause_holds_agree(
    a: Seq<Option<bool>>,
    b: Seq<Option<bool>>,
    c: Seq<i32>,
    nvars: int,
)
    requires
        a.len() == b.len(),
        nvars < a.len(),
        forall|j: int| 0 <= j < c.len() ==> valid_lit(#[trigger] c[j], nvars),
        forall|v: int| 1 <= v <= nvars ==> #[trigger] a[v] == b[v],
    ensures
        clause_holds(a, c) == clause_holds(b, c),
{
    assert forall|j: int| 0 <= j < c.len() implies (lit_true(a, c[j]) == lit_true(
        b,
        #[trigger] c[j],
    )) by {
        assert(valid_lit(c[j], nvars));
    }
}

/// A total extension of a total assignment gives every clause of a well-formed
/// formula the same value as the assignment itself.
pub proof fn lemma_total_extension_agrees(
    b: Seq<Option<bool>>,
    a: Seq<Option<bool>>,
    f: Seq<Seq<i32>>,
    nvars: int,
)
    requires
        assign_extends(b, a),
        assign_total(a),
        nvars < a.len(),
        forall|i: int, j: int|
            0 <= i < f.len() && 0 <= j < (#[trigger] f[i]).len() ==> valid_lit(
                #[trigger] f[i][j],
                nvars,
            ),
    ensures
        formula_holds(b, f) == formula_holds(a, f),
{
    assert forall|i: int| 0 <= i < f.len() implies (clause_holds(b, #[trigger] f[i])
        == clause_holds(a, f[i])) by {
        lemma_clause_holds_agree(b, a, f[i], nvars);
    }
}

/// Every literal of the clause is false under `a`: a conflict clause.
pub open spec fn clause_all_false(a: Seq<Option<bool>>, c: Seq<i32>) -> bool {
    forall|j: int| 0 <= j < c.len() ==> lit_false(a, #[trigger] c[j])
}

/// A clause false under `a` stays false under every extension of `a`, so no
/// extension satisfies it.
pub proof fn lemma_all_false_clause_unsat(
    a: Seq<Option<bool>>,
    c: Seq<i32>,
    b: Seq<Option<bool>>,
)
    requires
        clause_all_false(a, c),
        forall|j: int| 0 <= j < c.len() ==> (#[trigger] c[j]) != 0,
        assign_extends(b, a),
    ensures
        !clause_holds(b, c),
{
    assert forall|j: int| 0 <= j < c.len() implies !lit_true(b, #[trigger] c[j]) by {
        assert(lit_false(a, c[j]));
        assert(b[lit_var(c[j])] == a[lit_var(c[j])]);
    }
}

/// `a` is closed under the unit rule: whenever all literals of a clause but
/// one are false and that one is not, it is already true.
pub open spec fn up_closed(f: Seq<Seq<i32>>, a: Seq<Option<bool>>) -> bool {
    forall|i: int, j: int|
        0 <= i < f.len() && 0 <= j < f[i].len() && (forall|k: int|
            0 <= k < f[i].len() && k != j ==> lit_false(a, #[trigger] f[i][k])) && !lit_false(
            a,
            #[trigger] f[i][j],
        ) ==> lit_true(a, f[i][j])
}

/// Some clause of `f` is false outright under `a`.
pub open spec fn has_false_clause(f: Seq<Seq<i32>>, a: Seq<Option<bool>>) -> bool {
    exists|i: int| 0 <= i < f.len() && clause_all_false(a, #[trigger] f[i])
}

/// Unit propagation from `a0` runs into a conflict: every unit-closed
/// assignment extending `a0` contains a false clause. (The unit-propagation
/// closure of `a0` is the least such extension, so this says exactly that the
/// closure falsifies some clause.)
pub open spec fn up_refutes(f: Seq<Seq<i32>>, a0: Seq<Option<bool>>) -> bool {
    forall|a: Seq<Option<bool>>|
        assign_extends(a, a0) && #[trigger] up_closed(f, a) ==> has_false_clause(f, a)
}

/// Assuming the literal `l` on top of `a` makes unit propagation conflict:
/// either `l` is false already, or propagation from `a` with `l` made true
/// refutes the formula.
pub open spec fn assuming_refutes(f: Seq<Seq<i32>>, a: Seq<Option<bool>>, l: i32) -> bool {
    lit_false(a, l) || up_refutes(f, a.update(lit_var(l), Some(l > 0)))
}

/// A total satisfying assignment over valid literals is unit-closed and has
/// no false clause.
pub proof fn lemma_model_up_closed(
    f: Seq<Seq<i32>>,
    b: Seq<Option<bool>>,
    nvars: int,
)
    requires
        formula_holds(b, f),
        forall|i: int, j: int|
            0 <= i < f.len() && 0 <= j < (#[trigger] f[i]).len() ==> valid_lit(
                #[trigger] f[i][j],
                nvars,
            ),
    ensures
        up_closed(f, b),
        !has_false_clause(f, b),
{
    assert forall|i: int, j: int|
        0 <= i < f.len() && 0 <= j < f[i].len() && (forall|k: int|
            0 <= k < f[i].len() && k != j ==> lit_false(b, #[trigger] f[i][k])) && !lit_false(
            b,
            #[trigger] f[i][j],
        ) implies lit_true(b, f[i][j]) by {
        assert(clause_holds(b, f[i]));
        let m = choose|m: int| 0 <= m < f[i].len() && lit_true(b, f[i][m]);
        if m != j {
            assert(lit_false(b, f[i][m]));
            assert(valid_lit(f[i][m], nvars));
            assert(false);
        }
    }
    assert forall|i: int| 0 <= i < f.len() implies !clause_all_false(b, #[trigger] f[i]) by {
        assert(clause_holds(b, f[i]));
        let m = choose|m: int| 0 <= m < f[i].len() && lit_true(b, f[i][m]);
        assert(valid_lit(f[i][m], nvars));
    }
}

/// A refuted assumption admits no satisfying extension.
pub proof fn lemma_refutes_excludes_models(
    f: Seq<Seq<i32>>,
    a0: Seq<Option<bool>>,
    b: Seq<Option<bool>>,
    nvars: int,
)
    requires
        up_refutes(f, a0),
        assign_extends(b, a0),
        forall|i: int, j: int|
            0 <= i < f.len() && 0 <= j < (#[trigger] f[i]).len() ==> valid_lit(
                #[trigger] f[i][j],
                nvars,
            ),
    ensures
        !formula_holds(b, f),
{
    if formula_holds(b, f) {
        lemma_model_up_closed(f, b, nvars);
        assert(has_false_clause(f, b));
        let i = choose|i: int| 0 <= i < f.len() && clause_all_false(b, #[trigger] f[i]);
        assert(!clause_all_false(b, f[i]));
    }
}

/// Refutation transfers between an assignment and any forced extension of it:
/// adding the same assumption on either side refutes the same formulas. The
/// forcing hypothesis says every clean unit-closed extension of `a0` extends
/// `a1` — exactly what a sound propagation pass from `a0` to `a1` guarantees.
pub proof fn lemma_refutes_transfer(
    f: Seq<Seq<i32>>,
    a0: Seq<Option<bool>>,
    a1: Seq<Option<bool>>,
    v: int,
    val: Option<bool>,
)
    requires
        assign_extends(a1, a0),
        forall|a: Seq<Option<bool>>|
            assign_extends(a, a0) && #[trigger] up_closed(f, a) && !has_false_clause(f, a)
                ==> assign_extends(a, a1),
        0 <= v < a0.len(),
        a1[v] is None,
        val is Some,
    ensures
        up_refutes(f, a1.update(v, val)) == up_refutes(f, a0.update(v, val)),
{
    assert(a0[v] is None);
    if up_refutes(f, a0.update(v, val)) {
        assert forall|a: Seq<Option<bool>>|
            assign_extends(a, a1.update(v, val)) && #[trigger] up_closed(f, a) implies
            has_false_clause(f, a) by {
            assert(assign_extends(a, a0.update(v, val))) by {
                assert forall|w: int|
                    0 <= w < a0.len() && (#[trigger] a0.update(v, val)[w]) is Some implies a[w]
                        == a0.update(v, val)[w] by {
                    if w == v {
                        assert(a1.update(v, val)[w] == val);
                    } else {
                        assert(a0.update(v, val)[w] == a0[w]);
                        assert(a0[w] is Some);
                        assert(a1[w] == a0[w]);
                        assert(a1.update(v, val)[w] == a1[w]);
                        assert(a[w] == a1.update(v, val)[w]);
                    }
                }
            }
        }
    }
    if up_refutes(f, a1.update(v, val)) {
        assert forall|a: Seq<Option<bool>>|
            assign_extends(a, a0.update(v, val)) && #[trigger] up_closed(f, a) implies
            has_false_clause(f, a) by {
            if !has_false_clause(f, a) {
                assert(assign_extends(a, a0)) by {
                    assert forall|w: int|
                        0 <= w < a0.len() && (#[trigger] a0[w]) is Some implies a[w]
                            == a0[w] by {
                        assert(a0.update(v, val)[w] == a0[w]);
                    }
                }
                assert(assign_extends(a, a1));
                assert(assign_extends(a, a1.update(v, val))) by {
                    assert(a[v] == a0.update(v, val)[v]);
                }
                assert(has_false_clause(f, a));
            }
        }
    }
}

/// Count of unassigned variables in `a` (slot 0 ignored by callers; it is
/// counted only if `None`, which the solver never makes it).
pub open spec fn count_none(a: Seq<Option<bool>>) -> int
    decreases a.len(),
{
    if a.len() == 0 {
        0
    } else {
        count_none(a.drop_last()) + if a.last() is None {
            1int
        } else {
            0int
        }
    }
}

pub proof fn lemma_count_none_nonneg(a: Seq<Option<bool>>)
    ensures
        count_none(a) >= 0,
    decreases a.len(),
{
    if a.len() > 0 {
        lemma_count_none_nonneg(a.drop_last());
    }
}

/// Assigning a previously unassigned slot decreases the count by one.
pub proof fn lemma_count_none_update(a: Seq<Option<bool>>, v: int, x: Option<bool>)
    requires
        0 <= v < a.len(),
        a[v] is None,
        x is Some,
    ensures
        count_none(a.update(v, x)) == count_none(a) - 1,
    decreases a.len(),
{
    let u = a.update(v, x);
    if v == a.len() - 1 {
        assert(u.drop_last() =~= a.drop_last());
    } else {
        assert(u.drop_last() =~= a.drop_last().update(v, x));
        lemma_count_none_update(a.drop_last(), v, x);
    }
}

/// A pointwise-larger assignment leaves at most as many slots unassigned.
pub proof fn lemma_count_none_le(a: Seq<Option<bool>>, b: Seq<Option<bool>>)
    requires
        b.len() == a.len(),
        forall|v: int| 0 <= v < a.len() && (#[trigger] a[v]) is Some ==> b[v] == a[v],
    ensures
        count_none(b) <= count_none(a),
    decreases a.len(),
{
    if a.len() > 0 {
        assert(b.drop_last().len() == a.drop_last().len());
        assert forall|v: int|
            0 <= v < a.drop_last().len() && (#[trigger] a.drop_last()[v]) is Some
                implies b.drop_last()[v] == a.drop_last()[v] by {
            assert(a[v] is Some);
        }
        lemma_count_none_le(a.drop_last(), b.drop_last());
    }
}

/// Strictly so, once a formerly unassigned slot has been assigned.
pub proof fn lemma_count_none_lt(a: Seq<Option<bool>>, b: Seq<Option<bool>>, w: int)
    requires
        b.len() == a.len(),
        forall|v: int| 0 <= v < a.len() && (#[trigger] a[v]) is Some ==> b[v] == a[v],
        0 <= w < a.len(),
        a[w] is None,
        b[w] is Some,
    ensures
        count_none(b) < count_none(a),
    decreases a.len(),
{
    if w == a.len() - 1 {
        lemma_count_none_le(a.drop_last(), b.drop_last());
    } else {
        assert forall|v: int|
            0 <= v < a.drop_last().len() && (#[trigger] a.drop_last()[v]) is Some
                implies b.drop_last()[v] == a.drop_last()[v] by {
            assert(a[v] is Some);
        }
        lemma_count_none_lt(a.drop_last(), b.drop_last(), w);
    }
}

/// Clause satisfaction depends only on which literals the clause contains.
pub proof fn lemma_clause_holds_by_contains(a: Seq<Option<bool>>, c: Seq<i32>, d: Seq<i32>)
    requires
        forall|l: i32| c.contains(l) <==> d.contains(l),
    ensures
        clause_holds(a, c) == clause_holds(a, d),
{
    if clause_holds(a, c) {
        let j = choose|j: int| 0 <= j < c.len() && lit_true(a, c[j]);
        assert(c.contains(c[j]));
        let k = choose|k: int| 0 <= k < d.len() && d[k] == c[j];
        assert(lit_true(a, d[k]));
    }
    if clause_holds(a, d) {
        let j = choose|j: int| 0 <= j < d.len() && lit_true(a, d[j]);
        assert(d.contains(d[j]));
        let k = choose|k: int| 0 <= k < c.len() && c[k] == d[j];
        assert(lit_true(a, c[k]));
    }
}

} // verus!
