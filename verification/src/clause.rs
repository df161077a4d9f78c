//! Clauses of the stored formula: an ordered list of literals plus the two
//! watch slots of the two-watched-literal scheme and a diagnostic visit counter.

use vstd::prelude::*;

use crate::logic::lit_false;
use crate::logic::lit_var;
use crate::logic::valid_lit;

verus! {

pub struct Clause {
    /// The literals of the clause, pairwise distinct.
    pub lits: Vec<i32>,
    /// First watch slot: an index into `lits`.
    pub w0: usize,
    /// Second watch slot: an index into `lits`, distinct from `w0` when the
    /// clause has at least two literals; both slots are 0 on shorter clauses.
    pub w1: usize,
    /// How often propagation has inspected this clause (diagnostic only).
    pub visit_count: usize,
}

impl Clause {
    /// Structural well-formedness: literal validity and watch-slot placement.
    pub open spec fn wf(self, nvars: int) -> bool {
        &&& forall|j: int| 0 <= j < self.lits@.len() ==> valid_lit(#[trigger] self.lits@[j], nvars)
        &&& forall|j: int, k: int|
            0 <= j < k < self.lits@.len() ==> self.lits@[j] != self.lits@[k]
        &&& if self.lits@.len() == 0 {
            self.w0 == 0 && self.w1 == 0
        } else {
            &&& self.w0 < self.lits@.len()
            &&& self.w1 < self.lits@.len()
            &&& self.lits@.len() >= 2 ==> self.w0 != self.w1
            &&& self.lits@.len() == 1 ==> self.w0 == 0 && self.w1 == 0
        }
    }

    /// The literal observed by the first watch slot.
    pub open spec fn watched0(self) -> i32 {
        self.lits@[self.w0 as int]
    }

    /// The literal observed by the second watch slot.
    pub open spec fn watched1(self) -> i32 {
        self.lits@[self.w1 as int]
    }

    /// The clause currently watches the literal `l`.
    pub open spec fn watches(self, l: i32) -> bool {
        self.lits@.len() > 0 && (self.watched0() == l || self.watched1() == l)
    }

    /// Search for a literal that is not falsified and not currently watched:
    /// the candidate the second watch slot can move to.
    pub fn find_replacement_watch(&self, assign: &Vec<Option<bool>>) -> (r: Option<usize>)
        requires
            forall|j: int|
                0 <= j < self.lits@.len() ==> 1 <= lit_var(#[trigger] self.lits@[j])
                    < assign@.len() && lit_var(self.lits@[j]) <= i32::MAX as int,
        ensures
            match r {
                Some(j) => {
                    &&& j < self.lits@.len()
                    &&& j != self.w0
                    &&& j != self.w1
                    &&& !lit_false(assign@, self.lits@[j as int])
                },
                None => forall|j: int|
                    0 <= j < self.lits@.len() && j != self.w0 && j != self.w1 ==> lit_false(
                        assign@,
                        #[trigger] self.lits@[j],
                    ),
            },
    {
        let mut j: usize = 0;
        while j < self.lits.len()
            invariant
                j <= self.lits@.len(),
                forall|k: int|
                    0 <= k < self.lits@.len() ==> 1 <= lit_var(#[trigger] self.lits@[k])
                        < assign@.len() && lit_var(self.lits@[k]) <= i32::MAX as int,
                forall|k: int|
                    0 <= k < j && k != self.w0 && k != self.w1 ==> lit_false(
                        assign@,
                        #[trigger] self.lits@[k],
                    ),
            decreases self.lits@.len() - j,
        {
            if j != self.w0 && j != self.w1 {
                let cand = self.lits[j];
                let v = if cand < 0 {
                    (-cand) as usize
                } else {
                    cand as usize
                };
                let falsified = match assign[v] {
                    None => false,
                    Some(b) => b == (cand < 0),
                };
                if !falsified {
                    return Some(j);
                }
            }
            j = j + 1;
        }
        None
    }
}

} // verus!
