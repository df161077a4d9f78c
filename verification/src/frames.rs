//! Decision frames and implication edges: the shapes a branching step can
//! take, and the candidate / proven "from implies to" pairs of the prober.

use vstd::prelude::*;

verus! {

/// A candidate or proven implication between two variables: `from == true`
/// forces `to == true`.
#[derive(Clone, Copy, PartialEq, Eq, Structural)]
pub struct ImpEdge {
    pub from: usize,
    pub to: usize,
}

/// One frame of the decision stack. A frame is pushed when a branch or probe
/// begins, its retry fields are advanced as alternatives are exhausted, and it
/// is popped permanently once no alternative is left.
pub enum DecisionFrame {
    /// Branch on one variable; `tried_polarity` is the polarity taken last,
    /// `tried_both` says whether the flipped polarity has also been taken.
    Single { var: usize, tried_polarity: bool, tried_both: bool },
    /// Branch on two variables jointly; `tried_combinations` counts how many of
    /// the four polarity combinations have been exhausted, in the order
    /// true/true, true/false, false/true, false/false.
    Pair { var1: usize, var2: usize, tried_combinations: u8, tried_all: bool },
    /// Probe one implication edge; a probe offers no second alternative.
    Implication { edge: ImpEdge },
}

} // verus!
