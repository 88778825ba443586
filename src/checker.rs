use crate::grid::{GridSubsectionType, GridSubsectionValues};
use std::collections::HashSet;
use vstd::prelude::*;

verus! {

broadcast use vstd::std_specs::hash::group_hash_axioms;

/// Validates subsections one at a time, reusing its set of seen values.
#[derive(Debug)]
pub struct Checker {
    values: HashSet<usize>,
}

/// `valid`: no nonzero value occurs twice; `complete`: no value is zero.
#[derive(Debug, PartialEq, Eq, Structural, Clone, Copy)]
pub struct CheckerResult {
    pub complete: bool,
    pub valid: bool,
}

/// Some nonzero value occurs at two places of `s`.
pub open spec fn has_duplicate(s: Seq<usize>) -> bool {
    exists|i: int, j: int| 0 <= i < j < s.len() && s[i] != 0 && #[trigger] s[i] == #[trigger] s[j]
}

/// Every value of `s` is nonzero.
pub open spec fn is_filled(s: Seq<usize>) -> bool {
    forall|i: int| 0 <= i < s.len() ==> #[trigger] s[i] != 0
}

/// What checking the values `s` of a subsection reports.
pub open spec fn check(s: Seq<usize>) -> CheckerResult {
    CheckerResult { complete: is_filled(s), valid: !has_duplicate(s) }
}

impl Checker {
    pub fn new() -> (r: Self) {
        Checker { values: HashSet::new() }
    }

    /// Checks one subsection in a single pass over its values.
    pub fn check_subsection(&mut self, subsection: &GridSubsectionValues) -> (r: CheckerResult)
        ensures
            r == check(subsection@),
    {
        let vals = subsection.values();
        let ghost s = subsection@;
        self.values.clear();
        let mut valid = true;
        let mut k: usize = 0;
        while k < vals.len()
            invariant
                vals@ == s,
                k <= s.len(),
                forall|v: usize|
                    #[trigger] self.values@.contains(v) <==> exists|j: int|
                        0 <= j < k && #[trigger] s[j] == v,
                valid == !has_duplicate(s.subrange(0, k as int)),
            decreases s.len() - k,
        {
            let curr = vals[k];
            let ghost pre = s.subrange(0, k as int);
            let ghost next = s.subrange(0, k + 1);
            if curr != 0 && self.values.contains(&curr) {
                proof {
                    let j = choose|j: int| 0 <= j < k && #[trigger] s[j] == curr;
                    assert(next[j] == curr && next[k as int] == curr);
                }
                valid = false;
            } else {
                proof {
                    if has_duplicate(next) {
                        let (i, j) = choose|i: int, j: int|
                            0 <= i < j < next.len() && next[i] != 0 && #[trigger] next[i]
                                == #[trigger] next[j];
                        if j == k {
                            assert(self.values@.contains(curr));
                        } else {
                            assert(pre[i] == next[i] && pre[j] == next[j]);
                        }
                    }
                    if has_duplicate(pre) {
                        let (i, j) = choose|i: int, j: int|
                            0 <= i < j < pre.len() && pre[i] != 0 && #[trigger] pre[i]
                                == #[trigger] pre[j];
                        assert(next[i] == pre[i] && next[j] == pre[j]);
                    }
                }
                self.values.insert(curr);
            }
            proof {
                assert forall|v: usize|
                    #[trigger] self.values@.contains(v) <==> exists|j: int|
                        0 <= j < k + 1 && #[trigger] s[j] == v by {
                    if self.values@.contains(v) && v != curr {
                        let j = choose|j: int| 0 <= j < k && #[trigger] s[j] == v;
                    }
                    if v == curr {
                        assert(s[k as int] == v);
                    }
                }
                if curr != 0 && has_duplicate(pre) {
                    let (i, j) = choose|i: int, j: int|
                        0 <= i < j < pre.len() && pre[i] != 0 && #[trigger] pre[i]
                            == #[trigger] pre[j];
                    assert(next[i] == pre[i] && next[j] == pre[j]);
                }
            }
            k = k + 1;
        }
        assert(s.subrange(0, s.len() as int) =~= s);
        let complete = !self.values.contains(&0);
        proof {
            if !complete {
                let j = choose|j: int| 0 <= j < s.len() && #[trigger] s[j] == 0usize;
            }
        }
        CheckerResult { complete, valid }
    }

    /// Checks each subsection, in order, tagging each result with its subsection.
    pub fn check_subsections(&mut self, subsections: &[GridSubsectionValues]) -> (r: Vec<
        (GridSubsectionType, CheckerResult),
    >)
        ensures
            r@.len() == subsections@.len(),
            forall|i: int|
                0 <= i < r@.len() ==> (#[trigger] r@[i]).0
                    == subsections@[i].grid_subsection.subsection_type && r@[i].1 == check(
                    subsections@[i]@,
                ),
    {
        let mut out: Vec<(GridSubsectionType, CheckerResult)> = Vec::new();
        let mut i: usize = 0;
        while i < subsections.len()
            invariant
                i <= subsections@.len(),
                out@.len() == i,
                forall|m: int|
                    0 <= m < i ==> (#[trigger] out@[m]).0
                        == subsections@[m].grid_subsection.subsection_type && out@[m].1 == check(
                        subsections@[m]@,
                    ),
            decreases subsections@.len() - i,
        {
            let subsection = &subsections[i];
            let result = self.check_subsection(subsection);
            out.push((subsection.grid_subsection.subsection_type, result));
            i = i + 1;
        }
        out
    }
}

} // verus!
