//! The search misses no solution: when it runs out of trials, the board it
//! started from has none.
use crate::checker::{check, has_duplicate, is_filled};
use crate::game::{invalid_sections, invalid_upto};
use crate::grid::{
    cell_index, in_bounds, lemma_section_at_is_section, lemma_section_pos_in_board, section_at,
    section_values, GridPosition,
};
use crate::solver::{
    board_correct, initial_state, lemma_index_pos, lemma_pos_of, lemma_step, search_ok, step,
    terminal, zeros_upto, SearchState,
};
use vstd::prelude::*;

verus! {

/// `sol` fills the board with values `1..=b*b`, repeats no value in any
/// subsection, and keeps every nonzero value of `start`.
pub open spec fn is_solution(sol: Seq<usize>, start: Seq<usize>, b: nat) -> bool {
    &&& sol.len() == start.len()
    &&& board_correct(sol, b)
    &&& forall|c: int| 0 <= c < sol.len() ==> #[trigger] sol[c] <= b * b
    &&& forall|c: int| 0 <= c < start.len() && #[trigger] start[c] != 0 ==> sol[c] == start[c]
}

pub open spec fn has_solution(start: Seq<usize>, b: nat) -> bool {
    exists|sol: Seq<usize>| is_solution(sol, start, b)
}

proof fn lemma_invalid_upto_witness(values: Seq<usize>, b: nat, k: nat)
    requires
        invalid_upto(values, b, k).len() > 0,
    ensures
        exists|m: int| 0 <= m < k && !(#[trigger] check(section_values(values, b, section_at(m, b)))).valid,
    decreases k,
{
    let t = section_at(k - 1, b);
    if check(section_values(values, b, t)).valid {
        lemma_invalid_upto_witness(values, b, (k - 1) as nat);
    } else {
        assert(!check(section_values(values, b, section_at(k - 1, b))).valid);
    }
}

proof fn lemma_invalid_upto_nonempty(values: Seq<usize>, b: nat, k: nat, m: int)
    requires
        0 <= m < k,
        !check(section_values(values, b, section_at(m, b))).valid,
    ensures
        invalid_upto(values, b, k).len() > 0,
    decreases k,
{
    if m < k - 1 {
        lemma_invalid_upto_nonempty(values, b, (k - 1) as nat, m);
    }
}

/// A board with a repeated value in some subsection has no completion: every
/// board that keeps its nonzero values repeats that value too.
pub proof fn lemma_invalid_board_excludes(values: Seq<usize>, sol: Seq<usize>, b: nat)
    requires
        b >= 1,
        values.len() == (b * b) * (b * b),
        sol.len() == values.len(),
        invalid_sections(values, b).len() > 0,
        forall|c: int| 0 <= c < values.len() && #[trigger] values[c] != 0 ==> sol[c] == values[c],
    ensures
        !board_correct(sol, b),
{
    let n = b * b;
    lemma_invalid_upto_witness(values, b, 3 * n);
    let m = choose|m: int| 0 <= m < 3 * n && !(#[trigger] check(section_values(values, b, section_at(m, b)))).valid;
    let t = section_at(m, b);
    lemma_section_at_is_section(m, b);
    let sv = section_values(values, b, t);
    let ss = section_values(sol, b, t);
    assert(has_duplicate(sv));
    let (i, j) = choose|i: int, j: int| 0 <= i < j < sv.len() && sv[i] != 0 && #[trigger] sv[i] == #[trigger] sv[j];
    lemma_section_pos_in_board(t, i, b);
    lemma_section_pos_in_board(t, j, b);
    assert(ss[i] == sv[i] && ss[j] == sv[j]);
    assert(has_duplicate(ss));
    lemma_invalid_upto_nonempty(sol, b, 3 * n, m);
}

/// The open stack a search starts from lists empty cells of `start`, in
/// strictly increasing row-major order.
pub proof fn lemma_zeros(start: Seq<usize>, n: nat, c: nat)
    requires
        1 <= n <= usize::MAX,
        c <= n * n,
        start.len() == n * n,
    ensures
        forall|j: int|
            0 <= j < zeros_upto(start, n, c).len() ==> {
                let p = #[trigger] zeros_upto(start, n, c)[j];
                &&& in_bounds(p, n)
                &&& 0 <= cell_index(p, n) < c
                &&& start[cell_index(p, n)] == 0
            },
        forall|i: int, j: int|
            0 <= i < j < zeros_upto(start, n, c).len() ==> cell_index(
                #[trigger] zeros_upto(start, n, c)[i],
                n,
            ) < cell_index(#[trigger] zeros_upto(start, n, c)[j], n),
    decreases c,
{
    if c > 0 {
        lemma_zeros(start, n, (c - 1) as nat);
        let prev = zeros_upto(start, n, (c - 1) as nat);
        let z = zeros_upto(start, n, c);
        if start[c - 1] == 0 {
            lemma_pos_of(c - 1, n);
            assert forall|j: int| 0 <= j < z.len() implies {
                let p = #[trigger] z[j];
                &&& in_bounds(p, n)
                &&& 0 <= cell_index(p, n) < c
                &&& start[cell_index(p, n)] == 0
            } by {
                if j < prev.len() {
                    assert(z[j] == prev[j]);
                }
            }
            assert forall|i: int, j: int| 0 <= i < j < z.len() implies cell_index(
                #[trigger] z[i],
                n,
            ) < cell_index(#[trigger] z[j], n) by {
                assert(z[i] == prev[i]);
                if j < prev.len() {
                    assert(z[j] == prev[j]);
                }
            }
        }
    }
}

/// The open stack a search of `start` begins with.
pub open spec fn start_open(start: Seq<usize>, b: nat) -> Seq<GridPosition> {
    zeros_upto(start, b * b, (b * b) * (b * b))
}

/// The cell the search fills at depth `k`: the start's open stack read from its end.
pub open spec fn depth_pos(start: Seq<usize>, b: nat, k: int) -> GridPosition {
    start_open(start, b)[start_open(start, b).len() - 1 - k]
}

/// What `sol` holds at the cell of depth `k`.
pub open spec fn depth_value(sol: Seq<usize>, start: Seq<usize>, b: nat, k: int) -> usize {
    sol[cell_index(depth_pos(start, b, k), b * b)]
}

/// `sol` matches the trials of `s` on the first `j` depths.
pub open spec fn matches_trials(sol: Seq<usize>, s: SearchState, start: Seq<usize>, b: nat, j: int) -> bool {
    forall|k: int| 0 <= k < j ==> depth_value(sol, start, b, k) == (#[trigger] s.trials[k]).value
}

/// Read depth by depth, `sol` comes at or after the trials of `s`.
pub open spec fn at_or_after(sol: Seq<usize>, s: SearchState, start: Seq<usize>, b: nat) -> bool {
    exists|j: int|
        0 <= j <= s.trials.len() && #[trigger] matches_trials(sol, s, start, b, j) && (j
            == s.trials.len() || depth_value(sol, start, b, j) > s.trials[j].value)
}

/// Read depth by depth, `sol` comes strictly after the trials of `s`.
pub open spec fn after(sol: Seq<usize>, s: SearchState, start: Seq<usize>, b: nat) -> bool {
    exists|j: int|
        0 <= j < s.trials.len() && #[trigger] matches_trials(sol, s, start, b, j)
            && depth_value(sol, start, b, j) > s.trials[j].value
}

/// A search state reached from `start`: its stacks split the start's open
/// stack, its board is the start with the trial values written in, and every
/// solution of the start is still ahead of it (none, once out of trials).
pub open spec fn tracks(s: SearchState, start: Seq<usize>, b: nat) -> bool {
    let n = b * b;
    let o = start_open(start, b);
    let d = s.trials.len();
    &&& s.values.len() == start.len()
    &&& d + s.open.len() == o.len()
    &&& s.open == o.subrange(0, o.len() - d)
    &&& forall|k: int| 0 <= k < d ==> (#[trigger] s.trials[k]).position == depth_pos(start, b, k)
    &&& forall|k: int|
        0 <= k < d ==> s.values[cell_index((#[trigger] s.trials[k]).position, n)]
            == s.trials[k].value
    &&& forall|c: int|
        0 <= c < n * n && (forall|k: int| 0 <= k < d ==> cell_index(s.trials[k].position, n) != c)
            ==> #[trigger] s.values[c] == start[c]
    &&& forall|sol: Seq<usize>|
        #[trigger] is_solution(sol, start, b) ==> if s.unsolvable {
            false
        } else if s.backtracking {
            after(sol, s, start, b)
        } else {
            at_or_after(sol, s, start, b)
        }
}

pub proof fn lemma_initial_tracks(start: Seq<usize>, b: nat)
    requires
        b >= 1,
        start.len() == (b * b) * (b * b),
    ensures
        tracks(initial_state(start, b), start, b),
{
    let s = initial_state(start, b);
    let o = start_open(start, b);
    assert(s.open =~= o.subrange(0, o.len() as int));
    assert forall|sol: Seq<usize>| #[trigger] is_solution(sol, start, b) implies at_or_after(
        sol,
        s,
        start,
        b,
    ) by {
        assert(matches_trials(sol, s, start, b, 0));
    }
}

/// A solution that matches every trial keeps every nonzero value of the
/// search's board.
proof fn lemma_matching_solution_agrees(sol: Seq<usize>, s: SearchState, start: Seq<usize>, b: nat)
    requires
        tracks(s, start, b),
        is_solution(sol, start, b),
        matches_trials(sol, s, start, b, s.trials.len() as int),
        start.len() == (b * b) * (b * b),
    ensures
        forall|c: int| 0 <= c < s.values.len() && #[trigger] s.values[c] != 0 ==> sol[c] == s.values[c],
{
    let n = b * b;
    let d = s.trials.len() as int;
    assert forall|c: int| 0 <= c < s.values.len() && #[trigger] s.values[c] != 0 implies sol[c]
        == s.values[c] by {
        if exists|k: int| 0 <= k < d && cell_index(s.trials[k].position, n) == c {
            let k = choose|k: int| 0 <= k < d && cell_index(s.trials[k].position, n) == c;
            assert(s.trials[k].position == depth_pos(start, b, k));
            assert(depth_value(sol, start, b, k) == s.trials[k].value);
        } else {
            assert(s.values[c] == start[c]);
        }
    }
}

/// Every step of a search from `start` keeps it tracking `start`.
pub proof fn lemma_step_tracks(s: SearchState, start: Seq<usize>, b: nat, readonly: Seq<bool>)
    requires
        search_ok(s, b, readonly),
        tracks(s, start, b),
        !terminal(s, b),
    ensures
        tracks(step(s, b), start, b),
{
    let n = b * b;
    let o = start_open(start, b);
    let e_len = o.len() as int;
    let d = s.trials.len() as int;
    let t = step(s, b);
    lemma_zeros(start, n, n * n);
    lemma_step(s, b, readonly);
    if !s.backtracking && invalid_sections(s.values, b).len() == 0 {
        let p = s.open.last();
        assert(p == o[e_len - 1 - d]);
        assert(p == depth_pos(start, b, d));
        let i = cell_index(p, n);
        assert(t.open =~= o.subrange(0, e_len - (d + 1)));
        assert forall|k: int| 0 <= k < d + 1 implies (#[trigger] t.trials[k]).position == depth_pos(start, b, k) by {
            if k < d {
                assert(t.trials[k] == s.trials[k]);
            }
        }
        assert forall|k: int| 0 <= k < d + 1 implies t.values[cell_index((#[trigger] t.trials[k]).position, n)]
            == t.trials[k].value by {
            if k < d {
                assert(t.trials[k] == s.trials[k]);
                assert(o[e_len - 1 - k] == s.trials[k].position);
                assert(cell_index(s.trials[k].position, n) != i);
            }
        }
        assert forall|c: int|
            0 <= c < n * n && (forall|k: int| 0 <= k < d + 1 ==> cell_index(t.trials[k].position, n) != c)
            implies #[trigger] t.values[c] == start[c] by {
            assert(cell_index(t.trials[d].position, n) != c);
            assert forall|k: int| 0 <= k < d implies cell_index(s.trials[k].position, n) != c by {
                assert(t.trials[k] == s.trials[k]);
                assert(cell_index(t.trials[k].position, n) != c);
            }
        }
        assert forall|sol: Seq<usize>| #[trigger] is_solution(sol, start, b) implies at_or_after(
            sol,
            t,
            start,
            b,
        ) by {
            let j = choose|j: int|
                0 <= j <= d && #[trigger] matches_trials(sol, s, start, b, j) && (j == d
                    || depth_value(sol, start, b, j) > s.trials[j].value);
            assert(matches_trials(sol, t, start, b, j)) by {
                assert forall|k: int| 0 <= k < j implies depth_value(sol, start, b, k)
                    == (#[trigger] t.trials[k]).value by {
                    assert(t.trials[k] == s.trials[k]);
                    assert(depth_value(sol, start, b, k) == s.trials[k].value);
                }
            }
            if j < d {
                assert(t.trials[j] == s.trials[j]);
            } else {
                lemma_index_pos(p, n);
                assert(is_filled(sol));
                assert(sol[i] != 0);
                if depth_value(sol, start, b, d) == 1 {
                    assert(matches_trials(sol, t, start, b, d + 1)) by {
                        assert forall|k: int| 0 <= k < d + 1 implies depth_value(sol, start, b, k)
                            == (#[trigger] t.trials[k]).value by {
                            if k < d {
                                assert(t.trials[k] == s.trials[k]);
                                assert(depth_value(sol, start, b, k) == s.trials[k].value);
                            }
                        }
                    }
                }
            }
        }
    } else {
        // Every solution is strictly ahead of the trials.
        assert forall|sol: Seq<usize>| #[trigger] is_solution(sol, start, b) implies after(
            sol,
            s,
            start,
            b,
        ) by {
            if !s.backtracking {
                let j = choose|j: int|
                    0 <= j <= d && #[trigger] matches_trials(sol, s, start, b, j) && (j == d
                        || depth_value(sol, start, b, j) > s.trials[j].value);
                if j == d {
                    lemma_matching_solution_agrees(sol, s, start, b);
                    lemma_invalid_board_excludes(s.values, sol, b);
                }
            }
        }
        if d == 0 {
            assert forall|sol: Seq<usize>| #[trigger] is_solution(sol, start, b) implies false by {
                assert(after(sol, s, start, b));
            }
        } else {
            let top = d - 1;
            let e = s.trials[top];
            assert(s.trials.last() == e);
            let i = cell_index(e.position, n);
            assert(e.position == o[e_len - 1 - top]);
            if e.value < n {
                assert forall|k: int| 0 <= k < d implies (#[trigger] t.trials[k]).position == depth_pos(start, b, k) by {
                    if k < top {
                        assert(t.trials[k] == s.trials[k]);
                    }
                }
                assert forall|k: int| 0 <= k < d implies t.values[cell_index((#[trigger] t.trials[k]).position, n)]
                    == t.trials[k].value by {
                    if k < top {
                        assert(t.trials[k] == s.trials[k]);
                        assert(o[e_len - 1 - k] == s.trials[k].position);
                        assert(cell_index(s.trials[k].position, n) != i);
                    }
                }
                assert forall|c: int|
                    0 <= c < n * n && (forall|k: int| 0 <= k < d ==> cell_index(t.trials[k].position, n) != c)
                    implies #[trigger] t.values[c] == start[c] by {
                    assert(cell_index(t.trials[top].position, n) != c);
                    assert forall|k: int| 0 <= k < d implies cell_index(s.trials[k].position, n) != c by {
                        assert(t.trials[k].position == s.trials[k].position);
                        assert(cell_index(t.trials[k].position, n) != c);
                    }
                }
                assert forall|sol: Seq<usize>| #[trigger] is_solution(sol, start, b) implies at_or_after(
                    sol,
                    t,
                    start,
                    b,
                ) by {
                    assert(after(sol, s, start, b));
                    let j = choose|j: int|
                        0 <= j < d && #[trigger] matches_trials(sol, s, start, b, j)
                            && depth_value(sol, start, b, j) > s.trials[j].value;
                    assert(matches_trials(sol, t, start, b, j)) by {
                        assert forall|k: int| 0 <= k < j implies depth_value(sol, start, b, k)
                            == (#[trigger] t.trials[k]).value by {
                            assert(t.trials[k] == s.trials[k]);
                            assert(depth_value(sol, start, b, k) == s.trials[k].value);
                        }
                    }
                    if j < top {
                        assert(t.trials[j] == s.trials[j]);
                    } else if depth_value(sol, start, b, top) == e.value + 1 {
                        assert(matches_trials(sol, t, start, b, d)) by {
                            assert forall|k: int| 0 <= k < d implies depth_value(sol, start, b, k)
                                == (#[trigger] t.trials[k]).value by {
                                if k < top {
                                    assert(t.trials[k] == s.trials[k]);
                                    assert(depth_value(sol, start, b, k) == s.trials[k].value);
                                }
                            }
                        }
                    }
                }
            } else {
                assert(t.open =~= o.subrange(0, e_len - top));
                assert forall|k: int| 0 <= k < top implies (#[trigger] t.trials[k]).position == depth_pos(start, b, k) by {
                    assert(t.trials[k] == s.trials[k]);
                }
                assert forall|k: int| 0 <= k < top implies t.values[cell_index((#[trigger] t.trials[k]).position, n)]
                    == t.trials[k].value by {
                    assert(t.trials[k] == s.trials[k]);
                    assert(o[e_len - 1 - k] == s.trials[k].position);
                    assert(cell_index(s.trials[k].position, n) != i);
                }
                assert forall|c: int|
                    0 <= c < n * n && (forall|k: int| 0 <= k < top ==> cell_index(t.trials[k].position, n) != c)
                    implies #[trigger] t.values[c] == start[c] by {
                    if c == i {
                        assert(start[cell_index(o[e_len - 1 - top], n)] == 0);
                    } else {
                        assert forall|k: int| 0 <= k < d implies cell_index(s.trials[k].position, n) != c by {
                            if k < top {
                                assert(t.trials[k] == s.trials[k]);
                                assert(cell_index(t.trials[k].position, n) != c);
                            }
                        }
                    }
                }
                assert forall|sol: Seq<usize>| #[trigger] is_solution(sol, start, b) implies after(
                    sol,
                    t,
                    start,
                    b,
                ) by {
                    assert(after(sol, s, start, b));
                    let j = choose|j: int|
                        0 <= j < d && #[trigger] matches_trials(sol, s, start, b, j)
                            && depth_value(sol, start, b, j) > s.trials[j].value;
                    lemma_index_pos(e.position, n);
                    assert(sol[i] <= n);
                    assert(j < top);
                    assert(t.trials[j] == s.trials[j]);
                    assert(matches_trials(sol, t, start, b, j)) by {
                        assert forall|k: int| 0 <= k < j implies depth_value(sol, start, b, k)
                            == (#[trigger] t.trials[k]).value by {
                            assert(t.trials[k] == s.trials[k]);
                            assert(depth_value(sol, start, b, k) == s.trials[k].value);
                        }
                    }
                }
            }
        }
    }
}

} // verus!
