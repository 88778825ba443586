use crate::checker::is_filled;
use crate::completeness::{
    has_solution, is_solution, lemma_initial_tracks, lemma_step_tracks, lemma_zeros, start_open,
    tracks,
};
use crate::game::{invalid_sections, Entry, Game};
use crate::grid::{cell_index, in_bounds, GridPosition};
use vstd::prelude::*;

verus! {

/// Numeric value of `ds` read as digits in base `base`, most significant first.
pub open spec fn positional(ds: Seq<int>, base: int) -> int
    decreases ds.len(),
{
    if ds.len() == 0 {
        0
    } else {
        positional(ds.drop_last(), base) * base + ds.last()
    }
}

pub open spec fn digits_below(ds: Seq<int>, base: int) -> bool {
    forall|i: int| 0 <= i < ds.len() ==> 0 <= #[trigger] ds[i] < base
}

proof fn lemma_positional_nonneg(ds: Seq<int>, base: int)
    requires
        base >= 1,
        digits_below(ds, base),
    ensures
        positional(ds, base) >= 0,
    decreases ds.len(),
{
    if ds.len() > 0 {
        let p = ds.drop_last();
        assert(digits_below(p, base)) by {
            assert forall|i: int| 0 <= i < p.len() implies 0 <= #[trigger] p[i] < base by {
                assert(p[i] == ds[i]);
            }
        }
        lemma_positional_nonneg(p, base);
        let q = positional(p, base);
        assert(q * base >= 0) by (nonlinear_arith)
            requires
                q >= 0,
                base >= 1,
        ;
        assert(ds.last() == ds[ds.len() - 1]);
    }
}

/// Two digit strings of one length that first differ at `j` compare as their
/// digits at `j` do.
proof fn lemma_positional_less(a: Seq<int>, c: Seq<int>, base: int, j: int)
    requires
        base >= 1,
        a.len() == c.len(),
        0 <= j < a.len(),
        digits_below(a, base),
        digits_below(c, base),
        forall|i: int| 0 <= i < j ==> a[i] == c[i],
        a[j] < c[j],
    ensures
        positional(a, base) < positional(c, base),
    decreases a.len(),
{
    let pa = a.drop_last();
    let pc = c.drop_last();
    let last = a.len() - 1;
    assert(a.last() == a[last] && c.last() == c[last]);
    assert(digits_below(pa, base)) by {
        assert forall|i: int| 0 <= i < pa.len() implies 0 <= #[trigger] pa[i] < base by {
            assert(pa[i] == a[i]);
        }
    }
    assert(digits_below(pc, base)) by {
        assert forall|i: int| 0 <= i < pc.len() implies 0 <= #[trigger] pc[i] < base by {
            assert(pc[i] == c[i]);
        }
    }
    if j == last {
        assert(pa =~= pc);
    } else {
        assert forall|i: int| 0 <= i < j implies pa[i] == pc[i] by {
            assert(pa[i] == a[i] && pc[i] == c[i]);
        }
        assert(pa[j] == a[j] && pc[j] == c[j]);
        lemma_positional_less(pa, pc, base, j);
        let x = positional(pa, base);
        let y = positional(pc, base);
        let da = a[last];
        let dc = c[last];
        assert(x * base + da < y * base + dc) by (nonlinear_arith)
            requires
                x < y,
                0 <= da < base,
                0 <= dc,
        ;
    }
}

/// What one step of the search leaves behind.
#[derive(Debug, Clone, Copy, PartialEq, Eq, Structural)]
pub enum SolverStatus {
    Solved,
    InProgress,
    Unsolvable,
}

/// The search as its contracts see it: the board's values, the stack of
/// positions still to fill (popped from the end), the stack of trial entries
/// (one per depth), whether the next step must move on the parent trial, and
/// whether the search has run out of trials.
pub struct SearchState {
    pub values: Seq<usize>,
    pub open: Seq<GridPosition>,
    pub trials: Seq<Entry>,
    pub backtracking: bool,
    pub unsolvable: bool,
}

/// The position of the cell at row-major index `c` on a board of side `n`.
pub open spec fn pos_of(c: int, n: nat) -> GridPosition {
    ((c % (n as int)) as usize, (c / (n as int)) as usize)
}

pub proof fn lemma_pos_of(c: int, n: nat)
    requires
        1 <= n <= usize::MAX,
        0 <= c < n * n,
    ensures
        in_bounds(pos_of(c, n), n),
        cell_index(pos_of(c, n), n) == c,
{
    let nn = n as int;
    assert(0 <= c / nn < nn && 0 <= c % nn < nn && (c / nn) * nn + c % nn == c) by (nonlinear_arith)
        requires
            0 <= c < nn * nn,
            nn >= 1,
    ;
}

pub proof fn lemma_index_pos(p: GridPosition, n: nat)
    requires
        1 <= n <= usize::MAX,
        in_bounds(p, n),
    ensures
        pos_of(cell_index(p, n), n) == p,
        0 <= cell_index(p, n) < n * n,
{
    let nn = n as int;
    let (x, y) = (p.0 as int, p.1 as int);
    assert((y * nn + x) / nn == y && (y * nn + x) % nn == x && 0 <= y * nn + x < nn * nn)
        by (nonlinear_arith)
        requires
            0 <= x < nn,
            0 <= y < nn,
    ;
}

/// The board is filled and no subsection repeats a value.
pub open spec fn board_correct(values: Seq<usize>, b: nat) -> bool {
    is_filled(values) && invalid_sections(values, b).len() == 0
}

/// The search stops here: solved, or out of trials.
pub open spec fn terminal(s: SearchState, b: nat) -> bool {
    s.unsolvable || board_correct(s.values, b)
}

/// One step of the search on a board whose boxes have side `b`:
/// - at a stop, nothing changes;
/// - on a board with no repeated value (and no pending backtrack), the last open
///   position gets `1` and a new trial;
/// - otherwise the latest trial moves on to its next value, or, with every value
///   tried, its cell is emptied, its position goes back on the open stack, and
///   the next step moves on its parent;
/// - with no trial left to move on, the search is out of trials.
pub open spec fn step(s: SearchState, b: nat) -> SearchState {
    let n = b * b;
    if terminal(s, b) {
        s
    } else if !s.backtracking && invalid_sections(s.values, b).len() == 0 {
        let p = s.open.last();
        let i = cell_index(p, n);
        SearchState {
            values: s.values.update(i, 1),
            open: s.open.drop_last(),
            trials: s.trials.push(Entry { position: p, value: 1, previous_value: s.values[i] }),
            backtracking: false,
            unsolvable: false,
        }
    } else if s.trials.len() == 0 {
        SearchState {
            values: s.values,
            open: s.open,
            trials: s.trials,
            backtracking: false,
            unsolvable: true,
        }
    } else {
        let e = s.trials.last();
        let i = cell_index(e.position, n);
        if e.value < n {
            let v = (e.value + 1) as usize;
            SearchState {
                values: s.values.update(i, v),
                open: s.open,
                trials: s.trials.drop_last().push(
                    Entry { position: e.position, value: v, previous_value: s.values[i] },
                ),
                backtracking: false,
                unsolvable: false,
            }
        } else {
            SearchState {
                values: s.values.update(i, 0),
                open: s.open.push(e.position),
                trials: s.trials.drop_last(),
                backtracking: true,
                unsolvable: false,
            }
        }
    }
}

/// The search state after `k` steps from `s`.
pub open spec fn run(s: SearchState, b: nat, k: nat) -> SearchState
    decreases k,
{
    if k == 0 {
        s
    } else {
        step(run(s, b, (k - 1) as nat), b)
    }
}

/// The search from `s` first stops after exactly `k` steps.
pub open spec fn stops_after(s: SearchState, b: nat, k: nat) -> bool {
    &&& terminal(run(s, b, k), b)
    &&& forall|j: nat| j < k ==> !terminal(#[trigger] run(s, b, j), b)
}

/// Invariant of a search on a board whose boxes have side `b` and whose clues
/// are `readonly`: every stacked position is a free cell in the board, every
/// trial value is a candidate, and every empty cell is on the open stack.
pub open spec fn search_ok(s: SearchState, b: nat, readonly: Seq<bool>) -> bool {
    let n = b * b;
    &&& b >= 1
    &&& n <= usize::MAX
    &&& s.values.len() == n * n
    &&& readonly.len() == n * n
    &&& forall|k: int|
        0 <= k < s.open.len() ==> in_bounds(#[trigger] s.open[k], n) && !readonly[cell_index(
            s.open[k],
            n,
        )]
    &&& forall|k: int|
        0 <= k < s.trials.len() ==> in_bounds((#[trigger] s.trials[k]).position, n)
            && !readonly[cell_index(s.trials[k].position, n)] && 1 <= s.trials[k].value <= n
    &&& forall|c: int|
        0 <= c < n * n && #[trigger] s.values[c] == 0 ==> s.open.contains(pos_of(c, n))
    &&& s.unsolvable ==> !board_correct(s.values, b)
}

/// The digit of depth `k`: how much of that depth's candidates is left, with
/// depths not yet opened counting as untouched.
pub open spec fn level_digit(s: SearchState, b: nat, k: int) -> int {
    let n = (b * b) as int;
    let t = s.trials.len() as int;
    if k < t {
        let v = s.trials[k].value as int;
        if s.backtracking && k == t - 1 {
            2 * (n - v)
        } else {
            2 * (n - v) + 1
        }
    } else {
        2 * n + 1
    }
}

/// The base in which the measure's digits are read: one more than the largest digit.
pub open spec fn digit_base(b: nat) -> int {
    2 * (b * b) as int + 2
}

pub open spec fn measure_digits(s: SearchState, b: nat) -> Seq<int> {
    let root: int = if s.backtracking && s.trials.len() == 0 {
        0
    } else {
        1
    };
    seq![root] + Seq::new(s.open.len() + s.trials.len(), |k: int| level_digit(s, b, k))
}

/// How much search is left: it drops at every step that is not a stop.
pub open spec fn measure(s: SearchState, b: nat) -> int {
    if s.unsolvable {
        0
    } else {
        1 + positional(measure_digits(s, b), digit_base(b))
    }
}

proof fn lemma_digits(s: SearchState, b: nat, readonly: Seq<bool>)
    requires
        search_ok(s, b, readonly),
    ensures
        measure_digits(s, b).len() == 1 + s.open.len() + s.trials.len(),
        digits_below(measure_digits(s, b), digit_base(b)),
        measure_digits(s, b)[0] == if s.backtracking && s.trials.len() == 0 {
            0int
        } else {
            1int
        },
        forall|k: int|
            0 <= k < s.open.len() + s.trials.len() ==> #[trigger] measure_digits(s, b)[1 + k]
                == level_digit(s, b, k),
        positional(measure_digits(s, b), digit_base(b)) >= 0,
        measure(s, b) >= 0,
{
    let ds = measure_digits(s, b);
    let base = digit_base(b);
    assert forall|i: int| 0 <= i < ds.len() implies 0 <= #[trigger] ds[i] < base by {
        if i > 0 {
            let k = i - 1;
            if k < s.trials.len() {
                assert(1 <= s.trials[k].value <= b * b);
            }
        }
    }
    lemma_positional_nonneg(ds, base);
}

/// A step from a state that is no stop keeps the search invariant, keeps every
/// clue, and lowers the measure; on a board with no repeated value and no
/// pending backtrack, an open position is there to fill.
pub proof fn lemma_step(s: SearchState, b: nat, readonly: Seq<bool>)
    requires
        search_ok(s, b, readonly),
        !terminal(s, b),
    ensures
        search_ok(step(s, b), b, readonly),
        0 <= measure(step(s, b), b) < measure(s, b),
        forall|c: int| 0 <= c < readonly.len() && readonly[c] ==> #[trigger] step(s, b).values[c] == s.values[c],
        !s.backtracking && invalid_sections(s.values, b).len() == 0 ==> s.open.len() > 0,
{
    let n = b * b;
    let t = step(s, b);
    let base = digit_base(b);
    lemma_digits(s, b, readonly);
    if !s.backtracking && invalid_sections(s.values, b).len() == 0 {
        let c = choose|c: int| 0 <= c < s.values.len() && s.values[c] == 0;
        assert(s.open.contains(pos_of(c, n)));
        let p = s.open.last();
        let i = cell_index(p, n);
        assert(in_bounds(s.open[s.open.len() - 1], n));
        lemma_index_pos(p, n);
        assert forall|c: int| 0 <= c < n * n && #[trigger] t.values[c] == 0 implies t.open.contains(
            pos_of(c, n),
        ) by {
            assert(c != i);
            assert(s.values[c] == 0);
            let k = choose|k: int| 0 <= k < s.open.len() && s.open[k] == pos_of(c, n);
            lemma_pos_of(c, n);
            if k == s.open.len() - 1 {
                assert(cell_index(pos_of(c, n), n) == c);
            }
            assert(t.open[k] == s.open[k]);
        }
        assert forall|k: int| 0 <= k < t.open.len() implies in_bounds(#[trigger] t.open[k], n)
            && !readonly[cell_index(t.open[k], n)] by {
            assert(t.open[k] == s.open[k]);
        }
        assert forall|k: int| 0 <= k < t.trials.len() implies in_bounds((#[trigger] t.trials[k]).position, n)
            && !readonly[cell_index(t.trials[k].position, n)] && 1 <= t.trials[k].value <= n by {
            if k < s.trials.len() {
                assert(t.trials[k] == s.trials[k]);
            }
        }
        lemma_digits(t, b, readonly);
        let j = 1 + s.trials.len() as int;
        assert forall|i: int| 0 <= i < j implies measure_digits(t, b)[i] == measure_digits(s, b)[i] by {
            if i > 0 {
                assert(t.trials[i - 1] == s.trials[i - 1]);
            }
        }
        lemma_positional_less(measure_digits(t, b), measure_digits(s, b), base, j);
    } else if s.trials.len() == 0 {
    } else {
        let e = s.trials.last();
        let i = cell_index(e.position, n);
        let top = s.trials.len() as int - 1;
        assert(s.trials[top] == e);
        lemma_index_pos(e.position, n);
        if e.value < n {
            assert forall|c: int| 0 <= c < n * n && #[trigger] t.values[c] == 0 implies t.open.contains(
                pos_of(c, n),
            ) by {
                assert(c != i);
                assert(s.values[c] == 0);
            }
            assert forall|k: int| 0 <= k < t.trials.len() implies in_bounds((#[trigger] t.trials[k]).position, n)
                && !readonly[cell_index(t.trials[k].position, n)] && 1 <= t.trials[k].value <= n by {
                if k < top {
                    assert(t.trials[k] == s.trials[k]);
                }
            }
            lemma_digits(t, b, readonly);
            assert forall|m: int| 0 <= m < 1 + top implies measure_digits(t, b)[m] == measure_digits(s, b)[m] by {
                if m > 0 {
                    assert(t.trials[m - 1] == s.trials[m - 1]);
                }
            }
            lemma_positional_less(measure_digits(t, b), measure_digits(s, b), base, 1 + top);
        } else {
            assert forall|c: int| 0 <= c < n * n && #[trigger] t.values[c] == 0 implies t.open.contains(
                pos_of(c, n),
            ) by {
                if c == i {
                    assert(t.open[t.open.len() - 1] == e.position);
                } else {
                    assert(s.values[c] == 0);
                    let k = choose|k: int| 0 <= k < s.open.len() && s.open[k] == pos_of(c, n);
                    assert(t.open[k] == s.open[k]);
                }
            }
            assert forall|k: int| 0 <= k < t.open.len() implies in_bounds(#[trigger] t.open[k], n)
                && !readonly[cell_index(t.open[k], n)] by {
                if k < s.open.len() {
                    assert(t.open[k] == s.open[k]);
                }
            }
            assert forall|k: int| 0 <= k < t.trials.len() implies in_bounds((#[trigger] t.trials[k]).position, n)
                && !readonly[cell_index(t.trials[k].position, n)] && 1 <= t.trials[k].value <= n by {
                assert(t.trials[k] == s.trials[k]);
            }
            lemma_digits(t, b, readonly);
            if top == 0 {
                lemma_positional_less(measure_digits(t, b), measure_digits(s, b), base, 0);
            } else {
                assert forall|m: int| 0 <= m < top implies measure_digits(t, b)[m] == measure_digits(s, b)[m] by {
                    if m > 0 {
                        assert(t.trials[m - 1] == s.trials[m - 1]);
                    }
                }
                assert(t.trials[top - 1] == s.trials[top - 1]);
                lemma_positional_less(measure_digits(t, b), measure_digits(s, b), base, top);
            }
        }
    }
}

/// The positions of the empty cells among the first `c` cells, in row-major order.
pub open spec fn zeros_upto(values: Seq<usize>, n: nat, c: nat) -> Seq<GridPosition>
    decreases c,
{
    if c == 0 {
        Seq::empty()
    } else {
        let prev = zeros_upto(values, n, (c - 1) as nat);
        if values[c - 1] == 0 {
            prev.push(pos_of(c - 1, n))
        } else {
            prev
        }
    }
}

/// Where a search of `values` starts: every empty cell on the open stack in
/// row-major order, so that the last one found is filled first.
pub open spec fn initial_state(values: Seq<usize>, b: nat) -> SearchState {
    SearchState {
        values,
        open: zeros_upto(values, b * b, (b * b) * (b * b)),
        trials: Seq::empty(),
        backtracking: false,
        unsolvable: false,
    }
}

/// Where the search of `values` stops.
pub open spec fn outcome(values: Seq<usize>, b: nat) -> SearchState {
    run(initial_state(values, b), b, choose|k: nat| stops_after(initial_state(values, b), b, k))
}

/// What `next` reports for the state `s` it leaves behind.
pub open spec fn status_of(s: SearchState, b: nat) -> SolverStatus {
    if s.unsolvable {
        SolverStatus::Unsolvable
    } else if board_correct(s.values, b) {
        SolverStatus::Solved
    } else {
        SolverStatus::InProgress
    }
}

/// `r` is what solving `game` gives: the board where the search stops, with
/// every clue kept; it is correct exactly when the starting board has a
/// solution, which is when the search did not run out of trials.
pub open spec fn solved_from(game: Game, r: Game) -> bool {
    let b = game.board().box_size();
    let out = outcome(game.board().values(), b);
    &&& r.wf()
    &&& r.board().side() == game.board().side()
    &&& r.board().box_size() == b
    &&& r.board().readonly() == game.board().readonly()
    &&& forall|c: int|
        0 <= c < game.board().values().len() && #[trigger] game.board().readonly()[c]
            ==> r.board().values()[c] == game.board().values()[c]
    &&& r.board().values() == out.values
    &&& r.correct() == !out.unsolvable
    &&& r.correct() == has_solution(game.board().values(), b)
    &&& r.correct() ==> is_solution(r.board().values(), game.board().values(), b)
}

/// A search stops after one number of steps only.
pub proof fn lemma_stop_unique(s: SearchState, b: nat, k1: nat, k2: nat)
    requires
        stops_after(s, b, k1),
        stops_after(s, b, k2),
    ensures
        k1 == k2,
{
    if k1 < k2 {
        assert(!terminal(run(s, b, k1), b));
    } else if k2 < k1 {
        assert(!terminal(run(s, b, k2), b));
    }
}

/// Solving one board twice gives the same board, cell for cell.
pub proof fn lemma_solve_deterministic(g1: Game, g2: Game, r1: Game, r2: Game)
    requires
        g1.board().values() == g2.board().values(),
        g1.board().box_size() == g2.board().box_size(),
        solved_from(g1, r1),
        solved_from(g2, r2),
    ensures
        r1.board().values() == r2.board().values(),
        r1.correct() == r2.correct(),
{
}

/// Steps a backtracking search over a game, one placement at a time.
pub struct Solver {
    game: Game,
    empty_positions: Vec<GridPosition>,
    entries_added: Vec<Entry>,
    backtracking: bool,
    unsolvable: bool,
}

impl Solver {
    /// The game being searched.
    pub closed spec fn current(&self) -> Game {
        self.game
    }

    pub closed spec fn state(&self) -> SearchState {
        SearchState {
            values: self.game.board().values(),
            open: self.empty_positions@,
            trials: self.entries_added@,
            backtracking: self.backtracking,
            unsolvable: self.unsolvable,
        }
    }

    pub open spec fn box_side(&self) -> nat {
        self.current().board().box_size()
    }

    pub open spec fn wf(&self) -> bool {
        &&& self.current().wf()
        &&& self.state().values == self.current().board().values()
        &&& search_ok(self.state(), self.box_side(), self.current().board().readonly())
    }

    /// A search over `game`, with every empty cell still to fill.
    pub fn new(game: Game) -> (r: Self)
        requires
            game.wf(),
        ensures
            r.wf(),
            r.current() == game,
            r.state() == initial_state(game.board().values(), game.board().box_size()),
    {
        let rows = game.get_rows();
        let n = game.size();
        let ghost b = game.board().box_size();
        let ghost values = game.board().values();
        let ghost readonly = game.board().readonly();
        let mut empty_positions: Vec<GridPosition> = Vec::new();
        let mut y: usize = 0;
        while y < n
            invariant
                game.wf(),
                b == game.board().box_size(),
                values == game.board().values(),
                readonly == game.board().readonly(),
                n == b * b,
                n * n <= usize::MAX,
                rows@.len() == n,
                forall|i: int|
                    0 <= i < n ==> (#[trigger] rows@[i])@ == game.board().section(
                        crate::grid::GridSubsectionType::Row(i as usize),
                    ),
                y <= n,
                empty_positions@ == zeros_upto(values, n as nat, (y * n) as nat),
                forall|k: int|
                    0 <= k < empty_positions@.len() ==> in_bounds(#[trigger] empty_positions@[k], n as nat)
                        && !readonly[cell_index(empty_positions@[k], n as nat)],
                forall|c: int|
                    0 <= c < y * n && #[trigger] values[c] == 0 ==> empty_positions@.contains(
                        pos_of(c, n as nat),
                    ),
            decreases n - y,
        {
            let row = rows[y].values();
            let mut x: usize = 0;
            proof {
                assert((y + 1) * n == y * n + n) by (nonlinear_arith);
                assert((y + 1) * n <= n * n) by (nonlinear_arith)
                    requires
                        y < n,
                ;
            }
            while x < n
                invariant
                    game.wf(),
                    b == game.board().box_size(),
                    values == game.board().values(),
                    readonly == game.board().readonly(),
                    n == b * b,
                    y < n,
                    (y + 1) * n <= n * n,
                    n * n <= usize::MAX,
                    row@ == game.board().section(crate::grid::GridSubsectionType::Row(y)),
                    x <= n,
                    empty_positions@ == zeros_upto(values, n as nat, (y * n + x) as nat),
                    forall|k: int|
                        0 <= k < empty_positions@.len() ==> in_bounds(
                            #[trigger] empty_positions@[k],
                            n as nat,
                        ) && !readonly[cell_index(empty_positions@[k], n as nat)],
                    forall|c: int|
                        0 <= c < y * n + x && #[trigger] values[c] == 0
                            ==> empty_positions@.contains(pos_of(c, n as nat)),
                decreases n - x,
            {
                proof {
                    lemma_index_pos((x, y), n as nat);
                }
                let c: usize = y * n + x;
                proof {
                    assert(row@[x as int] == values[c as int]);
                    assert(pos_of(c as int, n as nat) == (x, y));
                }
                let ghost before = empty_positions@;
                if row[x] == 0 {
                    empty_positions.push((x, y));
                    proof {
                        assert(!readonly[c as int]);
                    }
                }
                proof {
                    assert forall|d: int|
                        0 <= d < y * n + x + 1 && #[trigger] values[d] == 0
                            implies empty_positions@.contains(pos_of(d, n as nat)) by {
                        if d < c {
                            let k = choose|k: int| 0 <= k < before.len() && before[k] == pos_of(d, n as nat);
                            assert(empty_positions@[k] == before[k]);
                        } else {
                            assert(empty_positions@[empty_positions@.len() - 1] == (x, y));
                        }
                    }
                }
                x = x + 1;
            }
            y = y + 1;
        }
        proof {
            assert(y * n == n * n);
        }
        Solver {
            game,
            empty_positions,
            entries_added: Vec::new(),
            backtracking: false,
            unsolvable: false,
        }
    }

    /// The game being searched.
    pub fn game(&self) -> (r: &Game)
        ensures
            *r == self.current(),
    {
        &self.game
    }

    /// Where the search stands.
    pub fn status(&self) -> (r: SolverStatus)
        requires
            self.wf(),
        ensures
            r == status_of(self.state(), self.box_side()),
    {
        if self.unsolvable {
            SolverStatus::Unsolvable
        } else if self.game.is_correct() {
            SolverStatus::Solved
        } else {
            SolverStatus::InProgress
        }
    }

    /// Takes one step of the search (see `step`) and reports where it stands.
    pub fn next(&mut self) -> (r: SolverStatus)
        requires
            old(self).wf(),
        ensures
            final(self).wf(),
            final(self).state() == step(old(self).state(), old(self).box_side()),
            final(self).box_side() == old(self).box_side(),
            final(self).current().board().side() == old(self).current().board().side(),
            final(self).current().board().readonly() == old(self).current().board().readonly(),
            r == status_of(final(self).state(), final(self).box_side()),
    {
        let ghost b = self.box_side();
        let ghost n = b * b;
        let ghost readonly = self.game.board().readonly();
        let ghost s = self.state();
        if self.unsolvable {
            return SolverStatus::Unsolvable;
        }
        if self.game.is_correct() {
            return SolverStatus::Solved;
        }
        proof {
            lemma_step(s, b, readonly);
        }
        if !self.backtracking && self.game.invalid_subsections().len() == 0 {
            let p = match self.empty_positions.pop() {
                Some(p) => p,
                None => {
                    return SolverStatus::InProgress;
                },
            };
            proof {
                assert(p == s.open[s.open.len() - 1]);
                lemma_index_pos(p, n);
            }
            let e = match self.game.add_entry(p, 1) {
                Ok(e) => e,
                Err(_) => {
                    return SolverStatus::InProgress;
                },
            };
            self.entries_added.push(e);
            proof {
                assert(self.state().values =~= step(s, b).values);
                assert(self.state().open =~= step(s, b).open);
                assert(self.state().trials =~= step(s, b).trials);
            }
        } else {
            match self.entries_added.pop() {
                None => {
                    self.unsolvable = true;
                    self.backtracking = false;
                },
                Some(e) => {
                    proof {
                        assert(e == s.trials[s.trials.len() - 1]);
                        lemma_index_pos(e.position, n);
                    }
                    if e.value < self.game.size() {
                        match self.game.add_entry(e.position, e.value + 1) {
                            Ok(next) => {
                                self.entries_added.push(next);
                            },
                            Err(_) => {
                                return SolverStatus::InProgress;
                            },
                        }
                        self.backtracking = false;
                        proof {
                            assert(self.state().values =~= step(s, b).values);
                            assert(self.state().trials =~= step(s, b).trials);
                        }
                    } else {
                        match self.game.add_entry(e.position, 0) {
                            Ok(_) => {},
                            Err(_) => {
                                return SolverStatus::InProgress;
                            },
                        }
                        self.empty_positions.push(e.position);
                        self.backtracking = true;
                        proof {
                            assert(self.state().values =~= step(s, b).values);
                            assert(self.state().open =~= step(s, b).open);
                            assert(self.state().trials =~= step(s, b).trials);
                        }
                    }
                },
            }
        }
        self.status()
    }

    /// Runs the search on `game` until it is solved or out of trials, and
    /// hands back the game where it stopped.
    pub fn solve(game: Game) -> (r: Game)
        requires
            game.wf(),
        ensures
            solved_from(game, r),
    {
        let ghost b = game.board().box_size();
        let ghost readonly = game.board().readonly();
        let ghost start = game.board().values();
        let mut solver = Self::new(game);
        let ghost init = solver.state();
        let ghost mut k: nat = 0;
        proof {
            lemma_initial_tracks(start, b);
        }
        let mut running = solver.status() == SolverStatus::InProgress;
        while running
            invariant
                solver.wf(),
                solver.box_side() == b,
                solver.current().board().side() == game.board().side(),
                solver.current().board().readonly() == readonly,
                init == initial_state(start, b),
                readonly.len() == start.len(),
                solver.state() == run(init, b, k),
                tracks(solver.state(), start, b),
                running == !terminal(solver.state(), b),
                forall|j: nat| j < k ==> !terminal(#[trigger] run(init, b, j), b),
                forall|c: int|
                    0 <= c < start.len() && #[trigger] readonly[c] ==> solver.state().values[c]
                        == start[c],
            decreases measure(solver.state(), b),
        {
            proof {
                lemma_step(solver.state(), b, readonly);
                lemma_step_tracks(solver.state(), start, b, readonly);
            }
            let ghost before = solver.state();
            let status = solver.next();
            proof {
                assert forall|c: int|
                    0 <= c < start.len() && #[trigger] readonly[c] implies solver.state().values[c]
                        == start[c] by {
                    assert(step(before, b).values[c] == before.values[c]);
                }
                k = k + 1;
                assert forall|j: nat| j < k implies !terminal(#[trigger] run(init, b, j), b) by {
                    if j == k - 1 {
                    }
                }
            }
            running = status == SolverStatus::InProgress;
        }
        proof {
            assert(stops_after(init, b, k));
            let k2 = choose|k2: nat| stops_after(init, b, k2);
            lemma_stop_unique(init, b, k, k2);
            let out = solver.state();
            let n = b * b;
            assert(search_ok(out, b, readonly));
            assert(n >= 1) by (nonlinear_arith)
                requires
                    b >= 1,
                    n == b * b,
            ;
            if !out.unsolvable {
                lemma_zeros(start, n, n * n);
                assert forall|c: int| 0 <= c < start.len() && #[trigger] start[c] != 0 implies out.values[c]
                    == start[c] by {
                    assert forall|j: int| 0 <= j < out.trials.len() implies cell_index(
                        out.trials[j].position,
                        n,
                    ) != c by {
                        let o = start_open(start, b);
                        assert(out.trials[j].position == o[o.len() - 1 - j]);
                    }
                }
                assert(forall|c: int| 0 <= c < out.values.len() ==> #[trigger] out.values[c] <= n);
                assert(is_solution(out.values, start, b));
            }
        }
        solver.game
    }
}

} // verus!
