use crate::text::{decimal, push_decimal};
use vstd::prelude::*;
use vstd::string::StringExecFns;

verus! {

/// A cell address: `(x, y)`, column first.
pub type GridPosition = (usize, usize);

#[derive(Debug, PartialEq, Eq)]
struct Cell {
    value: usize,
    readonly: bool,
}

/// Why a board operation was refused.
#[derive(Debug, PartialEq, Eq, Structural)]
pub enum GridError {
    /// The number of cells is not `b^4` for a box side `b >= 2`.
    InvalidGridSize,
    /// A position lies off the board.
    CellOutOfBounds,
    /// The value at this row-major index exceeds the board's side.
    InvalidCellValue(usize),
    /// A clue cannot be changed.
    ReadonlyCellMutation,
    InvalidRowNumber,
    InvalidColumnNumber,
    InvalidSquareNumber,
}

/// An `n x n` board of `b x b` boxes (`n == b * b`), stored row-major; the
/// cells given nonzero at construction are clues and never change.
#[derive(Debug, PartialEq, Eq)]
pub struct Grid {
    cells: Vec<Cell>,
    side_size: usize,
    sub_square_size: usize,
}

/// `cells` describes a board: its length is `b^4` for a box side `b >= 2`, and
/// no value exceeds the side `b * b` (equivalently, no value's square exceeds
/// the length).
pub open spec fn accepts(cells: Seq<usize>) -> bool {
    &&& is_board_len(cells.len())
    &&& forall|i: int| 0 <= i < cells.len() ==> #[trigger] cells[i] * cells[i] <= cells.len()
}

/// `e` is the error with which `cells` is refused: a length that is no board's,
/// or else the first value above the side.
pub open spec fn rejects(cells: Seq<usize>, e: GridError) -> bool {
    match e {
        GridError::InvalidGridSize => !is_board_len(cells.len()),
        GridError::InvalidCellValue(i) => {
            &&& is_board_len(cells.len())
            &&& i < cells.len()
            &&& cells[i as int] * cells[i as int] > cells.len()
            &&& forall|j: int| 0 <= j < i ==> #[trigger] cells[j] * cells[j] <= cells.len()
        },
        _ => false,
    }
}

/// The index of a cell in the row-major cell sequence of a board of side `n`.
pub open spec fn cell_index(p: GridPosition, n: nat) -> int {
    p.1 * n + p.0
}

pub open spec fn in_bounds(p: GridPosition, n: nat) -> bool {
    p.0 < n && p.1 < n
}

/// A board length is accepted when it is `b * b * b * b` for some box size `b >= 2`.
pub open spec fn is_board_len(len: nat) -> bool {
    exists|b: nat| b >= 2 && #[trigger] (b * b) * (b * b) == len
}

proof fn lemma_square_monotone(s: nat, t: nat)
    requires
        s < t,
    ensures
        s * s < t * t,
{
    assert(s * s <= s * t) by (nonlinear_arith)
        requires
            s < t,
    ;
    assert(s * t < t * t) by (nonlinear_arith)
        requires
            s < t,
    ;
}

proof fn lemma_square_injective(s: nat, t: nat)
    requires
        s * s == t * t,
    ensures
        s == t,
{
    if s < t {
        lemma_square_monotone(s, t);
    } else if t < s {
        lemma_square_monotone(t, s);
    }
}

/// The exact integer square root of `n`, if `n` is a perfect square.
fn square_root(n: usize) -> (r: Option<usize>)
    ensures
        match r {
            Some(s) => s * s == n,
            None => forall|s: nat| #[trigger] (s * s) != n,
        },
{
    let mut r: usize = 0;
    while r + 1 <= n / (r + 1)
        invariant
            r * r <= n,
            r <= n,
            r < usize::MAX,
        decreases n - r,
    {
        proof {
            let a = (r + 1) as int;
            assert(a * a <= n) by (nonlinear_arith)
                requires
                    a > 0,
                    a <= n as int / a,
            ;
            assert(a <= a * a) by (nonlinear_arith)
                requires
                    a > 0,
            ;
            assert(a < usize::MAX) by (nonlinear_arith)
                requires
                    a > 0,
                    a * a <= usize::MAX as int,
                    usize::MAX as int > 2,
            ;
        }
        r = r + 1;
    }
    proof {
        let a = (r + 1) as int;
        assert(n < a * a) by (nonlinear_arith)
            requires
                a > 0,
                a > n as int / a,
        ;
    }
    if r * r == n {
        Some(r)
    } else {
        proof {
            assert forall|s: nat| #[trigger] (s * s) != n by {
                if s * s == n {
                    if s < r {
                        lemma_square_monotone(s, r as nat);
                    } else if s > r {
                        lemma_square_monotone(r as nat, (r + 1) as nat);
                        if s > r + 1 {
                            lemma_square_monotone((r + 1) as nat, s);
                        }
                    }
                }
            }
        }
        None
    }
}

impl Grid {
    /// Side length `n` of the board.
    pub closed spec fn side(&self) -> nat {
        self.side_size as nat
    }

    /// Side length of one box; `side() == box_size() * box_size()`.
    pub closed spec fn box_size(&self) -> nat {
        self.sub_square_size as nat
    }

    /// Cell values in row-major order.
    pub closed spec fn values(&self) -> Seq<usize> {
        self.cells@.map_values(|c: Cell| c.value)
    }

    /// Which cells are clues, in row-major order.
    pub closed spec fn readonly(&self) -> Seq<bool> {
        self.cells@.map_values(|c: Cell| c.readonly)
    }

    pub open spec fn wf(&self) -> bool {
        &&& self.box_size() >= 2
        &&& self.side() == self.box_size() * self.box_size()
        &&& self.side() <= usize::MAX
        &&& self.values().len() == self.side() * self.side()
        &&& self.values().len() <= usize::MAX
        &&& self.readonly().len() == self.values().len()
        &&& forall|i: int| 0 <= i < self.values().len() ==> #[trigger] self.values()[i] <= self.side()
        &&& forall|i: int|
            0 <= i < self.values().len() && #[trigger] self.readonly()[i] ==> self.values()[i] != 0
    }

    /// The value at `p` on a well-formed board.
    pub open spec fn cell(&self, p: GridPosition) -> usize {
        self.values()[cell_index(p, self.side())]
    }

    /// Builds a board from row-major values; nonzero values become clues.
    pub fn new(cells: Vec<usize>) -> (r: Result<Self, GridError>)
        ensures
            r is Ok <==> accepts(cells@),
            r matches Err(e) ==> rejects(cells@, e),
            r matches Ok(g) ==> {
                &&& g.wf()
                &&& g.values() == cells@
                &&& g.side() * g.side() == cells@.len()
                &&& forall|i: int| 0 <= i < cells@.len() ==> #[trigger] g.readonly()[i] == (cells@[i] != 0)
            },
    {
        let len = cells.len();
        let side_size = match square_root(len) {
            Some(s) => s,
            None => {
                proof {
                    assert forall|b: nat| b >= 2 implies #[trigger] (b * b) * (b * b) != len by {
                        let q: nat = b * b;
                        assert(q * q != len);
                    }
                }
                return Err(GridError::InvalidGridSize);
            },
        };
        let sub_square_size = match square_root(side_size) {
            Some(s) => s,
            None => {
                proof {
                    assert forall|b: nat| b >= 2 implies #[trigger] (b * b) * (b * b) != len by {
                        if (b * b) * (b * b) == len {
                            lemma_square_injective(b * b, side_size as nat);
                        }
                    }
                }
                return Err(GridError::InvalidGridSize);
            },
        };
        if sub_square_size < 2 {
            proof {
                assert forall|b: nat| b >= 2 implies #[trigger] (b * b) * (b * b) != len by {
                    if (b * b) * (b * b) == len {
                        lemma_square_injective(b * b, side_size as nat);
                        lemma_square_injective(b, sub_square_size as nat);
                    }
                }
            }
            return Err(GridError::InvalidGridSize);
        }
        proof {
            let b = sub_square_size as nat;
            assert(b >= 2 && (b * b) * (b * b) == len);
            assert(is_board_len(len as nat));
        }
        let mut out: Vec<Cell> = Vec::new();
        let mut i: usize = 0;
        while i < len
            invariant
                i <= len,
                len == cells@.len(),
                side_size * side_size == len,
                is_board_len(len as nat),
                out@.len() == i,
                forall|j: int| 0 <= j < i ==> (#[trigger] out@[j]).value == cells@[j],
                forall|j: int| 0 <= j < i ==> (#[trigger] out@[j]).readonly == (cells@[j] != 0),
                forall|j: int| 0 <= j < i ==> #[trigger] cells@[j] <= side_size,
                forall|j: int| 0 <= j < i ==> #[trigger] cells@[j] * cells@[j] <= len,
            decreases len - i,
        {
            let v = cells[i];
            if v > side_size {
                proof {
                    lemma_square_monotone(side_size as nat, v as nat);
                    assert forall|j: int| 0 <= j < i implies #[trigger] cells@[j] * cells@[j] <= len by {
                        if cells@[j] > side_size {
                        } else if cells@[j] < side_size {
                            lemma_square_monotone(cells@[j] as nat, side_size as nat);
                        }
                    }
                }
                return Err(GridError::InvalidCellValue(i));
            }
            proof {
                if v < side_size {
                    lemma_square_monotone(v as nat, side_size as nat);
                }
            }
            out.push(Cell { value: v, readonly: v != 0 });
            i = i + 1;
        }
        let g = Grid { cells: out, side_size, sub_square_size };
        assert(g.values() =~= cells@);
        Ok(g)
    }

    pub fn size(&self) -> (r: usize)
        ensures
            r == self.side(),
    {
        self.side_size
    }

    fn get_cell_index(&self, position: GridPosition) -> (r: Result<usize, GridError>)
        requires
            self.wf(),
        ensures
            in_bounds(position, self.side()) ==> (r matches Ok(i) && i == cell_index(
                position,
                self.side(),
            )),
            !in_bounds(position, self.side()) ==> r == Err::<usize, GridError>(
                GridError::CellOutOfBounds,
            ),
            r matches Ok(i) ==> 0 <= i < self.values().len(),
            in_bounds(position, self.side()) ==> 0 <= cell_index(position, self.side())
                < self.values().len(),
    {
        if position.0 >= self.side_size || position.1 >= self.side_size {
            Err(GridError::CellOutOfBounds)
        } else {
            proof {
                lemma_index_in_board(position, self.side());
            }
            Ok(position.1 * self.side_size + position.0)
        }
    }

    /// The value at `position`.
    pub fn get_cell(&self, position: GridPosition) -> (r: Result<usize, GridError>)
        requires
            self.wf(),
        ensures
            in_bounds(position, self.side()) ==> r == Ok::<usize, GridError>(self.cell(position)),
            !in_bounds(position, self.side()) ==> r == Err::<usize, GridError>(
                GridError::CellOutOfBounds,
            ),
    {
        let i = match self.get_cell_index(position) {
            Ok(i) => i,
            Err(e) => {
                return Err(e);
            },
        };
        assert(self.values()[i as int] == self.cells@[i as int].value);
        Ok(self.cells[i].value)
    }

    /// Whether the cell at `position` is a clue.
    pub fn is_readonly(&self, position: GridPosition) -> (r: Result<bool, GridError>)
        requires
            self.wf(),
        ensures
            in_bounds(position, self.side()) ==> r == Ok::<bool, GridError>(
                self.readonly()[cell_index(position, self.side())],
            ),
            !in_bounds(position, self.side()) ==> r == Err::<bool, GridError>(
                GridError::CellOutOfBounds,
            ),
    {
        let i = match self.get_cell_index(position) {
            Ok(i) => i,
            Err(e) => {
                return Err(e);
            },
        };
        assert(self.readonly()[i as int] == self.cells@[i as int].readonly);
        Ok(self.cells[i].readonly)
    }

    /// Writes `value` at `position` and returns the value it replaced.
    pub fn set_cell(&mut self, position: GridPosition, value: usize) -> (r: Result<usize, GridError>)
        requires
            old(self).wf(),
        ensures
            final(self).wf(),
            final(self).side() == old(self).side(),
            final(self).box_size() == old(self).box_size(),
            final(self).readonly() == old(self).readonly(),
            !in_bounds(position, old(self).side()) ==> r == Err::<usize, GridError>(
                GridError::CellOutOfBounds,
            ),
            in_bounds(position, old(self).side()) && old(self).readonly()[cell_index(
                position,
                old(self).side(),
            )] ==> r == Err::<usize, GridError>(GridError::ReadonlyCellMutation),
            in_bounds(position, old(self).side()) && !old(self).readonly()[cell_index(
                position,
                old(self).side(),
            )] && value > old(self).side() ==> (r matches Err(GridError::InvalidCellValue(i))
                && i == cell_index(position, old(self).side())),
            in_bounds(position, old(self).side()) && !old(self).readonly()[cell_index(
                position,
                old(self).side(),
            )] && value <= old(self).side() ==> r == Ok::<usize, GridError>(
                old(self).cell(position),
            ),
            r is Ok ==> final(self).values() == old(self).values().update(
                cell_index(position, old(self).side()),
                value,
            ),
            r is Err ==> final(self).values() == old(self).values(),
    {
        let i = match self.get_cell_index(position) {
            Ok(i) => i,
            Err(e) => {
                return Err(e);
            },
        };
        assert(self.readonly()[i as int] == self.cells@[i as int].readonly);
        assert(self.values()[i as int] == self.cells@[i as int].value);
        if self.cells[i].readonly {
            return Err(GridError::ReadonlyCellMutation);
        }
        if value > self.side_size {
            return Err(GridError::InvalidCellValue(i));
        }
        let previous_value = self.cells[i].value;
        self.cells.set(i, Cell { value, readonly: false });
        proof {
            assert(self.values() =~= old(self).values().update(i as int, value));
            assert(self.readonly() =~= old(self).readonly());
        }
        Ok(previous_value)
    }

    /// Empties every cell that is not a clue.
    pub fn reset(&mut self)
        requires
            old(self).wf(),
        ensures
            final(self).wf(),
            final(self).side() == old(self).side(),
            final(self).box_size() == old(self).box_size(),
            final(self).readonly() == old(self).readonly(),
            final(self).values() == cleared(old(self).values(), old(self).readonly()),
    {
        let n = self.cells.len();
        let mut i: usize = 0;
        while i < n
            invariant
                self.wf(),
                n == self.values().len(),
                i <= n,
                self.side() == old(self).side(),
                self.box_size() == old(self).box_size(),
                self.readonly() == old(self).readonly(),
                forall|j: int| 0 <= j < i ==> #[trigger] self.values()[j] == cleared(
                    old(self).values(),
                    old(self).readonly(),
                )[j],
                forall|j: int| i <= j < n ==> #[trigger] self.values()[j] == old(self).values()[j],
            decreases n - i,
        {
            let ghost before = self.values();
            assert(self.readonly()[i as int] == self.cells@[i as int].readonly);
            if !self.cells[i].readonly {
                self.cells.set(i, Cell { value: 0, readonly: false });
                proof {
                    assert(self.readonly() =~= old(self).readonly());
                    assert(self.values() =~= before.update(i as int, 0));
                }
            }
            i = i + 1;
        }
        assert(self.values() =~= cleared(old(self).values(), old(self).readonly()));
    }
}

/// `values` with every cell that is not a clue set to zero.
pub open spec fn cleared(values: Seq<usize>, readonly: Seq<bool>) -> Seq<usize> {
    Seq::new(values.len(), |i: int| if readonly[i] { values[i] } else { 0 })
}

pub proof fn lemma_index_in_board(p: GridPosition, n: nat)
    requires
        in_bounds(p, n),
    ensures
        0 <= cell_index(p, n) < n * n,
{
    let x = p.0 as int;
    let y = p.1 as int;
    assert(0 <= y * n + x < n * n) by (nonlinear_arith)
        requires
            0 <= x < n,
            0 <= y < n,
    ;
}

/// One row, column or box of a board.
#[derive(Debug, Clone, Copy, PartialEq, Eq, Structural)]
pub enum GridSubsectionType {
    Row(usize),
    Column(usize),
    Square(usize, usize),
}

/// What a user interface needs to draw a board: the selected cell and the
/// subsections to highlight.
pub struct GridState {
    pub selected: (usize, usize),
    pub subsections: Vec<GridSubsectionType>,
}

/// The `k`-th cell `(x, y)` of subsection `t` on a board whose boxes have side `b`:
/// a row left to right, a column top to bottom, a box in raster order.
pub open spec fn section_pos(t: GridSubsectionType, k: int, b: nat) -> (int, int) {
    match t {
        GridSubsectionType::Row(j) => (k, j as int),
        GridSubsectionType::Column(i) => (i as int, k),
        GridSubsectionType::Square(i, j) => (i * b + k % (b as int), j * b + k / (b as int)),
    }
}

/// `t` names a subsection of a board whose boxes have side `b`.
pub open spec fn is_section_of(t: GridSubsectionType, b: nat) -> bool {
    match t {
        GridSubsectionType::Row(j) => j < b * b,
        GridSubsectionType::Column(i) => i < b * b,
        GridSubsectionType::Square(i, j) => i < b && j < b,
    }
}

/// The values of subsection `t`, in its fixed cell order.
pub open spec fn section_values(values: Seq<usize>, b: nat, t: GridSubsectionType) -> Seq<usize> {
    Seq::new(
        b * b,
        |k: int| values[section_pos(t, k, b).1 * (b * b) + section_pos(t, k, b).0],
    )
}

/// The `i`-th of the `3 * n` subsections: for each index `j` a row, a column and a box.
pub open spec fn section_at(i: int, b: nat) -> GridSubsectionType {
    let j = i / 3;
    if i % 3 == 0 {
        GridSubsectionType::Row(j as usize)
    } else if i % 3 == 1 {
        GridSubsectionType::Column(j as usize)
    } else {
        GridSubsectionType::Square((j % (b as int)) as usize, (j / (b as int)) as usize)
    }
}

/// The `i`-th box, counted in raster order over the boxes.
pub open spec fn square_at(i: int, b: nat) -> GridSubsectionType {
    GridSubsectionType::Square((i % (b as int)) as usize, (i / (b as int)) as usize)
}

pub proof fn lemma_section_pos_in_board(t: GridSubsectionType, k: int, b: nat)
    requires
        is_section_of(t, b),
        0 <= k < b * b,
        b >= 1,
    ensures
        0 <= section_pos(t, k, b).0 < b * b,
        0 <= section_pos(t, k, b).1 < b * b,
        0 <= section_pos(t, k, b).1 * (b * b) + section_pos(t, k, b).0 < (b * b) * (b * b),
{
    let bb = b as int;
    if let GridSubsectionType::Square(i, j) = t {
        let (i, j) = (i as int, j as int);
        assert(0 <= i * bb + k % bb < bb * bb) by (nonlinear_arith)
            requires
                0 <= i < bb,
                0 <= k,
                bb >= 1,
        ;
        assert(0 <= k / bb < bb) by (nonlinear_arith)
            requires
                0 <= k < bb * bb,
                bb >= 1,
        ;
        assert(0 <= j * bb + k / bb < bb * bb) by (nonlinear_arith)
            requires
                0 <= j < bb,
                0 <= k / bb < bb,
        ;
    }
    let x = section_pos(t, k, b).0;
    let y = section_pos(t, k, b).1;
    let n = bb * bb;
    assert(0 <= y * n + x < n * n) by (nonlinear_arith)
        requires
            0 <= x < n,
            0 <= y < n,
    ;
}

pub proof fn lemma_section_at_is_section(i: int, b: nat)
    requires
        0 <= i < 3 * (b * b),
        b >= 1,
    ensures
        is_section_of(section_at(i, b), b),
{
    let bb = b as int;
    let j = i / 3;
    assert(0 <= j < bb * bb);
    assert(0 <= j / bb < bb) by (nonlinear_arith)
        requires
            0 <= j < bb * bb,
            bb >= 1,
    ;
}

/// Which cells a subsection covers, without reference to a particular board.
#[derive(Debug, Clone, Copy)]
pub struct GridSubsection {
    pub subsection_type: GridSubsectionType,
    pub grid_size: usize,
    pub box_size: usize,
}

impl GridSubsection {
    pub open spec fn box_side(&self) -> nat {
        self.box_size as nat
    }

    fn new(grid: &Grid, subsection_type: GridSubsectionType) -> (r: Self)
        requires
            grid.wf(),
        ensures
            r.subsection_type == subsection_type,
            r.grid_size == grid.side(),
            r.box_side() == grid.box_size(),
    {
        GridSubsection { subsection_type, grid_size: grid.side_size, box_size: grid.sub_square_size }
    }

    /// The cell at step `k` of this subsection.
    fn position(&self, k: usize) -> (r: GridPosition)
        requires
            is_section_of(self.subsection_type, self.box_side()),
            self.grid_size == self.box_side() * self.box_side(),
            self.box_side() >= 1,
            k < self.grid_size,
        ensures
            r.0 == section_pos(self.subsection_type, k as int, self.box_side()).0,
            r.1 == section_pos(self.subsection_type, k as int, self.box_side()).1,
            r.0 < self.grid_size && r.1 < self.grid_size,
    {
        proof {
            lemma_section_pos_in_board(self.subsection_type, k as int, self.box_side());
        }
        match self.subsection_type {
            GridSubsectionType::Row(j) => (k, j),
            GridSubsectionType::Column(i) => (i, k),
            GridSubsectionType::Square(i, j) => {
                proof {
                    let (ii, jj, bb) = (i as int, j as int, self.box_size as int);
                    assert(ii * bb <= ii * bb + k as int % bb);
                    assert(jj * bb <= jj * bb + k as int / bb) by (nonlinear_arith)
                        requires
                            bb >= 1,
                            k >= 0,
                    ;
                }
                (i * self.box_size + k % self.box_size, j * self.box_size + k / self.box_size)
            },
        }
    }

    /// The cells of this subsection, in order.
    pub fn positions(&self) -> (r: Vec<GridPosition>)
        requires
            is_section_of(self.subsection_type, self.box_side()),
            self.grid_size == self.box_side() * self.box_side(),
            self.box_side() >= 1,
        ensures
            r@.len() == self.grid_size,
            forall|k: int|
                0 <= k < r@.len() ==> (#[trigger] r@[k]).0 == section_pos(
                    self.subsection_type,
                    k,
                    self.box_side(),
                ).0 && r@[k].1 == section_pos(self.subsection_type, k, self.box_side()).1,
    {
        let mut out: Vec<GridPosition> = Vec::new();
        let mut k: usize = 0;
        while k < self.grid_size
            invariant
                k <= self.grid_size,
                is_section_of(self.subsection_type, self.box_side()),
                self.grid_size == self.box_side() * self.box_side(),
                self.box_side() >= 1,
                out@.len() == k,
                forall|m: int|
                    0 <= m < k ==> (#[trigger] out@[m]).0 == section_pos(
                        self.subsection_type,
                        m,
                        self.box_side(),
                    ).0 && out@[m].1 == section_pos(self.subsection_type, m, self.box_side()).1,
            decreases self.grid_size - k,
        {
            out.push(self.position(k));
            k = k + 1;
        }
        out
    }
}

/// The values of one subsection, read from a board at the time of the call.
#[derive(Debug)]
pub struct GridSubsectionValues {
    pub grid_subsection: GridSubsection,
    pub values: Vec<usize>,
}

impl View for GridSubsectionValues {
    type V = Seq<usize>;

    open spec fn view(&self) -> Seq<usize> {
        self.values@
    }
}

impl GridSubsectionValues {
    /// The values, in the subsection's cell order.
    pub fn values(&self) -> (r: &Vec<usize>)
        ensures
            r@ == self@,
    {
        &self.values
    }

    /// A copy of the values, in the subsection's cell order.
    pub fn to_vec(&self) -> (r: Vec<usize>)
        ensures
            r@ == self@,
    {
        self.values.clone()
    }
}

impl Grid {
    /// The values of subsection `t` on this board.
    pub open spec fn section(&self, t: GridSubsectionType) -> Seq<usize> {
        section_values(self.values(), self.box_size(), t)
    }

    /// The values of subsection `subsection_type`, in its cell order.
    pub fn get_subsection_values(&self, subsection_type: GridSubsectionType) -> (r:
        GridSubsectionValues)
        requires
            self.wf(),
            is_section_of(subsection_type, self.box_size()),
        ensures
            r@ == self.section(subsection_type),
            r.grid_subsection.subsection_type == subsection_type,
            r.grid_subsection.grid_size == self.side(),
            r.grid_subsection.box_size == self.box_size(),
    {
        let grid_subsection = GridSubsection::new(self, subsection_type);
        let n = self.side_size;
        let ghost b = self.box_size();
        let mut values: Vec<usize> = Vec::new();
        let mut k: usize = 0;
        while k < n
            invariant
                self.wf(),
                n == self.side(),
                b == self.box_size(),
                grid_subsection.subsection_type == subsection_type,
                grid_subsection.grid_size == n,
                grid_subsection.box_side() == b,
                is_section_of(subsection_type, b),
                k <= n,
                values@.len() == k,
                forall|m: int|
                    0 <= m < k ==> #[trigger] values@[m] == self.section(subsection_type)[m],
            decreases n - k,
        {
            let p = grid_subsection.position(k);
            proof {
                lemma_section_pos_in_board(subsection_type, k as int, b);
            }
            let v = match self.get_cell(p) {
                Ok(v) => v,
                Err(_) => 0,
            };
            values.push(v);
            k = k + 1;
        }
        assert(values@ =~= self.section(subsection_type));
        GridSubsectionValues { grid_subsection, values }
    }

    /// Every row, top to bottom.
    pub fn get_row_values(&self) -> (r: Vec<GridSubsectionValues>)
        requires
            self.wf(),
        ensures
            r@.len() == self.side(),
            forall|i: int|
                0 <= i < r@.len() ==> (#[trigger] r@[i]).grid_subsection.subsection_type
                    == GridSubsectionType::Row(i as usize) && r@[i]@ == self.section(
                    GridSubsectionType::Row(i as usize),
                ),
    {
        let mut out: Vec<GridSubsectionValues> = Vec::new();
        let mut i: usize = 0;
        while i < self.side_size
            invariant
                self.wf(),
                i <= self.side(),
                out@.len() == i,
                forall|m: int|
                    0 <= m < i ==> (#[trigger] out@[m]).grid_subsection.subsection_type
                        == GridSubsectionType::Row(m as usize) && out@[m]@ == self.section(
                        GridSubsectionType::Row(m as usize),
                    ),
            decreases self.side() - i,
        {
            out.push(self.get_subsection_values(GridSubsectionType::Row(i)));
            i = i + 1;
        }
        out
    }

    /// Every column, left to right.
    pub fn get_column_values(&self) -> (r: Vec<GridSubsectionValues>)
        requires
            self.wf(),
        ensures
            r@.len() == self.side(),
            forall|i: int|
                0 <= i < r@.len() ==> (#[trigger] r@[i]).grid_subsection.subsection_type
                    == GridSubsectionType::Column(i as usize) && r@[i]@ == self.section(
                    GridSubsectionType::Column(i as usize),
                ),
    {
        let mut out: Vec<GridSubsectionValues> = Vec::new();
        let mut i: usize = 0;
        while i < self.side_size
            invariant
                self.wf(),
                i <= self.side(),
                out@.len() == i,
                forall|m: int|
                    0 <= m < i ==> (#[trigger] out@[m]).grid_subsection.subsection_type
                        == GridSubsectionType::Column(m as usize) && out@[m]@ == self.section(
                        GridSubsectionType::Column(m as usize),
                    ),
            decreases self.side() - i,
        {
            out.push(self.get_subsection_values(GridSubsectionType::Column(i)));
            i = i + 1;
        }
        out
    }

    /// Every box, in raster order over the boxes.
    pub fn get_square_values(&self) -> (r: Vec<GridSubsectionValues>)
        requires
            self.wf(),
        ensures
            r@.len() == self.side(),
            forall|i: int|
                0 <= i < r@.len() ==> (#[trigger] r@[i]).grid_subsection.subsection_type
                    == square_at(i, self.box_size()) && r@[i]@ == self.section(
                    square_at(i, self.box_size()),
                ),
    {
        let mut out: Vec<GridSubsectionValues> = Vec::new();
        let mut i: usize = 0;
        while i < self.side_size
            invariant
                self.wf(),
                i <= self.side(),
                out@.len() == i,
                forall|m: int|
                    0 <= m < i ==> (#[trigger] out@[m]).grid_subsection.subsection_type
                        == square_at(m, self.box_size()) && out@[m]@ == self.section(
                        square_at(m, self.box_size()),
                    ),
            decreases self.side() - i,
        {
            proof {
                let bb = self.box_size() as int;
                let ii = i as int;
                assert(0 <= ii / bb < bb) by (nonlinear_arith)
                    requires
                        0 <= ii < bb * bb,
                        bb >= 1,
                ;
            }
            let t = GridSubsectionType::Square(i % self.sub_square_size, i / self.sub_square_size);
            out.push(self.get_subsection_values(t));
            i = i + 1;
        }
        out
    }

    /// All `3 * n` subsections: for each index `i` its row, its column and its box.
    pub fn get_all_subsection_values(&self) -> (r: Vec<GridSubsectionValues>)
        requires
            self.wf(),
        ensures
            r@.len() == 3 * self.side(),
            forall|i: int|
                0 <= i < r@.len() ==> (#[trigger] r@[i]).grid_subsection.subsection_type
                    == section_at(i, self.box_size()) && r@[i]@ == self.section(
                    section_at(i, self.box_size()),
                ),
    {
        let mut out: Vec<GridSubsectionValues> = Vec::new();
        let mut i: usize = 0;
        while i < self.side_size
            invariant
                self.wf(),
                i <= self.side(),
                out@.len() == 3 * i,
                forall|m: int|
                    0 <= m < 3 * i ==> (#[trigger] out@[m]).grid_subsection.subsection_type
                        == section_at(m, self.box_size()) && out@[m]@ == self.section(
                        section_at(m, self.box_size()),
                    ),
            decreases self.side() - i,
        {
            proof {
                let bb = self.box_size() as int;
                let ii = i as int;
                assert(0 <= ii / bb < bb) by (nonlinear_arith)
                    requires
                        0 <= ii < bb * bb,
                        bb >= 1,
                ;
                assert(section_at(3 * ii, self.box_size()) == GridSubsectionType::Row(i));
                assert(section_at(3 * ii + 1, self.box_size()) == GridSubsectionType::Column(i));
                assert(section_at(3 * ii + 2, self.box_size()) == GridSubsectionType::Square(
                    i % self.sub_square_size,
                    i / self.sub_square_size,
                ));
            }
            out.push(self.get_subsection_values(GridSubsectionType::Row(i)));
            out.push(self.get_subsection_values(GridSubsectionType::Column(i)));
            out.push(
                self.get_subsection_values(
                    GridSubsectionType::Square(i % self.sub_square_size, i / self.sub_square_size),
                ),
            );
            i = i + 1;
        }
        out
    }

    /// The row, the column and the box that hold `position`.
    pub fn get_subsections_vaules_for_cell(&self, position: GridPosition) -> (r: [GridSubsectionValues; 3])
        requires
            self.wf(),
            in_bounds(position, self.side()),
        ensures
            r[0].grid_subsection.subsection_type == GridSubsectionType::Row(position.1),
            r[1].grid_subsection.subsection_type == GridSubsectionType::Column(position.0),
            r[2].grid_subsection.subsection_type == GridSubsectionType::Square(
                (position.0 as nat / self.box_size()) as usize,
                (position.1 as nat / self.box_size()) as usize,
            ),
            forall|i: int| 0 <= i < 3 ==> #[trigger] r[i]@ == self.section(r[i].grid_subsection.subsection_type),
    {
        proof {
            let bb = self.box_size() as int;
            let (x, y) = (position.0 as int, position.1 as int);
            assert(0 <= x / bb < bb && 0 <= y / bb < bb) by (nonlinear_arith)
                requires
                    0 <= x < bb * bb,
                    0 <= y < bb * bb,
                    bb >= 1,
            ;
        }
        [
            self.get_subsection_values(GridSubsectionType::Row(position.1)),
            self.get_subsection_values(GridSubsectionType::Column(position.0)),
            self.get_subsection_values(
                GridSubsectionType::Square(
                    position.0 / self.sub_square_size,
                    position.1 / self.sub_square_size,
                ),
            ),
        ]
    }
}

/// Text of a cell value: `_` for an empty cell, else the value in decimal.
pub open spec fn cell_text(v: usize) -> Seq<char> {
    if v == 0 {
        seq!['_']
    } else {
        decimal(v as nat)
    }
}

/// The first `j` cells of text line `i`, cells `(i, 0)`, `(i, 1)`, ... joined by commas.
pub open spec fn line_text(values: Seq<usize>, n: nat, i: int, j: nat) -> Seq<char>
    decreases j,
{
    if j == 0 {
        Seq::empty()
    } else {
        let cell = cell_text(values[(j - 1) * n + i]);
        if j == 1 {
            cell
        } else {
            line_text(values, n, i, (j - 1) as nat) + seq![','] + cell
        }
    }
}

/// The first `k` lines of a board's text, each ended by a newline.
pub open spec fn grid_text(values: Seq<usize>, n: nat, k: nat) -> Seq<char>
    decreases k,
{
    if k == 0 {
        Seq::empty()
    } else {
        grid_text(values, n, (k - 1) as nat) + line_text(values, n, k - 1, n) + seq!['\n']
    }
}

impl Grid {
    /// The board as text, one line per column `x` listing the cells
    /// `(x, 0)`, `(x, 1)`, ... separated by commas, with `_` for an empty cell.
    pub fn to_string(&self) -> (r: String)
        requires
            self.wf(),
        ensures
            r@ == grid_text(self.values(), self.side(), self.side()),
    {
        let n = self.side_size;
        let mut out = String::new();
        let mut i: usize = 0;
        while i < n
            invariant
                self.wf(),
                n == self.side(),
                i <= n,
                out@ == grid_text(self.values(), n as nat, i as nat),
            decreases n - i,
        {
            let ghost base = out@;
            let mut j: usize = 0;
            while j < n
                invariant
                    self.wf(),
                    n == self.side(),
                    i < n,
                    j <= n,
                    out@ == base + line_text(self.values(), n as nat, i as int, j as nat),
                decreases n - j,
            {
                let ghost before = out@;
                proof {
                    reveal_strlit(",");
                    reveal_strlit("_");
                }
                let v = match self.get_cell((i, j)) {
                    Ok(v) => v,
                    Err(_) => 0,
                };
                if j > 0 {
                    out.append(",");
                    assert(out@ =~= before + seq![',']);
                }
                let ghost mid = out@;
                if v == 0 {
                    out.append("_");
                    assert(out@ =~= mid + seq!['_']);
                } else {
                    push_decimal(&mut out, v);
                }
                assert(out@ =~= mid + cell_text(v));
                proof {
                    let vals = self.values();
                    assert(v == vals[j * n + i]);
                    if j > 0 {
                        assert(out@ =~= before + seq![','] + cell_text(v));
                    } else {
                        assert(out@ =~= before + cell_text(v));
                    }
                    assert(out@ =~= base + line_text(vals, n as nat, i as int, (j + 1) as nat));
                }
                j = j + 1;
            }
            out.append("\n");
            proof {
                reveal_strlit("\n");
                assert(out@ =~= grid_text(self.values(), n as nat, (i + 1) as nat));
            }
            i = i + 1;
        }
        out
    }
}

} // verus!
