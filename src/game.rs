use crate::checker::{check, is_filled, Checker, CheckerResult};
use crate::grid::{
    cell_index, cleared, grid_text, in_bounds, lemma_index_in_board, lemma_section_at_is_section, lemma_section_pos_in_board,
    section_at, section_values, accepts, rejects, Grid, GridError, GridPosition,
    GridSubsectionType, GridSubsectionValues,
};
use vstd::prelude::*;

verus! {

/// One recorded write: where, what was written, and what it replaced.
#[derive(Debug, Clone, Copy)]
pub struct Entry {
    pub position: GridPosition,
    pub value: usize,
    pub previous_value: usize,
}

/// A board, its undo history, and the validity of every subsection as of the
/// last change.
#[derive(Debug)]
pub struct Game {
    pub selected: GridPosition,
    invalid_subsections: Vec<GridSubsectionType>,
    is_complete: bool,
    grid: Grid,
    entries: Vec<Entry>,
    checker: Checker,
}

/// The invalid subsections among the first `k` of `section_at`, in that order.
pub open spec fn invalid_upto(values: Seq<usize>, b: nat, k: nat) -> Seq<GridSubsectionType>
    decreases k,
{
    if k == 0 {
        Seq::empty()
    } else {
        let prev = invalid_upto(values, b, (k - 1) as nat);
        let t = section_at(k - 1, b);
        if check(section_values(values, b, t)).valid {
            prev
        } else {
            prev.push(t)
        }
    }
}

/// Every row, column and box that holds a repeated nonzero value, in the order
/// row, column, box for index 0, then for index 1, and so on.
pub open spec fn invalid_sections(values: Seq<usize>, b: nat) -> Seq<GridSubsectionType> {
    invalid_upto(values, b, 3 * (b * b))
}

/// A recorded write that undo can replay on `g`.
pub open spec fn entry_fits(e: Entry, g: Grid) -> bool {
    &&& in_bounds(e.position, g.side())
    &&& !g.readonly()[cell_index(e.position, g.side())]
    &&& e.previous_value <= g.side()
}

proof fn lemma_filled_by_sections(values: Seq<usize>, b: nat)
    requires
        b >= 1,
        b * b <= usize::MAX,
        values.len() == (b * b) * (b * b),
    ensures
        is_filled(values) <==> forall|m: int|
            0 <= m < 3 * (b * b) ==> #[trigger] is_filled(
                section_values(values, b, section_at(m, b)),
            ),
{
    let n = b * b;
    if is_filled(values) {
        assert forall|m: int| 0 <= m < 3 * n implies #[trigger] is_filled(
            section_values(values, b, section_at(m, b)),
        ) by {
            lemma_section_at_is_section(m, b);
            let t = section_at(m, b);
            assert forall|k: int| 0 <= k < n implies #[trigger] section_values(values, b, t)[k]
                != 0 by {
                lemma_section_pos_in_board(t, k, b);
            }
        }
    }
    if forall|m: int|
        0 <= m < 3 * n ==> #[trigger] is_filled(section_values(values, b, section_at(m, b))) {
        assert forall|c: int| 0 <= c < values.len() implies #[trigger] values[c] != 0 by {
            let nn = n as int;
            let y = c / nn;
            let x = c % nn;
            assert(0 <= y < nn && 0 <= x < nn && y * nn + x == c) by (nonlinear_arith)
                requires
                    0 <= c < nn * nn,
                    nn >= 1,
                    y == c / nn,
                    x == c % nn,
            ;
            assert(section_at(3 * y, b) == GridSubsectionType::Row(y as usize));
            assert(is_filled(section_values(values, b, section_at(3 * y, b))));
            assert(section_values(values, b, GridSubsectionType::Row(y as usize))[x] == values[c]);
        }
    }
}

impl Game {
    pub closed spec fn board(&self) -> Grid {
        self.grid
    }

    pub closed spec fn history(&self) -> Seq<Entry> {
        self.entries@
    }

    pub closed spec fn invalid(&self) -> Seq<GridSubsectionType> {
        self.invalid_subsections@
    }

    pub closed spec fn complete(&self) -> bool {
        self.is_complete
    }

    /// The board is well formed, the validity caches describe it, and every
    /// recorded write can be undone.
    pub open spec fn wf(&self) -> bool {
        &&& self.board().wf()
        &&& self.invalid() == invalid_sections(self.board().values(), self.board().box_size())
        &&& self.complete() == is_filled(self.board().values())
        &&& forall|i: int|
            0 <= i < self.history().len() ==> entry_fits(#[trigger] self.history()[i], self.board())
    }

    /// The board is filled and no subsection repeats a value.
    pub open spec fn correct(&self) -> bool {
        self.complete() && self.invalid().len() == 0
    }

    /// `next` is this game with nothing changed that the model sees.
    pub open spec fn unchanged(&self, next: Game) -> bool {
        &&& next.board().values() == self.board().values()
        &&& next.board().readonly() == self.board().readonly()
        &&& next.board().side() == self.board().side()
        &&& next.board().box_size() == self.board().box_size()
        &&& next.history() == self.history()
        &&& next.invalid() == self.invalid()
        &&& next.complete() == self.complete()
    }

    /// `next` is this game after writing `v` at `p`, recorded as `e`.
    pub open spec fn placed(&self, next: Game, p: GridPosition, v: usize, e: Entry) -> bool {
        let i = cell_index(p, self.board().side());
        &&& in_bounds(p, self.board().side())
        &&& !self.board().readonly()[i]
        &&& v <= self.board().side()
        &&& e == Entry { position: p, value: v, previous_value: self.board().values()[i] }
        &&& next.board().values() == self.board().values().update(i, v)
        &&& next.board().readonly() == self.board().readonly()
        &&& next.board().side() == self.board().side()
        &&& next.board().box_size() == self.board().box_size()
        &&& next.history() == self.history().push(e)
        &&& next.wf()
    }

    /// `next` is this game after undoing its latest write, handed back as `r`;
    /// with no write recorded, nothing changes and `r` is `None`.
    pub open spec fn undone(&self, next: Game, r: Option<Entry>) -> bool {
        if self.history().len() == 0 {
            r is None && self.unchanged(next)
        } else {
            let e = self.history().last();
            let i = cell_index(e.position, self.board().side());
            &&& r == Some(e)
            &&& in_bounds(e.position, self.board().side())
            &&& !self.board().readonly()[i]
            &&& next.board().values() == self.board().values().update(i, e.previous_value)
            &&& next.board().readonly() == self.board().readonly()
            &&& next.board().side() == self.board().side()
            &&& next.board().box_size() == self.board().box_size()
            &&& next.history() == self.history().drop_last()
            &&& next.wf()
        }
    }

    /// Recomputes both validity caches from scratch over every subsection.
    fn apply_checker(&mut self)
        requires
            old(self).grid.wf(),
        ensures
            final(self).grid == old(self).grid,
            final(self).entries == old(self).entries,
            final(self).selected == old(self).selected,
            final(self).invalid() == invalid_sections(final(self).grid.values(), final(self).grid.box_size()),
            final(self).complete() == is_filled(final(self).grid.values()),
    {
        let subsections = self.grid.get_all_subsection_values();
        let results = self.checker.check_subsections(subsections.as_slice());
        let ghost values = self.grid.values();
        let ghost b = self.grid.box_size();
        let mut invalid: Vec<GridSubsectionType> = Vec::new();
        let mut complete = true;
        let mut i: usize = 0;
        while i < results.len()
            invariant
                self.grid.wf(),
                values == self.grid.values(),
                b == self.grid.box_size(),
                results@.len() == 3 * (b * b),
                forall|m: int|
                    0 <= m < results@.len() ==> (#[trigger] results@[m]).0 == section_at(m, b)
                        && results@[m].1 == check(section_values(values, b, section_at(m, b))),
                i <= results@.len(),
                invalid@ == invalid_upto(values, b, i as nat),
                complete == forall|m: int|
                    0 <= m < i ==> #[trigger] is_filled(section_values(values, b, section_at(m, b))),
            decreases results@.len() - i,
        {
            let (t, result) = results[i];
            let CheckerResult { complete: c, valid } = result;
            if !c {
                complete = false;
            }
            if !valid {
                invalid.push(t);
            }
            proof {
                assert(results@[i as int].1 == check(section_values(values, b, section_at(i as int, b))));
            }
            i = i + 1;
        }
        proof {
            lemma_filled_by_sections(values, b);
        }
        self.invalid_subsections = invalid;
        self.is_complete = complete;
    }

    /// A game on the board `cells` describes, with no history.
    pub fn new(cells: Vec<usize>) -> (r: Result<Self, GridError>)
        ensures
            r is Ok <==> accepts(cells@),
            r matches Err(e) ==> rejects(cells@, e),
            r matches Ok(g) ==> {
                &&& g.wf()
                &&& g.board().values() == cells@
                &&& g.board().side() * g.board().side() == cells@.len()
                &&& forall|i: int|
                    0 <= i < cells@.len() ==> #[trigger] g.board().readonly()[i] == (cells@[i] != 0)
                &&& g.history().len() == 0
            },
    {
        match Grid::new(cells) {
            Ok(grid) => Ok(Self::from_grid(grid)),
            Err(e) => Err(e),
        }
    }

    /// A game on `grid`, with no history and fresh validity caches.
    pub fn from_grid(grid: Grid) -> (r: Self)
        requires
            grid.wf(),
        ensures
            r.wf(),
            r.board() == grid,
            r.history().len() == 0,
    {
        let mut game = Game {
            grid,
            selected: (0, 0),
            checker: Checker::new(),
            entries: Vec::new(),
            invalid_subsections: Vec::new(),
            is_complete: false,
        };
        game.apply_checker();
        game
    }

    /// Writes `value` at `position`, records the write, and recomputes the
    /// validity caches.
    pub fn add_entry(&mut self, position: GridPosition, value: usize) -> (r: Result<Entry, GridError>)
        requires
            old(self).wf(),
        ensures
            final(self).wf(),
            r matches Ok(e) ==> old(self).placed(*final(self), position, value, e),
            r is Err ==> old(self).unchanged(*final(self)),
            !in_bounds(position, old(self).board().side()) ==> r == Err::<Entry, GridError>(
                GridError::CellOutOfBounds,
            ),
            in_bounds(position, old(self).board().side()) && old(self).board().readonly()[cell_index(
                position,
                old(self).board().side(),
            )] ==> r == Err::<Entry, GridError>(GridError::ReadonlyCellMutation),
            in_bounds(position, old(self).board().side()) && !old(self).board().readonly()[cell_index(
                position,
                old(self).board().side(),
            )] && value > old(self).board().side() ==> (r matches Err(GridError::InvalidCellValue(i))
                && i == cell_index(position, old(self).board().side())),
            in_bounds(position, old(self).board().side()) && !old(self).board().readonly()[cell_index(
                position,
                old(self).board().side(),
            )] && value <= old(self).board().side() ==> r is Ok,
    {
        let previous_value = match self.grid.set_cell(position, value) {
            Ok(v) => v,
            Err(e) => {
                return Err(e);
            },
        };
        let entry = Entry { position, value, previous_value };
        proof {
            let side = old(self).board().side();
            let i = cell_index(position, side);
            assert(in_bounds(position, side));
            lemma_index_in_board(position, side);
            assert(!old(self).board().readonly()[i]);
            assert(previous_value == old(self).board().values()[i]);
            assert(entry_fits(entry, self.grid));
        }
        self.entries.push(entry);
        self.apply_checker();
        proof {
            assert forall|i: int| 0 <= i < self.history().len() implies entry_fits(
                #[trigger] self.history()[i],
                self.board(),
            ) by {
                if i < old(self).history().len() {
                    assert(self.history()[i] == old(self).history()[i]);
                    assert(entry_fits(old(self).history()[i], old(self).board()));
                }
            }
        }
        Ok(entry)
    }

    /// Takes back the latest recorded write, if any, and recomputes the
    /// validity caches.
    pub fn undo_entry(&mut self) -> (r: Option<Entry>)
        requires
            old(self).wf(),
        ensures
            final(self).wf(),
            old(self).undone(*final(self), r),
    {
        let entry = match self.entries.pop() {
            Some(e) => e,
            None => {
                return None;
            },
        };
        proof {
            assert(entry == old(self).history().last());
            assert(entry_fits(old(self).history()[old(self).history().len() - 1], self.grid));
        }
        let _ = self.grid.set_cell(entry.position, entry.previous_value);
        self.apply_checker();
        self.selected = entry.position;
        proof {
            assert forall|i: int| 0 <= i < self.history().len() implies entry_fits(
                #[trigger] self.history()[i],
                self.board(),
            ) by {
                assert(self.history()[i] == old(self).history()[i]);
            }
        }
        Some(entry)
    }

    /// Empties the cell at `position`; a write is recorded only when the cell
    /// held a value.
    pub fn unset_cell(&mut self, position: GridPosition) -> (r: Result<(), GridError>)
        requires
            old(self).wf(),
        ensures
            final(self).wf(),
            r is Ok <==> in_bounds(position, old(self).board().side()) && !old(
                self,
            ).board().readonly()[cell_index(position, old(self).board().side())],
            !in_bounds(position, old(self).board().side()) ==> r == Err::<(), GridError>(
                GridError::CellOutOfBounds,
            ),
            r is Err ==> old(self).unchanged(*final(self)) && (r == Err::<(), GridError>(
                GridError::CellOutOfBounds,
            ) || r == Err::<(), GridError>(GridError::ReadonlyCellMutation)),
            r is Ok ==> {
                let i = cell_index(position, old(self).board().side());
                let prev = old(self).board().values()[i];
                &&& final(self).board().values() == old(self).board().values().update(i, 0)
                &&& final(self).board().readonly() == old(self).board().readonly()
                &&& final(self).board().side() == old(self).board().side()
                &&& final(self).board().box_size() == old(self).board().box_size()
                &&& final(self).history() == if prev == 0 {
                    old(self).history()
                } else {
                    old(self).history().push(
                        Entry { position, value: 0, previous_value: prev },
                    )
                }
            },
    {
        let previous_value = match self.grid.set_cell(position, 0) {
            Ok(v) => v,
            Err(e) => {
                return Err(e);
            },
        };
        proof {
            let side = old(self).board().side();
            let i = cell_index(position, side);
            assert(in_bounds(position, side));
            lemma_index_in_board(position, side);
            assert(!old(self).board().readonly()[i]);
            assert(previous_value == old(self).board().values()[i]);
            assert(entry_fits(Entry { position, value: 0, previous_value }, self.grid));
        }
        if previous_value == 0 {
            proof {
                assert(self.grid.values() =~= old(self).grid.values());
            }
            return Ok(());
        }
        self.entries.push(Entry { position, value: 0, previous_value });
        self.apply_checker();
        proof {
            assert forall|i: int| 0 <= i < self.history().len() implies entry_fits(
                #[trigger] self.history()[i],
                self.board(),
            ) by {
                if i < old(self).history().len() {
                    assert(self.history()[i] == old(self).history()[i]);
                    assert(entry_fits(old(self).history()[i], old(self).board()));
                }
            }
        }
        Ok(())
    }

    /// Every row of the board, top to bottom.
    pub fn get_rows(&self) -> (r: Vec<GridSubsectionValues>)
        requires
            self.wf(),
        ensures
            r@.len() == self.board().side(),
            forall|i: int|
                0 <= i < r@.len() ==> (#[trigger] r@[i]).grid_subsection.subsection_type
                    == GridSubsectionType::Row(i as usize) && r@[i]@ == self.board().section(
                    GridSubsectionType::Row(i as usize),
                ),
    {
        self.grid.get_row_values()
    }

    /// Every column of the board, left to right.
    pub fn get_columns(&self) -> (r: Vec<GridSubsectionValues>)
        requires
            self.wf(),
        ensures
            r@.len() == self.board().side(),
            forall|i: int|
                0 <= i < r@.len() ==> (#[trigger] r@[i]).grid_subsection.subsection_type
                    == GridSubsectionType::Column(i as usize) && r@[i]@ == self.board().section(
                    GridSubsectionType::Column(i as usize),
                ),
    {
        self.grid.get_column_values()
    }

    /// Every box of the board, in raster order over the boxes.
    pub fn get_square(&self) -> (r: Vec<GridSubsectionValues>)
        requires
            self.wf(),
        ensures
            r@.len() == self.board().side(),
            forall|i: int|
                0 <= i < r@.len() ==> (#[trigger] r@[i]).grid_subsection.subsection_type
                    == crate::grid::square_at(i, self.board().box_size()) && r@[i]@
                    == self.board().section(crate::grid::square_at(i, self.board().box_size())),
    {
        self.grid.get_square_values()
    }

    pub fn size(&self) -> (r: usize)
        ensures
            r == self.board().side(),
    {
        self.grid.size()
    }

    /// The board is filled and no subsection repeats a value.
    pub fn is_correct(&self) -> (r: bool)
        ensures
            r == self.correct(),
    {
        self.is_complete && self.invalid_subsections.len() == 0
    }

    /// Clears every cell that is not a clue, forgets the history, and
    /// recomputes the validity caches.
    pub fn reset(&mut self)
        requires
            old(self).wf(),
        ensures
            final(self).wf(),
            final(self).board().values() == cleared(
                old(self).board().values(),
                old(self).board().readonly(),
            ),
            final(self).board().readonly() == old(self).board().readonly(),
            final(self).board().side() == old(self).board().side(),
            final(self).board().box_size() == old(self).board().box_size(),
            final(self).history().len() == 0,
    {
        self.grid.reset();
        self.is_complete = false;
        self.entries.clear();
        self.apply_checker();
    }

    /// The subsections that currently repeat a value.
    pub fn invalid_subsections(&self) -> (r: &Vec<GridSubsectionType>)
        ensures
            r@ == self.invalid(),
    {
        &self.invalid_subsections
    }

    /// Whether every cell currently holds a value.
    pub fn is_complete(&self) -> (r: bool)
        ensures
            r == self.complete(),
    {
        self.is_complete
    }

    /// The board as text (see `Grid::to_string`).
    pub fn to_string(&self) -> (r: String)
        requires
            self.wf(),
        ensures
            r@ == grid_text(self.board().values(), self.board().side(), self.board().side()),
    {
        self.grid.to_string()
    }

    /// The board.
    pub fn grid(&self) -> (r: &Grid)
        ensures
            *r == self.board(),
    {
        &self.grid
    }
}

impl Game {
    /// `next` follows from this game by one call of `add_entry` or `undo_entry`,
    /// whether it succeeded or not.
    pub open spec fn edited_to(&self, next: Game) -> bool {
        ||| exists|p: GridPosition, v: usize, e: Entry| #[trigger] self.placed(next, p, v, e)
        ||| exists|r: Option<Entry>| #[trigger] self.undone(next, r)
        ||| self.unchanged(next)
    }
}

/// Undoing right after a successful `add_entry(p, v)` hands back the entry just
/// made and restores the board, the history and both validity caches exactly.
pub proof fn lemma_undo_after_add(
    before: Game,
    placed: Game,
    after: Game,
    p: GridPosition,
    v: usize,
    e: Entry,
    r: Option<Entry>,
)
    requires
        before.wf(),
        before.placed(placed, p, v, e),
        placed.undone(after, r),
    ensures
        r == Some(e),
        after.board().values() == before.board().values(),
        after.board().readonly() == before.board().readonly(),
        after.history() == before.history(),
        after.invalid() == before.invalid(),
        after.complete() == before.complete(),
        after.correct() == before.correct(),
{
    assert(placed.history().last() == e);
    assert(after.history() =~= before.history());
    lemma_index_in_board(p, before.board().side());
    assert(after.board().values() =~= before.board().values());
}

/// No sequence of `add_entry` and `undo_entry` calls changes a clue or the set
/// of clues.
pub proof fn lemma_clues_fixed(games: Seq<Game>)
    requires
        games.len() > 0,
        games[0].wf(),
        forall|k: int| 0 <= k < games.len() - 1 ==> #[trigger] games[k].edited_to(games[k + 1]),
    ensures
        forall|k: int|
            0 <= k < games.len() ==> (#[trigger] games[k]).board().values().len()
                == games[0].board().values().len() && games[k].board().readonly().len()
                == games[0].board().readonly().len() && games[k].board().side()
                == games[0].board().side(),
        forall|k: int, i: int|
            0 <= k < games.len() && 0 <= i < games[0].board().values().len()
                && games[0].board().readonly()[i] ==> #[trigger] games[k].board().values()[i]
                == games[0].board().values()[i] && games[k].board().readonly()[i],
    decreases games.len(),
{
    if games.len() > 1 {
        let prefix = games.drop_last();
        assert forall|k: int| 0 <= k < prefix.len() - 1 implies #[trigger] prefix[k].edited_to(
            prefix[k + 1],
        ) by {
            assert(prefix[k] == games[k] && prefix[k + 1] == games[k + 1]);
        }
        lemma_clues_fixed(prefix);
        let last = games.len() - 1;
        let g = games[last - 1];
        let h = games[last];
        assert(g == prefix[last - 1]);
        assert(prefix[0] == games[0]);
        let k0 = last - 1;
        assert(games[k0].edited_to(games[k0 + 1]));
        assert(g.edited_to(h));
        assert(g.board().values().len() == games[0].board().values().len());
        assert(g.board().readonly().len() == games[0].board().readonly().len());
        assert(g.board().side() == games[0].board().side());
        assert(games[0].board().readonly().len() == games[0].board().values().len());
        assert forall|i: int|
            0 <= i < games[0].board().values().len() && games[0].board().readonly()[i] implies #[trigger] h.board().values()[i]
            == games[0].board().values()[i] && h.board().readonly()[i] by {
            assert(prefix[0].board().readonly()[i]);
            assert(0 <= last - 1 < prefix.len());
            assert(0 <= i < prefix[0].board().values().len());
            assert(prefix[last - 1].board().values()[i] == prefix[0].board().values()[i]);
            assert(prefix[last - 1].board().readonly()[i]);
            assert(0 <= i < g.board().values().len());
            assert(g.board().readonly()[i]);
            if exists|p: GridPosition, v: usize, e: Entry| #[trigger] g.placed(h, p, v, e) {
                let (p, v, e) = choose|p: GridPosition, v: usize, e: Entry| #[trigger] g.placed(h, p, v, e);
                let j = cell_index(p, g.board().side());
                lemma_index_in_board(p, g.board().side());
                assert(i != j);
                assert(g.board().values().update(j, v)[i] == g.board().values()[i]);
                assert(h.board().values()[i] == g.board().values()[i]);
            } else if exists|r: Option<Entry>| #[trigger] g.undone(h, r) {
                let r = choose|r: Option<Entry>| #[trigger] g.undone(h, r);
                if g.history().len() > 0 {
                    let j = cell_index(g.history().last().position, g.board().side());
                    lemma_index_in_board(g.history().last().position, g.board().side());
                    assert(i != j);
                    let pv = g.history().last().previous_value;
                    assert(g.board().values().update(j, pv)[i] == g.board().values()[i]);
                    assert(h.board().values()[i] == g.board().values()[i]);
                }
            }
        }
        assert forall|k: int, i: int|
            0 <= k < games.len() && 0 <= i < games[0].board().values().len()
                && games[0].board().readonly()[i] implies #[trigger] games[k].board().values()[i]
                == games[0].board().values()[i] && games[k].board().readonly()[i] by {
            if k < last {
                assert(prefix[k] == games[k]);
                assert(prefix[k].board().values()[i] == prefix[0].board().values()[i]);
            } else {
                assert(games[k] == h);
                assert(h.board().values()[i] == games[0].board().values()[i]);
            }
        }
        assert forall|k: int| 0 <= k < games.len() implies (#[trigger] games[k]).board().values().len()
            == games[0].board().values().len() && games[k].board().readonly().len()
            == games[0].board().readonly().len() && games[k].board().side()
            == games[0].board().side() by {
            if k < last {
                assert(prefix[k] == games[k]);
            } else {
                if exists|p: GridPosition, v: usize, e: Entry| #[trigger] g.placed(h, p, v, e) {
                    let (p, v, e) = choose|p: GridPosition, v: usize, e: Entry| #[trigger] g.placed(h, p, v, e);
                } else if exists|r: Option<Entry>| #[trigger] g.undone(h, r) {
                    let r = choose|r: Option<Entry>| #[trigger] g.undone(h, r);
                }
            }
        }
    }
}

} // verus!
