//! The grid: its cells, its positions and the neighbours of a position.

use crate::generator::chacha_draw;
use crate::generator::Generator;
use crate::lexicon::letter_index;
use crate::lexicon::LetterConfig;
use crate::lexicon::LetterIndex;
use crate::lexicon::LettersTable;
use crate::lexicon::LETTER_INDEX_NONE;
use vstd::prelude::*;

verus! {

/// The place of a row or a column in the grid.
pub type GridIndex = u8;

/// The width or the height of the grid.
pub type GridSize = u8;

/// A position in the grid.
#[derive(Clone, Copy, Debug, PartialEq, Eq, Hash, Structural)]
pub struct Position {
    /// The column.
    pub x: GridIndex,
    /// The row.
    pub y: GridIndex,
}

impl Position {
    /// The position in column `x` and row `y`.
    pub fn new(x: GridIndex, y: GridIndex) -> (position: Position)
        ensures
            position == (Position { x, y }),
    {
        Position { x, y }
    }
}

/// The four directions in which words are read and letters move.
#[derive(Clone, Copy, Debug, PartialEq, Eq, Structural)]
pub enum Direction {
    /// Up: towards row zero.
    N,
    /// Right: towards the last column.
    E,
    /// Down: towards the last row.
    S,
    /// Left: towards column zero.
    O,
}

/// The direction at place `k` of the order in which directions are tried.
pub open spec fn direction_at(k: int) -> Direction {
    if k == 0 {
        Direction::N
    } else if k == 1 {
        Direction::E
    } else if k == 2 {
        Direction::S
    } else {
        Direction::O
    }
}

impl Direction {
    /// The four directions, in the order in which they are tried.
    pub fn all() -> (directions: Vec<Direction>)
        ensures
            directions@.len() == 4,
            forall|k: int| 0 <= k < 4 ==> directions@[k] == direction_at(k),
    {
        let mut directions: Vec<Direction> = Vec::new();
        directions.push(Direction::N);
        directions.push(Direction::E);
        directions.push(Direction::S);
        directions.push(Direction::O);
        directions
    }
}

/// Coordinates that may lie off the grid.
#[derive(Clone, Copy, Debug, PartialEq, Eq, Structural)]
pub struct MaybePosition {
    /// The column, or something left or right of all columns.
    pub x: i16,
    /// The row, or something above or below all rows.
    pub y: i16,
}

/// The coordinates one step from `from` in direction `dir`.
pub open spec fn step(from: Position, dir: Direction) -> MaybePosition {
    match dir {
        Direction::N => MaybePosition { x: from.x as i16, y: (from.y - 1) as i16 },
        Direction::E => MaybePosition { x: (from.x + 1) as i16, y: from.y as i16 },
        Direction::S => MaybePosition { x: from.x as i16, y: (from.y + 1) as i16 },
        Direction::O => MaybePosition { x: (from.x - 1) as i16, y: from.y as i16 },
    }
}

impl MaybePosition {
    /// The coordinates one step from `from` in direction `dir`.
    pub fn new(from: &Position, dir: &Direction) -> (neighbour: MaybePosition)
        ensures
            neighbour == step(*from, *dir),
    {
        let x: i16 = from.x as i16;
        let y: i16 = from.y as i16;
        match dir {
            Direction::N => MaybePosition { x, y: y - 1 },
            Direction::E => MaybePosition { x: x + 1, y },
            Direction::S => MaybePosition { x, y: y + 1 },
            Direction::O => MaybePosition { x: x - 1, y },
        }
    }
}

/// What a cell holds.
#[derive(Clone, Copy, Debug, PartialEq, Eq, Structural)]
pub enum Cell {
    /// A letter.
    Letter(LetterIndex),
    /// Nothing.
    Empty,
}

/// Whether a letter was moved.
#[derive(Clone, Copy, Debug, PartialEq, Eq, Structural)]
pub enum MoveResult {
    /// The two cells have changed places.
    Moved,
    /// No way leads from one cell to the other.
    NoPath,
}

/// What can go wrong with a grid.
#[derive(Clone, Copy, Debug, PartialEq, Eq)]
pub enum GridError {
    /// No way leads from one position to the other.
    NoPath { from: Position, to: Position },
    /// The position is off the grid.
    NotInGrid { pos: Position },
    /// A grid cannot be this wide or this high.
    InvalidGridSize { size: usize },
    /// The character is no letter of the table.
    InvalidGridInitializationDueToUnknownLetter { letter: char },
    /// The grid has no empty cell left.
    MissingAMandatoryEmptyCell,
}

/// The place of `pos` among the cells of a grid `width` wide, row by row.
pub open spec fn cell_index(width: int, pos: Position) -> int {
    pos.y * width + pos.x
}

/// A position on the grid has a place among its cells.
pub proof fn lemma_cell_index_bound(width: int, height: int, pos: Position)
    requires
        pos.x < width,
        pos.y < height,
    ensures
        0 <= cell_index(width, pos) < width * height,
{
    assert(pos.y * width + pos.x < width * height) by (nonlinear_arith)
        requires
            0 <= pos.x < width,
            0 <= pos.y < height,
    ;
    assert(0 <= pos.y * width) by (nonlinear_arith)
        requires
            0 <= pos.y,
            0 <= width,
    ;
}

/// Two positions on the grid with the same place are the same position.
pub proof fn lemma_cell_index_injective(width: int, a: Position, b: Position)
    requires
        a.x < width,
        b.x < width,
        cell_index(width, a) == cell_index(width, b),
    ensures
        a == b,
{
    assert(a.y == b.y && a.x == b.x) by (nonlinear_arith)
        requires
            0 <= a.x < width,
            0 <= b.x < width,
            0 <= a.y,
            0 <= b.y,
            a.y * width + a.x == b.y * width + b.x,
    ;
}

/// The product of two sizes is small.
pub proof fn lemma_size_product(a: int, b: int)
    requires
        0 <= a <= 255,
        0 <= b <= 255,
    ensures
        0 <= a * b <= 65025,
{
    assert(0 <= a * b <= 65025) by (nonlinear_arith)
        requires
            0 <= a <= 255,
            0 <= b <= 255,
    ;
}

/// A rectangle of cells.
#[derive(Debug)]
pub struct Grid {
    width: GridSize,
    height: GridSize,
    cells: Vec<Cell>,
}

/// A grid as plain values: its size and what each of its positions holds.
pub struct GridView {
    /// The number of columns.
    pub width: GridSize,
    /// The number of rows.
    pub height: GridSize,
    /// What each position of the grid holds.
    pub cells: Map<Position, Cell>,
}

impl View for Grid {
    type V = GridView;

    open spec fn view(&self) -> GridView {
        GridView {
            width: self.spec_width(),
            height: self.spec_height(),
            cells: Map::new(
                |pos: Position| pos.x < self.spec_width() && pos.y < self.spec_height(),
                |pos: Position| self.spec_cell(pos),
            ),
        }
    }
}

impl GridView {
    /// Whether `pos` is on the grid.
    pub open spec fn in_grid(&self, pos: Position) -> bool {
        pos.x < self.width && pos.y < self.height
    }

    /// Whether the coordinates `pos` are on the grid.
    pub open spec fn holds(&self, pos: MaybePosition) -> bool {
        0 <= pos.x < self.width && 0 <= pos.y < self.height
    }

    /// Whether the two grids have the same size.
    pub open spec fn same_size(&self, other: GridView) -> bool {
        self.width == other.width && self.height == other.height
    }

    /// The positions that hold something are those of the grid.
    pub open spec fn wf(&self) -> bool {
        forall|pos: Position| self.cells.dom().contains(pos) <==> self.in_grid(pos)
    }

    /// The grid with `value` at `pos`.
    pub open spec fn put(&self, pos: Position, value: Cell) -> GridView {
        GridView { width: self.width, height: self.height, cells: self.cells.insert(pos, value) }
    }

    /// The grid of `width` by `height` with nothing in it.
    pub open spec fn blank(width: GridSize, height: GridSize) -> GridView {
        GridView {
            width,
            height,
            cells: Map::new(
                |pos: Position| pos.x < width && pos.y < height,
                |pos: Position| Cell::Empty,
            ),
        }
    }
}

impl Grid {
    /// The number of columns.
    pub closed spec fn spec_width(&self) -> GridSize {
        self.width
    }

    /// The number of rows.
    pub closed spec fn spec_height(&self) -> GridSize {
        self.height
    }

    /// What the cell at `pos` holds.
    pub closed spec fn spec_cell(&self, pos: Position) -> Cell {
        self.cells@[cell_index(self.width as int, pos)]
    }

    /// The grid has a cell for each of its positions.
    pub closed spec fn wf(&self) -> bool {
        self.cells@.len() == self.width * self.height
    }

    /// The number of columns.
    pub fn width(&self) -> (width: GridSize)
        ensures
            width == self.spec_width(),
    {
        self.width
    }

    /// The number of rows.
    pub fn height(&self) -> (height: GridSize)
        ensures
            height == self.spec_height(),
    {
        self.height
    }

    /// A grid of `width` columns and `height` rows with nothing in it.
    pub fn empty(width: GridSize, height: GridSize) -> (grid: Grid)
        ensures
            grid.wf(),
            grid@ == GridView::blank(width, height),
    {
        proof {
            lemma_size_product(width as int, height as int);
        }
        let total: usize = width as usize * height as usize;
        let mut cells: Vec<Cell> = Vec::new();
        let mut i: usize = 0;
        while i < total
            invariant
                i <= total,
                cells@.len() == i,
                forall|k: int| 0 <= k < i ==> cells@[k] == Cell::Empty,
            decreases total - i,
        {
            cells.push(Cell::Empty);
            i = i + 1;
        }
        let grid = Grid { width, height, cells };
        proof {
            let blank = GridView::blank(width, height);
            assert forall|pos: Position| #[trigger]
                grid@.cells.dom().contains(pos) implies grid@.cells[pos] == blank.cells[pos] by {
                lemma_cell_index_bound(width as int, height as int, pos);
            }
            assert(grid@.cells.dom() =~= blank.cells.dom());
            assert(grid@.cells =~= blank.cells);
        }
        grid
    }

    /// The place of `pos` among the cells.
    fn index_of(&self, pos: Position) -> (index: usize)
        requires
            self.wf(),
            self@.in_grid(pos),
        ensures
            index == cell_index(self.width as int, pos),
            index < self.cells@.len(),
    {
        proof {
            lemma_size_product(pos.y as int, self.width as int);
            lemma_cell_index_bound(self.width as int, self.height as int, pos);
        }
        pos.y as usize * self.width as usize + pos.x as usize
    }

    /// Puts `value` in the cell at `pos`.
    pub fn update_cell(&mut self, pos: Position, value: Cell)
        requires
            old(self).wf(),
            old(self)@.in_grid(pos),
        ensures
            final(self).wf(),
            final(self)@ == old(self)@.put(pos, value),
    {
        let index = self.index_of(pos);
        self.cells.set(index, value);
        proof {
            let after = final(self)@.cells;
            let put = old(self)@.put(pos, value).cells;
            assert forall|other: Position| #[trigger] after.dom().contains(other) implies after[other]
                == put[other] by {
                lemma_cell_index_bound(self.width as int, self.height as int, other);
                if other != pos {
                    if cell_index(self.width as int, other) == cell_index(self.width as int, pos) {
                        lemma_cell_index_injective(self.width as int, other, pos);
                    }
                }
            }
            assert(after.dom() =~= put.dom());
            assert(after =~= put);
        }
    }

    /// What the cell at `pos` holds.
    pub fn cell(&self, pos: &Position) -> (cell: Cell)
        requires
            self.wf(),
            self@.in_grid(*pos),
        ensures
            cell == self@.cells[*pos],
    {
        let index = self.index_of(*pos);
        self.cells[index]
    }

    /// The position at the coordinates `pos`, if they are on the grid.
    pub fn is_in_grid(&self, pos: MaybePosition) -> (position: Option<Position>)
        ensures
            self@.holds(pos) ==> position == Some(Position { x: pos.x as u8, y: pos.y as u8 }),
            !self@.holds(pos) ==> position is None,
            position is Some ==> self@.in_grid(position->Some_0),
    {
        if pos.x < 0 || pos.y < 0 || pos.x >= self.width as i16 || pos.y >= self.height as i16 {
            return None;
        }
        Some(Position::new(pos.x as u8, pos.y as u8))
    }
}

/// The grid of `width` by `height` once the letters of
/// `entries` are put on it one after the other, or why that cannot be done:
/// the first entry whose character is no letter of `letters`, or whose
/// position is off the grid.
pub open spec fn entries_cells(
    width: GridSize,
    height: GridSize,
    letters: Seq<LetterConfig>,
    entries: Seq<(Position, char)>,
) -> Result<GridView, GridError>
    decreases entries.len(),
{
    if entries.len() == 0 {
        Ok(GridView::blank(width, height))
    } else {
        match entries_cells(width, height, letters, entries.drop_last()) {
            Err(e) => Err(e),
            Ok(cells) => match letter_index(letters, entries.last().1) {
                None => Err(
                    GridError::InvalidGridInitializationDueToUnknownLetter {
                        letter: entries.last().1,
                    },
                ),
                Some(i) => if entries.last().0.x < width && entries.last().0.y < height {
                    Ok(cells.put(entries.last().0, Cell::Letter(i as u8)))
                } else {
                    Err(GridError::NotInGrid { pos: entries.last().0 })
                },
            },
        }
    }
}

/// A failure on a part of the entries is the failure on all of them.
pub proof fn lemma_entries_cells_extends(
    width: GridSize,
    height: GridSize,
    letters: Seq<LetterConfig>,
    entries: Seq<(Position, char)>,
    n: int,
)
    requires
        0 <= n <= entries.len(),
        entries_cells(width, height, letters, entries.take(n)) is Err,
    ensures
        entries_cells(width, height, letters, entries) == entries_cells(
            width,
            height,
            letters,
            entries.take(n),
        ),
    decreases entries.len() - n,
{
    if n < entries.len() {
        assert(entries.take(n + 1).drop_last() =~= entries.take(n));
        lemma_entries_cells_extends(width, height, letters, entries, n + 1);
    } else {
        assert(entries.take(n) =~= entries);
    }
}

impl GridView {
    /// The empty positions of column `x` above row `rows`, from the top down.
    pub open spec fn column_empties(&self, x: int, rows: int) -> Seq<Position>
        decreases rows,
    {
        if rows <= 0 {
            Seq::empty()
        } else {
            let above = self.column_empties(x, rows - 1);
            let pos = Position { x: x as u8, y: (rows - 1) as u8 };
            if self.cells[pos] == Cell::Empty {
                above.push(pos)
            } else {
                above
            }
        }
    }

    /// The empty positions left of column `columns`, column by column.
    pub open spec fn empties_before(&self, columns: int) -> Seq<Position>
        decreases columns,
    {
        if columns <= 0 {
            Seq::empty()
        } else {
            self.empties_before(columns - 1) + self.column_empties(
                columns - 1,
                self.height as int,
            )
        }
    }

    /// The empty positions of the grid, ordered by column and, within a
    /// column, by row.
    pub open spec fn empty_positions(&self) -> Seq<Position> {
        self.empties_before(self.width as int)
    }

    /// The empty positions of a column are those of its cells that are empty.
    pub proof fn lemma_column_empties(&self, x: int, rows: int, pos: Position)
        requires
            0 <= x < self.width,
            0 <= rows <= self.height,
        ensures
            self.column_empties(x, rows).contains(pos) <==> pos.x == x && pos.y < rows && self.cells[pos]
                == Cell::Empty,
        decreases rows,
    {
        if rows > 0 {
            self.lemma_column_empties(x, rows - 1, pos);
            let above = self.column_empties(x, rows - 1);
            let last = Position { x: x as u8, y: (rows - 1) as u8 };
            if self.cells[last] == Cell::Empty {
                assert(above.push(last)[above.len() as int] == last);
                if above.contains(pos) {
                    let i = choose|i: int| 0 <= i < above.len() && above[i] == pos;
                    assert(above.push(last)[i] == pos);
                }
            }
        }
    }

    /// The empty positions left of a column are the empty cells there.
    pub proof fn lemma_empties_before(&self, columns: int, pos: Position)
        requires
            0 <= columns <= self.width,
        ensures
            self.empties_before(columns).contains(pos) <==> pos.x < columns && self.in_grid(pos)
                && self.cells[pos] == Cell::Empty,
        decreases columns,
    {
        if columns > 0 {
            self.lemma_empties_before(columns - 1, pos);
            self.lemma_column_empties(columns - 1, self.height as int, pos);
            let a = self.empties_before(columns - 1);
            let b = self.column_empties(columns - 1, self.height as int);
            if a.contains(pos) {
                let i = choose|i: int| 0 <= i < a.len() && a[i] == pos;
                assert((a + b)[i] == pos);
            }
            if b.contains(pos) {
                let i = choose|i: int| 0 <= i < b.len() && b[i] == pos;
                assert((a + b)[a.len() + i] == pos);
            }
            if (a + b).contains(pos) {
                let i = choose|i: int| 0 <= i < (a + b).len() && (a + b)[i] == pos;
                if i < a.len() {
                    assert(a[i] == pos);
                } else {
                    assert(b[i - a.len()] == pos);
                }
            }
        }
    }

    /// A position is among the empty positions exactly if it is on the grid
    /// and its cell is empty.
    pub proof fn lemma_empty_positions(&self, pos: Position)
        ensures
            self.empty_positions().contains(pos) <==> self.in_grid(pos) && self.cells[pos]
                == Cell::Empty,
    {
        self.lemma_empties_before(self.width as int, pos);
    }
}

impl Grid {
    /// The grid of `width` by `height` that holds the letters of `vec`, each
    /// at its position. A later entry takes the place of an earlier one at
    /// the same position.
    pub fn from_vec(
        width: usize,
        height: usize,
        vec: Vec<(Position, char)>,
        letters_table: &LettersTable,
    ) -> (result: Result<Grid, GridError>)
        requires
            letters_table@.len() <= LETTER_INDEX_NONE,
        ensures
            width > 255 ==> result == Err::<Grid, GridError>(
                GridError::InvalidGridSize { size: width },
            ),
            width <= 255 && height > 255 ==> result == Err::<Grid, GridError>(
                GridError::InvalidGridSize { size: height },
            ),
            width <= 255 && height <= 255 ==> match entries_cells(
                width as u8,
                height as u8,
                letters_table@,
                vec@,
            ) {
                Ok(cells) => result is Ok && result->Ok_0.wf() && result->Ok_0@ == cells,
                Err(e) => result == Err::<Grid, GridError>(e),
            },
    {
        if width > 255 {
            return Err(GridError::InvalidGridSize { size: width });
        }
        if height > 255 {
            return Err(GridError::InvalidGridSize { size: height });
        }
        let w: u8 = width as u8;
        let h: u8 = height as u8;
        let mut grid = Grid::empty(w, h);
        assert(grid@ == entries_cells(w, h, letters_table@, vec@.take(0))->Ok_0);
        let mut i: usize = 0;
        while i < vec.len()
            invariant
                i <= vec@.len(),
                width == w,
                height == h,
                letters_table@.len() <= LETTER_INDEX_NONE,
                grid.wf(),
                grid.spec_width() == w,
                grid.spec_height() == h,
                entries_cells(w, h, letters_table@, vec@.take(i as int)) == Ok::<
                    GridView,
                    GridError,
                >(grid@),
            decreases vec@.len() - i,
        {
            let entry = vec[i];
            proof {
                assert(vec@.take(i + 1).drop_last() =~= vec@.take(i as int));
            }
            match letters_table.try_get_letter_index(entry.1) {
                Err(_) => {
                    proof {
                        lemma_entries_cells_extends(w, h, letters_table@, vec@, i + 1);
                    }
                    return Err(
                        GridError::InvalidGridInitializationDueToUnknownLetter { letter: entry.1 },
                    );
                },
                Ok(index) => {
                    if entry.0.x < w && entry.0.y < h {
                        grid.update_cell(entry.0, Cell::Letter(index));
                    } else {
                        proof {
                            lemma_entries_cells_extends(w, h, letters_table@, vec@, i + 1);
                        }
                        return Err(GridError::NotInGrid { pos: entry.0 });
                    }
                },
            }
            i = i + 1;
        }
        assert(vec@.take(i as int) =~= vec@);
        Ok(grid)
    }

    /// The empty positions of the grid, ordered by column and, within a
    /// column, by row.
    pub fn empty_cells(&self) -> (positions: Vec<Position>)
        requires
            self.wf(),
        ensures
            positions@ == self@.empty_positions(),
    {
        let mut positions: Vec<Position> = Vec::new();
        let mut x: u8 = 0;
        while x < self.width
            invariant
                self.wf(),
                x <= self.width,
                positions@ == self@.empties_before(x as int),
            decreases self.width - x,
        {
            let ghost before = positions@;
            let mut y: u8 = 0;
            while y < self.height
                invariant
                    self.wf(),
                    x < self.width,
                    y <= self.height,
                    positions@ == before + self@.column_empties(x as int, y as int),
                decreases self.height - y,
            {
                let pos = Position::new(x, y);
                if self.cell(&pos) == Cell::Empty {
                    positions.push(pos);
                }
                assert(positions@ =~= before + self@.column_empties(x as int, y + 1));
                y = y + 1;
            }
            x = x + 1;
        }
        positions
    }

    /// Draws an empty position: the one at the drawn place among the empty
    /// positions in their order. Draws nothing if no cell is empty.
    pub fn random_empty_cell_position(&self, generator: &mut Generator) -> (position: Option<
        Position,
    >)
        requires
            self.wf(),
        ensures
            position is Some ==> self@.in_grid(position->Some_0) && self@.cells[position->Some_0]
                == Cell::Empty,
            self@.empty_positions().len() == 0 ==> position is None && *final(generator) == *old(
                generator,
            ),
            self@.empty_positions().len() > 0 ==> position == Some(
                self@.empty_positions()[chacha_draw(
                    old(generator).key(),
                    old(generator).word_pos(),
                    self@.empty_positions().len() as usize,
                ).0 as int],
            ) && final(generator).key() == old(generator).key() && final(generator).word_pos()
                == chacha_draw(
                old(generator).key(),
                old(generator).word_pos(),
                self@.empty_positions().len() as usize,
            ).1,
    {
        let empty_cells_positions = self.empty_cells();
        if empty_cells_positions.len() == 0 {
            return None;
        }
        let index = generator.index_below(empty_cells_positions.len());
        proof {
            assert(self@.empty_positions().contains(empty_cells_positions@[index as int]));
            self@.lemma_empty_positions(empty_cells_positions@[index as int]);
        }
        Some(empty_cells_positions[index])
    }

    /// Draws an empty position, or reports that the grid has none.
    pub fn try_random_empty_cell_position(&self, generator: &mut Generator) -> (result: Result<
        Position,
        GridError,
    >)
        requires
            self.wf(),
        ensures
            result is Ok ==> self@.in_grid(result->Ok_0) && self@.cells[result->Ok_0]
                == Cell::Empty,
            self@.empty_positions().len() == 0 ==> result == Err::<Position, GridError>(
                GridError::MissingAMandatoryEmptyCell,
            ) && *final(generator) == *old(generator),
            self@.empty_positions().len() > 0 ==> result == Ok::<Position, GridError>(
                self@.empty_positions()[chacha_draw(
                    old(generator).key(),
                    old(generator).word_pos(),
                    self@.empty_positions().len() as usize,
                ).0 as int],
            ) && final(generator).key() == old(generator).key() && final(generator).word_pos()
                == chacha_draw(
                old(generator).key(),
                old(generator).word_pos(),
                self@.empty_positions().len() as usize,
            ).1,
    {
        match self.random_empty_cell_position(generator) {
            Some(position) => Ok(position),
            None => Err(GridError::MissingAMandatoryEmptyCell),
        }
    }
}

impl GridView {
    /// Every cell of a column of a grid with nothing in it is empty.
    pub proof fn lemma_blank_column(width: GridSize, height: GridSize, x: int, rows: int)
        requires
            0 <= x < width,
            0 <= rows <= height,
        ensures
            GridView::blank(width, height).column_empties(x, rows).len() == rows,
        decreases rows,
    {
        if rows > 0 {
            GridView::lemma_blank_column(width, height, x, rows - 1);
        }
    }

    /// A grid with nothing in it has as many empty positions as cells.
    pub proof fn lemma_blank_empties(width: GridSize, height: GridSize, columns: int)
        requires
            0 <= columns <= width,
        ensures
            GridView::blank(width, height).empties_before(columns).len() == columns * height,
        decreases columns,
    {
        let blank = GridView::blank(width, height);
        if columns > 0 {
            GridView::lemma_blank_empties(width, height, columns - 1);
            GridView::lemma_blank_column(width, height, columns - 1, height as int);
            assert((columns - 1) * height + height == columns * height) by (nonlinear_arith);
            assert(blank.empties_before(columns) == blank.empties_before(columns - 1)
                + blank.column_empties(columns - 1, height as int));
        } else {
            assert(columns * height == 0) by (nonlinear_arith)
                requires
                    columns == 0,
            ;
        }
    }

    /// One if `cell` is empty, zero if it holds a letter.
    pub open spec fn emptiness(cell: Cell) -> int {
        if cell == Cell::Empty {
            1
        } else {
            0
        }
    }

    /// Something put in a cell changes the number of empty positions of its
    /// column, from that cell on, by one for each way in which the
    /// emptiness of the cell changes, and leaves the rest as it was.
    pub proof fn lemma_put_column(&self, pos: Position, value: Cell, x: int, rows: int)
        requires
            self.in_grid(pos),
            0 <= x < self.width,
            0 <= rows <= self.height,
        ensures
            x != pos.x || rows <= pos.y ==> self.put(pos, value).column_empties(x, rows)
                == self.column_empties(x, rows),
            x == pos.x && rows > pos.y ==> self.put(pos, value).column_empties(x, rows).len()
                == self.column_empties(x, rows).len() - GridView::emptiness(self.cells[pos])
                + GridView::emptiness(value),
        decreases rows,
    {
        if rows > 0 {
            self.lemma_put_column(pos, value, x, rows - 1);
        }
    }

    /// Something put in a cell changes the number of empty positions by
    /// one for each way in which the emptiness of the cell changes.
    pub proof fn lemma_put_empties(&self, pos: Position, value: Cell, columns: int)
        requires
            self.in_grid(pos),
            0 <= columns <= self.width,
        ensures
            columns <= pos.x ==> self.put(pos, value).empties_before(columns)
                == self.empties_before(columns),
            columns > pos.x ==> self.put(pos, value).empties_before(columns).len()
                == self.empties_before(columns).len() - GridView::emptiness(self.cells[pos])
                + GridView::emptiness(value),
        decreases columns,
    {
        if columns > 0 {
            self.lemma_put_empties(pos, value, columns - 1);
            self.lemma_put_column(pos, value, columns - 1, self.height as int);
        }
    }

    /// A grid with something put on one of its positions has the same
    /// positions.
    pub proof fn lemma_put_wf(&self, pos: Position, value: Cell)
        requires
            self.wf(),
            self.in_grid(pos),
        ensures
            self.put(pos, value).wf(),
    {
        let put = self.put(pos, value);
        assert forall|other: Position| put.cells.dom().contains(other) <==> put.in_grid(other) by {
            assert(self.cells.dom().contains(other) <==> self.in_grid(other));
        }
    }

    /// A column has no more empty positions than rows.
    pub proof fn lemma_column_empties_bound(&self, x: int, rows: int)
        requires
            0 <= rows,
        ensures
            self.column_empties(x, rows).len() <= rows,
        decreases rows,
    {
        if rows > 0 {
            self.lemma_column_empties_bound(x, rows - 1);
        }
    }

    /// A grid has no more empty positions than cells.
    pub proof fn lemma_empties_bound(&self, columns: int)
        requires
            0 <= columns <= self.width,
        ensures
            self.empties_before(columns).len() <= columns * self.height,
            columns * self.height <= 65025,
        decreases columns,
    {
        lemma_size_product(columns, self.height as int);
        if columns > 0 {
            self.lemma_empties_bound(columns - 1);
            self.lemma_column_empties_bound(columns - 1, self.height as int);
            assert((columns - 1) * self.height + self.height == columns * self.height)
                by (nonlinear_arith);
        }
    }
}

} // verus!
