//! The game: a grid, a clock, the letters in store and the score, moved
//! on tick by tick.

use crate::clock::Clock;
use crate::dictionary::dictionary_known;
use crate::dictionary::Dictionary;
use crate::generator::chacha_draw;
use crate::generator::chacha_shuffled;
use crate::generator::seed_key;
use crate::generator::Generator;
use crate::grid::Grid;
use crate::grid::GridSize;
use crate::grid::GridView;
use crate::grid::MoveResult;
use crate::grid::Position;
use crate::lexicon::expanded_pool;
use crate::lexicon::pool_initial;
use crate::lexicon::pool_triplets;
use crate::lexicon::word_score;
use crate::lexicon::LetterConfig;
use crate::lexicon::LetterIndex;
use crate::lexicon::LettersTable;
use crate::lexicon::Word;
use crate::lexicon::LETTER_INDEX_NONE;
use crate::routes::passes;
use crate::words::claimed_positions;
use crate::words::views;
use crate::words::Match;
use crate::words::MatchView;
use vstd::prelude::*;

verus! {

/// `String::push` of std: appends the character to the end of the string.
pub assume_specification[ String::push ](text: &mut String, ch: char)
    ensures
        final(text)@ == old(text)@.push(ch),
;

/// Whether a game goes on.
#[derive(Clone, Copy, Debug, PartialEq, Eq, Structural)]
pub enum GameState {
    /// The game goes on.
    OnGoing,
    /// The grid was full when letters had to be placed: the game is over.
    Finished,
}

/// Whether the grid had room for the letters to be placed.
#[derive(Clone, Copy, Debug, PartialEq, Eq, Structural)]
pub enum GridStatus {
    /// Every letter found an empty cell.
    NotFull,
    /// A letter found no empty cell.
    Full,
}

/// What a cell is to the letter that is being moved.
#[derive(Clone, Copy, Debug, PartialEq, Eq, Structural)]
pub enum CellPathingStatus {
    /// No letter is being moved, or no way leads to where it is moved.
    Neutral,
    /// The cell is on the way of the letter.
    Path,
    /// The letter can be moved to the cell.
    Walkable,
    /// The letter cannot be moved to the cell.
    Blocked,
}

/// A cell as it is shown.
#[derive(Clone, Copy, Debug, PartialEq, Eq, Structural)]
pub struct Cell {
    /// Where the cell is shown: the two ends of the way of a letter that is
    /// being moved are shown in each other's place.
    pub position: Position,
    /// What the cell is to the letter that is being moved.
    pub pathing_status: CellPathingStatus,
    /// The letter in the cell, or `LETTER_INDEX_NONE`.
    pub letter: u8,
}

/// A word that was found, as it is shown.
#[derive(Debug)]
pub struct FoundWord {
    word: String,
    score: u16,
}

/// A word that was found, as plain values.
pub struct FoundWordView {
    /// The word, in characters.
    pub word: Seq<char>,
    /// What the word was worth.
    pub score: u16,
}

impl View for FoundWord {
    type V = FoundWordView;

    closed spec fn view(&self) -> FoundWordView {
        FoundWordView { word: self.word@, score: self.score }
    }
}

impl Clone for FoundWord {
    fn clone(&self) -> (copy: FoundWord)
        ensures
            copy@ == self@,
    {
        FoundWord { word: self.word.clone(), score: self.score }
    }
}

impl FoundWord {
    /// The word, in characters.
    pub fn word(&self) -> (word: String)
        ensures
            word@ == self@.word,
    {
        self.word.clone()
    }

    /// What the word was worth.
    pub fn score(&self) -> (score: u16)
        ensures
            score == self@.score,
    {
        self.score
    }
}

/// Whether `cell` stands for an empty cell.
pub fn is_empty_cell(cell: u8) -> (empty: bool)
    ensures
        empty == (cell == LETTER_INDEX_NONE),
{
    cell == LETTER_INDEX_NONE
}

/// The words of `found` as plain values.
pub open spec fn found_views(found: Seq<FoundWord>) -> Seq<FoundWordView> {
    found.map_values(|word: FoundWord| word@)
}

/// The sum `total`, or the most that sixteen bits hold if it is more.
pub open spec fn capped(total: int) -> u16 {
    if total > u16::MAX {
        u16::MAX
    } else {
        total as u16
    }
}

/// What the matches of `taken` are worth together.
pub open spec fn total_score(taken: Seq<MatchView>) -> int
    decreases taken.len(),
{
    if taken.len() == 0 {
        0
    } else {
        total_score(taken.drop_last()) + taken.last().score
    }
}

/// The characters of the letters of `word`.
pub open spec fn word_text(letters: Seq<LetterConfig>, word: Seq<LetterIndex>) -> Seq<char> {
    Seq::new(word.len(), |i: int| letters[word[i] as int].letter)
}

/// The match `found` as a word that is shown.
pub open spec fn found_word_of(letters: Seq<LetterConfig>, found: MatchView) -> FoundWordView {
    FoundWordView { word: word_text(letters, found.word), score: found.score }
}

/// The matches of `taken` as words that are shown.
pub open spec fn found_words_of(letters: Seq<LetterConfig>, taken: Seq<MatchView>) -> Seq<
    FoundWordView,
> {
    taken.map_values(|found: MatchView| found_word_of(letters, found))
}

/// A game as plain values.
pub struct GameModel {
    /// Whether the game goes on.
    pub state: GameState,
    /// What the clock is set back to.
    pub clock_max_ms: u32,
    /// What is left on the clock.
    pub remaining_ms: u32,
    /// The grid.
    pub grid: GridView,
    /// The key of the generator.
    pub key: Seq<u8>,
    /// How far the generator is in the stream of its key.
    pub word_pos: u128,
    /// The letters of the game.
    pub letters: Seq<LetterConfig>,
    /// The golden word.
    pub golden_word: Seq<LetterIndex>,
    /// What the golden word is worth.
    pub golden_word_score: u16,
    /// How many triplets have been played.
    pub triplets_current_index: u8,
    /// The triplets, in the order in which they are played.
    pub triplets: Seq<(LetterIndex, LetterIndex, LetterIndex)>,
    /// The score.
    pub score: u16,
    /// The words found, in the order in which they were found.
    pub found_words: Seq<FoundWordView>,
    /// The cell of the letter that is being moved.
    pub path_from: Option<Position>,
    /// The cell to which it is being moved.
    pub path_to: Option<Position>,
}

impl GameModel {
    /// The game once `letter` is placed in an empty cell drawn by the
    /// generator, and whether there was one.
    pub open spec fn place_letter(self, letter: LetterIndex) -> (GameModel, bool) {
        let empties = self.grid.empty_positions();
        if empties.len() == 0 {
            (self, false)
        } else {
            let drawn = chacha_draw(self.key, self.word_pos, empties.len() as usize);
            (
                GameModel {
                    grid: self.grid.put(empties[drawn.0 as int], crate::grid::Cell::Letter(letter)),
                    word_pos: drawn.1,
                    ..self
                },
                true,
            )
        }
    }

    /// The game once the words on the grid are taken off: their cells are
    /// emptied, they are added to the words found and their worth to the
    /// score, and the letter that is being moved is let go if it was in one
    /// of them.
    pub open spec fn remove_words(self, dictionary: &Dictionary) -> GameModel {
        let taken = self.grid.words_taken(dictionary, self.letters, self.golden_word);
        GameModel {
            grid: self.grid.cleared(claimed_positions(taken)),
            path_from: match self.path_from {
                Some(pos) => if claimed_positions(taken).contains(pos) {
                    None
                } else {
                    Some(pos)
                },
                None => None,
            },
            found_words: self.found_words + found_words_of(self.letters, taken),
            score: capped(self.score + total_score(taken)),
            ..self
        }
    }

    /// The game once the letters of `letters` are placed one after the
    /// other, the words being taken off after each, and whether a letter
    /// found no empty cell: the letters after it are not placed.
    pub open spec fn place_letters(self, dictionary: &Dictionary, letters: Seq<LetterIndex>) -> (
        GameModel,
        bool,
    )
        decreases letters.len(),
    {
        if letters.len() == 0 {
            (self, false)
        } else {
            let placed = self.place_letter(letters[0]);
            if !placed.1 {
                (placed.0, true)
            } else {
                placed.0.remove_words(dictionary).place_letters(dictionary, letters.drop_first())
            }
        }
    }

    /// The game once the next triplet is placed, and whether the grid was
    /// full. With a full grid the game is over; else the clock is set back.
    /// Nothing happens when no triplet is left.
    pub open spec fn place_new_triplets(self, dictionary: &Dictionary) -> (GameModel, bool) {
        if self.triplets_current_index >= self.triplets.len() {
            (self, false)
        } else {
            let triplet = self.triplets[self.triplets_current_index as int];
            let next = GameModel {
                triplets_current_index: (self.triplets_current_index + 1) as u8,
                ..self
            };
            let placed = next.place_letters(dictionary, seq![triplet.0, triplet.1, triplet.2]);
            if placed.1 {
                (GameModel { state: GameState::Finished, ..placed.0 }, true)
            } else {
                (GameModel { remaining_ms: placed.0.clock_max_ms, ..placed.0 }, false)
            }
        }
    }

    /// The game once the cell at `pos` is clicked, and whether that ended
    /// it. With no letter being moved, a click on a letter takes it up. A
    /// click on the letter that is being moved lets it go. Any other click
    /// moves the letter to the cell clicked if a walk leads there: the
    /// words are then taken off and, with the clock at zero, the next
    /// triplet is placed.
    pub open spec fn click(self, dictionary: &Dictionary, pos: Position) -> (GameModel, bool) {
        match self.path_from {
            Some(from) => if pos == from {
                (GameModel { path_from: None, ..self }, false)
            } else if self.grid.connected(pos, from) {
                let moved = GameModel {
                    grid: self.grid.put(from, self.grid.cells[pos]).put(
                        pos,
                        self.grid.cells[from],
                    ),
                    path_from: None,
                    path_to: None,
                    ..self
                }.remove_words(dictionary);
                if moved.remaining_ms == 0 {
                    moved.place_new_triplets(dictionary)
                } else {
                    (moved, false)
                }
            } else {
                (self, false)
            },
            None => if self.grid.cells[pos] is Letter {
                (GameModel { path_from: Some(pos), ..self }, false)
            } else {
                (self, false)
            },
        }
    }

    /// The game once the cells of `clicks` are clicked one after the other,
    /// and whether a click ended it: the clicks after it are not made.
    pub open spec fn run_clicks(self, dictionary: &Dictionary, clicks: Seq<Position>) -> (
        GameModel,
        bool,
    )
        decreases clicks.len(),
    {
        if clicks.len() == 0 {
            (self, false)
        } else {
            let clicked = self.click(dictionary, clicks[0]);
            if clicked.1 {
                clicked
            } else {
                clicked.0.run_clicks(dictionary, clicks.drop_first())
            }
        }
    }

    /// The game once the cell hovered over is taken as the cell to move
    /// to: only while a letter is being moved.
    pub open spec fn hover(self, hovered: Option<Position>) -> GameModel {
        match self.path_from {
            Some(_) => match hovered {
                Some(pos) => GameModel { path_to: Some(pos), ..self },
                None => self,
            },
            None => GameModel { path_to: None, ..self },
        }
    }

    /// The game a tick later: `delta_ms` is taken off the clock; with the
    /// clock at zero the next triplet is placed; then the clicks are made
    /// and the hovered cell is taken note of. A game that is over stays as
    /// it is, and a game that ends during the tick stays as it ended.
    pub open spec fn tick(
        self,
        dictionary: &Dictionary,
        delta_ms: u32,
        clicks: Seq<Position>,
        hovered: Option<Position>,
    ) -> GameModel {
        if self.state == GameState::Finished {
            self
        } else {
            let timed = GameModel {
                remaining_ms: if self.remaining_ms >= delta_ms {
                    (self.remaining_ms - delta_ms) as u32
                } else {
                    0
                },
                ..self
            };
            let placed = if timed.remaining_ms == 0 {
                timed.place_new_triplets(dictionary)
            } else {
                (timed, false)
            };
            if placed.1 {
                placed.0
            } else {
                let clicked = placed.0.run_clicks(dictionary, clicks);
                if clicked.1 {
                    clicked.0
                } else {
                    clicked.0.hover(hovered)
                }
            }
        }
    }
}

/// What the cell at `pos` is to the letter at `from` that goes the way
/// `path`.
pub open spec fn shown_status(
    grid: GridView,
    from: Option<Position>,
    path: Option<Seq<Position>>,
    pos: Position,
) -> CellPathingStatus {
    match path {
        Some(way) => if way.contains(pos) {
            CellPathingStatus::Path
        } else {
            match from {
                Some(start) => if grid.connected(start, pos) {
                    CellPathingStatus::Walkable
                } else {
                    CellPathingStatus::Blocked
                },
                None => CellPathingStatus::Neutral,
            }
        },
        None => CellPathingStatus::Neutral,
    }
}

/// Where the cell at `pos` is shown: the two ends of `path` are shown in
/// each other's place.
pub open spec fn shown_position(path: Option<Seq<Position>>, pos: Position) -> Position {
    match path {
        Some(way) => if pos == way.first() {
            way.last()
        } else if pos == way.last() {
            way.first()
        } else {
            pos
        },
        None => pos,
    }
}

/// The cell at `pos` as it is shown.
pub open spec fn shown_cell(
    grid: GridView,
    from: Option<Position>,
    path: Option<Seq<Position>>,
    pos: Position,
) -> Cell {
    Cell {
        position: shown_position(path, pos),
        pathing_status: shown_status(grid, from, path, pos),
        letter: match grid.cells[pos] {
            crate::grid::Cell::Letter(index) => index,
            crate::grid::Cell::Empty => LETTER_INDEX_NONE,
        },
    }
}

/// The first `columns` cells of row `y` as they are shown.
pub open spec fn row_cells(
    grid: GridView,
    from: Option<Position>,
    path: Option<Seq<Position>>,
    y: int,
    columns: int,
) -> Seq<Cell>
    decreases columns,
{
    if columns <= 0 {
        Seq::empty()
    } else {
        row_cells(grid, from, path, y, columns - 1).push(
            shown_cell(grid, from, path, Position { x: (columns - 1) as u8, y: y as u8 }),
        )
    }
}

/// The cells of the first `rows` rows as they are shown, row by row.
pub open spec fn cells_before(
    grid: GridView,
    from: Option<Position>,
    path: Option<Seq<Position>>,
    rows: int,
) -> Seq<Cell>
    decreases rows,
{
    if rows <= 0 {
        Seq::empty()
    } else {
        cells_before(grid, from, path, rows - 1) + row_cells(
            grid,
            from,
            path,
            rows - 1,
            grid.width as int,
        )
    }
}

/// The cells of the grid as they are shown, row by row.
pub open spec fn snapshot_cells(
    grid: GridView,
    from: Option<Position>,
    path: Option<Seq<Position>>,
) -> Seq<Cell> {
    cells_before(grid, from, path, grid.height as int)
}

/// Whether `path` is the way to show for the letter that is being moved: a
/// most direct way to the cell it is moved to, if a walk leads there; the
/// cell of the letter alone while no cell to move to is known; no way
/// otherwise.
pub open spec fn shown_path(game: GameModel, path: Option<Seq<Position>>) -> bool {
    match game.path_from {
        Some(from) => match game.path_to {
            Some(to) => if game.grid.connected(from, to) {
                path is Some && game.grid.most_direct(from, to, path->Some_0)
            } else {
                path is None
            },
            None => path == Some(seq![from]),
        },
        None => path is None,
    }
}

/// What is shown of a game.
pub struct SnapshotView {
    /// What is left on the clock.
    pub clock_remaining_ms: u32,
    /// The cells of the grid, row by row.
    pub grid: Seq<Cell>,
    /// The words found, in the order in which they were found.
    pub found_words: Seq<FoundWordView>,
}

/// Whether `snapshot` shows `game`: its clock, its words found, and its
/// cells with a way that is the way to show.
pub open spec fn is_snapshot_of(game: GameModel, snapshot: SnapshotView) -> bool {
    &&& snapshot.clock_remaining_ms == game.remaining_ms
    &&& snapshot.found_words == game.found_words
    &&& exists|path: Option<Seq<Position>>| #[trigger]
        shown_path(game, path) && snapshot.grid == snapshot_cells(game.grid, game.path_from, path)
}

/// What is shown of a game after a tick.
#[derive(Debug)]
pub struct GameSnapshot {
    /// What is left on the clock.
    pub clock_remaining_ms: u32,
    grid: Vec<Cell>,
    found_words: Vec<FoundWord>,
}

impl View for GameSnapshot {
    type V = SnapshotView;

    closed spec fn view(&self) -> SnapshotView {
        SnapshotView {
            clock_remaining_ms: self.clock_remaining_ms,
            grid: self.grid@,
            found_words: found_views(self.found_words@),
        }
    }
}

/// A copy of the words of `found`.
pub fn copy_found_words(found: &Vec<FoundWord>) -> (copy: Vec<FoundWord>)
    ensures
        found_views(copy@) == found_views(found@),
{
    let mut copy: Vec<FoundWord> = Vec::new();
    let mut i: usize = 0;
    assert(found_views(copy@) =~= found_views(found@).take(0));
    while i < found.len()
        invariant
            i <= found@.len(),
            found_views(copy@) == found_views(found@).take(i as int),
        decreases found@.len() - i,
    {
        let ghost before = found_views(copy@);
        copy.push(found[i].clone());
        assert(found_views(copy@) =~= before.push(found@[i as int]@));
        assert(found_views(copy@) =~= found_views(found@).take(i + 1));
        i = i + 1;
    }
    assert(found_views(found@).take(i as int) =~= found_views(found@));
    copy
}

impl GameSnapshot {
    /// The cells of the grid, row by row.
    pub fn grid(&self) -> (cells: Vec<Cell>)
        ensures
            cells@ == self@.grid,
    {
        let mut cells: Vec<Cell> = Vec::new();
        let mut i: usize = 0;
        while i < self.grid.len()
            invariant
                i <= self.grid@.len(),
                cells@ == self.grid@.take(i as int),
            decreases self.grid@.len() - i,
        {
            cells.push(self.grid[i]);
            assert(cells@ =~= self.grid@.take(i + 1));
            i = i + 1;
        }
        assert(self.grid@.take(i as int) =~= self.grid@);
        cells
    }

    /// The words found, in the order in which they were found.
    pub fn found_words(&self) -> (found: Vec<FoundWord>)
        ensures
            found_views(found@) == self@.found_words,
    {
        copy_found_words(&self.found_words)
    }
}

/// The game.
pub struct Game<'a> {
    /// Whether the game goes on.
    pub state: GameState,
    /// What the clock is set back to, in milliseconds.
    pub clock_max_ms: u32,
    /// The number of columns of the grid.
    pub grid_width: GridSize,
    /// The number of rows of the grid.
    pub grid_height: GridSize,
    clock: Clock,
    grid: Grid,
    generator: Generator,
    golden_word: Word,
    /// What the golden word is worth.
    pub golden_word_score: u16,
    /// How many triplets have been played.
    pub triplets_current_index: u8,
    triplets: Vec<(LetterIndex, LetterIndex, LetterIndex)>,
    /// The score of the player.
    pub score: u16,
    found_words: Vec<FoundWord>,
    path_from: Option<Position>,
    path_to: Option<Position>,
    letters_table: &'a LettersTable,
    dictionary: &'a Dictionary,
}

impl<'a> View for Game<'a> {
    type V = GameModel;

    closed spec fn view(&self) -> GameModel {
        GameModel {
            state: self.state,
            clock_max_ms: self.clock.spec_max(),
            remaining_ms: self.clock.spec_remaining_ms(),
            grid: self.grid@,
            key: self.generator.key(),
            word_pos: self.generator.word_pos(),
            letters: self.letters_table@,
            golden_word: self.golden_word@,
            golden_word_score: self.golden_word_score,
            triplets_current_index: self.triplets_current_index,
            triplets: self.triplets@,
            score: self.score,
            found_words: found_views(self.found_words@),
            path_from: self.path_from,
            path_to: self.path_to,
        }
    }
}

impl<'a> Game<'a> {
    /// The dictionary of the game.
    pub closed spec fn dictionary(&self) -> &Dictionary {
        self.dictionary
    }

    /// The parts of the game fit together: the grid has the size that the
    /// game gives for it and a cell for each of its positions, the clock is
    /// set back to what the game gives for it, the triplet to play next is
    /// one of the triplets or the end of them, the letter that is being
    /// moved is on the grid, and the letters of the dictionary are those of
    /// the table.
    pub closed spec fn wf(&self) -> bool {
        &&& self.grid.wf()
        &&& self.grid@.width == self.grid_width
        &&& self.grid@.height == self.grid_height
        &&& self.clock.spec_max() == self.clock_max_ms
        &&& self.triplets@.len() <= 255
        &&& self.triplets_current_index <= self.triplets@.len()
        &&& self.letters_table.wf()
        &&& dictionary_known(self.dictionary, self.letters_table@)
        &&& match self.path_from {
            Some(pos) => self.grid@.in_grid(pos),
            None => true,
        }
    }

    /// Ends the game.
    fn finish_game(&mut self)
        requires
            old(self).wf(),
        ensures
            final(self).wf(),
            final(self).dictionary() == old(self).dictionary(),
            final(self)@.grid.same_size(old(self)@.grid),
            final(self)@ == (GameModel { state: GameState::Finished, ..old(self)@ }),
    {
        self.state = GameState::Finished;
    }

    /// Takes `delta_ms` off the clock.
    fn update_clock(&mut self, delta_ms: u32)
        requires
            old(self).wf(),
        ensures
            final(self).wf(),
            final(self).dictionary() == old(self).dictionary(),
            final(self)@.grid.same_size(old(self)@.grid),
            final(self)@ == (GameModel {
                remaining_ms: if old(self)@.remaining_ms >= delta_ms {
                    (old(self)@.remaining_ms - delta_ms) as u32
                } else {
                    0
                },
                ..old(self)@
            }),
    {
        self.clock.substract(delta_ms);
    }

    /// The triplet to play next, if one is left; it is then played.
    fn pop_triplet(&mut self) -> (triplet: Option<(LetterIndex, LetterIndex, LetterIndex)>)
        requires
            old(self).wf(),
        ensures
            final(self).wf(),
            final(self).dictionary() == old(self).dictionary(),
            final(self)@.grid.same_size(old(self)@.grid),
            old(self)@.triplets_current_index >= old(self)@.triplets.len() ==> triplet is None
                && final(self)@ == old(self)@,
            old(self)@.triplets_current_index < old(self)@.triplets.len() ==> triplet == Some(
                old(self)@.triplets[old(self)@.triplets_current_index as int],
            ) && final(self)@ == (GameModel {
                triplets_current_index: (old(self)@.triplets_current_index + 1) as u8,
                ..old(self)@
            }),
    {
        if self.triplets_current_index as usize >= self.triplets.len() {
            return None;
        }
        let triplet = self.triplets[self.triplets_current_index as usize];
        self.triplets_current_index = self.triplets_current_index + 1;
        Some(triplet)
    }

    /// Places `letter_index` in an empty cell drawn by the generator, and
    /// says where; nowhere if no cell is empty.
    fn place_letter_in_random_empty_cell(&mut self, letter_index: LetterIndex) -> (position: Option<
        Position,
    >)
        requires
            old(self).wf(),
        ensures
            final(self).wf(),
            final(self).dictionary() == old(self).dictionary(),
            final(self)@.grid.same_size(old(self)@.grid),
            final(self)@ == old(self)@.place_letter(letter_index).0,
            position is Some == old(self)@.place_letter(letter_index).1,
    {
        match self.grid.random_empty_cell_position(&mut self.generator) {
            Some(pos) => {
                self.grid.update_cell(pos, crate::grid::Cell::Letter(letter_index));
                Some(pos)
            },
            None => None,
        }
    }

    /// Places `letter`, and says whether there was an empty cell for it.
    fn try_place_letter(&mut self, letter: LetterIndex) -> (placed: bool)
        requires
            old(self).wf(),
        ensures
            final(self).wf(),
            final(self).dictionary() == old(self).dictionary(),
            final(self)@.grid.same_size(old(self)@.grid),
            final(self)@ == old(self)@.place_letter(letter).0,
            placed == old(self)@.place_letter(letter).1,
    {
        self.place_letter_in_random_empty_cell(letter).is_some()
    }
}

/// The sum of two scores, or the most that sixteen bits hold if it is more.
pub fn add_capped(a: u16, b: u16) -> (sum: u16)
    ensures
        sum == capped(a + b),
{
    if a > u16::MAX - b {
        u16::MAX
    } else {
        a + b
    }
}

/// No matches are worth less than nothing.
pub proof fn lemma_total_score_take(taken: Seq<MatchView>, k: int)
    requires
        0 <= k <= taken.len(),
    ensures
        total_score(taken.take(k)) >= 0,
        k < taken.len() ==> total_score(taken.take(k + 1)) == total_score(taken.take(k))
            + taken[k].score,
    decreases k,
{
    if k > 0 {
        lemma_total_score_take(taken, k - 1);
        assert(taken.take(k).drop_last() =~= taken.take(k - 1));
    }
    if k < taken.len() {
        assert(taken.take(k + 1).drop_last() =~= taken.take(k));
    }
}

/// What two lists hold together.
pub proof fn lemma_add_contains(a: Seq<Position>, b: Seq<Position>, pos: Position)
    ensures
        (a + b).contains(pos) <==> a.contains(pos) || b.contains(pos),
{
    if a.contains(pos) {
        let i = choose|i: int| 0 <= i < a.len() && a[i] == pos;
        assert((a + b)[i] == pos);
    }
    if b.contains(pos) {
        let i = choose|i: int| 0 <= i < b.len() && b[i] == pos;
        assert((a + b)[a.len() + i] == pos);
    }
    if (a + b).contains(pos) {
        let i = choose|i: int| 0 <= i < (a + b).len() && (a + b)[i] == pos;
        if i < a.len() {
            assert(a[i] == pos);
        } else {
            assert(b[i - a.len()] == pos);
        }
    }
}

/// Whether `pos` is a position of one of the matches of `matches`.
pub fn claims(matches: &Vec<Match>, pos: Position) -> (held: bool)
    ensures
        held == claimed_positions(views(matches@)).contains(pos),
{
    let ghost taken = views(matches@);
    let mut k: usize = 0;
    assert(taken.take(0) =~= Seq::<MatchView>::empty());
    while k < matches.len()
        invariant
            k <= matches@.len(),
            taken == views(matches@),
            !claimed_positions(taken.take(k as int)).contains(pos),
        decreases matches@.len() - k,
    {
        proof {
            crate::words::lemma_claimed_positions_take(taken, k as int);
            lemma_add_contains(
                claimed_positions(taken.take(k as int)),
                taken[k as int].positions,
                pos,
            );
        }
        if passes(&matches[k].positions, pos) {
            proof {
                lemma_claimed_grows(taken, k + 1, pos);
            }
            return true;
        }
        k = k + 1;
    }
    assert(taken.take(k as int) =~= taken);
    false
}

/// A position of some of the matches is a position of all of them.
pub proof fn lemma_claimed_grows(taken: Seq<MatchView>, k: int, pos: Position)
    requires
        0 <= k <= taken.len(),
        claimed_positions(taken.take(k)).contains(pos),
    ensures
        claimed_positions(taken).contains(pos),
    decreases taken.len() - k,
{
    if k < taken.len() {
        crate::words::lemma_claimed_positions_take(taken, k);
        lemma_add_contains(claimed_positions(taken.take(k)), taken[k].positions, pos);
        lemma_claimed_grows(taken, k + 1, pos);
    } else {
        assert(taken.take(k) =~= taken);
    }
}

/// The characters of the letters of `word`.
pub fn word_string(letters_table: &LettersTable, word: &Word) -> (text: String)
    requires
        crate::lexicon::first_unknown(letters_table@, word@) is None,
    ensures
        text@ == word_text(letters_table@, word@),
{
    let letters = word.letters();
    let mut text = String::new();
    let mut i: usize = 0;
    assert(text@ =~= word_text(letters_table@, word@).take(0));
    while i < letters.len()
        invariant
            i <= letters@.len(),
            letters@ == word@,
            crate::lexicon::first_unknown(letters_table@, word@) is None,
            text@ == word_text(letters_table@, word@).take(i as int),
        decreases letters@.len() - i,
    {
        proof {
            lemma_known_letter(letters_table@, word@, i as int);
        }
        let ch = letters_table.try_get_letter_char(letters[i]);
        text.push(ch);
        assert(text@ =~= word_text(letters_table@, word@).take(i + 1));
        i = i + 1;
    }
    assert(word_text(letters_table@, word@).take(i as int) =~= word_text(letters_table@, word@));
    text
}

/// Every letter of a word without unknown letters is in the table.
pub proof fn lemma_known_letter(letters: Seq<LetterConfig>, word: Seq<LetterIndex>, i: int)
    requires
        crate::lexicon::first_unknown(letters, word) is None,
        0 <= i < word.len(),
    ensures
        word[i] < letters.len(),
    decreases word.len(),
{
    if i < word.len() - 1 {
        lemma_known_letter(letters, word.drop_last(), i);
    }
}

impl<'a> Game<'a> {
    /// Takes the words off the grid: they are added to the words found and
    /// their worth to the score, and the letter that is being moved is let
    /// go if it was in one of them.
    fn remove_found_words_in_grid(&mut self)
        requires
            old(self).wf(),
        ensures
            final(self).wf(),
            final(self).dictionary() == old(self).dictionary(),
            final(self)@.grid.same_size(old(self)@.grid),
            final(self)@ == old(self)@.remove_words(old(self).dictionary()),
    {
        let matches = self.grid.retrieve_words(
            self.dictionary,
            self.letters_table,
            &self.golden_word,
        );
        let ghost taken = views(matches@);
        if let Some(pos) = self.path_from {
            if claims(&matches, pos) {
                self.path_from = None;
            }
        }
        let ghost found_before = found_views(self.found_words@);
        let ghost mid = *self;
        let mut total_score_found_words: u16 = 0;
        let mut k: usize = 0;
        proof {
            assert(taken.take(0) =~= Seq::<MatchView>::empty());
            assert(found_views(self.found_words@) =~= found_before + found_words_of(
                self.letters_table@,
                taken.take(0),
            ));
        }
        while k < matches.len()
            invariant
                k <= matches@.len(),
                taken == views(matches@),
                crate::words::sound_matches(old(self).grid@, self.dictionary, taken),
                dictionary_known(self.dictionary, self.letters_table@),
                total_score_found_words == capped(total_score(taken.take(k as int))),
                found_views(self.found_words@) == found_before + found_words_of(
                    self.letters_table@,
                    taken.take(k as int),
                ),
                *self == (Game { found_words: self.found_words, ..mid }),
                mid.dictionary == old(self).dictionary,
                mid.letters_table == old(self).letters_table,
            decreases matches@.len() - k,
        {
            proof {
                lemma_total_score_take(taken, k as int);
                assert(crate::words::sound_match(
                    old(self).grid@,
                    self.dictionary,
                    taken[k as int],
                ));
                assert(taken[k as int].word == matches@[k as int].word@);
            }
            let word = word_string(self.letters_table, &matches[k].word);
            let score = matches[k].score;
            total_score_found_words = add_capped(total_score_found_words, score);
            let ghost before = found_views(self.found_words@);
            self.found_words.push(FoundWord { word, score });
            proof {
                assert(found_views(self.found_words@) =~= before.push(
                    found_word_of(self.letters_table@, taken[k as int]),
                ));
                assert(found_words_of(self.letters_table@, taken.take(k + 1))
                    =~= found_words_of(self.letters_table@, taken.take(k as int)).push(
                    found_word_of(self.letters_table@, taken[k as int]),
                ));
            }
            k = k + 1;
        }
        proof {
            assert(taken.take(k as int) =~= taken);
            lemma_total_score_take(taken, taken.len() as int);
        }
        self.score = add_capped(self.score, total_score_found_words);
    }
}

impl<'a> Game<'a> {
    /// Places the three letters of a triplet one after the other, taking
    /// the words off after each, and says whether the grid was full: the
    /// letters after the one that found no empty cell are not placed.
    fn try_place_triplet(&mut self, triplet: (LetterIndex, LetterIndex, LetterIndex)) -> (status:
        GridStatus)
        requires
            old(self).wf(),
        ensures
            final(self).wf(),
            final(self).dictionary() == old(self).dictionary(),
            final(self)@.grid.same_size(old(self)@.grid),
            final(self)@ == old(self)@.place_letters(
                old(self).dictionary(),
                seq![triplet.0, triplet.1, triplet.2],
            ).0,
            (status == GridStatus::Full) == old(self)@.place_letters(
                old(self).dictionary(),
                seq![triplet.0, triplet.1, triplet.2],
            ).1,
    {
        let mut letters: Vec<LetterIndex> = Vec::new();
        letters.push(triplet.0);
        letters.push(triplet.1);
        letters.push(triplet.2);
        let ghost all = seq![triplet.0, triplet.1, triplet.2];
        assert(letters@ =~= all);
        assert(all.skip(0) =~= all);
        let mut i: usize = 0;
        while i < letters.len()
            invariant
                i <= letters@.len(),
                letters@ == all,
                all == seq![triplet.0, triplet.1, triplet.2],
                self.wf(),
                self.dictionary() == old(self).dictionary(),
                self@.grid.same_size(old(self)@.grid),
                self@.place_letters(self.dictionary(), all.skip(i as int)) == old(
                    self,
                )@.place_letters(old(self).dictionary(), all),
            decreases letters@.len() - i,
        {
            let ghost before = self@;
            let ghost dictionary = self.dictionary();
            proof {
                assert(all.skip(i as int).drop_first() =~= all.skip(i + 1));
                assert(all.skip(i as int)[0] == all[i as int]);
            }
            if !self.try_place_letter(letters[i]) {
                proof {
                    assert(before.place_letters(dictionary, all.skip(i as int)) == (self@, true));
                }
                return GridStatus::Full;
            }
            self.remove_found_words_in_grid();
            proof {
                assert(before.place_letters(dictionary, all.skip(i as int))
                    == self@.place_letters(dictionary, all.skip(i + 1)));
            }
            i = i + 1;
        }
        GridStatus::NotFull
    }

    /// Places the next triplet, if one is left, and says whether the grid
    /// was full. With a full grid the game is over; else the clock is set
    /// back.
    fn place_new_triplets_in_grid(&mut self) -> (status: GridStatus)
        requires
            old(self).wf(),
        ensures
            final(self).wf(),
            final(self).dictionary() == old(self).dictionary(),
            final(self)@.grid.same_size(old(self)@.grid),
            final(self)@ == old(self)@.place_new_triplets(old(self).dictionary()).0,
            (status == GridStatus::Full) == old(self)@.place_new_triplets(
                old(self).dictionary(),
            ).1,
    {
        let triplet = match self.pop_triplet() {
            Some(triplet) => triplet,
            None => {
                return GridStatus::NotFull;
            },
        };
        if let GridStatus::Full = self.try_place_triplet(triplet) {
            self.finish_game();
            return GridStatus::Full;
        }
        self.clock.reset();
        GridStatus::NotFull
    }

    /// Makes the click on the cell at `pos`, and says whether that ended
    /// the game.
    fn click(&mut self, pos: Position) -> (finished: bool)
        requires
            old(self).wf(),
            old(self)@.grid.in_grid(pos),
        ensures
            final(self).wf(),
            final(self).dictionary() == old(self).dictionary(),
            final(self)@.grid.same_size(old(self)@.grid),
            final(self)@ == old(self)@.click(old(self).dictionary(), pos).0,
            finished == old(self)@.click(old(self).dictionary(), pos).1,
    {
        match self.path_from {
            Some(from_pos) => {
                if pos == from_pos {
                    self.path_from = None;
                    return false;
                }
                let moved = self.grid.move_cell(pos, from_pos);
                if moved == MoveResult::Moved {
                    self.path_from = None;
                    self.path_to = None;
                    self.remove_found_words_in_grid();
                    if self.clock.remaining_ms() == 0 {
                        if let GridStatus::Full = self.place_new_triplets_in_grid() {
                            return true;
                        }
                    }
                }
                false
            },
            None => {
                if let crate::grid::Cell::Letter(_) = self.grid.cell(&pos) {
                    self.path_from = Some(pos);
                }
                false
            },
        }
    }

    /// Moves the game on by a tick: `delta_ms` is taken off the clock; with
    /// the clock at zero the next triplet is placed; then the clicks are
    /// made, in their order, and the hovered cell is taken note of. A game
    /// that is over stays as it is. What is then shown of the game is
    /// returned.
    pub fn tick(
        &mut self,
        delta_ms: u32,
        clicks_on_cell: Vec<Position>,
        last_hovered_cell: Option<Position>,
    ) -> (snapshot: GameSnapshot)
        requires
            old(self).wf(),
            forall|i: int|
                0 <= i < clicks_on_cell@.len() ==> old(self)@.grid.in_grid(
                    #[trigger] clicks_on_cell@[i],
                ),
        ensures
            final(self).wf(),
            final(self).dictionary() == old(self).dictionary(),
            final(self)@ == old(self)@.tick(
                old(self).dictionary(),
                delta_ms,
                clicks_on_cell@,
                last_hovered_cell,
            ),
            is_snapshot_of(final(self)@, snapshot@),
    {
        if self.state == GameState::Finished {
            return self.generate_game_snapshot();
        }
        self.update_clock(delta_ms);
        if self.clock.remaining_ms() == 0 {
            if let GridStatus::Full = self.place_new_triplets_in_grid() {
                return self.generate_game_snapshot();
            }
        }
        let ghost placed = self@;
        let ghost clicks = clicks_on_cell@;
        let mut i: usize = 0;
        assert(clicks.skip(0) =~= clicks);
        while i < clicks_on_cell.len()
            invariant
                i <= clicks_on_cell@.len(),
                clicks == clicks_on_cell@,
                self.wf(),
                self.dictionary() == old(self).dictionary(),
                self@.grid.same_size(old(self)@.grid),
                forall|i: int| 0 <= i < clicks.len() ==> old(self)@.grid.in_grid(#[trigger] clicks[i]),
                self@.run_clicks(self.dictionary(), clicks.skip(i as int)) == placed.run_clicks(
                    old(self).dictionary(),
                    clicks,
                ),
                old(self)@.tick(old(self).dictionary(), delta_ms, clicks, last_hovered_cell) == (
                if placed.run_clicks(old(self).dictionary(), clicks).1 {
                    placed.run_clicks(old(self).dictionary(), clicks).0
                } else {
                    placed.run_clicks(old(self).dictionary(), clicks).0.hover(last_hovered_cell)
                }),
            decreases clicks_on_cell@.len() - i,
        {
            let ghost before = self@;
            let ghost dictionary = self.dictionary();
            proof {
                assert(clicks.skip(i as int).drop_first() =~= clicks.skip(i + 1));
                assert(clicks.skip(i as int)[0] == clicks[i as int]);
            }
            if self.click(clicks_on_cell[i]) {
                proof {
                    assert(before.run_clicks(dictionary, clicks.skip(i as int)) == (self@, true));
                }
                return self.generate_game_snapshot();
            }
            proof {
                assert(before.run_clicks(dictionary, clicks.skip(i as int)) == self@.run_clicks(
                    dictionary,
                    clicks.skip(i + 1),
                ));
            }
            i = i + 1;
        }
        if self.path_from.is_some() {
            if let Some(hovered) = last_hovered_cell {
                self.path_to = Some(hovered);
            }
        } else {
            self.path_to = None;
        }
        self.generate_game_snapshot()
    }

    /// What is shown of the game.
    fn generate_game_snapshot(&self) -> (snapshot: GameSnapshot)
        requires
            self.wf(),
        ensures
            is_snapshot_of(self@, snapshot@),
    {
        let grid = self.generate_grid_snapshot();
        GameSnapshot {
            clock_remaining_ms: self.clock.remaining_ms(),
            grid,
            found_words: copy_found_words(&self.found_words),
        }
    }

    /// The cells of the grid as they are shown, row by row, with the way of
    /// the letter that is being moved.
    fn generate_grid_snapshot(&self) -> (cells: Vec<Cell>)
        requires
            self.wf(),
        ensures
            exists|path: Option<Seq<Position>>| #[trigger]
                shown_path(self@, path) && cells@ == snapshot_cells(
                    self@.grid,
                    self@.path_from,
                    path,
                ),
    {
        let allowed_moving_positions: Option<Vec<Position>> = match self.path_from {
            Some(from) => Some(self.grid.allowed_moving_positions(from)),
            None => None,
        };
        let current_path: Option<Vec<Position>> = match self.path_from {
            Some(from) => match self.path_to {
                Some(to) => self.grid.most_direct_path(&from, &to),
                None => {
                    let mut path: Vec<Position> = Vec::new();
                    path.push(from);
                    assert(path@ =~= seq![from]);
                    Some(path)
                },
            },
            None => None,
        };
        let cells = grid_cells(&self.grid, self.path_from, &allowed_moving_positions, &current_path);
        proof {
            assert(shown_path(self@, way_view(current_path)));
        }
        cells
    }
}

/// The way `path` as plain values.
pub open spec fn way_view(path: Option<Vec<Position>>) -> Option<Seq<Position>> {
    match path {
        Some(way) => Some(way@),
        None => None,
    }
}

/// The cells of `grid` as they are shown, row by row, when the letter at
/// `from` is being moved along `current_path` and can be moved to the
/// positions of `allowed_moving_positions`.
pub fn grid_cells(
    grid: &Grid,
    from: Option<Position>,
    allowed_moving_positions: &Option<Vec<Position>>,
    current_path: &Option<Vec<Position>>,
) -> (cells: Vec<Cell>)
    requires
        grid.wf(),
        match from {
            Some(start) => allowed_moving_positions is Some && forall|pos: Position| #[trigger]
                allowed_moving_positions->Some_0@.contains(pos) <==> grid@.connected(start, pos),
            None => allowed_moving_positions is None,
        },
        current_path is Some ==> current_path->Some_0@.len() >= 1,
    ensures
        cells@ == snapshot_cells(grid@, from, way_view(*current_path)),
{
    let ghost path = way_view(*current_path);
    let width = grid.width();
    let height = grid.height();
    let mut cells: Vec<Cell> = Vec::new();
    let mut y: u8 = 0;
    while y < height
        invariant
            y <= height,
            width == grid@.width,
            height == grid@.height,
            grid.wf(),
            path == way_view(*current_path),
            match from {
                Some(start) => allowed_moving_positions is Some && forall|pos: Position| #[trigger]
                    allowed_moving_positions->Some_0@.contains(pos) <==> grid@.connected(
                        start,
                        pos,
                    ),
                None => allowed_moving_positions is None,
            },
            current_path is Some ==> current_path->Some_0@.len() >= 1,
            cells@ == cells_before(grid@, from, path, y as int),
        decreases height - y,
    {
        let ghost above = cells@;
        let mut x: u8 = 0;
        assert(above + row_cells(grid@, from, path, y as int, 0) =~= above);
        while x < width
            invariant
                x <= width,
                y < height,
                width == grid@.width,
                height == grid@.height,
                grid.wf(),
                path == way_view(*current_path),
                match from {
                    Some(start) => allowed_moving_positions is Some && forall|pos: Position| #[trigger]
                        allowed_moving_positions->Some_0@.contains(pos) <==> grid@.connected(
                            start,
                            pos,
                        ),
                    None => allowed_moving_positions is None,
                },
                current_path is Some ==> current_path->Some_0@.len() >= 1,
                cells@ == above + row_cells(grid@, from, path, y as int, x as int),
            decreases width - x,
        {
            let pos = Position::new(x, y);
            let pathing_status = match current_path {
                Some(way) => {
                    if passes(way, pos) {
                        CellPathingStatus::Path
                    } else {
                        match allowed_moving_positions {
                            Some(allowed_positions) => {
                                if passes(allowed_positions, pos) {
                                    CellPathingStatus::Walkable
                                } else {
                                    CellPathingStatus::Blocked
                                }
                            },
                            None => CellPathingStatus::Neutral,
                        }
                    }
                },
                None => CellPathingStatus::Neutral,
            };
            let position = match current_path {
                Some(way) => {
                    let start = way[0];
                    let end = way[way.len() - 1];
                    if pos == start {
                        end
                    } else if pos == end {
                        start
                    } else {
                        pos
                    }
                },
                None => pos,
            };
            let letter = match grid.cell(&pos) {
                crate::grid::Cell::Letter(index) => index,
                crate::grid::Cell::Empty => LETTER_INDEX_NONE,
            };
            cells.push(Cell { position, pathing_status, letter });
            proof {
                assert(cells@ =~= above + row_cells(grid@, from, path, y as int, x + 1));
            }
            x = x + 1;
        }
        y = y + 1;
    }
    cells
}

/// The grid once the letters of `letters` are placed one after the other,
/// each in an empty cell drawn by the generator of `key` from `word_pos`
/// on, and how far the generator then is. Letters that find no empty cell
/// are left out.
pub open spec fn initial_grid(
    grid: GridView,
    key: Seq<u8>,
    word_pos: u128,
    letters: Seq<LetterIndex>,
) -> (GridView, u128)
    decreases letters.len(),
{
    if letters.len() == 0 {
        (grid, word_pos)
    } else {
        let empties = grid.empty_positions();
        if empties.len() == 0 {
            initial_grid(grid, key, word_pos, letters.drop_first())
        } else {
            let drawn = chacha_draw(key, word_pos, empties.len() as usize);
            initial_grid(
                grid.put(empties[drawn.0 as int], crate::grid::Cell::Letter(letters[0])),
                key,
                drawn.1,
                letters.drop_first(),
            )
        }
    }
}

/// The letters of the triplets of `triplets`, one after the other.
pub open spec fn flat_triplets(triplets: Seq<(LetterIndex, LetterIndex, LetterIndex)>) -> Seq<
    LetterIndex,
>
    decreases triplets.len(),
{
    if triplets.len() == 0 {
        Seq::empty()
    } else {
        flat_triplets(triplets.drop_last()).push(triplets.last().0).push(triplets.last().1).push(
            triplets.last().2,
        )
    }
}

impl GameModel {
    /// The game at its start: the letters are drawn, then the golden word,
    /// and the letters that start on the grid are placed.
    pub open spec fn start(
        clock_ms: u32,
        grid_width: GridSize,
        grid_height: GridSize,
        seed: u32,
        letters: Seq<LetterConfig>,
        dictionary: &Dictionary,
    ) -> GameModel {
        let key = seed_key(seed);
        let shuffled = chacha_shuffled(key, 0, expanded_pool(letters));
        let drawn = chacha_draw(
            key,
            shuffled.1,
            dictionary.six_letter_words().len() as usize,
        );
        let golden_word = dictionary.six_letter_words()[drawn.0 as int];
        let placed = initial_grid(
            GridView::blank(grid_width, grid_height),
            key,
            drawn.1,
            pool_initial(shuffled.0),
        );
        GameModel {
            state: GameState::OnGoing,
            clock_max_ms: clock_ms,
            remaining_ms: clock_ms,
            grid: placed.0,
            key,
            word_pos: placed.1,
            letters,
            golden_word,
            golden_word_score: word_score(letters, golden_word, golden_word) as u16,
            triplets_current_index: 0,
            triplets: pool_triplets(shuffled.0),
            score: 0,
            found_words: Seq::empty(),
            path_from: None,
            path_to: None,
        }
    }
}

/// The grid of `grid_width` by `grid_height` with the letters of
/// `initial_letters` placed one after the other, each in an empty cell
/// drawn by `generator`.
pub fn generate_initial_grid(
    grid_width: GridSize,
    grid_height: GridSize,
    initial_letters: &Vec<LetterIndex>,
    generator: &mut Generator,
) -> (grid: Grid)
    requires
        initial_letters@.len() <= grid_width * grid_height,
    ensures
        grid.wf(),
        grid@.width == grid_width,
        grid@.height == grid_height,
        final(generator).key() == old(generator).key(),
        (grid@, final(generator).word_pos()) == initial_grid(
            GridView::blank(grid_width, grid_height),
            old(generator).key(),
            old(generator).word_pos(),
            initial_letters@,
        ),
{
    let mut grid = Grid::empty(grid_width, grid_height);
    let ghost all = initial_letters@;
    let mut i: usize = 0;
    proof {
        GridView::lemma_blank_empties(grid_width, grid_height, grid_width as int);
        assert(all.skip(0) =~= all);
    }
    while i < initial_letters.len()
        invariant
            i <= initial_letters@.len(),
            all == initial_letters@,
            all.len() <= grid_width * grid_height,
            grid.wf(),
            grid@.width == grid_width,
            grid@.height == grid_height,
            grid@.empty_positions().len() == grid_width * grid_height - i,
            generator.key() == old(generator).key(),
            initial_grid(grid@, generator.key(), generator.word_pos(), all.skip(i as int))
                == initial_grid(
                GridView::blank(grid_width, grid_height),
                old(generator).key(),
                old(generator).word_pos(),
                all,
            ),
        decreases initial_letters@.len() - i,
    {
        let ghost before = grid@;
        proof {
            assert(all.skip(i as int).drop_first() =~= all.skip(i + 1));
            assert(all.skip(i as int)[0] == all[i as int]);
        }
        match grid.try_random_empty_cell_position(generator) {
            Ok(pos) => {
                proof {
                    before.lemma_put_empties(
                        pos,
                        crate::grid::Cell::Letter(all[i as int]),
                        grid_width as int,
                    );
                }
                grid.update_cell(pos, crate::grid::Cell::Letter(initial_letters[i]));
            },
            Err(_) => {},
        }
        i = i + 1;
    }
    grid
}

impl<'a> Game<'a> {
    /// A new game with a clock of `clock_ms` milliseconds and a grid of
    /// `grid_width` by `grid_height`, all of whose draws follow from `seed`:
    /// the letters are drawn from `letters_table`, the golden word from the
    /// six-letter words of `dictionary`, and the letters that start on the
    /// grid are placed.
    pub fn new(
        clock_ms: u32,
        grid_width: GridSize,
        grid_height: GridSize,
        seed: u32,
        letters_table: &'a LettersTable,
        dictionary: &'a Dictionary,
    ) -> (game: Game<'a>)
        requires
            letters_table.wf(),
            dictionary.wf(),
            dictionary_known(dictionary, letters_table@),
            dictionary.six_letter_words().len() > 0,
            grid_width * grid_height >= crate::lexicon::NUMBER_OF_LETTERS_IN_INITIAL_GRID,
        ensures
            game.wf(),
            game.dictionary() == dictionary,
            game@ == GameModel::start(
                clock_ms,
                grid_width,
                grid_height,
                seed,
                letters_table@,
                dictionary,
            ),
    {
        let mut generator = Generator::from_seed(seed);
        let clock = Clock::new(clock_ms);
        let pool = letters_table.generate_letters_pool(&mut generator);
        let golden_word = dictionary.get_random_six_letter_word(&mut generator);
        proof {
            let drawn = chacha_draw(
                seed_key(seed),
                chacha_shuffled(seed_key(seed), 0, expanded_pool(letters_table@)).1,
                dictionary.six_letter_words().len() as usize,
            );
            assert(dictionary.six_letter_words()[drawn.0 as int] == golden_word@);
            assert(dictionary.spec_contains(golden_word@));
        }
        let golden_word_score = golden_word.score(letters_table, &golden_word).unwrap();
        let grid = generate_initial_grid(
            grid_width,
            grid_height,
            &pool.initial_grid_selection,
            &mut generator,
        );
        let game = Game {
            state: GameState::OnGoing,
            clock_max_ms: clock_ms,
            grid_width,
            grid_height,
            clock,
            grid,
            generator,
            golden_word,
            golden_word_score,
            triplets_current_index: 0,
            triplets: pool.triplets,
            score: 0,
            found_words: Vec::new(),
            path_from: None,
            path_to: None,
            letters_table,
            dictionary,
        };
        proof {
            assert(found_views(game.found_words@) =~= Seq::<FoundWordView>::empty());
        }
        game
    }

    /// The points of the letter at `index` of the letters table.
    pub fn get_letter_score(&self, index: u8) -> (score: u32)
        requires
            index < self@.letters.len(),
        ensures
            score == self@.letters[index as int].score,
    {
        self.letters_table.try_get_letter_score(index)
    }

    /// The character of the letter at `index` of the letters table.
    pub fn get_letter(&self, index: u8) -> (letter: char)
        requires
            index < self@.letters.len(),
        ensures
            letter == self@.letters[index as int].letter,
    {
        self.letters_table.try_get_letter_char(index)
    }

    /// A copy of the letters table.
    pub fn get_letters_table(&self) -> (table: LettersTable)
        ensures
            table@ == self@.letters,
    {
        self.letters_table.clone()
    }

    /// The letters of the golden word.
    pub fn golden_word(&self) -> (letters: Vec<u8>)
        ensures
            letters@ == self@.golden_word,
    {
        self.golden_word.letters()
    }

    /// The letters of all the triplets, in the order in which they are
    /// played.
    pub fn triplets(&self) -> (letters: Vec<u8>)
        ensures
            letters@ == flat_triplets(self@.triplets),
    {
        let mut letters: Vec<u8> = Vec::new();
        let mut i: usize = 0;
        assert(self.triplets@.take(0) =~= Seq::empty());
        while i < self.triplets.len()
            invariant
                i <= self.triplets@.len(),
                letters@ == flat_triplets(self.triplets@.take(i as int)),
            decreases self.triplets@.len() - i,
        {
            let triplet = self.triplets[i];
            letters.push(triplet.0);
            letters.push(triplet.1);
            letters.push(triplet.2);
            proof {
                assert(self.triplets@.take(i + 1).drop_last() =~= self.triplets@.take(i as int));
            }
            i = i + 1;
        }
        assert(self.triplets@.take(i as int) =~= self.triplets@);
        letters
    }
}

/// A row shown has a cell for each of its columns, in their order.
pub proof fn lemma_row_cells(
    grid: GridView,
    from: Option<Position>,
    path: Option<Seq<Position>>,
    y: int,
    columns: int,
    x: int,
)
    requires
        0 <= x < columns,
    ensures
        row_cells(grid, from, path, y, columns).len() == columns,
        row_cells(grid, from, path, y, columns)[x] == shown_cell(
            grid,
            from,
            path,
            Position { x: x as u8, y: y as u8 },
        ),
    decreases columns,
{
    if columns > 1 {
        if x < columns - 1 {
            lemma_row_cells(grid, from, path, y, columns - 1, x);
        } else {
            lemma_row_cells(grid, from, path, y, columns - 1, 0);
        }
    } else {
        assert(row_cells(grid, from, path, y, 0).len() == 0);
    }
    assert(row_cells(grid, from, path, y, columns) == row_cells(
        grid,
        from,
        path,
        y,
        columns - 1,
    ).push(shown_cell(grid, from, path, Position { x: (columns - 1) as u8, y: y as u8 })));
}

/// The cells shown are those of the grid, row by row: the cell of column
/// `x` and row `y` stands at place `y` times the width plus `x`.
pub proof fn lemma_snapshot_cell(
    grid: GridView,
    from: Option<Position>,
    path: Option<Seq<Position>>,
    rows: int,
    x: int,
    y: int,
)
    requires
        0 <= x < grid.width,
        0 <= y < rows,
    ensures
        cells_before(grid, from, path, rows).len() == rows * grid.width,
        0 <= y * grid.width + x < rows * grid.width,
        cells_before(grid, from, path, rows)[y * grid.width + x] == shown_cell(
            grid,
            from,
            path,
            Position { x: x as u8, y: y as u8 },
        ),
    decreases rows,
{
    let width = grid.width as int;
    lemma_row_cells(grid, from, path, rows - 1, width, x);
    assert((rows - 1) * width + width == rows * width) by (nonlinear_arith);
    assert(0 <= y * width && y * width + width <= rows * width) by (nonlinear_arith)
        requires
            0 <= y < rows,
            0 < width,
    ;
    if rows > 1 {
        if y < rows - 1 {
            lemma_snapshot_cell(grid, from, path, rows - 1, x, y);
        } else {
            lemma_snapshot_cell(grid, from, path, rows - 1, x, 0);
        }
    } else {
        assert(cells_before(grid, from, path, 0).len() == 0);
    }
}

/// Whatever way is shown, a cell shows the letter that it holds.
pub proof fn lemma_snapshot_letters(
    grid: GridView,
    from: Option<Position>,
    path: Option<Seq<Position>>,
    other: Option<Seq<Position>>,
    x: int,
    y: int,
)
    requires
        0 <= x < grid.width,
        0 <= y < grid.height,
    ensures
        snapshot_cells(grid, from, path).len() == snapshot_cells(grid, from, other).len(),
        snapshot_cells(grid, from, path)[y * grid.width + x].letter == snapshot_cells(
            grid,
            from,
            other,
        )[y * grid.width + x].letter,
{
    lemma_snapshot_cell(grid, from, path, grid.height as int, x, y);
    lemma_snapshot_cell(grid, from, other, grid.height as int, x, y);
}

/// Two games that are alike are alike after a tick with the same elapsed
/// time, clicks and hovered cell, and what is shown of them agrees on the
/// clock, on the words found and on the letter of every cell. It agrees on
/// everything unless a letter is being moved to a cell that a walk leads
/// to: more than one way there may be most direct.
pub proof fn lemma_tick_deterministic(
    first: GameModel,
    second: GameModel,
    dictionary: &Dictionary,
    delta_ms: u32,
    clicks: Seq<Position>,
    hovered: Option<Position>,
    shown_first: SnapshotView,
    shown_second: SnapshotView,
    x: int,
    y: int,
)
    requires
        first == second,
        is_snapshot_of(first.tick(dictionary, delta_ms, clicks, hovered), shown_first),
        is_snapshot_of(second.tick(dictionary, delta_ms, clicks, hovered), shown_second),
        0 <= x < first.tick(dictionary, delta_ms, clicks, hovered).grid.width,
        0 <= y < first.tick(dictionary, delta_ms, clicks, hovered).grid.height,
    ensures
        first.tick(dictionary, delta_ms, clicks, hovered) == second.tick(
            dictionary,
            delta_ms,
            clicks,
            hovered,
        ),
        shown_first.clock_remaining_ms == shown_second.clock_remaining_ms,
        shown_first.found_words == shown_second.found_words,
        shown_first.grid.len() == shown_second.grid.len(),
        shown_first.grid[y * first.tick(dictionary, delta_ms, clicks, hovered).grid.width
            + x].letter == shown_second.grid[y * first.tick(
            dictionary,
            delta_ms,
            clicks,
            hovered,
        ).grid.width + x].letter,
        ({
            let after = first.tick(dictionary, delta_ms, clicks, hovered);
            !(after.path_from is Some && after.path_to is Some && after.grid.connected(
                after.path_from->Some_0,
                after.path_to->Some_0,
            ))
        }) ==> shown_first == shown_second,
{
    let after = first.tick(dictionary, delta_ms, clicks, hovered);
    let way_first = choose|path: Option<Seq<Position>>| #[trigger]
        shown_path(after, path) && shown_first.grid == snapshot_cells(
            after.grid,
            after.path_from,
            path,
        );
    let way_second = choose|path: Option<Seq<Position>>| #[trigger]
        shown_path(after, path) && shown_second.grid == snapshot_cells(
            after.grid,
            after.path_from,
            path,
        );
    lemma_snapshot_letters(after.grid, after.path_from, way_first, way_second, x, y);
    if !(after.path_from is Some && after.path_to is Some && after.grid.connected(
        after.path_from->Some_0,
        after.path_to->Some_0,
    )) {
        assert(way_first == way_second);
    }
}

/// A click on an empty cell while no letter is being moved changes
/// nothing, and every cell is then shown in its own place, with no
/// pathing status.
pub proof fn lemma_click_on_empty_cell(
    game: GameModel,
    dictionary: &Dictionary,
    pos: Position,
    shown: SnapshotView,
    x: int,
    y: int,
)
    requires
        game.path_from is None,
        game.grid.cells[pos] == crate::grid::Cell::Empty,
        is_snapshot_of(game.click(dictionary, pos).0, shown),
        0 <= x < game.grid.width,
        0 <= y < game.grid.height,
    ensures
        game.click(dictionary, pos) == (game, false),
        shown.grid[y * game.grid.width + x].pathing_status == CellPathingStatus::Neutral,
        shown.grid[y * game.grid.width + x].position == (Position { x: x as u8, y: y as u8 }),
{
    let path = choose|path: Option<Seq<Position>>| #[trigger]
        shown_path(game, path) && shown.grid == snapshot_cells(game.grid, game.path_from, path);
    lemma_snapshot_cell(game.grid, game.path_from, path, game.grid.height as int, x, y);
}

/// Every draw of the generator is below its bound.
pub open spec fn draws_in_range() -> bool {
    forall|key: Seq<u8>, word_pos: u128, bound: usize|
        bound > 0 ==> (#[trigger] chacha_draw(key, word_pos, bound)).0 < bound
}

impl GameModel {
    /// Whether no word comes up while the letters of `letters` are placed
    /// one after the other.
    pub open spec fn quiet_placing(self, dictionary: &Dictionary, letters: Seq<LetterIndex>) -> bool
        decreases letters.len(),
    {
        if letters.len() == 0 {
            true
        } else {
            let placed = self.place_letter(letters[0]);
            placed.1 ==> placed.0.grid.words_taken(
                dictionary,
                placed.0.letters,
                placed.0.golden_word,
            ).len() == 0 && placed.0.remove_words(dictionary).quiet_placing(
                dictionary,
                letters.drop_first(),
            )
        }
    }

    /// Where no word comes up, letters that are no more than the empty
    /// cells are all placed, and each takes one empty cell.
    pub proof fn lemma_quiet_placing(self, dictionary: &Dictionary, letters: Seq<LetterIndex>)
        requires
            draws_in_range(),
            self.grid.wf(),
            self.quiet_placing(dictionary, letters),
            letters.len() <= self.grid.empty_positions().len(),
        ensures
            !self.place_letters(dictionary, letters).1,
            self.place_letters(dictionary, letters).0.grid.wf(),
            self.place_letters(dictionary, letters).0.grid.empty_positions().len()
                == self.grid.empty_positions().len() - letters.len(),
        decreases letters.len(),
    {
        if letters.len() > 0 {
            let empties = self.grid.empty_positions();
            self.grid.lemma_empties_bound(self.grid.width as int);
            let drawn = chacha_draw(self.key, self.word_pos, empties.len() as usize);
            let pos = empties[drawn.0 as int];
            assert(empties.contains(pos));
            self.grid.lemma_empty_positions(pos);
            self.grid.lemma_put_empties(
                pos,
                crate::grid::Cell::Letter(letters[0]),
                self.grid.width as int,
            );
            let placed = self.place_letter(letters[0]).0;
            let cleared = placed.remove_words(dictionary);
            let taken = placed.grid.words_taken(dictionary, placed.letters, placed.golden_word);
            assert(taken =~= Seq::<MatchView>::empty());
            assert(claimed_positions(taken) =~= Seq::<Position>::empty());
            self.grid.lemma_put_wf(pos, crate::grid::Cell::Letter(letters[0]));
            assert forall|other: Position| #[trigger]
                cleared.grid.cells.dom().contains(other) implies cleared.grid.cells[other]
                == placed.grid.cells[other] by {
                assert(!claimed_positions(taken).contains(other));
            }
            assert(cleared.grid.cells.dom() =~= placed.grid.cells.dom());
            assert(cleared.grid.cells =~= placed.grid.cells);
            assert(cleared.grid == placed.grid);
            cleared.lemma_quiet_placing(dictionary, letters.drop_first());
        }
    }

    /// Three letters placed on a grid with exactly three empty cells fill
    /// it, if no word comes up in between, and the grid is then full for
    /// whatever letters come next: placing the next triplet ends the game.
    pub proof fn lemma_three_empty_cells(
        self,
        dictionary: &Dictionary,
        triplet: Seq<LetterIndex>,
        next: Seq<LetterIndex>,
    )
        requires
            draws_in_range(),
            self.grid.wf(),
            self.grid.empty_positions().len() == 3,
            triplet.len() == 3,
            next.len() >= 1,
            self.quiet_placing(dictionary, triplet),
        ensures
            !self.place_letters(dictionary, triplet).1,
            self.place_letters(dictionary, triplet).0.grid.empty_positions().len() == 0,
            self.place_letters(dictionary, triplet).0.place_letters(dictionary, next).1,
    {
        self.lemma_quiet_placing(dictionary, triplet);
    }
}

} // verus!
