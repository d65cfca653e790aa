//! Why the score fits: every letter that comes on the grid can be taken off
//! once, in a word, and a word is worth only so much for each of its
//! letters.

use crate::dictionary::Dictionary;
use crate::game::draws_in_range;
use crate::game::initial_grid;
use crate::game::total_score;
use crate::game::GameModel;
use crate::game::GameState;
use crate::generator::chacha_draw;
use crate::generator::chacha_shuffled;
use crate::grid::direction_at;
use crate::grid::Cell;
use crate::grid::Direction;
use crate::grid::GridSize;
use crate::grid::GridView;
use crate::grid::Position;
use crate::lexicon::lemma_letters_score_bound;
use crate::lexicon::letters_score;
use crate::lexicon::scores_fit;
use crate::lexicon::word_score;
use crate::lexicon::LetterConfig;
use crate::lexicon::LetterIndex;
use crate::lexicon::MAX_LETTER_SCORE;
use crate::words::best_length;
use crate::words::claimed;
use crate::words::claimed_positions;
use crate::words::disjoint;
use crate::words::greedy;
use crate::words::lemma_greedy_disjoint;
use crate::words::lemma_rank_bounds;
use crate::words::overlap;
use crate::words::rank;
use crate::words::run_positions;
use crate::words::sorted_by_score;
use crate::words::MatchView;
use vstd::prelude::*;

verus! {

/// The most that a word is worth for each of its letters.
pub const LETTER_WORTH: u16 = 324;

/// The most that the words of a game are worth together.
pub const SCORE_LIMIT: u16 = 64800;

/// The match `found` takes letters off `grid`: its positions are cells of
/// the grid that hold letters, none of them twice, and it is worth no more
/// than `LETTER_WORTH` for each.
pub open spec fn counted_match(grid: GridView, found: MatchView) -> bool {
    &&& found.positions.no_duplicates()
    &&& forall|i: int|
        0 <= i < found.positions.len() ==> grid.in_grid(#[trigger] found.positions[i])
            && grid.cells[found.positions[i]] is Letter
    &&& found.score <= LETTER_WORTH * found.positions.len()
}

/// Every match of `matches` takes letters off `grid`.
pub open spec fn counted_matches(grid: GridView, matches: Seq<MatchView>) -> bool {
    forall|k: int| 0 <= k < matches.len() ==> counted_match(grid, #[trigger] matches[k])
}

/// Two lists of matches that take letters off the grid make one such list.
pub proof fn lemma_counted_add(grid: GridView, a: Seq<MatchView>, b: Seq<MatchView>)
    requires
        counted_matches(grid, a),
        counted_matches(grid, b),
    ensures
        counted_matches(grid, a + b),
{
    assert forall|k: int| 0 <= k < (a + b).len() implies counted_match(
        grid,
        #[trigger] (a + b)[k],
    ) by {
        if k < a.len() {
            assert(counted_match(grid, a[k]));
        } else {
            assert(counted_match(grid, b[k - a.len()]));
        }
    }
}

/// The longest start that is a word has five letters at least, and no more
/// than were offered.
pub proof fn lemma_best_length(dictionary: &Dictionary, letters: Seq<LetterIndex>, len: int)
    ensures
        best_length(dictionary, letters, len) == 0 || 5 <= best_length(dictionary, letters, len)
            <= len,
    decreases len,
{
    if len >= 5 && !dictionary.spec_contains(letters.take(len)) {
        lemma_best_length(dictionary, letters, len - 1);
    }
}

impl GridView {
    /// A run of letters goes on over cells of the grid that hold letters.
    pub proof fn lemma_run_length(&self, pos: Position, dir: Direction, k: int, j: int)
        requires
            1 <= k <= 8,
            k <= j < self.run_length(pos, dir, k),
        ensures
            self.run_length(pos, dir, k) <= 8,
            self.letter_ahead(pos, dir, j),
        decreases 8 - k,
    {
        if k < 8 && self.letter_ahead(pos, dir, k) {
            if j > k {
                self.lemma_run_length(pos, dir, k + 1, j);
            } else {
                self.lemma_run_length_bounds(pos, dir, k + 1);
            }
        }
    }

    /// A run of letters has no more than eight letters.
    pub proof fn lemma_run_length_bounds(&self, pos: Position, dir: Direction, k: int)
        requires
            1 <= k <= 8,
        ensures
            k <= self.run_length(pos, dir, k) <= 8,
        decreases 8 - k,
    {
        if k < 8 && self.letter_ahead(pos, dir, k) {
            self.lemma_run_length_bounds(pos, dir, k + 1);
        }
    }

    /// The word read from a letter in a direction takes letters off the
    /// grid.
    pub proof fn lemma_candidate_counted(
        &self,
        pos: Position,
        letter: LetterIndex,
        dir: Direction,
        dictionary: &Dictionary,
        letters: Seq<LetterConfig>,
        golden: Seq<LetterIndex>,
    )
        requires
            self.in_grid(pos),
            self.cells[pos] is Letter,
            scores_fit(letters),
        ensures
            counted_matches(*self, self.candidate(pos, letter, dir, dictionary, letters, golden)),
    {
        let run = self.run_length(pos, dir, 1);
        let read = self.run_letters(pos, letter, dir, run);
        let len = best_length(dictionary, read, run);
        self.lemma_run_length_bounds(pos, dir, 1);
        lemma_best_length(dictionary, read, run);
        if len != 0 {
            let word = read.take(len);
            let positions = run_positions(pos, dir, len);
            assert forall|i: int| 0 <= i < positions.len() implies self.in_grid(
                #[trigger] positions[i],
            ) && self.cells[positions[i]] is Letter by {
                if i > 0 {
                    self.lemma_run_length(pos, dir, 1, i);
                } else {
                    assert(positions[0] == pos);
                }
            }
            assert forall|i: int, j: int|
                0 <= i < positions.len() && 0 <= j < positions.len() && i != j implies positions[i]
                != positions[j] by {
                if i > 0 {
                    self.lemma_run_length(pos, dir, 1, i);
                }
                if j > 0 {
                    self.lemma_run_length(pos, dir, 1, j);
                }
            }
            lemma_letters_score_bound(letters, word);
            assert(word_score(letters, word, golden) <= LETTER_WORTH * len) by (nonlinear_arith)
                requires
                    5 <= len <= 8,
                    word.len() == len,
                    letters_score(letters, word) <= MAX_LETTER_SCORE * word.len(),
                    word_score(letters, word, golden) <= letters_score(letters, word) * (len - 4)
                        + 100,
                    MAX_LETTER_SCORE == 76,
                    LETTER_WORTH == 324,
            ;
            let found = self.candidate(pos, letter, dir, dictionary, letters, golden)[0];
            assert(found.positions == positions);
            assert(counted_match(*self, found));
        }
    }

    /// The words read from a letter in the first `count` directions take
    /// letters off the grid.
    pub proof fn lemma_candidates_at_counted(
        &self,
        pos: Position,
        letter: LetterIndex,
        count: int,
        dictionary: &Dictionary,
        letters: Seq<LetterConfig>,
        golden: Seq<LetterIndex>,
    )
        requires
            self.in_grid(pos),
            self.cells[pos] is Letter,
            scores_fit(letters),
        ensures
            counted_matches(
                *self,
                self.candidates_at(pos, letter, count, dictionary, letters, golden),
            ),
        decreases count,
    {
        if count > 0 {
            self.lemma_candidates_at_counted(pos, letter, count - 1, dictionary, letters, golden);
            self.lemma_candidate_counted(
                pos,
                letter,
                direction_at(count - 1),
                dictionary,
                letters,
                golden,
            );
            lemma_counted_add(
                *self,
                self.candidates_at(pos, letter, count - 1, dictionary, letters, golden),
                self.candidate(pos, letter, direction_at(count - 1), dictionary, letters, golden),
            );
        }
    }

    /// The words read from the first `columns` cells of a row take letters
    /// off the grid.
    pub proof fn lemma_row_counted(
        &self,
        y: int,
        columns: int,
        dictionary: &Dictionary,
        letters: Seq<LetterConfig>,
        golden: Seq<LetterIndex>,
    )
        requires
            0 <= y < self.height,
            0 <= columns <= self.width,
            scores_fit(letters),
        ensures
            counted_matches(*self, self.row_candidates(y, columns, dictionary, letters, golden)),
        decreases columns,
    {
        if columns > 0 {
            self.lemma_row_counted(y, columns - 1, dictionary, letters, golden);
            let pos = Position { x: (columns - 1) as u8, y: y as u8 };
            match self.cells[pos] {
                Cell::Letter(letter) => {
                    self.lemma_candidates_at_counted(pos, letter, 4, dictionary, letters, golden);
                },
                Cell::Empty => {},
            }
            lemma_counted_add(
                *self,
                self.row_candidates(y, columns - 1, dictionary, letters, golden),
                self.cell_candidates(pos, dictionary, letters, golden),
            );
        }
    }

    /// The words read from the first `rows` rows take letters off the grid.
    pub proof fn lemma_rows_counted(
        &self,
        rows: int,
        dictionary: &Dictionary,
        letters: Seq<LetterConfig>,
        golden: Seq<LetterIndex>,
    )
        requires
            0 <= rows <= self.height,
            scores_fit(letters),
        ensures
            counted_matches(*self, self.candidates_before(rows, dictionary, letters, golden)),
        decreases rows,
    {
        if rows > 0 {
            self.lemma_rows_counted(rows - 1, dictionary, letters, golden);
            self.lemma_row_counted(rows - 1, self.width as int, dictionary, letters, golden);
            lemma_counted_add(
                *self,
                self.candidates_before(rows - 1, dictionary, letters, golden),
                self.row_candidates(rows - 1, self.width as int, dictionary, letters, golden),
            );
        }
    }
}

/// Sorting keeps the matches such that they take letters off the grid.
pub proof fn lemma_sorted_counted(grid: GridView, matches: Seq<MatchView>)
    requires
        counted_matches(grid, matches),
    ensures
        counted_matches(grid, sorted_by_score(matches)),
    decreases matches.len(),
{
    if matches.len() > 0 {
        assert forall|k: int| 0 <= k < matches.drop_last().len() implies counted_match(
            grid,
            #[trigger] matches.drop_last()[k],
        ) by {
            assert(counted_match(grid, matches[k]));
        }
        lemma_sorted_counted(grid, matches.drop_last());
        let sorted = sorted_by_score(matches.drop_last());
        let at = rank(sorted, matches.last().score);
        lemma_rank_bounds(sorted, matches.last().score);
        let result = sorted.insert(at, matches.last());
        assert forall|k: int| 0 <= k < result.len() implies counted_match(
            grid,
            #[trigger] result[k],
        ) by {
            if k < at {
                assert(counted_match(grid, sorted[k]));
            } else if k == at {
                assert(counted_match(grid, matches[matches.len() - 1]));
            } else {
                assert(counted_match(grid, sorted[k - 1]));
            }
        }
    }
}

/// The matches taken take letters off the grid if those offered do.
pub proof fn lemma_greedy_counted(grid: GridView, sorted: Seq<MatchView>)
    requires
        counted_matches(grid, sorted),
    ensures
        counted_matches(grid, greedy(sorted)),
    decreases sorted.len(),
{
    if sorted.len() > 0 {
        assert forall|k: int| 0 <= k < sorted.drop_last().len() implies counted_match(
            grid,
            #[trigger] sorted.drop_last()[k],
        ) by {
            assert(counted_match(grid, sorted[k]));
        }
        lemma_greedy_counted(grid, sorted.drop_last());
        let accepted = greedy(sorted.drop_last());
        if !claimed(accepted, sorted.last().positions) {
            let taken = accepted.push(sorted.last());
            assert forall|k: int| 0 <= k < taken.len() implies counted_match(
                grid,
                #[trigger] taken[k],
            ) by {
                if k < accepted.len() {
                    assert(counted_match(grid, accepted[k]));
                } else {
                    assert(counted_match(grid, sorted[sorted.len() - 1]));
                }
            }
        }
    }
}

/// The words taken off a grid take letters off it, and no two of them the
/// same.
pub proof fn lemma_words_taken_counted(
    grid: GridView,
    dictionary: &Dictionary,
    letters: Seq<LetterConfig>,
    golden: Seq<LetterIndex>,
)
    requires
        scores_fit(letters),
    ensures
        counted_matches(grid, grid.words_taken(dictionary, letters, golden)),
        disjoint(grid.words_taken(dictionary, letters, golden)),
{
    grid.lemma_rows_counted(grid.height as int, dictionary, letters, golden);
    lemma_sorted_counted(grid, grid.all_candidates(dictionary, letters, golden));
    lemma_greedy_counted(grid, sorted_by_score(grid.all_candidates(dictionary, letters, golden)));
    lemma_greedy_disjoint(sorted_by_score(grid.all_candidates(dictionary, letters, golden)));
}

/// A position of the matches together is a position of one of them.
pub proof fn lemma_claimed_member(taken: Seq<MatchView>, pos: Position)
    requires
        claimed_positions(taken).contains(pos),
    ensures
        exists|k: int| 0 <= k < taken.len() && (#[trigger] taken[k]).positions.contains(pos),
    decreases taken.len(),
{
    if taken.len() > 0 {
        let before = claimed_positions(taken.drop_last());
        let last = taken.last().positions;
        let i = choose|i: int| 0 <= i < (before + last).len() && (before + last)[i] == pos;
        if i < before.len() {
            assert(before[i] == pos);
            lemma_claimed_member(taken.drop_last(), pos);
            let k = choose|k: int|
                0 <= k < taken.drop_last().len() && (#[trigger] taken.drop_last()[k]).positions.contains(
                    pos,
                );
            assert(taken[k].positions.contains(pos));
        } else {
            assert(last[i - before.len()] == pos);
            assert(taken[taken.len() - 1].positions.contains(pos));
        }
    }
}

/// The positions of matches that take letters off the grid, no two of them
/// the same, are cells of the grid that hold letters, none of them twice,
/// and the matches are worth no more than `LETTER_WORTH` for each.
pub proof fn lemma_claimed_counted(grid: GridView, taken: Seq<MatchView>)
    requires
        counted_matches(grid, taken),
        disjoint(taken),
    ensures
        claimed_positions(taken).no_duplicates(),
        forall|i: int|
            0 <= i < claimed_positions(taken).len() ==> grid.in_grid(
                #[trigger] claimed_positions(taken)[i],
            ) && grid.cells[claimed_positions(taken)[i]] is Letter,
        0 <= total_score(taken) <= LETTER_WORTH * claimed_positions(taken).len(),
    decreases taken.len(),
{
    if taken.len() > 0 {
        let rest = taken.drop_last();
        assert forall|k: int| 0 <= k < rest.len() implies counted_match(grid, #[trigger] rest[k]) by {
            assert(counted_match(grid, taken[k]));
        }
        assert forall|a: int, b: int| 0 <= a < b < rest.len() implies !overlap(
            #[trigger] rest[a].positions,
            #[trigger] rest[b].positions,
        ) by {
            assert(!overlap(taken[a].positions, taken[b].positions));
        }
        lemma_claimed_counted(grid, rest);
        let before = claimed_positions(rest);
        let last = taken.last().positions;
        let all = before + last;
        assert(counted_match(grid, taken[taken.len() - 1]));
        assert forall|i: int, j: int| 0 <= i < all.len() && 0 <= j < all.len() && i != j implies all[i]
            != all[j] by {
            if i < before.len() && j < before.len() {
                assert(before[i] != before[j]);
            } else if i >= before.len() && j >= before.len() {
                assert(last[i - before.len()] != last[j - before.len()]);
            } else {
                let (low, high) = if i < j {
                    (i, j)
                } else {
                    (j, i)
                };
                if all[low] == all[high] {
                    let pos = before[low];
                    assert(before.contains(pos));
                    lemma_claimed_member(rest, pos);
                    let k = choose|k: int|
                        0 <= k < rest.len() && (#[trigger] rest[k]).positions.contains(pos);
                    let n = choose|n: int|
                        0 <= n < rest[k].positions.len() && rest[k].positions[n] == pos;
                    assert(taken[k].positions[n] == last[high - before.len()]);
                    assert(overlap(taken[k].positions, taken[taken.len() - 1].positions));
                }
            }
        }
        assert forall|i: int| 0 <= i < all.len() implies grid.in_grid(#[trigger] all[i])
            && grid.cells[all[i]] is Letter by {
            if i < before.len() {
                assert(all[i] == before[i]);
            } else {
                assert(all[i] == last[i - before.len()]);
            }
        }
        assert(LETTER_WORTH * all.len() == LETTER_WORTH * before.len() + LETTER_WORTH * last.len())
            by (nonlinear_arith)
            requires
                all.len() == before.len() + last.len(),
        ;
    }
}

impl GridView {
    /// How many cells of the grid hold a letter.
    pub open spec fn letters_on(&self) -> int {
        self.width * self.height - self.empty_positions().len()
    }

    /// Emptying cells that hold letters, none of them twice, leaves as many
    /// letters fewer on the grid.
    pub proof fn lemma_cleared_letters(&self, positions: Seq<Position>)
        requires
            self.wf(),
            positions.no_duplicates(),
            forall|i: int|
                0 <= i < positions.len() ==> self.in_grid(#[trigger] positions[i])
                    && self.cells[positions[i]] is Letter,
        ensures
            self.cleared(positions).wf(),
            self.cleared(positions).letters_on() == self.letters_on() - positions.len(),
        decreases positions.len(),
    {
        let cleared = self.cleared(positions);
        assert forall|pos: Position| cleared.cells.dom().contains(pos) <==> cleared.in_grid(
            pos,
        ) by {}
        if positions.len() == 0 {
            assert forall|pos: Position| #[trigger] cleared.cells.dom().contains(pos) implies cleared.cells[pos]
                == self.cells[pos] by {
                assert(!positions.contains(pos));
            }
            assert(cleared.cells.dom() =~= self.cells.dom());
            assert(cleared.cells =~= self.cells);
            assert(cleared == *self);
        } else {
            let rest = positions.drop_last();
            let last = positions.last();
            assert forall|i: int| 0 <= i < rest.len() implies self.in_grid(#[trigger] rest[i])
                && self.cells[rest[i]] is Letter by {
                assert(rest[i] == positions[i]);
            }
            assert forall|i: int, j: int|
                0 <= i < rest.len() && 0 <= j < rest.len() && i != j implies rest[i] != rest[j] by {
                assert(positions[i] != positions[j]);
            }
            self.lemma_cleared_letters(rest);
            assert(positions =~= rest.push(last));
            self.lemma_cleared_push(rest, last);
            if rest.contains(last) {
                let i = choose|i: int| 0 <= i < rest.len() && rest[i] == last;
                assert(positions[i] == positions[positions.len() - 1]);
            }
            assert(self.in_grid(positions[positions.len() - 1]));
            assert(self.cleared(rest).cells[last] == self.cells[last]);
            self.cleared(rest).lemma_put_empties(last, Cell::Empty, self.width as int);
        }
    }

    /// Two cells that change places leave as many letters on the grid.
    pub proof fn lemma_swap_letters(&self, a: Position, b: Position)
        requires
            self.wf(),
            self.in_grid(a),
            self.in_grid(b),
        ensures
            self.put(a, self.cells[b]).put(b, self.cells[a]).wf(),
            self.put(a, self.cells[b]).put(b, self.cells[a]).letters_on() == self.letters_on(),
    {
        let first = self.put(a, self.cells[b]);
        self.lemma_put_wf(a, self.cells[b]);
        first.lemma_put_wf(b, self.cells[a]);
        self.lemma_put_empties(a, self.cells[b], self.width as int);
        first.lemma_put_empties(b, self.cells[a], self.width as int);
    }

    /// A letter put in an empty cell leaves one letter more on the grid.
    pub proof fn lemma_put_letter_on(&self, pos: Position, letter: LetterIndex)
        requires
            self.wf(),
            self.in_grid(pos),
            self.cells[pos] == Cell::Empty,
        ensures
            self.put(pos, Cell::Letter(letter)).wf(),
            self.put(pos, Cell::Letter(letter)).letters_on() == self.letters_on() + 1,
    {
        self.lemma_put_wf(pos, Cell::Letter(letter));
        self.lemma_put_empties(pos, Cell::Letter(letter), self.width as int);
    }
}

/// Every shuffle of the generator keeps the items, each as often as before.
pub open spec fn shuffles_keep_items() -> bool {
    forall|key: Seq<u8>, word_pos: u128, items: Seq<u8>|
        (#[trigger] chacha_shuffled(key, word_pos, items)).0.to_multiset() == items.to_multiset()
}

impl GameModel {
    /// How many letters are still to be played.
    pub open spec fn in_store(self) -> int {
        3 * (self.triplets.len() - self.triplets_current_index)
    }

    /// The score, and what the letters on the grid and in store can add to
    /// it at most.
    pub open spec fn potential(self) -> int {
        self.score + LETTER_WORTH * (self.grid.letters_on() + self.in_store())
    }

    /// The parts of the game fit together.
    pub open spec fn sound(self) -> bool {
        &&& self.grid.wf()
        &&& scores_fit(self.letters)
        &&& self.triplets.len() <= 255
        &&& self.triplets_current_index <= self.triplets.len()
        &&& match self.path_from {
            Some(pos) => self.grid.in_grid(pos),
            None => true,
        }
    }

    /// The parts of the game fit together, and the score cannot outgrow
    /// `SCORE_LIMIT`.
    pub open spec fn within_budget(self) -> bool {
        self.sound() && self.potential() <= SCORE_LIMIT
    }

    /// A letter placed can add `LETTER_WORTH` to the score at most.
    pub proof fn lemma_place_letter_budget(self, letter: LetterIndex)
        requires
            draws_in_range(),
            self.sound(),
        ensures
            self.place_letter(letter).0.sound(),
            self.place_letter(letter).0.grid.same_size(self.grid),
            self.place_letter(letter).0.potential() <= self.potential() + LETTER_WORTH,
            self.place_letter(letter).0.grid.letters_on() >= 0,
    {
        let empties = self.grid.empty_positions();
        self.grid.lemma_empties_bound(self.grid.width as int);
        if empties.len() > 0 {
            let drawn = chacha_draw(self.key, self.word_pos, empties.len() as usize);
            let pos = empties[drawn.0 as int];
            assert(empties.contains(pos));
            self.grid.lemma_empty_positions(pos);
            self.grid.lemma_put_letter_on(pos, letter);
            assert(LETTER_WORTH * (self.grid.letters_on() + 1 + self.in_store()) == LETTER_WORTH * (
            self.grid.letters_on() + self.in_store()) + LETTER_WORTH) by (nonlinear_arith);
        }
    }

    /// Taking the words off adds their worth to the score, which stays
    /// below its cap, and adds nothing to what the score can become.
    pub proof fn lemma_remove_words_budget(self, dictionary: &Dictionary)
        requires
            self.sound(),
            self.potential() <= u16::MAX,
        ensures
            self.remove_words(dictionary).sound(),
            self.remove_words(dictionary).grid.same_size(self.grid),
            self.remove_words(dictionary).potential() <= self.potential(),
            self.remove_words(dictionary).score == self.score + total_score(
                self.grid.words_taken(dictionary, self.letters, self.golden_word),
            ),
    {
        let taken = self.grid.words_taken(dictionary, self.letters, self.golden_word);
        lemma_words_taken_counted(self.grid, dictionary, self.letters, self.golden_word);
        lemma_claimed_counted(self.grid, taken);
        let positions = claimed_positions(taken);
        self.grid.lemma_cleared_letters(positions);
        self.grid.lemma_empties_bound(self.grid.width as int);
        self.grid.cleared(positions).lemma_empties_bound(self.grid.width as int);
        assert(LETTER_WORTH * (self.grid.letters_on() + self.in_store()) == LETTER_WORTH * (
        self.grid.letters_on() - positions.len() + self.in_store()) + LETTER_WORTH
            * positions.len()) by (nonlinear_arith);
        assert(0 <= LETTER_WORTH * (self.grid.letters_on() - positions.len() + self.in_store()))
            by (nonlinear_arith)
            requires
                self.grid.letters_on() - positions.len() >= 0,
                self.in_store() >= 0,
        ;
    }

    /// Letters placed one after the other can add `LETTER_WORTH` each to
    /// the score at most.
    pub proof fn lemma_place_letters_budget(
        self,
        dictionary: &Dictionary,
        letters: Seq<LetterIndex>,
    )
        requires
            draws_in_range(),
            self.sound(),
            self.potential() + LETTER_WORTH * letters.len() <= u16::MAX,
        ensures
            self.place_letters(dictionary, letters).0.sound(),
            self.place_letters(dictionary, letters).0.grid.same_size(self.grid),
            self.place_letters(dictionary, letters).0.potential() <= self.potential()
                + LETTER_WORTH * letters.len(),
            self.place_letters(dictionary, letters).0.state == self.state,
            self.place_letters(dictionary, letters).0.triplets == self.triplets,
            self.place_letters(dictionary, letters).0.triplets_current_index
                == self.triplets_current_index,
        decreases letters.len(),
    {
        if letters.len() > 0 {
            self.lemma_place_letter_budget(letters[0]);
            let placed = self.place_letter(letters[0]);
            assert(LETTER_WORTH * letters.len() == LETTER_WORTH + LETTER_WORTH
                * letters.drop_first().len()) by (nonlinear_arith)
                requires
                    letters.len() == letters.drop_first().len() + 1,
            ;
            assert(0 <= LETTER_WORTH * letters.drop_first().len()) by (nonlinear_arith);
            if placed.1 {
                placed.0.lemma_remove_words_budget(dictionary);
                placed.0.remove_words(dictionary).lemma_place_letters_budget(
                    dictionary,
                    letters.drop_first(),
                );
            }
        } else {
            assert(LETTER_WORTH * letters.len() == 0) by (nonlinear_arith)
                requires
                    letters.len() == 0,
            ;
        }
    }

    /// Placing the next triplet adds nothing to what the score can become.
    pub proof fn lemma_place_new_triplets_budget(self, dictionary: &Dictionary)
        requires
            draws_in_range(),
            self.within_budget(),
        ensures
            self.place_new_triplets(dictionary).0.within_budget(),
            self.place_new_triplets(dictionary).0.grid.same_size(self.grid),
    {
        if self.triplets_current_index < self.triplets.len() {
            let triplet = self.triplets[self.triplets_current_index as int];
            let next = GameModel {
                triplets_current_index: (self.triplets_current_index + 1) as u8,
                ..self
            };
            let letters = seq![triplet.0, triplet.1, triplet.2];
            assert(next.potential() + LETTER_WORTH * 3 == self.potential()) by (nonlinear_arith)
                requires
                    next.potential() == self.score + LETTER_WORTH * (self.grid.letters_on() + 3
                        * (self.triplets.len() - self.triplets_current_index - 1)),
                    self.potential() == self.score + LETTER_WORTH * (self.grid.letters_on() + 3
                        * (self.triplets.len() - self.triplets_current_index)),
            ;
            next.lemma_place_letters_budget(dictionary, letters);
        }
    }

    /// A click adds nothing to what the score can become.
    pub proof fn lemma_click_budget(self, dictionary: &Dictionary, pos: Position)
        requires
            draws_in_range(),
            self.within_budget(),
            self.grid.in_grid(pos),
        ensures
            self.click(dictionary, pos).0.within_budget(),
            self.click(dictionary, pos).0.grid.same_size(self.grid),
    {
        match self.path_from {
            Some(from) => {
                if pos != from && self.grid.connected(pos, from) {
                    self.grid.lemma_swap_letters(from, pos);
                    let swapped = GameModel {
                        grid: self.grid.put(from, self.grid.cells[pos]).put(
                            pos,
                            self.grid.cells[from],
                        ),
                        path_from: None,
                        path_to: None,
                        ..self
                    };
                    swapped.lemma_remove_words_budget(dictionary);
                    let moved = swapped.remove_words(dictionary);
                    if moved.remaining_ms == 0 {
                        moved.lemma_place_new_triplets_budget(dictionary);
                    }
                }
            },
            None => {},
        }
    }

    /// Clicks add nothing to what the score can become.
    pub proof fn lemma_run_clicks_budget(self, dictionary: &Dictionary, clicks: Seq<Position>)
        requires
            draws_in_range(),
            self.within_budget(),
            forall|i: int| 0 <= i < clicks.len() ==> self.grid.in_grid(#[trigger] clicks[i]),
        ensures
            self.run_clicks(dictionary, clicks).0.within_budget(),
            self.run_clicks(dictionary, clicks).0.grid.same_size(self.grid),
        decreases clicks.len(),
    {
        if clicks.len() > 0 {
            self.lemma_click_budget(dictionary, clicks[0]);
            let clicked = self.click(dictionary, clicks[0]);
            if !clicked.1 {
                assert forall|i: int| 0 <= i < clicks.drop_first().len() implies clicked.0.grid.in_grid(
                    #[trigger] clicks.drop_first()[i],
                ) by {
                    assert(self.grid.in_grid(clicks[i + 1]));
                }
                clicked.0.lemma_run_clicks_budget(dictionary, clicks.drop_first());
            }
        }
    }

    /// In a game whose score cannot outgrow `SCORE_LIMIT`, the words taken
    /// off add exactly their worth to the score: the cap is never reached.
    pub proof fn lemma_score_exact(self, dictionary: &Dictionary)
        requires
            self.within_budget(),
        ensures
            self.remove_words(dictionary).score == self.score + total_score(
                self.grid.words_taken(dictionary, self.letters, self.golden_word),
            ),
            self.remove_words(dictionary).within_budget(),
    {
        self.lemma_remove_words_budget(dictionary);
    }

    /// A tick leaves a game whose score cannot outgrow `SCORE_LIMIT` such a
    /// game: whatever is played, the score stays below it.
    pub proof fn lemma_tick_within_budget(
        self,
        dictionary: &Dictionary,
        delta_ms: u32,
        clicks: Seq<Position>,
        hovered: Option<Position>,
    )
        requires
            draws_in_range(),
            self.within_budget(),
            forall|i: int| 0 <= i < clicks.len() ==> self.grid.in_grid(#[trigger] clicks[i]),
        ensures
            self.tick(dictionary, delta_ms, clicks, hovered).within_budget(),
            self.tick(dictionary, delta_ms, clicks, hovered).grid.same_size(self.grid),
            self.tick(dictionary, delta_ms, clicks, hovered).score <= SCORE_LIMIT,
    {
        self.grid.lemma_empties_bound(self.grid.width as int);
        if self.state != GameState::Finished {
            let timed = GameModel {
                remaining_ms: if self.remaining_ms >= delta_ms {
                    (self.remaining_ms - delta_ms) as u32
                } else {
                    0
                },
                ..self
            };
            if timed.remaining_ms == 0 {
                timed.lemma_place_new_triplets_budget(dictionary);
            }
            let placed = if timed.remaining_ms == 0 {
                timed.place_new_triplets(dictionary)
            } else {
                (timed, false)
            };
            if !placed.1 {
                placed.0.lemma_run_clicks_budget(dictionary, clicks);
            }
        }
        let after = self.tick(dictionary, delta_ms, clicks, hovered);
        after.grid.lemma_empties_bound(after.grid.width as int);
        assert(0 <= LETTER_WORTH * (after.grid.letters_on() + after.in_store())) by (nonlinear_arith)
            requires
                after.grid.letters_on() >= 0,
                after.in_store() >= 0,
        ;
    }
}

/// The letters that start on the grid leave no more letters on it than
/// they are.
pub proof fn lemma_initial_grid_letters(
    grid: GridView,
    key: Seq<u8>,
    word_pos: u128,
    letters: Seq<LetterIndex>,
)
    requires
        draws_in_range(),
        grid.wf(),
    ensures
        initial_grid(grid, key, word_pos, letters).0.wf(),
        initial_grid(grid, key, word_pos, letters).0.letters_on() <= grid.letters_on()
            + letters.len(),
    decreases letters.len(),
{
    if letters.len() > 0 {
        let empties = grid.empty_positions();
        grid.lemma_empties_bound(grid.width as int);
        if empties.len() == 0 {
            lemma_initial_grid_letters(grid, key, word_pos, letters.drop_first());
        } else {
            let drawn = chacha_draw(key, word_pos, empties.len() as usize);
            let pos = empties[drawn.0 as int];
            assert(empties.contains(pos));
            grid.lemma_empty_positions(pos);
            grid.lemma_put_letter_on(pos, letters[0]);
            lemma_initial_grid_letters(
                grid.put(pos, Cell::Letter(letters[0])),
                key,
                drawn.1,
                letters.drop_first(),
            );
        }
    }
}

/// The score of a new game cannot outgrow `SCORE_LIMIT`: the letters of a
/// game are two hundred, and each can be taken off once.
pub proof fn lemma_start_within_budget(
    clock_ms: u32,
    grid_width: GridSize,
    grid_height: GridSize,
    seed: u32,
    letters: Seq<LetterConfig>,
    dictionary: &Dictionary,
)
    requires
        draws_in_range(),
        shuffles_keep_items(),
        scores_fit(letters),
        crate::lexicon::repartition_total(letters) == crate::lexicon::NUMBER_OF_LETTERS,
    ensures
        GameModel::start(clock_ms, grid_width, grid_height, seed, letters, dictionary).within_budget(),
{
    let key = crate::generator::seed_key(seed);
    let pool = crate::lexicon::expanded_pool(letters);
    let shuffled = chacha_shuffled(key, 0, pool);
    crate::lexicon::lemma_expanded_pool_len(letters);
    shuffled.0.to_multiset_ensures();
    pool.to_multiset_ensures();
    let drawn = chacha_draw(key, shuffled.1, dictionary.six_letter_words().len() as usize);
    let blank = GridView::blank(grid_width, grid_height);
    GridView::lemma_blank_empties(grid_width, grid_height, grid_width as int);
    assert(blank.wf());
    lemma_initial_grid_letters(blank, key, drawn.1, crate::lexicon::pool_initial(shuffled.0));
    let game = GameModel::start(clock_ms, grid_width, grid_height, seed, letters, dictionary);
    assert(game.triplets.len() == 64);
    assert(LETTER_WORTH * (game.grid.letters_on() + 192) <= SCORE_LIMIT) by (nonlinear_arith)
        requires
            game.grid.letters_on() <= 8,
            LETTER_WORTH == 324,
            SCORE_LIMIT == 64800,
    ;
}

} // verus!
