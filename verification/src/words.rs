//! Words on the grid: where they are, which of them are taken, and how
//! they are taken off.

use crate::dictionary::dictionary_known;
use crate::dictionary::Dictionary;
use crate::grid::direction_at;
use crate::grid::Cell;
use crate::grid::Direction;
use crate::grid::Grid;
use crate::grid::GridView;
use crate::grid::MaybePosition;
use crate::grid::Position;
use crate::lexicon::scores_fit;
use crate::lexicon::word_score;
use crate::lexicon::LetterConfig;
use crate::lexicon::LetterIndex;
use crate::lexicon::LettersTable;
use crate::lexicon::Word;
use crate::lexicon::WORD_MAX_LENGTH;
use crate::lexicon::WORD_MIN_LENGTH;
use crate::paths::position_at;
use vstd::prelude::*;

verus! {

/// A word found on the grid.
#[derive(Debug)]
pub struct Match {
    /// The word.
    pub word: Word,
    /// What the word is worth.
    pub score: u16,
    /// Where the letters of the word are, in reading order.
    pub positions: Vec<Position>,
}

/// A word found on the grid, as plain values.
pub struct MatchView {
    /// The letters of the word.
    pub word: Seq<LetterIndex>,
    /// What the word is worth.
    pub score: u16,
    /// Where the letters of the word are, in reading order.
    pub positions: Seq<Position>,
}

impl View for Match {
    type V = MatchView;

    open spec fn view(&self) -> MatchView {
        MatchView { word: self.word@, score: self.score, positions: self.positions@ }
    }
}

impl Clone for Match {
    fn clone(&self) -> (copy: Match)
        ensures
            copy@ == self@,
    {
        let mut positions: Vec<Position> = Vec::new();
        let mut i: usize = 0;
        while i < self.positions.len()
            invariant
                i <= self.positions@.len(),
                positions@ == self.positions@.take(i as int),
            decreases self.positions@.len() - i,
        {
            positions.push(self.positions[i]);
            assert(positions@ =~= self.positions@.take(i + 1));
            i = i + 1;
        }
        assert(positions@ =~= self.positions@);
        Match { word: self.word.clone(), score: self.score, positions }
    }
}

/// The matches of `matches` as plain values.
pub open spec fn views(matches: Seq<Match>) -> Seq<MatchView> {
    matches.map_values(|m: Match| m@)
}

/// The coordinates `k` steps from `pos` in direction `dir`.
pub open spec fn ray(pos: Position, dir: Direction, k: int) -> MaybePosition {
    match dir {
        Direction::N => MaybePosition { x: pos.x as i16, y: (pos.y - k) as i16 },
        Direction::E => MaybePosition { x: (pos.x + k) as i16, y: pos.y as i16 },
        Direction::S => MaybePosition { x: pos.x as i16, y: (pos.y + k) as i16 },
        Direction::O => MaybePosition { x: (pos.x - k) as i16, y: pos.y as i16 },
    }
}

/// The first `len` positions from `pos` on in direction `dir`.
pub open spec fn run_positions(pos: Position, dir: Direction, len: int) -> Seq<Position> {
    Seq::new(len as nat, |k: int| position_at(ray(pos, dir, k)))
}

/// The longest start of `letters`, of at most `len` letters, that is a word
/// of `dictionary`; zero if none is.
pub open spec fn best_length(dictionary: &Dictionary, letters: Seq<LetterIndex>, len: int) -> int
    decreases len,
{
    if len < WORD_MIN_LENGTH {
        0
    } else if dictionary.spec_contains(letters.take(len)) {
        len
    } else {
        best_length(dictionary, letters, len - 1)
    }
}

impl GridView {
    /// Whether the cell `k` steps from `pos` in direction `dir` is on the
    /// grid and holds a letter.
    pub open spec fn letter_ahead(&self, pos: Position, dir: Direction, k: int) -> bool {
        self.holds(ray(pos, dir, k)) && self.cells[position_at(ray(pos, dir, k))] is Letter
    }

    /// The length of the run of letters that starts at `pos` and goes in
    /// direction `dir`, given that it has at least `k` letters: it ends
    /// before the first cell that is off the grid or empty, and after eight
    /// letters at the latest.
    pub open spec fn run_length(&self, pos: Position, dir: Direction, k: int) -> int
        decreases WORD_MAX_LENGTH - k,
    {
        if k >= WORD_MAX_LENGTH {
            WORD_MAX_LENGTH as int
        } else if self.letter_ahead(pos, dir, k) {
            self.run_length(pos, dir, k + 1)
        } else {
            k
        }
    }

    /// The first `len` letters of the run that starts with `letter` at `pos`
    /// and goes in direction `dir`.
    pub open spec fn run_letters(
        &self,
        pos: Position,
        letter: LetterIndex,
        dir: Direction,
        len: int,
    ) -> Seq<LetterIndex> {
        Seq::new(
            len as nat,
            |k: int|
                if k == 0 {
                    letter
                } else {
                    self.cells[position_at(ray(pos, dir, k))]->Letter_0
                },
        )
    }

    /// The word read from `pos` in direction `dir`: the longest start of the
    /// run of letters there that is a word of the dictionary, if any is.
    pub open spec fn candidate(
        &self,
        pos: Position,
        letter: LetterIndex,
        dir: Direction,
        dictionary: &Dictionary,
        letters: Seq<LetterConfig>,
        golden: Seq<LetterIndex>,
    ) -> Seq<MatchView> {
        let run = self.run_length(pos, dir, 1);
        let read = self.run_letters(pos, letter, dir, run);
        let len = best_length(dictionary, read, run);
        if len == 0 {
            Seq::empty()
        } else {
            seq![
                MatchView {
                    word: read.take(len),
                    score: word_score(letters, read.take(len), golden) as u16,
                    positions: run_positions(pos, dir, len),
                },
            ]
        }
    }
}

impl Grid {
    /// The run of letters from `pos` in direction `dir`: its positions and
    /// its letters, the letter at `pos` being `letter`.
    fn read_run(&self, pos: Position, letter: LetterIndex, dir: Direction) -> (run: (
        Vec<Position>,
        Vec<LetterIndex>,
    ))
        requires
            self.wf(),
            self@.in_grid(pos),
        ensures
            run.0@ == run_positions(pos, dir, self@.run_length(pos, dir, 1)),
            run.1@ == self@.run_letters(pos, letter, dir, self@.run_length(pos, dir, 1)),
            1 <= self@.run_length(pos, dir, 1) <= WORD_MAX_LENGTH,
            forall|k: int| 0 <= k < run.0@.len() ==> self@.in_grid(#[trigger] run.0@[k]),
    {
        let mut positions: Vec<Position> = Vec::new();
        positions.push(pos);
        let mut letters: Vec<LetterIndex> = Vec::new();
        letters.push(letter);
        let mut current = pos;
        let mut going = true;
        assert(positions@ =~= run_positions(pos, dir, 1));
        assert(letters@ =~= self@.run_letters(pos, letter, dir, 1));
        while going && positions.len() < WORD_MAX_LENGTH
            invariant
                self.wf(),
                1 <= positions@.len() <= WORD_MAX_LENGTH,
                positions@ == run_positions(pos, dir, positions@.len() as int),
                letters@ == self@.run_letters(pos, letter, dir, positions@.len() as int),
                self@.holds(ray(pos, dir, positions@.len() - 1)),
                current == position_at(ray(pos, dir, positions@.len() - 1)),
                forall|k: int| 0 <= k < positions@.len() ==> self@.in_grid(#[trigger] positions@[k]),
                going ==> self@.run_length(pos, dir, positions@.len() as int) == self@.run_length(
                    pos,
                    dir,
                    1,
                ),
                !going ==> positions@.len() == self@.run_length(pos, dir, 1),
            decreases
                    (if going {
                        1int
                    } else {
                        0int
                    }) + WORD_MAX_LENGTH - positions@.len(),
        {
            let ghost len = positions@.len() as int;
            let to_check = MaybePosition::new(&current, &dir);
            assert(to_check == ray(pos, dir, len));
            match self.is_in_grid(to_check) {
                None => {
                    going = false;
                },
                Some(next) => {
                    match self.cell(&next) {
                        Cell::Empty => {
                            going = false;
                        },
                        Cell::Letter(c) => {
                            positions.push(next);
                            letters.push(c);
                            current = next;
                            assert(positions@ =~= run_positions(pos, dir, len + 1));
                            assert(letters@ =~= self@.run_letters(pos, letter, dir, len + 1));
                        },
                    }
                },
            }
        }
        (positions, letters)
    }
}

impl GridView {
    /// The words read from `pos` in the first `count` directions, in the
    /// order of the directions.
    pub open spec fn candidates_at(
        &self,
        pos: Position,
        letter: LetterIndex,
        count: int,
        dictionary: &Dictionary,
        letters: Seq<LetterConfig>,
        golden: Seq<LetterIndex>,
    ) -> Seq<MatchView>
        decreases count,
    {
        if count <= 0 {
            Seq::empty()
        } else {
            self.candidates_at(pos, letter, count - 1, dictionary, letters, golden)
                + self.candidate(pos, letter, direction_at(count - 1), dictionary, letters, golden)
        }
    }

    /// The words read from the cell at `pos`: those in its four directions
    /// if it holds a letter, none if it is empty.
    pub open spec fn cell_candidates(
        &self,
        pos: Position,
        dictionary: &Dictionary,
        letters: Seq<LetterConfig>,
        golden: Seq<LetterIndex>,
    ) -> Seq<MatchView> {
        match self.cells[pos] {
            Cell::Letter(letter) => self.candidates_at(pos, letter, 4, dictionary, letters, golden),
            Cell::Empty => Seq::empty(),
        }
    }

    /// The words read from the first `columns` cells of row `y`.
    pub open spec fn row_candidates(
        &self,
        y: int,
        columns: int,
        dictionary: &Dictionary,
        letters: Seq<LetterConfig>,
        golden: Seq<LetterIndex>,
    ) -> Seq<MatchView>
        decreases columns,
    {
        if columns <= 0 {
            Seq::empty()
        } else {
            self.row_candidates(y, columns - 1, dictionary, letters, golden) + self.cell_candidates(
                Position { x: (columns - 1) as u8, y: y as u8 },
                dictionary,
                letters,
                golden,
            )
        }
    }

    /// The words read from the cells of the first `rows` rows.
    pub open spec fn candidates_before(
        &self,
        rows: int,
        dictionary: &Dictionary,
        letters: Seq<LetterConfig>,
        golden: Seq<LetterIndex>,
    ) -> Seq<MatchView>
        decreases rows,
    {
        if rows <= 0 {
            Seq::empty()
        } else {
            self.candidates_before(rows - 1, dictionary, letters, golden) + self.row_candidates(
                rows - 1,
                self.width as int,
                dictionary,
                letters,
                golden,
            )
        }
    }

    /// Every word that can be read on the grid from a letter in one of the
    /// four directions, the longest only for each letter and direction: row
    /// by row, cell by cell within a row, direction by direction for a cell.
    pub open spec fn all_candidates(
        &self,
        dictionary: &Dictionary,
        letters: Seq<LetterConfig>,
        golden: Seq<LetterIndex>,
    ) -> Seq<MatchView> {
        self.candidates_before(self.height as int, dictionary, letters, golden)
    }
}

impl Grid {
    /// The word read from `pos` in direction `dir`, where the cell at `pos`
    /// holds `letter`: the longest start of the run of letters there that is
    /// a word of the dictionary. At most one word is returned.
    pub fn find_words_in_one_direction_from(
        &self,
        pos: Position,
        letter: LetterIndex,
        dir: Direction,
        dictionary: &Dictionary,
        letter_table: &LettersTable,
        golden_word: &Word,
    ) -> (matches: Vec<Match>)
        requires
            self.wf(),
            self@.in_grid(pos),
            scores_fit(letter_table@),
            dictionary_known(dictionary, letter_table@),
        ensures
            views(matches@) == self@.candidate(
                pos,
                letter,
                dir,
                dictionary,
                letter_table@,
                golden_word@,
            ),
            sound_matches(self@, dictionary, views(matches@)),
    {
        let mut matches: Vec<Match> = Vec::new();
        let run = self.read_run(pos, letter, dir);
        let mut positions = run.0;
        let mut letters = run.1;
        let ghost full = self@.run_length(pos, dir, 1);
        let ghost read = self@.run_letters(pos, letter, dir, full);
        assert(read.take(full) =~= read);
        while positions.len() >= WORD_MIN_LENGTH
            invariant
                positions@.len() <= full <= WORD_MAX_LENGTH,
                read.len() == full,
                positions@ == run_positions(pos, dir, positions@.len() as int),
                letters@ == read.take(positions@.len() as int),
                best_length(dictionary, read, full) == best_length(
                    dictionary,
                    read,
                    positions@.len() as int,
                ),
                forall|k: int| 0 <= k < positions@.len() ==> self@.in_grid(#[trigger] positions@[k]),
                scores_fit(letter_table@),
                dictionary_known(dictionary, letter_table@),
                matches@.len() == 0,
                read == self@.run_letters(pos, letter, dir, full),
                full == self@.run_length(pos, dir, 1),
            decreases positions@.len(),
        {
            let ghost len = positions@.len() as int;
            let word = Word::new(letters.clone()).unwrap();
            if dictionary.contains(&word) {
                let score = word.score(letter_table, golden_word).unwrap();
                matches.push(Match { word, score, positions });
                proof {
                    assert(views(matches@) =~= self@.candidate(
                        pos,
                        letter,
                        dir,
                        dictionary,
                        letter_table@,
                        golden_word@,
                    ));
                }
                return matches;
            }
            positions.pop();
            letters.pop();
            proof {
                assert(positions@ =~= run_positions(pos, dir, len - 1));
                assert(letters@ =~= read.take(len - 1));
            }
        }
        proof {
            assert(views(matches@) =~= self@.candidate(
                pos,
                letter,
                dir,
                dictionary,
                letter_table@,
                golden_word@,
            ));
        }
        matches
    }
}

/// The word of the match `found` is a word of `dictionary`, and every
/// position of the match is on `grid`.
pub open spec fn sound_match(grid: GridView, dictionary: &Dictionary, found: MatchView) -> bool {
    &&& dictionary.spec_contains(found.word)
    &&& forall|i: int| 0 <= i < found.positions.len() ==> grid.in_grid(#[trigger] found.positions[i])
}

/// The word of every match of `matches` is a word of `dictionary`, and
/// every position of every match is on `grid`.
pub open spec fn sound_matches(grid: GridView, dictionary: &Dictionary, matches: Seq<MatchView>) -> bool {
    forall|k: int| 0 <= k < matches.len() ==> sound_match(grid, dictionary, #[trigger] matches[k])
}

/// Puts the matches of `more` behind those of `matches`.
fn append_matches(matches: &mut Vec<Match>, more: Vec<Match>)
    ensures
        views(final(matches)@) == views(old(matches)@) + views(more@),
{
    let mut more = more;
    let ghost added = more@;
    matches.append(&mut more);
    assert(views(matches@) =~= views(old(matches)@) + views(added));
}

impl Grid {
    /// The words read from `pos` in the four directions, where the cell at
    /// `pos` holds `letter`.
    pub fn find_words_from(
        &self,
        pos: Position,
        letter: LetterIndex,
        dictionary: &Dictionary,
        letter_table: &LettersTable,
        golden_word: &Word,
    ) -> (matches: Vec<Match>)
        requires
            self.wf(),
            self@.in_grid(pos),
            scores_fit(letter_table@),
            dictionary_known(dictionary, letter_table@),
        ensures
            views(matches@) == self@.candidates_at(
                pos,
                letter,
                4,
                dictionary,
                letter_table@,
                golden_word@,
            ),
            sound_matches(self@, dictionary, views(matches@)),
    {
        let directions = Direction::all();
        let mut matches: Vec<Match> = Vec::new();
        let mut k: usize = 0;
        assert(views(matches@) =~= Seq::<MatchView>::empty());
        while k < 4
            invariant
                k <= 4,
                self.wf(),
                self@.in_grid(pos),
                scores_fit(letter_table@),
                dictionary_known(dictionary, letter_table@),
                directions@.len() == 4,
                forall|j: int| 0 <= j < 4 ==> directions@[j] == direction_at(j),
                views(matches@) == self@.candidates_at(
                    pos,
                    letter,
                    k as int,
                    dictionary,
                    letter_table@,
                    golden_word@,
                ),
                sound_matches(self@, dictionary, views(matches@)),
            decreases 4 - k,
        {
            let matches_in_direction = self.find_words_in_one_direction_from(
                pos,
                letter,
                directions[k],
                dictionary,
                letter_table,
                golden_word,
            );
            let ghost before = views(matches@);
            let ghost added = views(matches_in_direction@);
            append_matches(&mut matches, matches_in_direction);
            proof {
                lemma_sound_matches_add(self@, dictionary, before, added);
            }
            k = k + 1;
        }
        matches
    }

    /// Every word that can be read on the grid from a letter in one of the
    /// four directions, the longest only for each letter and direction.
    pub fn find_words(
        &self,
        dictionary: &Dictionary,
        letter_table: &LettersTable,
        golden_word: &Word,
    ) -> (matches: Vec<Match>)
        requires
            self.wf(),
            scores_fit(letter_table@),
            dictionary_known(dictionary, letter_table@),
        ensures
            views(matches@) == self@.all_candidates(dictionary, letter_table@, golden_word@),
            sound_matches(self@, dictionary, views(matches@)),
    {
        let mut matches: Vec<Match> = Vec::new();
        let width = self.width();
        let height = self.height();
        let mut y: u8 = 0;
        assert(views(matches@) =~= Seq::<MatchView>::empty());
        while y < height
            invariant
                y <= height,
                width == self.spec_width(),
                height == self.spec_height(),
                self.wf(),
                scores_fit(letter_table@),
                dictionary_known(dictionary, letter_table@),
                views(matches@) == self@.candidates_before(
                    y as int,
                    dictionary,
                    letter_table@,
                    golden_word@,
                ),
                sound_matches(self@, dictionary, views(matches@)),
            decreases height - y,
        {
            let ghost above = views(matches@);
            let mut x: u8 = 0;
            assert(above + Seq::<MatchView>::empty() =~= above);
            while x < width
                invariant
                    x <= width,
                    y < height,
                    width == self.spec_width(),
                    height == self.spec_height(),
                    self.wf(),
                    scores_fit(letter_table@),
                    dictionary_known(dictionary, letter_table@),
                    views(matches@) == above + self@.row_candidates(
                        y as int,
                        x as int,
                        dictionary,
                        letter_table@,
                        golden_word@,
                    ),
                    sound_matches(self@, dictionary, views(matches@)),
                decreases width - x,
            {
                let pos = Position::new(x, y);
                let ghost before = views(matches@);
                match self.cell(&pos) {
                    Cell::Letter(letter) => {
                        let matches_from_pos = self.find_words_from(
                            pos,
                            letter,
                            dictionary,
                            letter_table,
                            golden_word,
                        );
                        let ghost added = views(matches_from_pos@);
                        append_matches(&mut matches, matches_from_pos);
                        proof {
                            lemma_sound_matches_add(self@, dictionary, before, added);
                        }
                    },
                    Cell::Empty => {},
                }
                proof {
                    assert(views(matches@) =~= above + self@.row_candidates(
                        y as int,
                        x + 1,
                        dictionary,
                        letter_table@,
                        golden_word@,
                    ));
                }
                x = x + 1;
            }
            y = y + 1;
        }
        matches
    }
}

/// Two lists of sound matches make one such list.
pub proof fn lemma_sound_matches_add(grid: GridView, dictionary: &Dictionary, a: Seq<MatchView>, b: Seq<MatchView>)
    requires
        sound_matches(grid, dictionary, a),
        sound_matches(grid, dictionary, b),
    ensures
        sound_matches(grid, dictionary, a + b),
{
    assert forall|k: int| 0 <= k < (a + b).len() implies sound_match(
        grid, dictionary,
        #[trigger] (a + b)[k],
    ) by {
        if k < a.len() {
            assert(sound_match(grid, dictionary, a[k]));
        } else {
            assert(sound_match(grid, dictionary, b[k - a.len()]));
        }
    }
}

/// How many matches at the start of `sorted` are worth at least `score`.
pub open spec fn rank(sorted: Seq<MatchView>, score: u16) -> int
    decreases sorted.len(),
{
    if sorted.len() == 0 {
        0
    } else if sorted[0].score >= score {
        1 + rank(sorted.drop_first(), score)
    } else {
        0
    }
}

/// The matches of `matches` from the one worth most to the one worth least;
/// those worth the same stay in the order in which they were.
pub open spec fn sorted_by_score(matches: Seq<MatchView>) -> Seq<MatchView>
    decreases matches.len(),
{
    if matches.len() == 0 {
        Seq::empty()
    } else {
        let sorted = sorted_by_score(matches.drop_last());
        sorted.insert(rank(sorted, matches.last().score), matches.last())
    }
}

/// Whether the two lists have a position in common.
pub open spec fn overlap(a: Seq<Position>, b: Seq<Position>) -> bool {
    exists|i: int, j: int| 0 <= i < a.len() && 0 <= j < b.len() && a[i] == b[j]
}

/// Whether one of the matches of `accepted` holds a position of `positions`.
pub open spec fn claimed(accepted: Seq<MatchView>, positions: Seq<Position>) -> bool {
    exists|k: int| 0 <= k < accepted.len() && overlap(#[trigger] accepted[k].positions, positions)
}

/// The matches of `sorted` that are taken when each in turn is taken unless
/// one taken before it holds one of its positions.
pub open spec fn greedy(sorted: Seq<MatchView>) -> Seq<MatchView>
    decreases sorted.len(),
{
    if sorted.len() == 0 {
        Seq::empty()
    } else {
        let accepted = greedy(sorted.drop_last());
        if claimed(accepted, sorted.last().positions) {
            accepted
        } else {
            accepted.push(sorted.last())
        }
    }
}

/// The positions of all the matches of `matches`, match by match.
pub open spec fn claimed_positions(matches: Seq<MatchView>) -> Seq<Position>
    decreases matches.len(),
{
    if matches.len() == 0 {
        Seq::empty()
    } else {
        claimed_positions(matches.drop_last()) + matches.last().positions
    }
}

/// No two of the matches of `matches` have a position in common.
pub open spec fn disjoint(matches: Seq<MatchView>) -> bool {
    forall|a: int, b: int|
        0 <= a < b < matches.len() ==> !overlap(
            #[trigger] matches[a].positions,
            #[trigger] matches[b].positions,
        )
}

/// The rank is a place in the list.
pub proof fn lemma_rank_bounds(sorted: Seq<MatchView>, score: u16)
    ensures
        0 <= rank(sorted, score) <= sorted.len(),
    decreases sorted.len(),
{
    if sorted.len() > 0 {
        lemma_rank_bounds(sorted.drop_first(), score);
    }
}

/// Whichever matches are offered, no two of those taken share a position.
pub proof fn lemma_greedy_disjoint(sorted: Seq<MatchView>)
    ensures
        disjoint(greedy(sorted)),
    decreases sorted.len(),
{
    if sorted.len() > 0 {
        lemma_greedy_disjoint(sorted.drop_last());
        let accepted = greedy(sorted.drop_last());
        if !claimed(accepted, sorted.last().positions) {
            let taken = accepted.push(sorted.last());
            assert forall|a: int, b: int| 0 <= a < b < taken.len() implies !overlap(
                #[trigger] taken[a].positions,
                #[trigger] taken[b].positions,
            ) by {
                if b < accepted.len() {
                    assert(!overlap(accepted[a].positions, accepted[b].positions));
                } else {
                    assert(!overlap(accepted[a].positions, sorted.last().positions));
                }
            }
        }
    }
}

/// Sorting keeps the matches sound.
pub proof fn lemma_sorted_sound(grid: GridView, dictionary: &Dictionary, matches: Seq<MatchView>)
    requires
        sound_matches(grid, dictionary, matches),
    ensures
        sound_matches(grid, dictionary, sorted_by_score(matches)),
    decreases matches.len(),
{
    if matches.len() > 0 {
        assert forall|k: int| 0 <= k < matches.drop_last().len() implies sound_match(
            grid, dictionary,
            #[trigger] matches.drop_last()[k],
        ) by {
            assert(sound_match(grid, dictionary, matches[k]));
        }
        lemma_sorted_sound(grid, dictionary, matches.drop_last());
        let sorted = sorted_by_score(matches.drop_last());
        let at = rank(sorted, matches.last().score);
        lemma_rank_bounds(sorted, matches.last().score);
        let result = sorted.insert(at, matches.last());
        assert forall|k: int| 0 <= k < result.len() implies sound_match(
            grid, dictionary,
            #[trigger] result[k],
        ) by {
            if k < at {
                assert(sound_match(grid, dictionary, sorted[k]));
            } else if k == at {
                assert(sound_match(grid, dictionary, matches[matches.len() - 1]));
            } else {
                assert(sound_match(grid, dictionary, sorted[k - 1]));
            }
        }
    }
}

/// The matches taken are sound if those offered are.
pub proof fn lemma_greedy_sound(grid: GridView, dictionary: &Dictionary, sorted: Seq<MatchView>)
    requires
        sound_matches(grid, dictionary, sorted),
    ensures
        sound_matches(grid, dictionary, greedy(sorted)),
    decreases sorted.len(),
{
    if sorted.len() > 0 {
        assert forall|k: int| 0 <= k < sorted.drop_last().len() implies sound_match(
            grid, dictionary,
            #[trigger] sorted.drop_last()[k],
        ) by {
            assert(sound_match(grid, dictionary, sorted[k]));
        }
        lemma_greedy_sound(grid, dictionary, sorted.drop_last());
        let accepted = greedy(sorted.drop_last());
        if !claimed(accepted, sorted.last().positions) {
            let taken = accepted.push(sorted.last());
            assert forall|k: int| 0 <= k < taken.len() implies sound_match(
                grid, dictionary,
                #[trigger] taken[k],
            ) by {
                if k < accepted.len() {
                    assert(sound_match(grid, dictionary, accepted[k]));
                } else {
                    assert(sound_match(grid, dictionary, sorted[sorted.len() - 1]));
                }
            }
        }
    }
}

/// Whether the two lists have a position in common.
pub fn overlapping(a: &Vec<Position>, b: &Vec<Position>) -> (shared: bool)
    ensures
        shared == overlap(a@, b@),
{
    let mut i: usize = 0;
    while i < a.len()
        invariant
            i <= a@.len(),
            forall|n: int, j: int| 0 <= n < i && 0 <= j < b@.len() ==> a@[n] != b@[j],
        decreases a@.len() - i,
    {
        let mut j: usize = 0;
        while j < b.len()
            invariant
                i < a@.len(),
                j <= b@.len(),
                forall|n: int| 0 <= n < j ==> a@[i as int] != b@[n],
            decreases b@.len() - j,
        {
            if a[i] == b[j] {
                return true;
            }
            j = j + 1;
        }
        i = i + 1;
    }
    false
}

/// Whether one of the matches of `accepted` holds a position of `positions`.
pub fn is_claimed(accepted: &Vec<Match>, positions: &Vec<Position>) -> (held: bool)
    ensures
        held == claimed(views(accepted@), positions@),
{
    let mut k: usize = 0;
    while k < accepted.len()
        invariant
            k <= accepted@.len(),
            forall|n: int|
                0 <= n < k ==> !overlap(#[trigger] views(accepted@)[n].positions, positions@),
        decreases accepted@.len() - k,
    {
        if overlapping(&accepted[k].positions, positions) {
            assert(overlap(views(accepted@)[k as int].positions, positions@));
            return true;
        }
        k = k + 1;
    }
    false
}

/// How many matches at the start of `sorted` are worth at least `score`.
pub fn rank_of(sorted: &Vec<Match>, score: u16) -> (at: usize)
    ensures
        at == rank(views(sorted@), score),
        at <= sorted@.len(),
{
    let ghost all = views(sorted@);
    let mut at: usize = 0;
    assert(all.skip(0) =~= all);
    while at < sorted.len() && sorted[at].score >= score
        invariant
            at <= sorted@.len(),
            all == views(sorted@),
            rank(all, score) == at + rank(all.skip(at as int), score),
        decreases sorted@.len() - at,
    {
        assert(all.skip(at as int).drop_first() =~= all.skip(at + 1));
        assert(all.skip(at as int)[0] == all[at as int]);
        at = at + 1;
    }
    proof {
        if at < sorted@.len() {
            assert(all.skip(at as int)[0] == all[at as int]);
        }
    }
    at
}

/// The matches of `matches` from the one worth most to the one worth least;
/// those worth the same stay in the order in which they were.
pub fn sort_by_score(matches: &Vec<Match>) -> (sorted: Vec<Match>)
    ensures
        views(sorted@) == sorted_by_score(views(matches@)),
{
    let mut sorted: Vec<Match> = Vec::new();
    let mut i: usize = 0;
    let ghost all = views(matches@);
    assert(all.take(0) =~= Seq::<MatchView>::empty());
    assert(views(sorted@) =~= Seq::<MatchView>::empty());
    while i < matches.len()
        invariant
            i <= matches@.len(),
            all == views(matches@),
            views(sorted@) == sorted_by_score(all.take(i as int)),
        decreases matches@.len() - i,
    {
        let at = rank_of(&sorted, matches[i].score);
        let ghost before = views(sorted@);
        sorted.insert(at, matches[i].clone());
        proof {
            assert(all.take(i + 1).drop_last() =~= all.take(i as int));
            assert(all.take(i + 1).last() == all[i as int]);
            assert(views(sorted@) =~= before.insert(at as int, all[i as int]));
        }
        i = i + 1;
    }
    assert(all.take(i as int) =~= all);
    sorted
}

/// The matches of `sorted` that are taken when each in turn is taken unless
/// one taken before it holds one of its positions.
pub fn take_greedily(sorted: &Vec<Match>) -> (accepted: Vec<Match>)
    ensures
        views(accepted@) == greedy(views(sorted@)),
{
    let mut accepted: Vec<Match> = Vec::new();
    let mut i: usize = 0;
    let ghost all = views(sorted@);
    assert(all.take(0) =~= Seq::<MatchView>::empty());
    assert(views(accepted@) =~= Seq::<MatchView>::empty());
    while i < sorted.len()
        invariant
            i <= sorted@.len(),
            all == views(sorted@),
            views(accepted@) == greedy(all.take(i as int)),
        decreases sorted@.len() - i,
    {
        proof {
            assert(all.take(i + 1).drop_last() =~= all.take(i as int));
            assert(all.take(i + 1).last() == all[i as int]);
        }
        if !is_claimed(&accepted, &sorted[i].positions) {
            let ghost before = views(accepted@);
            accepted.push(sorted[i].clone());
            assert(views(accepted@) =~= before.push(all[i as int]));
        }
        i = i + 1;
    }
    assert(all.take(i as int) =~= all);
    accepted
}

/// The positions of some matches and of one more are those of all of them.
pub proof fn lemma_claimed_positions_take(matches: Seq<MatchView>, k: int)
    requires
        0 <= k < matches.len(),
    ensures
        claimed_positions(matches.take(k + 1)) == claimed_positions(matches.take(k))
            + matches[k].positions,
{
    assert(matches.take(k + 1).drop_last() =~= matches.take(k));
}

impl GridView {
    /// The words that are taken off the grid: of all the words that can be
    /// read on it, sorted from the one worth most to the one worth least,
    /// each in turn unless one taken before it holds one of its letters.
    pub open spec fn words_taken(
        &self,
        dictionary: &Dictionary,
        letters: Seq<LetterConfig>,
        golden: Seq<LetterIndex>,
    ) -> Seq<MatchView> {
        greedy(sorted_by_score(self.all_candidates(dictionary, letters, golden)))
    }

    /// The grid once the cells at `positions` are emptied.
    pub open spec fn cleared(&self, positions: Seq<Position>) -> GridView {
        GridView {
            width: self.width,
            height: self.height,
            cells: Map::new(
                |pos: Position| self.in_grid(pos),
                |pos: Position|
                    if positions.contains(pos) {
                        Cell::Empty
                    } else {
                        self.cells[pos]
                    },
            ),
        }
    }

    /// Emptying one more cell.
    pub proof fn lemma_cleared_push(&self, positions: Seq<Position>, pos: Position)
        requires
            self.in_grid(pos),
        ensures
            self.cleared(positions.push(pos)) == self.cleared(positions).put(pos, Cell::Empty),
    {
        assert forall|other: Position|
            positions.push(pos).contains(other) <==> positions.contains(other) || pos
                == other by {
            crate::paths::lemma_push_contains(positions, pos, other);
        }
        let a = self.cleared(positions.push(pos)).cells;
        let b = self.cleared(positions).put(pos, Cell::Empty).cells;
        assert forall|other: Position| a.dom().contains(other) <==> b.dom().contains(other) by {}
        assert forall|other: Position| a.dom().contains(other) implies a[other] == b[other] by {
            crate::paths::lemma_push_contains(positions, pos, other);
        }
        assert(a =~= b);
    }
}

impl Grid {
    /// The words that are taken off the grid, from the one worth most to the
    /// one worth least. No two of them share a letter.
    pub fn get_words(
        &self,
        dictionary: &Dictionary,
        letter_table: &LettersTable,
        golden_word: &Word,
    ) -> (matches: Vec<Match>)
        requires
            self.wf(),
            scores_fit(letter_table@),
            dictionary_known(dictionary, letter_table@),
        ensures
            views(matches@) == self@.words_taken(dictionary, letter_table@, golden_word@),
            sound_matches(self@, dictionary, views(matches@)),
            disjoint(views(matches@)),
    {
        let all_matches = self.find_words(dictionary, letter_table, golden_word);
        let sorted = sort_by_score(&all_matches);
        let matches = take_greedily(&sorted);
        proof {
            lemma_sorted_sound(self@, dictionary, views(all_matches@));
            lemma_greedy_sound(self@, dictionary, views(sorted@));
            lemma_greedy_disjoint(views(sorted@));
        }
        matches
    }

    /// Takes the words off the grid: the cells of their letters are emptied,
    /// and the words are returned, from the one worth most to the one worth
    /// least. No two of them share a letter.
    pub fn retrieve_words(
        &mut self,
        dictionary: &Dictionary,
        letter_table: &LettersTable,
        golden_word: &Word,
    ) -> (matches: Vec<Match>)
        requires
            old(self).wf(),
            scores_fit(letter_table@),
            dictionary_known(dictionary, letter_table@),
        ensures
            final(self).wf(),
            views(matches@) == old(self)@.words_taken(dictionary, letter_table@, golden_word@),
            sound_matches(old(self)@, dictionary, views(matches@)),
            disjoint(views(matches@)),
            final(self)@ == old(self)@.cleared(claimed_positions(views(matches@))),
    {
        let matches = self.get_words(dictionary, letter_table, golden_word);
        let ghost taken = views(matches@);
        let mut k: usize = 0;
        proof {
            assert(taken.take(0) =~= Seq::<MatchView>::empty());
            assert(self@.cells =~= old(self)@.cleared(claimed_positions(taken.take(0))).cells);
        }
        while k < matches.len()
            invariant
                k <= matches@.len(),
                taken == views(matches@),
                sound_matches(old(self)@, dictionary, taken),
                self.wf(),
                self@ == old(self)@.cleared(claimed_positions(taken.take(k as int))),
            decreases matches@.len() - k,
        {
            let ghost done = claimed_positions(taken.take(k as int));
            let mut i: usize = 0;
            assert(done + taken[k as int].positions.take(0) =~= done);
            while i < matches[k as usize].positions.len()
                invariant
                    k < matches@.len(),
                    i <= matches@[k as int].positions@.len(),
                    taken == views(matches@),
                    sound_matches(old(self)@, dictionary, taken),
                    self.wf(),
                    self@ == old(self)@.cleared(done + taken[k as int].positions.take(i as int)),
                decreases matches@[k as int].positions@.len() - i,
            {
                let pos = matches[k].positions[i];
                proof {
                    assert(pos == taken[k as int].positions[i as int]);
                    assert(sound_match(old(self)@, dictionary, taken[k as int]));
                    assert(old(self)@.in_grid(pos));
                    old(self)@.lemma_cleared_push(
                        done + taken[k as int].positions.take(i as int),
                        pos,
                    );
                    assert((done + taken[k as int].positions.take(i as int)).push(pos) =~= done
                        + taken[k as int].positions.take(i + 1));
                }
                self.update_cell(pos, Cell::Empty);
                i = i + 1;
            }
            proof {
                assert(taken[k as int].positions.take(i as int) =~= taken[k as int].positions);
                lemma_claimed_positions_take(taken, k as int);
            }
            k = k + 1;
        }
        assert(taken.take(k as int) =~= taken);
        matches
    }
}

/// No two of the words taken off a grid share a position.
pub proof fn lemma_words_taken_disjoint(
    grid: GridView,
    dictionary: &Dictionary,
    letters: Seq<LetterConfig>,
    golden: Seq<LetterIndex>,
)
    ensures
        disjoint(grid.words_taken(dictionary, letters, golden)),
{
    lemma_greedy_disjoint(sorted_by_score(grid.all_candidates(dictionary, letters, golden)));
}

/// The matches before the rank are worth at least `score`, and the match at
/// the rank is worth less.
pub proof fn lemma_rank_splits(sorted: Seq<MatchView>, score: u16, i: int)
    requires
        0 <= i < sorted.len(),
    ensures
        i < rank(sorted, score) ==> sorted[i].score >= score,
        i == rank(sorted, score) ==> sorted[i].score < score,
    decreases sorted.len(),
{
    lemma_rank_bounds(sorted.drop_first(), score);
    if sorted[0].score >= score && i > 0 {
        lemma_rank_splits(sorted.drop_first(), score, i - 1);
    }
}

/// Sorted matches are as many as before, and none comes before one that is
/// worth more.
pub proof fn lemma_sorted_descending(matches: Seq<MatchView>)
    ensures
        sorted_by_score(matches).len() == matches.len(),
        forall|i: int, j: int|
            0 <= i < j < sorted_by_score(matches).len() ==> sorted_by_score(matches)[i].score
                >= sorted_by_score(matches)[j].score,
    decreases matches.len(),
{
    if matches.len() > 0 {
        lemma_sorted_descending(matches.drop_last());
        let sorted = sorted_by_score(matches.drop_last());
        let added = matches.last();
        let at = rank(sorted, added.score);
        lemma_rank_bounds(sorted, added.score);
        let result = sorted.insert(at, added);
        assert forall|i: int, j: int| 0 <= i < j < result.len() implies result[i].score
            >= result[j].score by {
            if j < at {
                assert(sorted[i].score >= sorted[j].score);
            } else if j == at {
                lemma_rank_splits(sorted, added.score, i);
            } else if i < at {
                assert(sorted[i].score >= sorted[j - 1].score);
            } else if i == at {
                lemma_rank_splits(sorted, added.score, at);
                if j - 1 > at {
                    assert(sorted[at].score >= sorted[j - 1].score);
                }
            } else {
                assert(sorted[i - 1].score >= sorted[j - 1].score);
            }
        }
    }
}

/// Sorting keeps the matches: what is among the sorted matches was among
/// the matches, and the other way round.
pub proof fn lemma_sorted_members(matches: Seq<MatchView>, found: MatchView)
    ensures
        sorted_by_score(matches).contains(found) <==> matches.contains(found),
    decreases matches.len(),
{
    if matches.len() > 0 {
        lemma_sorted_members(matches.drop_last(), found);
        let rest = matches.drop_last();
        let sorted = sorted_by_score(rest);
        let added = matches.last();
        let at = rank(sorted, added.score);
        lemma_rank_bounds(sorted, added.score);
        let result = sorted.insert(at, added);
        if matches.contains(found) {
            let i = choose|i: int| 0 <= i < matches.len() && matches[i] == found;
            if i < rest.len() {
                assert(rest[i] == found);
                let n = choose|n: int| 0 <= n < sorted.len() && sorted[n] == found;
                if n < at {
                    assert(result[n] == found);
                } else {
                    assert(result[n + 1] == found);
                }
            } else {
                assert(result[at] == found);
            }
        }
        if result.contains(found) {
            let n = choose|n: int| 0 <= n < result.len() && result[n] == found;
            if n == at {
                assert(matches[matches.len() - 1] == found);
            } else {
                if n < at {
                    assert(sorted[n] == found);
                } else {
                    assert(sorted[n - 1] == found);
                }
                let i = choose|i: int| 0 <= i < rest.len() && rest[i] == found;
                assert(matches[i] == found);
            }
        }
    }
}

} // verus!
