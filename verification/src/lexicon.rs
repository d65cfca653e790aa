//! The lexicon: the letters of the game, the words made of them and what a
//! word is worth.

use crate::generator::chacha_shuffled;
use crate::generator::Generator;
use vstd::prelude::*;

verus! {

/// A letter, as its place in the letters table.
pub type LetterIndex = u8;

/// The index that stands for "no letter". No letter of a table has it.
pub const LETTER_INDEX_NONE: LetterIndex = 255;

/// How many letters a game starts with on its grid.
pub const NUMBER_OF_LETTERS_IN_INITIAL_GRID: usize = 8;

/// How many triplets of letters a game holds in store.
pub const NUMBER_OF_LETTERS_TRIPLETS: usize = 64;

/// How many letters a game uses in all.
pub const NUMBER_OF_LETTERS: usize = 200;

/// The most points a single letter may be worth: with it, the words of one
/// game are together worth less than sixteen bits hold.
pub const MAX_LETTER_SCORE: u32 = 76;

/// The fewest letters of a word.
pub const WORD_MIN_LENGTH: usize = 5;

/// The most letters of a word.
pub const WORD_MAX_LENGTH: usize = 8;

/// The bonus for finding the golden word.
pub const GOLDEN_WORD_BONUS: u16 = 100;

/// What can go wrong in the lexicon.
#[derive(Clone, Copy, Debug, PartialEq, Eq)]
pub enum LexiconError {
    /// The character is no letter of the table.
    UnknownLetter { letter: char },
    /// The index is beyond the end of the table.
    UnknownLetterIndex { i: LetterIndex },
    /// A word cannot have this many letters.
    InvalidWordLength { len: usize },
    /// The table has more letters than there are indices; `index` is the
    /// first one that no letter can have.
    LetterIndexOutOfBounds { index: u8 },
    /// The frequencies of the table do not add up to the letters of a game.
    UnexpectedNumberOfLettersInLettersTable { number_of_letters: usize },
    /// No multiplier is known for a word of this length.
    MissingScoreMultiplier { len: usize },
}

/// One letter of the table.
#[derive(Clone, Copy, Debug)]
pub struct LetterConfig {
    /// The character shown for the letter.
    pub letter: char,
    /// How many times the letter occurs in the pool of a game.
    pub repartition: usize,
    /// The points the letter is worth.
    pub score: u32,
}

/// The sum of the frequencies of `letters`.
pub open spec fn repartition_total(letters: Seq<LetterConfig>) -> nat
    decreases letters.len(),
{
    if letters.len() == 0 {
        0
    } else {
        repartition_total(letters.drop_last()) + letters.last().repartition as nat
    }
}

/// No letter of `letters` is worth more than `MAX_LETTER_SCORE`.
pub open spec fn scores_fit(letters: Seq<LetterConfig>) -> bool {
    forall|i: int| 0 <= i < letters.len() ==> (#[trigger] letters[i]).score <= MAX_LETTER_SCORE
}

/// The index of `letter` in `letters`: that of its last entry, if it has one.
pub open spec fn letter_index(letters: Seq<LetterConfig>, letter: char) -> Option<int>
    decreases letters.len(),
{
    if letters.len() == 0 {
        None
    } else if letters.last().letter == letter {
        Some(letters.len() - 1)
    } else {
        letter_index(letters.drop_last(), letter)
    }
}

/// The points of the letter `index`, zero if the table has no such letter.
pub open spec fn letter_score(letters: Seq<LetterConfig>, index: LetterIndex) -> nat {
    if index < letters.len() {
        letters[index as int].score as nat
    } else {
        0
    }
}

/// The sum of the points of the letters of `word`.
pub open spec fn letters_score(letters: Seq<LetterConfig>, word: Seq<LetterIndex>) -> nat
    decreases word.len(),
{
    if word.len() == 0 {
        0
    } else {
        letters_score(letters, word.drop_last()) + letter_score(letters, word.last())
    }
}

/// The place in `word` of its first letter that `letters` does not have.
pub open spec fn first_unknown(letters: Seq<LetterConfig>, word: Seq<LetterIndex>) -> Option<int>
    decreases word.len(),
{
    if word.len() == 0 {
        None
    } else {
        match first_unknown(letters, word.drop_last()) {
            Some(i) => Some(i),
            None => if word.last() >= letters.len() {
                Some(word.len() - 1)
            } else {
                None
            },
        }
    }
}

/// The factor by which the length of a word multiplies its letters' points.
pub open spec fn length_multiplier(len: nat) -> nat {
    if WORD_MIN_LENGTH <= len <= WORD_MAX_LENGTH {
        (len - 4) as nat
    } else {
        0
    }
}

/// What `word` is worth when `golden` is the golden word.
pub open spec fn word_score(
    letters: Seq<LetterConfig>,
    word: Seq<LetterIndex>,
    golden: Seq<LetterIndex>,
) -> nat {
    letters_score(letters, word) * length_multiplier(word.len()) + if word == golden {
        GOLDEN_WORD_BONUS as nat
    } else {
        0
    }
}

/// A word: five to eight letters in order.
#[derive(Debug)]
pub struct Word {
    letters: Vec<LetterIndex>,
}

impl View for Word {
    type V = Seq<LetterIndex>;

    closed spec fn view(&self) -> Seq<LetterIndex> {
        self.letters@
    }
}

impl Clone for Word {
    fn clone(&self) -> (word: Word)
        ensures
            word@ == self@,
    {
        Word { letters: self.letters.clone() }
    }
}

impl Word {
    /// A word has a length that `new` accepts.
    pub open spec fn wf(&self) -> bool {
        WORD_MIN_LENGTH <= self@.len() <= WORD_MAX_LENGTH
    }

    /// The letters of the word.
    pub fn letters(&self) -> (letters: Vec<LetterIndex>)
        ensures
            letters@ == self@,
    {
        self.letters.clone()
    }

    /// The number of letters of the word.
    pub fn length(&self) -> (len: usize)
        ensures
            len == self@.len(),
    {
        self.letters.len()
    }

    /// The word made of `letters`, if there are five to eight of them.
    pub fn new(letters: Vec<LetterIndex>) -> (result: Result<Word, LexiconError>)
        ensures
            WORD_MIN_LENGTH <= letters@.len() <= WORD_MAX_LENGTH ==> result is Ok
                && result->Ok_0@ == letters@ && result->Ok_0.wf(),
            !(WORD_MIN_LENGTH <= letters@.len() <= WORD_MAX_LENGTH) ==> result == Err::<
                Word,
                LexiconError,
            >(LexiconError::InvalidWordLength { len: letters@.len() as usize }),
    {
        if letters.len() < WORD_MIN_LENGTH || letters.len() > WORD_MAX_LENGTH {
            return Err(LexiconError::InvalidWordLength { len: letters.len() });
        }
        Ok(Word { letters })
    }

    /// Whether the two words have the same letters in the same order.
    pub fn same_as(&self, other: &Word) -> (same: bool)
        ensures
            same == (self@ == other@),
    {
        if self.letters.len() != other.letters.len() {
            return false;
        }
        let mut i: usize = 0;
        while i < self.letters.len()
            invariant
                i <= self.letters.len(),
                self.letters.len() == other.letters.len(),
                forall|j: int| 0 <= j < i ==> self.letters@[j] == other.letters@[j],
            decreases self.letters.len() - i,
        {
            if self.letters[i] != other.letters[i] {
                return false;
            }
            i = i + 1;
        }
        assert(self.letters@ =~= other.letters@);
        true
    }
}

/// The letters of the game, each known by its index.
#[derive(Debug)]
pub struct LettersTable {
    letters: Vec<LetterConfig>,
}

impl View for LettersTable {
    type V = Seq<LetterConfig>;

    closed spec fn view(&self) -> Seq<LetterConfig> {
        self.letters@
    }
}

impl Clone for LettersTable {
    fn clone(&self) -> (table: LettersTable)
        ensures
            table@ == self@,
    {
        let mut letters: Vec<LetterConfig> = Vec::new();
        let mut i: usize = 0;
        while i < self.letters.len()
            invariant
                i <= self.letters.len(),
                letters@ == self.letters@.take(i as int),
            decreases self.letters.len() - i,
        {
            letters.push(self.letters[i]);
            assert(letters@ =~= self.letters@.take(i + 1));
            i = i + 1;
        }
        assert(letters@ =~= self.letters@);
        LettersTable { letters }
    }
}

/// The sum of the frequencies grows with the table.
pub proof fn lemma_repartition_total_take(letters: Seq<LetterConfig>, i: int)
    requires
        0 <= i < letters.len(),
    ensures
        repartition_total(letters.take(i + 1)) == repartition_total(letters.take(i))
            + letters[i].repartition,
        repartition_total(letters.take(i)) <= repartition_total(letters),
    decreases letters.len() - i,
{
    assert(letters.take(i + 1).drop_last() =~= letters.take(i));
    if i + 1 < letters.len() {
        lemma_repartition_total_take(letters, i + 1);
    } else {
        assert(letters.take(i + 1) =~= letters);
    }
}

impl LettersTable {
    /// The frequencies add up to the letters of a game, every letter has an
    /// index of its own, and no letter is worth too much.
    pub open spec fn wf(&self) -> bool {
        &&& repartition_total(self@) == NUMBER_OF_LETTERS
        &&& self@.len() <= LETTER_INDEX_NONE
        &&& scores_fit(self@)
    }

    /// The table of `letters`, if their frequencies add up to the letters of a
    /// game and there are no more of them than indices.
    pub fn new(letters: Vec<LetterConfig>) -> (result: Result<LettersTable, LexiconError>)
        requires
            scores_fit(letters@),
            repartition_total(letters@) <= usize::MAX,
        ensures
            repartition_total(letters@) != NUMBER_OF_LETTERS ==> result == Err::<
                LettersTable,
                LexiconError,
            >(
                LexiconError::UnexpectedNumberOfLettersInLettersTable {
                    number_of_letters: repartition_total(letters@) as usize,
                },
            ),
            repartition_total(letters@) == NUMBER_OF_LETTERS && letters@.len() > LETTER_INDEX_NONE
                ==> result == Err::<LettersTable, LexiconError>(
                LexiconError::LetterIndexOutOfBounds { index: LETTER_INDEX_NONE },
            ),
            repartition_total(letters@) == NUMBER_OF_LETTERS && letters@.len() <= LETTER_INDEX_NONE
                ==> result is Ok && result->Ok_0@ == letters@ && result->Ok_0.wf(),
    {
        let mut repartition_sum: usize = 0;
        let mut i: usize = 0;
        while i < letters.len()
            invariant
                i <= letters.len(),
                repartition_sum == repartition_total(letters@.take(i as int)),
                repartition_total(letters@) <= usize::MAX,
            decreases letters.len() - i,
        {
            proof {
                lemma_repartition_total_take(letters@, i as int);
                if i + 1 < letters.len() {
                    lemma_repartition_total_take(letters@, i + 1);
                } else {
                    assert(letters@.take(i + 1) =~= letters@);
                }
            }
            repartition_sum = repartition_sum + letters[i].repartition;
            i = i + 1;
        }
        assert(letters@.take(i as int) =~= letters@);
        if repartition_sum != NUMBER_OF_LETTERS {
            return Err(
                LexiconError::UnexpectedNumberOfLettersInLettersTable {
                    number_of_letters: repartition_sum,
                },
            );
        }
        if letters.len() > 255 {
            return Err(LexiconError::LetterIndexOutOfBounds { index: LETTER_INDEX_NONE });
        }
        Ok(LettersTable { letters })
    }

    /// The letter at `index`.
    pub fn try_get_letter(&self, index: LetterIndex) -> (result: Result<LetterConfig, LexiconError>)
        ensures
            index < self@.len() ==> result == Ok::<LetterConfig, LexiconError>(self@[index as int]),
            index >= self@.len() ==> result == Err::<LetterConfig, LexiconError>(
                LexiconError::UnknownLetterIndex { i: index },
            ),
    {
        let i: usize = index as usize;
        if i < self.letters.len() {
            Ok(self.letters[i])
        } else {
            Err(LexiconError::UnknownLetterIndex { i: index })
        }
    }

    /// The index of the letter shown as `letter`.
    pub fn try_get_letter_index(&self, letter: char) -> (result: Result<LetterIndex, LexiconError>)
        requires
            self@.len() <= LETTER_INDEX_NONE,
        ensures
            match letter_index(self@, letter) {
                Some(i) => result == Ok::<LetterIndex, LexiconError>(i as u8),
                None => result == Err::<LetterIndex, LexiconError>(
                    LexiconError::UnknownLetter { letter },
                ),
            },
    {
        let mut i: usize = self.letters.len();
        assert(self.letters@.take(i as int) =~= self.letters@);
        while i > 0
            invariant
                i <= self.letters.len(),
                self.letters@.len() <= 255,
                letter_index(self.letters@, letter) == letter_index(
                    self.letters@.take(i as int),
                    letter,
                ),
            decreases i,
        {
            assert(self.letters@.take(i as int).drop_last() =~= self.letters@.take(i - 1));
            if self.letters[i - 1].letter == letter {
                return Ok((i - 1) as u8);
            }
            i = i - 1;
        }
        Err(LexiconError::UnknownLetter { letter })
    }

    /// The points of the letter at `index`.
    pub fn try_get_letter_score(&self, index: u8) -> (score: u32)
        requires
            index < self@.len(),
        ensures
            score == self@[index as int].score,
    {
        self.letters[index as usize].score
    }

    /// The character of the letter at `index`.
    pub fn try_get_letter_char(&self, index: u8) -> (letter: char)
        requires
            index < self@.len(),
        ensures
            letter == self@[index as int].letter,
    {
        self.letters[index as usize].letter
    }
}

/// The points of a word are at most `MAX_LETTER_SCORE` for each letter.
pub proof fn lemma_letters_score_bound(letters: Seq<LetterConfig>, word: Seq<LetterIndex>)
    requires
        scores_fit(letters),
    ensures
        letters_score(letters, word) <= MAX_LETTER_SCORE * word.len(),
    decreases word.len(),
{
    if word.len() > 0 {
        lemma_letters_score_bound(letters, word.drop_last());
        if word.last() < letters.len() {
            assert(letters[word.last() as int].score <= MAX_LETTER_SCORE);
        }
    }
}

impl Word {
    /// What the word is worth: the points of its letters, times one for five
    /// letters up to four for eight, and the bonus on top if it is the golden
    /// word.
    pub fn score(&self, letter_table: &LettersTable, golden_word: &Word) -> (result: Result<
        u16,
        LexiconError,
    >)
        requires
            scores_fit(letter_table@),
        ensures
            !self.wf() ==> result == Err::<u16, LexiconError>(
                LexiconError::MissingScoreMultiplier { len: self@.len() as usize },
            ),
            self.wf() ==> match first_unknown(letter_table@, self@) {
                Some(i) => result == Err::<u16, LexiconError>(
                    LexiconError::UnknownLetterIndex { i: self@[i] },
                ),
                None => result == Ok::<u16, LexiconError>(
                    word_score(letter_table@, self@, golden_word@) as u16,
                ) && word_score(letter_table@, self@, golden_word@) <= u16::MAX,
            },
    {
        let len = self.letters.len();
        if len < WORD_MIN_LENGTH || len > WORD_MAX_LENGTH {
            return Err(LexiconError::MissingScoreMultiplier { len });
        }
        let multiplier: u16 = (len - 4) as u16;
        let mut letters_score: u16 = 0;
        let mut i: usize = 0;
        while i < len
            invariant
                5 <= len,
                i <= len == self.letters@.len() <= 8,
                scores_fit(letter_table@),
                letters_score == self::letters_score(letter_table@, self.letters@.take(i as int)),
                letters_score <= MAX_LETTER_SCORE * i,
                first_unknown(letter_table@, self.letters@.take(i as int)) is None,
            decreases len - i,
        {
            proof {
                assert(self.letters@.take(i + 1).drop_last() =~= self.letters@.take(i as int));
                lemma_letters_score_bound(letter_table@, self.letters@.take(i + 1));
            }
            match letter_table.try_get_letter(self.letters[i]) {
                Ok(config) => {
                    letters_score = letters_score + config.score as u16;
                },
                Err(e) => {
                    proof {
                        lemma_first_unknown_extends(letter_table@, self.letters@, i + 1);
                    }
                    return Err(e);
                },
            }
            i = i + 1;
        }
        assert(self.letters@.take(i as int) =~= self.letters@);
        assert(letters_score * multiplier <= 608 * 4) by (nonlinear_arith)
            requires
                letters_score <= 608,
                multiplier <= 4,
        ;
        let base: u16 = letters_score * multiplier;
        if self.same_as(golden_word) {
            Ok(GOLDEN_WORD_BONUS + base)
        } else {
            Ok(base)
        }
    }
}

/// The first unknown letter of a part of a word is that of the whole word.
pub proof fn lemma_first_unknown_extends(
    letters: Seq<LetterConfig>,
    word: Seq<LetterIndex>,
    n: int,
)
    requires
        0 <= n <= word.len(),
        first_unknown(letters, word.take(n)) is Some,
    ensures
        first_unknown(letters, word) == first_unknown(letters, word.take(n)),
    decreases word.len() - n,
{
    if n < word.len() {
        assert(word.take(n + 1).drop_last() =~= word.take(n));
        lemma_first_unknown_extends(letters, word, n + 1);
    } else {
        assert(word.take(n) =~= word);
    }
}

impl LettersTable {
    /// The sum of the points of the letters of `word`.
    pub fn score_word(&self, word: &Word) -> (result: Result<u32, LexiconError>)
        requires
            scores_fit(self@),
            word.wf(),
        ensures
            match first_unknown(self@, word@) {
                Some(i) => result == Err::<u32, LexiconError>(
                    LexiconError::UnknownLetterIndex { i: word@[i] },
                ),
                None => result == Ok::<u32, LexiconError>(letters_score(self@, word@) as u32),
            },
    {
        let len = word.letters.len();
        let mut sum: u32 = 0;
        let mut i: usize = 0;
        while i < len
            invariant
                i <= len == word.letters@.len() <= 8,
                scores_fit(self@),
                sum == letters_score(self@, word.letters@.take(i as int)),
                sum <= MAX_LETTER_SCORE * i,
                first_unknown(self@, word.letters@.take(i as int)) is None,
            decreases len - i,
        {
            proof {
                assert(word.letters@.take(i + 1).drop_last() =~= word.letters@.take(i as int));
                lemma_letters_score_bound(self@, word.letters@.take(i + 1));
            }
            match self.try_get_letter(word.letters[i]) {
                Ok(config) => {
                    sum = sum + config.score;
                },
                Err(e) => {
                    proof {
                        lemma_first_unknown_extends(self@, word.letters@, i + 1);
                    }
                    return Err(e);
                },
            }
            i = i + 1;
        }
        assert(word.letters@.take(i as int) =~= word.letters@);
        Ok(sum)
    }
}

/// The letters that `chars` stand for, or the first of them that `letters`
/// does not have.
pub open spec fn parsed_letters(letters: Seq<LetterConfig>, chars: Seq<char>) -> Result<
    Seq<LetterIndex>,
    LexiconError,
>
    decreases chars.len(),
{
    if chars.len() == 0 {
        Ok(Seq::empty())
    } else {
        match parsed_letters(letters, chars.drop_last()) {
            Err(e) => Err(e),
            Ok(word) => match letter_index(letters, chars.last()) {
                Some(i) => Ok(word.push(i as u8)),
                None => Err(LexiconError::UnknownLetter { letter: chars.last() }),
            },
        }
    }
}

/// The word that `chars` spell: every character is a letter of `letters`,
/// and there are five to eight of them.
pub open spec fn parsed_word(letters: Seq<LetterConfig>, chars: Seq<char>) -> Result<
    Seq<LetterIndex>,
    LexiconError,
> {
    match parsed_letters(letters, chars) {
        Err(e) => Err(e),
        Ok(word) => if WORD_MIN_LENGTH <= word.len() <= WORD_MAX_LENGTH {
            Ok(word)
        } else {
            Err(LexiconError::InvalidWordLength { len: word.len() as usize })
        },
    }
}

/// The index of a letter is a place in the table.
pub proof fn lemma_letter_index_bound(letters: Seq<LetterConfig>, letter: char)
    ensures
        letter_index(letters, letter) is Some ==> 0 <= letter_index(letters, letter)->Some_0
            < letters.len(),
    decreases letters.len(),
{
    if letters.len() > 0 && letters.last().letter != letter {
        lemma_letter_index_bound(letters.drop_last(), letter);
    }
}

/// A word without unknown letters stays so with a known letter more.
pub proof fn lemma_first_unknown_push(
    letters: Seq<LetterConfig>,
    word: Seq<LetterIndex>,
    index: LetterIndex,
)
    requires
        first_unknown(letters, word) is None,
        index < letters.len(),
    ensures
        first_unknown(letters, word.push(index)) is None,
{
    assert(word.push(index).drop_last() =~= word);
}

/// Every letter of what the characters stand for is a letter of the table.
pub proof fn lemma_parsed_letters_known(letters: Seq<LetterConfig>, chars: Seq<char>)
    requires
        letters.len() <= LETTER_INDEX_NONE,
    ensures
        parsed_letters(letters, chars) is Ok ==> first_unknown(
            letters,
            parsed_letters(letters, chars)->Ok_0,
        ) is None,
    decreases chars.len(),
{
    if chars.len() > 0 {
        lemma_parsed_letters_known(letters, chars.drop_last());
        lemma_letter_index_bound(letters, chars.last());
        if parsed_letters(letters, chars) is Ok {
            lemma_first_unknown_push(
                letters,
                parsed_letters(letters, chars.drop_last())->Ok_0,
                letter_index(letters, chars.last())->Some_0 as u8,
            );
        }
    }
}

/// Every letter of the word that the characters spell is a letter of the
/// table.
pub proof fn lemma_parsed_word_known(letters: Seq<LetterConfig>, chars: Seq<char>)
    requires
        letters.len() <= LETTER_INDEX_NONE,
    ensures
        parsed_word(letters, chars) is Ok ==> first_unknown(
            letters,
            parsed_word(letters, chars)->Ok_0,
        ) is None,
{
    lemma_parsed_letters_known(letters, chars);
}

/// A failure on a part of the characters is the failure on all of them.
pub proof fn lemma_parsed_letters_extends(letters: Seq<LetterConfig>, chars: Seq<char>, n: int)
    requires
        0 <= n <= chars.len(),
        parsed_letters(letters, chars.take(n)) is Err,
    ensures
        parsed_letters(letters, chars) == parsed_letters(letters, chars.take(n)),
    decreases chars.len() - n,
{
    if n < chars.len() {
        assert(chars.take(n + 1).drop_last() =~= chars.take(n));
        lemma_parsed_letters_extends(letters, chars, n + 1);
    } else {
        assert(chars.take(n) =~= chars);
    }
}

/// The characters of `text`, one by one.
pub fn text_chars(text: &str) -> (chars: Vec<char>)
    ensures
        chars@ == text@,
{
    let mut chars: Vec<char> = Vec::new();
    for c in it: text.chars()
        invariant
            chars@ == it.seq().take(it.index() as int),
            it.seq() == text@,
    {
        chars.push(c);
        assert(chars@ =~= it.seq().take(it.index() + 1));
    }
    assert(chars@ =~= text@);
    chars
}

impl LettersTable {
    /// The word spelled by the characters of `chars` from `start` up to `end`.
    pub fn parse_chars(&self, chars: &Vec<char>, start: usize, end: usize) -> (result: Result<
        Word,
        LexiconError,
    >)
        requires
            self@.len() <= LETTER_INDEX_NONE,
            start <= end <= chars@.len(),
        ensures
            match parsed_word(self@, chars@.subrange(start as int, end as int)) {
                Ok(word) => result is Ok && result->Ok_0@ == word && result->Ok_0.wf(),
                Err(e) => result == Err::<Word, LexiconError>(e),
            },
    {
        let ghost part = chars@.subrange(start as int, end as int);
        let mut letters: Vec<LetterIndex> = Vec::new();
        let mut i: usize = start;
        while i < end
            invariant
                start <= i <= end <= chars@.len(),
                self@.len() <= LETTER_INDEX_NONE,
                part == chars@.subrange(start as int, end as int),
                parsed_letters(self@, part.take(i - start)) == Ok::<Seq<LetterIndex>, LexiconError>(
                    letters@,
                ),
            decreases end - i,
        {
            proof {
                assert(part.take(i - start + 1).drop_last() =~= part.take(i - start));
                assert(part.take(i - start + 1).last() == chars@[i as int]);
            }
            match self.try_get_letter_index(chars[i]) {
                Ok(index) => {
                    letters.push(index);
                },
                Err(e) => {
                    proof {
                        lemma_parsed_letters_extends(self@, part, i - start + 1);
                    }
                    return Err(e);
                },
            }
            i = i + 1;
        }
        assert(part.take(i - start) =~= part);
        Word::new(letters)
    }

    /// The word spelled by `word_str`.
    pub fn parse_word(&self, word_str: &str) -> (result: Result<Word, LexiconError>)
        requires
            self@.len() <= LETTER_INDEX_NONE,
        ensures
            match parsed_word(self@, word_str@) {
                Ok(word) => result is Ok && result->Ok_0@ == word && result->Ok_0.wf(),
                Err(e) => result == Err::<Word, LexiconError>(e),
            },
    {
        let chars = text_chars(word_str);
        assert(chars@.subrange(0, chars@.len() as int) =~= word_str@);
        self.parse_chars(&chars, 0, chars.len())
    }
}

/// The letters of a game before they are shuffled.
#[derive(Debug)]
pub struct LettersPool {
    /// The letters that start on the grid.
    pub initial_grid_selection: Vec<LetterIndex>,
    /// The triplets held in store, in the order in which they are played.
    pub triplets: Vec<(LetterIndex, LetterIndex, LetterIndex)>,
}

/// Every letter of `letters` as many times as its frequency says, in the
/// order of the table.
pub open spec fn expanded_pool(letters: Seq<LetterConfig>) -> Seq<LetterIndex>
    decreases letters.len(),
{
    if letters.len() == 0 {
        Seq::empty()
    } else {
        expanded_pool(letters.drop_last()) + Seq::new(
            letters.last().repartition as nat,
            |k: int| (letters.len() - 1) as u8,
        )
    }
}

/// The letters of a shuffled pool that start on the grid: the first ones.
pub open spec fn pool_initial(shuffled: Seq<LetterIndex>) -> Seq<LetterIndex> {
    shuffled.take(NUMBER_OF_LETTERS_IN_INITIAL_GRID as int)
}

/// The triplets of a shuffled pool: what follows the initial letters, three
/// by three.
pub open spec fn pool_triplets(shuffled: Seq<LetterIndex>) -> Seq<
    (LetterIndex, LetterIndex, LetterIndex),
> {
    Seq::new(
        NUMBER_OF_LETTERS_TRIPLETS as nat,
        |j: int|
            (
                shuffled[NUMBER_OF_LETTERS_IN_INITIAL_GRID + 3 * j],
                shuffled[NUMBER_OF_LETTERS_IN_INITIAL_GRID + 3 * j + 1],
                shuffled[NUMBER_OF_LETTERS_IN_INITIAL_GRID + 3 * j + 2],
            ),
    )
}

/// The expanded pool has as many letters as the frequencies add up to.
pub proof fn lemma_expanded_pool_len(letters: Seq<LetterConfig>)
    ensures
        expanded_pool(letters).len() == repartition_total(letters),
    decreases letters.len(),
{
    if letters.len() > 0 {
        lemma_expanded_pool_len(letters.drop_last());
    }
}

/// Splits a shuffled pool into the letters that start on the grid and the
/// triplets held in store. Letters beyond those of a game are left out.
pub fn split_letters_pool(shuffled: &Vec<LetterIndex>) -> (pool: LettersPool)
    requires
        shuffled@.len() >= NUMBER_OF_LETTERS,
    ensures
        pool.initial_grid_selection@ == pool_initial(shuffled@),
        pool.triplets@ == pool_triplets(shuffled@),
        pool.initial_grid_selection@.len() == NUMBER_OF_LETTERS_IN_INITIAL_GRID,
        pool.triplets@.len() == NUMBER_OF_LETTERS_TRIPLETS,
{
    let mut initial_grid_selection: Vec<LetterIndex> = Vec::new();
    let mut i: usize = 0;
    while i < NUMBER_OF_LETTERS_IN_INITIAL_GRID
        invariant
            i <= NUMBER_OF_LETTERS_IN_INITIAL_GRID,
            shuffled@.len() >= NUMBER_OF_LETTERS,
            initial_grid_selection@ == shuffled@.take(i as int),
        decreases NUMBER_OF_LETTERS_IN_INITIAL_GRID - i,
    {
        initial_grid_selection.push(shuffled[i]);
        assert(initial_grid_selection@ =~= shuffled@.take(i + 1));
        i = i + 1;
    }
    let mut triplets: Vec<(LetterIndex, LetterIndex, LetterIndex)> = Vec::new();
    let mut j: usize = 0;
    while j < NUMBER_OF_LETTERS_TRIPLETS
        invariant
            j <= NUMBER_OF_LETTERS_TRIPLETS,
            shuffled@.len() >= NUMBER_OF_LETTERS,
            triplets@ == pool_triplets(shuffled@).take(j as int),
        decreases NUMBER_OF_LETTERS_TRIPLETS - j,
    {
        let at: usize = NUMBER_OF_LETTERS_IN_INITIAL_GRID + 3 * j;
        triplets.push((shuffled[at], shuffled[at + 1], shuffled[at + 2]));
        assert(triplets@ =~= pool_triplets(shuffled@).take(j + 1));
        j = j + 1;
    }
    assert(triplets@ =~= pool_triplets(shuffled@));
    LettersPool { initial_grid_selection, triplets }
}

impl LettersTable {
    /// Every letter as many times as its frequency says, in the order of the
    /// table.
    pub fn expand_pool(&self) -> (pool: Vec<LetterIndex>)
        requires
            self.wf(),
        ensures
            pool@ == expanded_pool(self@),
            pool@.len() == NUMBER_OF_LETTERS,
    {
        let mut pool: Vec<LetterIndex> = Vec::new();
        let mut i: usize = 0;
        while i < self.letters.len()
            invariant
                i <= self.letters.len() <= 255,
                pool@ == expanded_pool(self.letters@.take(i as int)),
            decreases self.letters.len() - i,
        {
            let count = self.letters[i].repartition;
            let ghost before = pool@;
            let mut k: usize = 0;
            while k < count
                invariant
                    k <= count,
                    i < self.letters.len() <= 255,
                    pool@ == before + Seq::new(k as nat, |n: int| i as u8),
                decreases count - k,
            {
                pool.push(i as u8);
                assert(pool@ =~= before + Seq::new((k + 1) as nat, |n: int| i as u8));
                k = k + 1;
            }
            proof {
                let next = self.letters@.take(i + 1);
                assert(next.drop_last() =~= self.letters@.take(i as int));
                assert(Seq::new(count as nat, |n: int| i as u8) =~= Seq::new(
                    next.last().repartition as nat,
                    |n: int| (next.len() - 1) as u8,
                ));
            }
            i = i + 1;
        }
        proof {
            assert(self.letters@.take(i as int) =~= self.letters@);
            lemma_expanded_pool_len(self@);
        }
        pool
    }

    /// Draws the letters of a game: the expanded pool is shuffled by
    /// `generator`, its first letters start on the grid and the others make
    /// the triplets.
    pub fn generate_letters_pool(&self, generator: &mut Generator) -> (pool: LettersPool)
        requires
            self.wf(),
        ensures
            pool.initial_grid_selection@ == pool_initial(
                chacha_shuffled(
                    old(generator).key(),
                    old(generator).word_pos(),
                    expanded_pool(self@),
                ).0,
            ),
            pool.triplets@ == pool_triplets(
                chacha_shuffled(
                    old(generator).key(),
                    old(generator).word_pos(),
                    expanded_pool(self@),
                ).0,
            ),
            final(generator).key() == old(generator).key(),
            final(generator).word_pos() == chacha_shuffled(
                old(generator).key(),
                old(generator).word_pos(),
                expanded_pool(self@),
            ).1,
            pool.initial_grid_selection@.len() == NUMBER_OF_LETTERS_IN_INITIAL_GRID,
            pool.triplets@.len() == NUMBER_OF_LETTERS_TRIPLETS,
    {
        let all_letters = self.expand_pool();
        let shuffled = generator.shuffle(all_letters);
        proof {
            shuffled@.to_multiset_ensures();
            expanded_pool(self@).to_multiset_ensures();
        }
        split_letters_pool(&shuffled)
    }
}

/// A letter entry.
pub open spec fn letter_config(letter: char, repartition: usize, score: u32) -> LetterConfig {
    LetterConfig { letter, repartition, score }
}

/// Adding a letter to a table adds its frequency to the sum.
pub proof fn lemma_repartition_total_push(letters: Seq<LetterConfig>, config: LetterConfig)
    ensures
        repartition_total(letters.push(config)) == repartition_total(letters) + config.repartition,
{
    assert(letters.push(config).drop_last() =~= letters);
}

/// The letters of French, with their frequencies and points.
pub open spec fn french_letters() -> Seq<LetterConfig> {
    Seq::empty()
    .push(letter_config('A', 23, 1))
    .push(letter_config('B', 4, 7))
    .push(letter_config('C', 7, 5))
    .push(letter_config('D', 5, 6))
    .push(letter_config('E', 30, 1))
    .push(letter_config('F', 3, 8))
    .push(letter_config('G', 4, 7))
    .push(letter_config('H', 3, 8))
    .push(letter_config('I', 16, 2))
    .push(letter_config('J', 1, 9))
    .push(letter_config('K', 1, 9))
    .push(letter_config('L', 9, 4))
    .push(letter_config('M', 5, 6))
    .push(letter_config('N', 10, 3))
    .push(letter_config('O', 11, 3))
    .push(letter_config('P', 5, 6))
    .push(letter_config('Q', 1, 9))
    .push(letter_config('R', 15, 2))
    .push(letter_config('S', 17, 2))
    .push(letter_config('T', 13, 3))
    .push(letter_config('U', 9, 4))
    .push(letter_config('V', 3, 8))
    .push(letter_config('W', 1, 9))
    .push(letter_config('X', 1, 9))
    .push(letter_config('Y', 1, 9))
    .push(letter_config('Z', 2, 9))
}

/// The frequencies of the French letters add up to the letters of a game:
/// those that start on the grid and three for each triplet. No letter is
/// worth too much, and each has an index of its own.
pub proof fn lemma_french_letters_pool_size()
    ensures
        repartition_total(french_letters()) == NUMBER_OF_LETTERS_IN_INITIAL_GRID + 3
            * NUMBER_OF_LETTERS_TRIPLETS,
        repartition_total(french_letters()) == NUMBER_OF_LETTERS,
        french_letters().len() == 26,
        scores_fit(french_letters()),
{
    let s0: Seq<LetterConfig> = Seq::empty();
    let s1 = s0.push(letter_config('A', 23, 1));
    lemma_repartition_total_push(s0, letter_config('A', 23, 1));
    let s2 = s1.push(letter_config('B', 4, 7));
    lemma_repartition_total_push(s1, letter_config('B', 4, 7));
    let s3 = s2.push(letter_config('C', 7, 5));
    lemma_repartition_total_push(s2, letter_config('C', 7, 5));
    let s4 = s3.push(letter_config('D', 5, 6));
    lemma_repartition_total_push(s3, letter_config('D', 5, 6));
    let s5 = s4.push(letter_config('E', 30, 1));
    lemma_repartition_total_push(s4, letter_config('E', 30, 1));
    let s6 = s5.push(letter_config('F', 3, 8));
    lemma_repartition_total_push(s5, letter_config('F', 3, 8));
    let s7 = s6.push(letter_config('G', 4, 7));
    lemma_repartition_total_push(s6, letter_config('G', 4, 7));
    let s8 = s7.push(letter_config('H', 3, 8));
    lemma_repartition_total_push(s7, letter_config('H', 3, 8));
    let s9 = s8.push(letter_config('I', 16, 2));
    lemma_repartition_total_push(s8, letter_config('I', 16, 2));
    let s10 = s9.push(letter_config('J', 1, 9));
    lemma_repartition_total_push(s9, letter_config('J', 1, 9));
    let s11 = s10.push(letter_config('K', 1, 9));
    lemma_repartition_total_push(s10, letter_config('K', 1, 9));
    let s12 = s11.push(letter_config('L', 9, 4));
    lemma_repartition_total_push(s11, letter_config('L', 9, 4));
    let s13 = s12.push(letter_config('M', 5, 6));
    lemma_repartition_total_push(s12, letter_config('M', 5, 6));
    let s14 = s13.push(letter_config('N', 10, 3));
    lemma_repartition_total_push(s13, letter_config('N', 10, 3));
    let s15 = s14.push(letter_config('O', 11, 3));
    lemma_repartition_total_push(s14, letter_config('O', 11, 3));
    let s16 = s15.push(letter_config('P', 5, 6));
    lemma_repartition_total_push(s15, letter_config('P', 5, 6));
    let s17 = s16.push(letter_config('Q', 1, 9));
    lemma_repartition_total_push(s16, letter_config('Q', 1, 9));
    let s18 = s17.push(letter_config('R', 15, 2));
    lemma_repartition_total_push(s17, letter_config('R', 15, 2));
    let s19 = s18.push(letter_config('S', 17, 2));
    lemma_repartition_total_push(s18, letter_config('S', 17, 2));
    let s20 = s19.push(letter_config('T', 13, 3));
    lemma_repartition_total_push(s19, letter_config('T', 13, 3));
    let s21 = s20.push(letter_config('U', 9, 4));
    lemma_repartition_total_push(s20, letter_config('U', 9, 4));
    let s22 = s21.push(letter_config('V', 3, 8));
    lemma_repartition_total_push(s21, letter_config('V', 3, 8));
    let s23 = s22.push(letter_config('W', 1, 9));
    lemma_repartition_total_push(s22, letter_config('W', 1, 9));
    let s24 = s23.push(letter_config('X', 1, 9));
    lemma_repartition_total_push(s23, letter_config('X', 1, 9));
    let s25 = s24.push(letter_config('Y', 1, 9));
    lemma_repartition_total_push(s24, letter_config('Y', 1, 9));
    let s26 = s25.push(letter_config('Z', 2, 9));
    lemma_repartition_total_push(s25, letter_config('Z', 2, 9));
    assert(s26 == french_letters());
    assert(forall|i: int| 0 <= i < 26 ==> (#[trigger] s26[i]).score <= 9);
}

/// Puts one more letter at the end of `letters`.
fn push_letter(letters: &mut Vec<LetterConfig>, letter: char, repartition: usize, score: u32)
    ensures
        final(letters)@ == old(letters)@.push(letter_config(letter, repartition, score)),
{
    letters.push(LetterConfig { letter, repartition, score });
}

/// The table of the French letters.
pub fn french_letters_table() -> (table: LettersTable)
    ensures
        table@ == french_letters(),
        table.wf(),
{
    let mut letters: Vec<LetterConfig> = Vec::new();
    push_letter(&mut letters, 'A', 23, 1);
    push_letter(&mut letters, 'B', 4, 7);
    push_letter(&mut letters, 'C', 7, 5);
    push_letter(&mut letters, 'D', 5, 6);
    push_letter(&mut letters, 'E', 30, 1);
    push_letter(&mut letters, 'F', 3, 8);
    push_letter(&mut letters, 'G', 4, 7);
    push_letter(&mut letters, 'H', 3, 8);
    push_letter(&mut letters, 'I', 16, 2);
    push_letter(&mut letters, 'J', 1, 9);
    push_letter(&mut letters, 'K', 1, 9);
    push_letter(&mut letters, 'L', 9, 4);
    push_letter(&mut letters, 'M', 5, 6);
    push_letter(&mut letters, 'N', 10, 3);
    push_letter(&mut letters, 'O', 11, 3);
    push_letter(&mut letters, 'P', 5, 6);
    push_letter(&mut letters, 'Q', 1, 9);
    push_letter(&mut letters, 'R', 15, 2);
    push_letter(&mut letters, 'S', 17, 2);
    push_letter(&mut letters, 'T', 13, 3);
    push_letter(&mut letters, 'U', 9, 4);
    push_letter(&mut letters, 'V', 3, 8);
    push_letter(&mut letters, 'W', 1, 9);
    push_letter(&mut letters, 'X', 1, 9);
    push_letter(&mut letters, 'Y', 1, 9);
    push_letter(&mut letters, 'Z', 2, 9);
    proof {
        assert(letters@ =~= french_letters());
        lemma_french_letters_pool_size();
    }
    LettersTable { letters }
}

/// A word of five to eight letters, each of them worth at least a point, is
/// worth at least a point.
pub proof fn lemma_score_positive(
    letters: Seq<LetterConfig>,
    word: Seq<LetterIndex>,
    golden: Seq<LetterIndex>,
)
    requires
        WORD_MIN_LENGTH <= word.len() <= WORD_MAX_LENGTH,
        forall|i: int| 0 <= i < word.len() ==> letter_score(letters, #[trigger] word[i]) >= 1,
    ensures
        word_score(letters, word, golden) >= 1,
{
    lemma_letters_score_at_least(letters, word);
    assert(letters_score(letters, word) * length_multiplier(word.len()) >= 1) by (nonlinear_arith)
        requires
            letters_score(letters, word) >= 1,
            length_multiplier(word.len()) >= 1,
    ;
}

/// Where every letter is worth at least a point, a word is worth at least a
/// point for each of its letters.
pub proof fn lemma_letters_score_at_least(letters: Seq<LetterConfig>, word: Seq<LetterIndex>)
    requires
        forall|i: int| 0 <= i < word.len() ==> letter_score(letters, #[trigger] word[i]) >= 1,
    ensures
        letters_score(letters, word) >= word.len(),
    decreases word.len(),
{
    if word.len() > 0 {
        assert forall|i: int| 0 <= i < word.drop_last().len() implies letter_score(
            letters,
            #[trigger] word.drop_last()[i],
        ) >= 1 by {
            assert(word.drop_last()[i] == word[i]);
        }
        lemma_letters_score_at_least(letters, word.drop_last());
        assert(letter_score(letters, word[word.len() - 1]) >= 1);
    }
}

/// The length of a word multiplies its letters' points by one for five
/// letters, two for six, three for seven and four for eight, and no other
/// length has a multiplier.
pub proof fn lemma_length_multiplier(len: nat)
    ensures
        len == 5 ==> length_multiplier(len) == 1,
        len == 6 ==> length_multiplier(len) == 2,
        len == 7 ==> length_multiplier(len) == 3,
        len == 8 ==> length_multiplier(len) == 4,
        len < 5 || len > 8 ==> length_multiplier(len) == 0,
{
}

/// The golden word is worth exactly the bonus more than it would be worth
/// if another word were the golden one.
pub proof fn lemma_golden_word_bonus(
    letters: Seq<LetterConfig>,
    word: Seq<LetterIndex>,
    other: Seq<LetterIndex>,
)
    requires
        other != word,
    ensures
        word_score(letters, word, word) == word_score(letters, word, other) + GOLDEN_WORD_BONUS,
{
}

} // verus!
