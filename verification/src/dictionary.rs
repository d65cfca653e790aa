//! The dictionary: the words that count in a game.

use crate::generator::chacha_draw;
use crate::generator::Generator;
use crate::lexicon::first_unknown;
use crate::lexicon::lemma_parsed_word_known;
use crate::lexicon::parsed_word;
use crate::lexicon::text_chars;
use crate::lexicon::LetterConfig;
use crate::lexicon::LetterIndex;
use crate::lexicon::LettersTable;
use crate::lexicon::Word;
use crate::lexicon::LETTER_INDEX_NONE;
use crate::lexicon::WORD_MAX_LENGTH;
use crate::lexicon::WORD_MIN_LENGTH;
use std::collections::HashSet;
use vstd::prelude::*;

verus! {

broadcast use vstd::std_specs::hash::group_hash_axioms;

/// Whether `c` is white space, as Unicode defines it.
pub open spec fn is_space(c: char) -> bool {
    let n = c as u32;
    ||| 0x09 <= n <= 0x0d
    ||| n == 0x20
    ||| n == 0x85
    ||| n == 0xa0
    ||| n == 0x1680
    ||| 0x2000 <= n <= 0x200a
    ||| n == 0x2028
    ||| n == 0x2029
    ||| n == 0x202f
    ||| n == 0x205f
    ||| n == 0x3000
}

/// Whether `c` is white space, as Unicode defines it.
pub fn is_whitespace(c: char) -> (space: bool)
    ensures
        space == is_space(c),
{
    let n: u32 = c as u32;
    (0x09 <= n && n <= 0x0d) || n == 0x20 || n == 0x85 || n == 0xa0 || n == 0x1680 || (0x2000 <= n
        && n <= 0x200a) || n == 0x2028 || n == 0x2029 || n == 0x202f || n == 0x205f || n == 0x3000
}

/// Where the text between `start` and `end` begins once the white space in
/// front of it is left out.
pub open spec fn trim_from(text: Seq<char>, start: int, end: int) -> int
    decreases end - start,
{
    if 0 <= start < end <= text.len() && is_space(text[start]) {
        trim_from(text, start + 1, end)
    } else {
        start
    }
}

/// Where the text between `start` and `end` ends once the white space
/// behind it is left out.
pub open spec fn trim_to(text: Seq<char>, start: int, end: int) -> int
    decreases end - start,
{
    if 0 <= start < end <= text.len() && is_space(text[end - 1]) {
        trim_to(text, start, end - 1)
    } else {
        end
    }
}

/// The text between `start` and `end` without the white space around it.
pub open spec fn trimmed(text: Seq<char>, start: int, end: int) -> Seq<char> {
    let first = trim_from(text, start, end);
    text.subrange(first, trim_to(text, first, end))
}

/// The word that the line between `start` and `end` gives, if it gives one.
pub open spec fn line_words(letters: Seq<LetterConfig>, text: Seq<char>, start: int, end: int) -> Seq<
    Seq<LetterIndex>,
> {
    match parsed_word(letters, trimmed(text, start, end)) {
        Ok(word) => seq![word],
        Err(_) => Seq::empty(),
    }
}

/// The words that the lines of `text` give from the line that starts at
/// `start` on, in the order of the lines, when that line is known to hold no
/// line feed before `at`. A line that spells no word gives none.
pub open spec fn words_from(letters: Seq<LetterConfig>, text: Seq<char>, start: int, at: int) -> Seq<
    Seq<LetterIndex>,
>
    decreases text.len() - at,
{
    if at < 0 || at >= text.len() {
        line_words(letters, text, start, text.len() as int)
    } else if text[at] == '\n' {
        line_words(letters, text, start, at) + words_from(letters, text, at + 1, at + 1)
    } else {
        words_from(letters, text, start, at + 1)
    }
}

/// The words that the lines of `text` give, in the order of the lines. Lines
/// end at a line feed; the white space around a line does not count.
pub open spec fn wordlist_words(letters: Seq<LetterConfig>, text: Seq<char>) -> Seq<
    Seq<LetterIndex>,
> {
    words_from(letters, text, 0, 0)
}

/// The number that stands for a word: its letters, each raised by one, as
/// the digits of a number in base 257, the first letter lowest.
pub open spec fn word_key(word: Seq<LetterIndex>) -> nat
    decreases word.len(),
{
    if word.len() == 0 {
        0
    } else {
        (word[0] + 1 + 257 * word_key(word.drop_first())) as nat
    }
}

/// Two words with the same number are the same word.
pub proof fn lemma_word_key_injective(a: Seq<LetterIndex>, b: Seq<LetterIndex>)
    requires
        word_key(a) == word_key(b),
    ensures
        a == b,
    decreases a.len(),
{
    if a.len() == 0 {
        if b.len() > 0 {
            assert(word_key(b) >= 1);
        }
        assert(a =~= b);
    } else {
        assert(word_key(a) >= 1);
        assert(b.len() > 0);
        let ka = word_key(a.drop_first());
        let kb = word_key(b.drop_first());
        assert(a[0] + 1 + 257 * ka == b[0] + 1 + 257 * kb);
        assert(a[0] == b[0] && ka == kb) by (nonlinear_arith)
            requires
                a[0] + 1 + 257 * ka == b[0] + 1 + 257 * kb,
                0 <= a[0] <= 255,
                0 <= b[0] <= 255,
        ;
        lemma_word_key_injective(a.drop_first(), b.drop_first());
        assert(a =~= seq![a[0]] + a.drop_first());
        assert(b =~= seq![b[0]] + b.drop_first());
    }
}

/// The largest number that stands for a word of `len` letters, and one more.
pub open spec fn key_limit(len: nat) -> nat
    decreases len,
{
    if len == 0 {
        1
    } else {
        257 * key_limit((len - 1) as nat)
    }
}

/// The number of a word is below the limit of its length.
pub proof fn lemma_word_key_bound(word: Seq<LetterIndex>)
    ensures
        word_key(word) < key_limit(word.len()),
    decreases word.len(),
{
    if word.len() > 0 {
        lemma_word_key_bound(word.drop_first());
    }
}

/// The number that stands for the letters of `letters`.
pub fn key_of(letters: &Vec<LetterIndex>) -> (key: u128)
    requires
        letters@.len() <= WORD_MAX_LENGTH,
    ensures
        key == word_key(letters@),
{
    let mut key: u128 = 0;
    let mut i: usize = letters.len();
    assert(letters@.skip(i as int) =~= Seq::<LetterIndex>::empty());
    while i > 0
        invariant
            i <= letters@.len() <= 8,
            key == word_key(letters@.skip(i as int)),
        decreases i,
    {
        proof {
            lemma_word_key_bound(letters@.skip(i as int));
            assert(key_limit(8) == 19031147999601100801) by {
                reveal_with_fuel(key_limit, 9);
            }
            lemma_key_limit_grows((letters@.len() - i) as nat, 8);
            assert(letters@.skip(i - 1).drop_first() =~= letters@.skip(i as int));
        }
        i = i - 1;
        key = key * 257 + (letters[i] as u128 + 1);
    }
    assert(letters@.skip(0) =~= letters@);
    key
}

/// The limit grows with the length.
pub proof fn lemma_key_limit_grows(shorter: nat, longer: nat)
    requires
        shorter <= longer,
    ensures
        key_limit(shorter) <= key_limit(longer),
    decreases longer,
{
    if shorter < longer {
        lemma_key_limit_grows(shorter, (longer - 1) as nat);
    }
}

/// The words of `words` that have six letters, in the same order.
pub open spec fn six_letter_ones(words: Seq<Seq<LetterIndex>>) -> Seq<Seq<LetterIndex>>
    decreases words.len(),
{
    if words.len() == 0 {
        Seq::empty()
    } else if words.last().len() == 6 {
        six_letter_ones(words.drop_last()).push(words.last())
    } else {
        six_letter_ones(words.drop_last())
    }
}

/// The number of a word of at most eight letters fits in 128 bits.
pub proof fn lemma_word_key_fits(word: Seq<LetterIndex>)
    requires
        word.len() <= WORD_MAX_LENGTH,
    ensures
        word_key(word) < 19031147999601100801,
{
    lemma_word_key_bound(word);
    lemma_key_limit_grows(word.len(), 8);
    assert(key_limit(8) == 19031147999601100801) by {
        reveal_with_fuel(key_limit, 9);
    }
}

/// The words of a game: what the dictionary holds, and the six-letter words
/// among them, from which the golden word is drawn.
pub struct Dictionary {
    keys: HashSet<u128>,
    six_letter_words: Vec<Word>,
}

impl Dictionary {
    /// Whether the dictionary holds `word`.
    pub closed spec fn spec_contains(&self, word: Seq<LetterIndex>) -> bool {
        &&& WORD_MIN_LENGTH <= word.len() <= WORD_MAX_LENGTH
        &&& self.keys@.contains(word_key(word) as u128)
    }

    /// The six-letter words, in the order and as often as the word list gave
    /// them.
    pub closed spec fn six_letter_words(&self) -> Seq<Seq<LetterIndex>> {
        self.six_letter_words@.map_values(|word: Word| word@)
    }

    /// Every six-letter word listed is a word of the dictionary, of six
    /// letters.
    pub open spec fn wf(&self) -> bool {
        forall|i: int|
            0 <= i < self.six_letter_words().len() ==> self.spec_contains(
                #[trigger] self.six_letter_words()[i],
            ) && self.six_letter_words()[i].len() == 6
    }

    /// Takes in the word of the line of `chars` between `start` and `end`,
    /// if that line gives one.
    fn add_line(&mut self, letters_table: &LettersTable, chars: &Vec<char>, start: usize, end: usize)
        requires
            letters_table@.len() <= LETTER_INDEX_NONE,
            start <= end <= chars@.len(),
            old(self).wf(),
        ensures
            final(self).wf(),
            forall|word: Seq<LetterIndex>|
                final(self).spec_contains(word) <==> old(self).spec_contains(word) || line_words(
                    letters_table@,
                    chars@,
                    start as int,
                    end as int,
                ).contains(word),
            final(self).six_letter_words() == old(self).six_letter_words() + six_letter_ones(
                line_words(letters_table@, chars@, start as int, end as int),
            ),
    {
        let ghost found = line_words(letters_table@, chars@, start as int, end as int);
        let mut first: usize = start;
        while first < end && is_whitespace(chars[first])
            invariant
                start <= first <= end <= chars@.len(),
                trim_from(chars@, start as int, end as int) == trim_from(
                    chars@,
                    first as int,
                    end as int,
                ),
            decreases end - first,
        {
            first = first + 1;
        }
        let mut last: usize = end;
        while first < last && is_whitespace(chars[last - 1])
            invariant
                first <= last <= end <= chars@.len(),
                trim_to(chars@, first as int, end as int) == trim_to(
                    chars@,
                    first as int,
                    last as int,
                ),
            decreases last - first,
        {
            last = last - 1;
        }
        assert(chars@.subrange(first as int, last as int) == trimmed(
            chars@,
            start as int,
            end as int,
        ));
        match letters_table.parse_chars(chars, first, last) {
            Ok(word) => {
                let ghost before = self.six_letter_words@;
                if word.length() == 6 {
                    self.six_letter_words.push(word.clone());
                }
                let letters = word.letters();
                let key = key_of(&letters);
                self.keys.insert(key);
                proof {
                    assert(found =~= seq![word@]);
                    assert(found[0] == word@);
                    reveal_with_fuel(six_letter_ones, 2);
                    assert(found.drop_last() =~= Seq::<Seq<LetterIndex>>::empty());
                    assert(final(self).six_letter_words() =~= old(self).six_letter_words()
                        + six_letter_ones(found));
                    lemma_word_key_fits(word@);
                    assert forall|other: Seq<LetterIndex>|
                        final(self).spec_contains(other) <==> old(self).spec_contains(other)
                            || found.contains(other) by {
                        if WORD_MIN_LENGTH <= other.len() <= WORD_MAX_LENGTH {
                            lemma_word_key_fits(other);
                            if word_key(other) == word_key(word@) {
                                lemma_word_key_injective(other, word@);
                            }
                        }
                        if found.contains(other) {
                            assert(other == word@);
                        }
                    }
                }
            },
            Err(_) => {
                proof {
                    assert(found =~= Seq::<Seq<LetterIndex>>::empty());
                    assert(final(self).six_letter_words() =~= old(self).six_letter_words()
                        + six_letter_ones(found));
                }
            },
        }
    }
}

/// Every letter of every word of `dictionary` is a letter of `letters`.
pub open spec fn dictionary_known(dictionary: &Dictionary, letters: Seq<LetterConfig>) -> bool {
    forall|word: Seq<LetterIndex>| #[trigger]
        dictionary.spec_contains(word) ==> first_unknown(letters, word) is None
}

/// A word is among two lists put together if it is in one of them.
pub proof fn lemma_contains_add(
    a: Seq<Seq<LetterIndex>>,
    b: Seq<Seq<LetterIndex>>,
    word: Seq<LetterIndex>,
)
    ensures
        (a + b).contains(word) <==> a.contains(word) || b.contains(word),
{
    if a.contains(word) {
        let i = choose|i: int| 0 <= i < a.len() && a[i] == word;
        assert((a + b)[i] == word);
    }
    if b.contains(word) {
        let i = choose|i: int| 0 <= i < b.len() && b[i] == word;
        assert((a + b)[a.len() + i] == word);
    }
    if (a + b).contains(word) {
        let i = choose|i: int| 0 <= i < (a + b).len() && (a + b)[i] == word;
        if i < a.len() {
            assert(a[i] == word);
        } else {
            assert(b[i - a.len()] == word);
        }
    }
}

/// The six-letter words of two lists put together are those of the first,
/// then those of the second.
pub proof fn lemma_six_letter_ones_add(a: Seq<Seq<LetterIndex>>, b: Seq<Seq<LetterIndex>>)
    ensures
        six_letter_ones(a + b) == six_letter_ones(a) + six_letter_ones(b),
    decreases b.len(),
{
    if b.len() == 0 {
        assert(a + b =~= a);
        assert(six_letter_ones(a) + six_letter_ones(b) =~= six_letter_ones(a));
    } else {
        assert((a + b).drop_last() =~= a + b.drop_last());
        lemma_six_letter_ones_add(a, b.drop_last());
        assert((a + b).last() == b.last());
        if b.last().len() == 6 {
            assert((six_letter_ones(a) + six_letter_ones(b.drop_last())).push(b.last())
                =~= six_letter_ones(a) + six_letter_ones(b.drop_last()).push(b.last()));
        }
    }
}

impl Dictionary {
    /// The dictionary of the words of `wordlist_content`, one word to a line.
    /// A line that spells no word of `letters_table` is passed over.
    pub fn new(wordlist_content: &str, letters_table: &LettersTable) -> (dictionary: Dictionary)
        requires
            letters_table@.len() <= LETTER_INDEX_NONE,
        ensures
            dictionary.wf(),
            dictionary_known(&dictionary, letters_table@),
            forall|word: Seq<LetterIndex>|
                dictionary.spec_contains(word) <==> wordlist_words(
                    letters_table@,
                    wordlist_content@,
                ).contains(word),
            dictionary.six_letter_words() == six_letter_ones(
                wordlist_words(letters_table@, wordlist_content@),
            ),
    {
        let chars = text_chars(wordlist_content);
        let mut dictionary = Dictionary { keys: HashSet::new(), six_letter_words: Vec::new() };
        let ghost mut taken: Seq<Seq<LetterIndex>> = Seq::empty();
        let mut start: usize = 0;
        let mut at: usize = 0;
        assert(dictionary.six_letter_words() =~= six_letter_ones(taken));
        while at < chars.len()
            invariant
                start <= at <= chars@.len(),
                letters_table@.len() <= LETTER_INDEX_NONE,
                dictionary.wf(),
                forall|i: int|
                    0 <= i < taken.len() ==> first_unknown(letters_table@, #[trigger] taken[i])
                        is None,
                taken + words_from(letters_table@, chars@, start as int, at as int)
                    == wordlist_words(letters_table@, chars@),
                forall|word: Seq<LetterIndex>|
                    dictionary.spec_contains(word) <==> taken.contains(word),
                dictionary.six_letter_words() == six_letter_ones(taken),
            decreases chars@.len() - at,
        {
            if chars[at] == '\n' {
                let ghost found = line_words(letters_table@, chars@, start as int, at as int);
                let ghost before = dictionary;
                dictionary.add_line(letters_table, &chars, start, at);
                proof {
                    assert forall|word: Seq<LetterIndex>|
                        dictionary.spec_contains(word) <==> (taken + found).contains(word) by {
                        lemma_contains_add(taken, found, word);
                    }
                    lemma_parsed_word_known(
                        letters_table@,
                        trimmed(chars@, start as int, at as int),
                    );
                    lemma_six_letter_ones_add(taken, found);
                    assert((taken + found) + words_from(
                        letters_table@,
                        chars@,
                        at + 1,
                        at + 1,
                    ) =~= taken + words_from(letters_table@, chars@, start as int, at as int));
                    taken = taken + found;
                }
                start = at + 1;
            }
            at = at + 1;
        }
        let ghost found = line_words(letters_table@, chars@, start as int, chars@.len() as int);
        dictionary.add_line(letters_table, &chars, start, chars.len());
        proof {
            assert forall|word: Seq<LetterIndex>|
                dictionary.spec_contains(word) <==> (taken + found).contains(word) by {
                lemma_contains_add(taken, found, word);
            }
            lemma_parsed_word_known(
                letters_table@,
                trimmed(chars@, start as int, chars@.len() as int),
            );
            lemma_six_letter_ones_add(taken, found);
            assert forall|word: Seq<LetterIndex>| #[trigger]
                dictionary.spec_contains(word) implies first_unknown(letters_table@, word)
                is None by {
                let i = choose|i: int| 0 <= i < (taken + found).len() && (taken + found)[i] == word;
                if i < taken.len() {
                    assert(taken[i] == word);
                } else {
                    assert(found[i - taken.len()] == word);
                }
            }
        }
        dictionary
    }

    /// Whether the dictionary holds `word`.
    pub fn contains(&self, word: &Word) -> (held: bool)
        ensures
            held == self.spec_contains(word@),
    {
        if word.length() < WORD_MIN_LENGTH || word.length() > WORD_MAX_LENGTH {
            return false;
        }
        let letters = word.letters();
        let key = key_of(&letters);
        self.keys.contains(&key)
    }

    /// The number of six-letter words.
    pub fn six_letter_count(&self) -> (count: usize)
        ensures
            count == self.six_letter_words().len(),
    {
        self.six_letter_words.len()
    }

    /// The six-letter word at `index`.
    pub fn six_letter_word(&self, index: usize) -> (word: Word)
        requires
            index < self.six_letter_words().len(),
        ensures
            word@ == self.six_letter_words()[index as int],
    {
        self.six_letter_words[index].clone()
    }

    /// Draws one of the six-letter words, each as likely as its share of the
    /// list.
    pub fn get_random_six_letter_word(&self, generator: &mut Generator) -> (word: Word)
        requires
            self.six_letter_words().len() > 0,
        ensures
            chacha_draw(
                old(generator).key(),
                old(generator).word_pos(),
                self.six_letter_words().len() as usize,
            ).0 < self.six_letter_words().len(),
            word@ == self.six_letter_words()[chacha_draw(
                old(generator).key(),
                old(generator).word_pos(),
                self.six_letter_words().len() as usize,
            ).0 as int],
            final(generator).key() == old(generator).key(),
            final(generator).word_pos() == chacha_draw(
                old(generator).key(),
                old(generator).word_pos(),
                self.six_letter_words().len() as usize,
            ).1,
    {
        let index = generator.index_below(self.six_letter_words.len());
        self.six_letter_word(index)
    }
}

} // verus!
