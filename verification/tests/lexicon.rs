use golden_core::dictionary::is_whitespace;
use golden_core::dictionary::Dictionary;
use golden_core::generator::Generator;
use golden_core::lexicon::french_letters_table;
use golden_core::lexicon::split_letters_pool;
use golden_core::lexicon::LetterConfig;
use golden_core::lexicon::LettersTable;
use golden_core::lexicon::LexiconError;
use golden_core::lexicon::Word;
use golden_core::lexicon::LETTER_INDEX_NONE;
use golden_core::lexicon::NUMBER_OF_LETTERS;
use golden_core::lexicon::NUMBER_OF_LETTERS_IN_INITIAL_GRID;
use golden_core::lexicon::NUMBER_OF_LETTERS_TRIPLETS;

fn word(table: &LettersTable, text: &str) -> Word {
    table.parse_word(text).unwrap()
}

#[test]
fn french_table_has_the_letters_of_a_game() {
    let table = french_letters_table();
    let pool = table.expand_pool();
    assert_eq!(pool.len(), NUMBER_OF_LETTERS);
    assert_eq!(
        NUMBER_OF_LETTERS,
        NUMBER_OF_LETTERS_IN_INITIAL_GRID + 3 * NUMBER_OF_LETTERS_TRIPLETS
    );
    assert_eq!(pool.iter().filter(|&&l| l == 0).count(), 23);
    assert_eq!(pool.iter().filter(|&&l| l == 4).count(), 30);
    assert_eq!(pool.iter().filter(|&&l| l == 25).count(), 2);
    assert_eq!(pool[0], 0);
    assert_eq!(pool[22], 0);
    assert_eq!(pool[23], 1);
    assert_eq!(pool[199], 25);
}

#[test]
fn french_table_letters_and_scores() {
    let table = french_letters_table();
    assert_eq!(table.try_get_letter_char(0), 'A');
    assert_eq!(table.try_get_letter_score(0), 1);
    assert_eq!(table.try_get_letter_char(25), 'Z');
    assert_eq!(table.try_get_letter_score(25), 9);
    assert_eq!(table.try_get_letter_index('E'), Ok(4));
    assert_eq!(table.try_get_letter_index('Y'), Ok(24));
    assert_eq!(
        table.try_get_letter_index('e'),
        Err(LexiconError::UnknownLetter { letter: 'e' })
    );
    assert_eq!(table.try_get_letter(3).unwrap().letter, 'D');
    assert_eq!(
        table.try_get_letter(26).err(),
        Some(LexiconError::UnknownLetterIndex { i: 26 })
    );
    assert_eq!(
        table.try_get_letter(LETTER_INDEX_NONE).err(),
        Some(LexiconError::UnknownLetterIndex { i: 255 })
    );
}

#[test]
fn table_with_wrong_sum_is_refused() {
    let letters = vec![
        LetterConfig { letter: 'A', repartition: 100, score: 1 },
        LetterConfig { letter: 'B', repartition: 99, score: 2 },
    ];
    assert_eq!(
        LettersTable::new(letters).err(),
        Some(LexiconError::UnexpectedNumberOfLettersInLettersTable { number_of_letters: 199 })
    );
    assert_eq!(
        LettersTable::new(Vec::new()).err(),
        Some(LexiconError::UnexpectedNumberOfLettersInLettersTable { number_of_letters: 0 })
    );
}

#[test]
fn table_with_too_many_letters_is_refused() {
    let mut letters = Vec::new();
    for i in 0..256u32 {
        letters.push(LetterConfig {
            letter: char::from_u32(0x100 + i).unwrap(),
            repartition: if i < 200 { 1 } else { 0 },
            score: 1,
        });
    }
    assert_eq!(
        LettersTable::new(letters).err(),
        Some(LexiconError::LetterIndexOutOfBounds { index: 255 })
    );
}

#[test]
fn table_keeps_the_last_entry_of_a_letter() {
    let letters = vec![
        LetterConfig { letter: 'A', repartition: 100, score: 1 },
        LetterConfig { letter: 'B', repartition: 50, score: 2 },
        LetterConfig { letter: 'A', repartition: 50, score: 3 },
    ];
    let table = LettersTable::new(letters).unwrap();
    assert_eq!(table.try_get_letter_index('A'), Ok(2));
    assert_eq!(table.try_get_letter_index('B'), Ok(1));
}

#[test]
fn word_length_is_checked() {
    assert_eq!(
        Word::new(vec![0, 1, 2, 3]).err(),
        Some(LexiconError::InvalidWordLength { len: 4 })
    );
    assert_eq!(
        Word::new(vec![0; 9]).err(),
        Some(LexiconError::InvalidWordLength { len: 9 })
    );
    assert_eq!(Word::new(Vec::new()).err(), Some(LexiconError::InvalidWordLength { len: 0 }));
    let five = Word::new(vec![0, 1, 2, 3, 4]).unwrap();
    assert_eq!(five.length(), 5);
    assert_eq!(five.letters(), vec![0, 1, 2, 3, 4]);
    let eight = Word::new(vec![7; 8]).unwrap();
    assert_eq!(eight.length(), 8);
}

#[test]
fn parse_word_reads_letters() {
    let table = french_letters_table();
    assert_eq!(word(&table, "ABCDE").letters(), vec![0, 1, 2, 3, 4]);
    assert_eq!(word(&table, "ZYXWVUTS").letters(), vec![25, 24, 23, 22, 21, 20, 19, 18]);
    assert_eq!(
        table.parse_word("ABC").err(),
        Some(LexiconError::InvalidWordLength { len: 3 })
    );
    assert_eq!(
        table.parse_word("ABCDEFGHI").err(),
        Some(LexiconError::InvalidWordLength { len: 9 })
    );
    assert_eq!(
        table.parse_word("ABcDE").err(),
        Some(LexiconError::UnknownLetter { letter: 'c' })
    );
    assert_eq!(
        table.parse_word("A-").err(),
        Some(LexiconError::UnknownLetter { letter: '-' })
    );
    assert_eq!(
        table.parse_word("ÉTÉ").err(),
        Some(LexiconError::UnknownLetter { letter: 'É' })
    );
}

#[test]
fn score_multiplies_by_length() {
    let table = french_letters_table();
    let other = word(&table, "ZZZZZZ");
    // A=1 B=7 C=5 D=6 E=1 F=8 G=7 H=8
    assert_eq!(word(&table, "ABCDE").score(&table, &other), Ok(20));
    assert_eq!(word(&table, "ABCDEF").score(&table, &other), Ok(56));
    assert_eq!(word(&table, "ABCDEFG").score(&table, &other), Ok(105));
    assert_eq!(word(&table, "ABCDEFGH").score(&table, &other), Ok(172));
    assert_eq!(word(&table, "EEEEE").score(&table, &other), Ok(5));
    assert_eq!(word(&table, "ZZZZZZZZ").score(&table, &other), Ok(288));
}

#[test]
fn golden_word_adds_the_bonus() {
    let table = french_letters_table();
    let golden = word(&table, "ABCDEF");
    let other = word(&table, "ABCDEG");
    assert_eq!(golden.score(&table, &golden), Ok(156));
    assert_eq!(golden.score(&table, &other), Ok(56));
    assert_eq!(other.score(&table, &golden), Ok(54));
    let long = word(&table, "ZZZZZZZZ");
    assert_eq!(long.score(&table, &long), Ok(388));
}

#[test]
fn score_of_unknown_letter_fails() {
    let table = french_letters_table();
    let other = word(&table, "ZZZZZZ");
    let strange = Word::new(vec![0, 1, 30, 3, 26]).unwrap();
    assert_eq!(
        strange.score(&table, &other),
        Err(LexiconError::UnknownLetterIndex { i: 30 })
    );
    assert_eq!(
        table.score_word(&strange),
        Err(LexiconError::UnknownLetterIndex { i: 30 })
    );
    assert_eq!(table.score_word(&word(&table, "ABCDEF")), Ok(28));
}

#[test]
fn same_as_compares_letters() {
    let table = french_letters_table();
    assert!(word(&table, "ABCDE").same_as(&word(&table, "ABCDE")));
    assert!(!word(&table, "ABCDE").same_as(&word(&table, "ABCDF")));
    assert!(!word(&table, "ABCDE").same_as(&word(&table, "ABCDEF")));
}

#[test]
fn pool_is_split_into_initial_letters_and_triplets() {
    let shuffled: Vec<u8> = (0..200u32).map(|i| (i % 251) as u8).collect();
    let pool = split_letters_pool(&shuffled);
    assert_eq!(pool.initial_grid_selection, vec![0, 1, 2, 3, 4, 5, 6, 7]);
    assert_eq!(pool.triplets.len(), 64);
    assert_eq!(pool.triplets[0], (8, 9, 10));
    assert_eq!(pool.triplets[1], (11, 12, 13));
    assert_eq!(pool.triplets[63], (197, 198, 199));
}

#[test]
fn pool_leaves_out_letters_beyond_those_of_a_game() {
    let shuffled: Vec<u8> = (0..210u32).map(|i| (i % 251) as u8).collect();
    let pool = split_letters_pool(&shuffled);
    assert_eq!(pool.initial_grid_selection.len(), 8);
    assert_eq!(pool.triplets.len(), 64);
    assert_eq!(pool.triplets[63], (197, 198, 199));
}

#[test]
fn generated_pool_is_a_shuffle_of_the_expanded_pool() {
    let table = french_letters_table();
    let mut generator = Generator::from_seed(42);
    let pool = table.generate_letters_pool(&mut generator);
    assert_eq!(pool.initial_grid_selection.len(), 8);
    assert_eq!(pool.triplets.len(), 64);
    let mut all: Vec<u8> = pool.initial_grid_selection.clone();
    for t in pool.triplets.iter() {
        all.push(t.0);
        all.push(t.1);
        all.push(t.2);
    }
    let expanded = table.expand_pool();
    assert_ne!(all, expanded);
    all.sort();
    assert_eq!(all, expanded);
}

#[test]
fn generated_pool_follows_from_the_seed() {
    let table = french_letters_table();
    let mut first = Generator::from_seed(7);
    let mut second = Generator::from_seed(7);
    let mut third = Generator::from_seed(8);
    let a = table.generate_letters_pool(&mut first);
    let b = table.generate_letters_pool(&mut second);
    let c = table.generate_letters_pool(&mut third);
    assert_eq!(a.initial_grid_selection, b.initial_grid_selection);
    assert_eq!(a.triplets, b.triplets);
    assert!(a.initial_grid_selection != c.initial_grid_selection || a.triplets != c.triplets);
    // the generators have moved on: the next draws agree too
    assert_eq!(first.index_below(1000), second.index_below(1000));
}

#[test]
fn generator_draws_below_the_bound() {
    let mut generator = Generator::from_seed(1);
    let mut seen = [false; 5];
    for _ in 0..200 {
        let drawn = generator.index_below(5);
        assert!(drawn < 5);
        seen[drawn] = true;
    }
    assert_eq!(seen, [true; 5]);
    for _ in 0..20 {
        assert_eq!(generator.index_below(1), 0);
    }
}

#[test]
fn generator_draws_follow_from_the_seed() {
    let mut first = Generator::from_seed(123456);
    let mut second = Generator::from_seed(123456);
    let a: Vec<usize> = (0..50).map(|_| first.index_below(1_000_000)).collect();
    let b: Vec<usize> = (0..50).map(|_| second.index_below(1_000_000)).collect();
    assert_eq!(a, b);
    let mut distinct = a.clone();
    distinct.sort();
    distinct.dedup();
    assert!(distinct.len() > 40);
    let mut other = Generator::from_seed(123457);
    let c: Vec<usize> = (0..50).map(|_| other.index_below(1_000_000)).collect();
    assert_ne!(a, c);
}

#[test]
fn generator_shuffle_keeps_the_items() {
    let mut generator = Generator::from_seed(99);
    let items: Vec<u8> = (0..100).collect();
    let shuffled = generator.shuffle(items.clone());
    assert_ne!(shuffled, items);
    let mut sorted = shuffled.clone();
    sorted.sort();
    assert_eq!(sorted, items);
    assert_eq!(generator.shuffle(Vec::new()), Vec::<u8>::new());
    assert_eq!(generator.shuffle(vec![5]), vec![5]);
}

#[test]
fn whitespace_is_recognised() {
    for c in [' ', '\t', '\n', '\r', '\u{0b}', '\u{0c}', '\u{85}', '\u{a0}', '\u{1680}', '\u{2000}', '\u{200a}', '\u{2028}', '\u{2029}', '\u{202f}', '\u{205f}', '\u{3000}'] {
        assert!(is_whitespace(c));
        assert!(c.is_whitespace());
    }
    for c in ['A', 'z', '0', '-', '\u{200b}', '\u{feff}', '\u{08}', '\u{0e}', '\u{180e}'] {
        assert!(!is_whitespace(c));
        assert!(!c.is_whitespace());
    }
    for n in 0..0x3100u32 {
        if let Some(c) = char::from_u32(n) {
            assert_eq!(is_whitespace(c), c.is_whitespace());
        }
    }
}

#[test]
fn dictionary_reads_one_word_a_line() {
    let table = french_letters_table();
    let text = "MAISON\nARBRE\r\n  JARDIN  \n\nCHAT\nfleur\nFENETRES\n\tTABLE\t\nTROPLONGUE\nSOLEIL";
    let dictionary = Dictionary::new(text, &table);
    for held in ["MAISON", "ARBRE", "JARDIN", "FENETRES", "TABLE", "SOLEIL"] {
        assert!(dictionary.contains(&word(&table, held)));
    }
    for missing in ["MAISONS", "ARBRES", "FLEUR", "TABLES", "CHATS"] {
        assert!(!dictionary.contains(&word(&table, missing)));
    }
    assert_eq!(dictionary.six_letter_count(), 3);
    assert_eq!(dictionary.six_letter_word(0).letters(), word(&table, "MAISON").letters());
    assert_eq!(dictionary.six_letter_word(1).letters(), word(&table, "JARDIN").letters());
    assert_eq!(dictionary.six_letter_word(2).letters(), word(&table, "SOLEIL").letters());
}

#[test]
fn dictionary_tells_words_of_zero_letters_apart() {
    let table = french_letters_table();
    let dictionary = Dictionary::new("AAAAA\nAAAAAAA", &table);
    assert!(dictionary.contains(&word(&table, "AAAAA")));
    assert!(!dictionary.contains(&word(&table, "AAAAAA")));
    assert!(dictionary.contains(&word(&table, "AAAAAAA")));
    assert!(!dictionary.contains(&word(&table, "AAAAAAAA")));
    assert!(!dictionary.contains(&word(&table, "BAAAA")));
    assert!(!dictionary.contains(&word(&table, "AAAAB")));
    assert!(!dictionary.contains(&Word::new(vec![255, 255, 255, 255, 255, 255, 255, 255]).unwrap()));
}

#[test]
fn dictionary_keeps_repeated_six_letter_words() {
    let table = french_letters_table();
    let dictionary = Dictionary::new("MAISON\nMAISON\n", &table);
    assert_eq!(dictionary.six_letter_count(), 2);
    assert!(dictionary.contains(&word(&table, "MAISON")));
    let empty = Dictionary::new("", &table);
    assert_eq!(empty.six_letter_count(), 0);
    assert!(!empty.contains(&word(&table, "MAISON")));
}

#[test]
fn golden_word_is_drawn_from_the_six_letter_words() {
    let table = french_letters_table();
    let dictionary = Dictionary::new("MAISON\nJARDIN\nSOLEIL\nARBRE", &table);
    let mut seen = Vec::new();
    let mut generator = Generator::from_seed(5);
    for _ in 0..60 {
        let drawn = dictionary.get_random_six_letter_word(&mut generator);
        assert_eq!(drawn.length(), 6);
        assert!(dictionary.contains(&drawn));
        if !seen.contains(&drawn.letters()) {
            seen.push(drawn.letters());
        }
    }
    assert_eq!(seen.len(), 3);
}
