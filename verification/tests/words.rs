use golden_core::dictionary::Dictionary;
use golden_core::grid::Cell;
use golden_core::grid::Direction;
use golden_core::grid::Grid;
use golden_core::grid::Position;
use golden_core::lexicon::french_letters_table;
use golden_core::lexicon::LettersTable;
use golden_core::words::is_claimed;
use golden_core::words::overlapping;
use golden_core::words::rank_of;
use golden_core::words::sort_by_score;
use golden_core::words::take_greedily;
use golden_core::words::Match;

fn p(x: u8, y: u8) -> Position {
    Position::new(x, y)
}

fn grid_of(table: &LettersTable, rows: &[&str]) -> Grid {
    let mut entries = Vec::new();
    for (y, row) in rows.iter().enumerate() {
        for (x, c) in row.chars().enumerate() {
            if c != ' ' {
                entries.push((p(x as u8, y as u8), c));
            }
        }
    }
    Grid::from_vec(rows[0].chars().count(), rows.len(), entries, table).unwrap()
}

fn rows_of(table: &LettersTable, grid: &Grid) -> Vec<String> {
    let mut rows = Vec::new();
    for y in 0..grid.height() {
        let mut row = String::new();
        for x in 0..grid.width() {
            row.push(match grid.cell(&p(x, y)) {
                Cell::Letter(i) => table.try_get_letter_char(i),
                Cell::Empty => ' ',
            });
        }
        rows.push(row);
    }
    rows
}

fn text(table: &LettersTable, found: &Match) -> String {
    found.word.letters().iter().map(|&l| table.try_get_letter_char(l)).collect()
}

fn a_match(table: &LettersTable, word: &str, score: u16, positions: Vec<Position>) -> Match {
    Match { word: table.parse_word(word).unwrap(), score, positions }
}

#[test]
fn word_is_read_in_each_direction() {
    let table = french_letters_table();
    let dictionary = Dictionary::new("MAISON\nARBRE", &table);
    let golden = table.parse_word("ARBRE").unwrap();
    let grid = grid_of(&table, &["MAISON  ", "        "]);
    let m = table.try_get_letter_index('M').unwrap();
    let east = grid.find_words_in_one_direction_from(p(0, 0), m, Direction::E, &dictionary, &table, &golden);
    assert_eq!(east.len(), 1);
    assert_eq!(text(&table, &east[0]), "MAISON");
    assert_eq!(east[0].positions, vec![p(0, 0), p(1, 0), p(2, 0), p(3, 0), p(4, 0), p(5, 0)]);
    // M6 A1 I2 S2 O3 N3 = 17, times 2
    assert_eq!(east[0].score, 34);
    for dir in [Direction::N, Direction::S, Direction::O] {
        assert!(grid
            .find_words_in_one_direction_from(p(0, 0), m, dir, &dictionary, &table, &golden)
            .is_empty());
    }
    let n = table.try_get_letter_index('N').unwrap();
    assert!(grid
        .find_words_in_one_direction_from(p(5, 0), n, Direction::O, &dictionary, &table, &golden)
        .is_empty());

    let backwards = grid_of(&table, &["  NOSIAM"]);
    let west = backwards.find_words_in_one_direction_from(p(7, 0), m, Direction::O, &dictionary, &table, &golden);
    assert_eq!(west.len(), 1);
    assert_eq!(west[0].positions, vec![p(7, 0), p(6, 0), p(5, 0), p(4, 0), p(3, 0), p(2, 0)]);

    let column = grid_of(&table, &["M", "A", "I", "S", "O", "N"]);
    let south = column.find_words_in_one_direction_from(p(0, 0), m, Direction::S, &dictionary, &table, &golden);
    assert_eq!(south.len(), 1);
    assert_eq!(south[0].positions, vec![p(0, 0), p(0, 1), p(0, 2), p(0, 3), p(0, 4), p(0, 5)]);

    let upwards = grid_of(&table, &["N", "O", "S", "I", "A", "M"]);
    let north = upwards.find_words_in_one_direction_from(p(0, 5), m, Direction::N, &dictionary, &table, &golden);
    assert_eq!(north.len(), 1);
    assert_eq!(north[0].positions, vec![p(0, 5), p(0, 4), p(0, 3), p(0, 2), p(0, 1), p(0, 0)]);
}

#[test]
fn longest_prefix_of_the_run_is_kept() {
    let table = french_letters_table();
    let dictionary = Dictionary::new("TABLE\nTABLES\nTABLEAUX", &table);
    let golden = table.parse_word("TABLES").unwrap();
    let t = table.try_get_letter_index('T').unwrap();
    let grid = grid_of(&table, &["TABLESXY"]);
    let found = grid.find_words_in_one_direction_from(p(0, 0), t, Direction::E, &dictionary, &table, &golden);
    assert_eq!(found.len(), 1);
    assert_eq!(text(&table, &found[0]), "TABLES");
    // T3 A1 B7 L4 E1 S2 = 18, times 2, and the bonus
    assert_eq!(found[0].score, 136);
    let shorter = grid_of(&table, &["TABLEXYZ"]);
    let found = shorter.find_words_in_one_direction_from(p(0, 0), t, Direction::E, &dictionary, &table, &golden);
    assert_eq!(found.len(), 1);
    assert_eq!(text(&table, &found[0]), "TABLE");
    assert_eq!(found[0].score, 16);
    let long = grid_of(&table, &["TABLEAUXS"]);
    let found = long.find_words_in_one_direction_from(p(0, 0), t, Direction::E, &dictionary, &table, &golden);
    assert_eq!(found.len(), 1);
    assert_eq!(text(&table, &found[0]), "TABLEAUX");
    // T3 A1 B7 L4 E1 A1 U4 X9 = 30, times 4
    assert_eq!(found[0].score, 120);
    let cut = grid_of(&table, &["TABL ESXY"]);
    assert!(cut
        .find_words_in_one_direction_from(p(0, 0), t, Direction::E, &dictionary, &table, &golden)
        .is_empty());
}

#[test]
fn run_stops_after_eight_letters() {
    let table = french_letters_table();
    let dictionary = Dictionary::new("AAAAAAAA\nAAAAA", &table);
    let golden = table.parse_word("ZZZZZZ").unwrap();
    let a = table.try_get_letter_index('A').unwrap();
    let grid = grid_of(&table, &["AAAAAAAAAAAA"]);
    let found = grid.find_words_in_one_direction_from(p(1, 0), a, Direction::E, &dictionary, &table, &golden);
    assert_eq!(found.len(), 1);
    assert_eq!(found[0].positions.len(), 8);
    assert_eq!(found[0].positions[0], p(1, 0));
    assert_eq!(found[0].positions[7], p(8, 0));
    assert_eq!(found[0].score, 32);
    let found = grid.find_words_in_one_direction_from(p(6, 0), a, Direction::E, &dictionary, &table, &golden);
    assert_eq!(found.len(), 1);
    assert_eq!(found[0].positions.len(), 5);
    assert_eq!(found[0].score, 5);
}

#[test]
fn words_are_found_from_every_letter() {
    let table = french_letters_table();
    let dictionary = Dictionary::new("MAISON\nNOSIAM", &table);
    let golden = table.parse_word("MAISON").unwrap();
    let grid = grid_of(&table, &["MAISON", "      "]);
    let all = grid.find_words(&dictionary, &table, &golden);
    assert_eq!(all.len(), 2);
    assert_eq!(text(&table, &all[0]), "MAISON");
    assert_eq!(all[0].score, 134);
    assert_eq!(text(&table, &all[1]), "NOSIAM");
    assert_eq!(all[1].score, 34);
    let m = table.try_get_letter_index('M').unwrap();
    assert_eq!(grid.find_words_from(p(0, 0), m, &dictionary, &table, &golden).len(), 1);
    let taken = grid.get_words(&dictionary, &table, &golden);
    assert_eq!(taken.len(), 1);
    assert_eq!(text(&table, &taken[0]), "MAISON");
}

#[test]
fn accepted_words_share_no_position() {
    let table = french_letters_table();
    let dictionary = Dictionary::new("MAISON\nARBRE\nSOLEIL", &table);
    let golden = table.parse_word("SOLEIL").unwrap();
    let rows = ["MAISON ", " R O   ", " B L   ", " R E   ", " E I   ", "   L   "];
    let mut grid = grid_of(&table, &rows);
    let taken = grid.retrieve_words(&dictionary, &table, &golden);
    // SOLEIL is worth 2*(2+3+4+1+2+4) + 100 = 132, MAISON 34, ARBRE 1+2+7+2+1 = 13:
    // SOLEIL takes the S, so MAISON is left out, and ARBRE needs its A.
    assert_eq!(taken.len(), 2);
    assert_eq!(text(&table, &taken[0]), "SOLEIL");
    assert_eq!(taken[0].score, 132);
    assert_eq!(text(&table, &taken[1]), "ARBRE");
    assert_eq!(taken[1].score, 13);
    for i in 0..taken.len() {
        for j in 0..taken.len() {
            if i != j {
                assert!(!overlapping(&taken[i].positions, &taken[j].positions));
            }
        }
    }
    assert_eq!(
        rows_of(&table, &grid),
        ["M I ON ", "       ", "       ", "       ", "       ", "       "]
    );
}

#[test]
fn sort_is_stable_and_descending() {
    let table = french_letters_table();
    let matches = vec![
        a_match(&table, "AAAAA", 10, vec![p(0, 0)]),
        a_match(&table, "BBBBB", 30, vec![p(1, 0)]),
        a_match(&table, "CCCCC", 10, vec![p(2, 0)]),
        a_match(&table, "DDDDD", 20, vec![p(3, 0)]),
        a_match(&table, "EEEEE", 30, vec![p(4, 0)]),
        a_match(&table, "FFFFF", 10, vec![p(5, 0)]),
    ];
    let sorted = sort_by_score(&matches);
    let order: Vec<String> = sorted.iter().map(|m| text(&table, m)).collect();
    assert_eq!(order, ["BBBBB", "EEEEE", "DDDDD", "AAAAA", "CCCCC", "FFFFF"]);
    let scores: Vec<u16> = sorted.iter().map(|m| m.score).collect();
    assert_eq!(scores, [30, 30, 20, 10, 10, 10]);
    assert_eq!(rank_of(&sorted, 40), 0);
    assert_eq!(rank_of(&sorted, 30), 2);
    assert_eq!(rank_of(&sorted, 25), 2);
    assert_eq!(rank_of(&sorted, 10), 6);
    assert_eq!(rank_of(&sorted, 0), 6);
    assert!(sort_by_score(&Vec::new()).is_empty());
}

#[test]
fn greedy_selection_takes_the_first_of_overlapping_matches() {
    let table = french_letters_table();
    let sorted = vec![
        a_match(&table, "AAAAA", 30, vec![p(0, 0), p(1, 0)]),
        a_match(&table, "BBBBB", 20, vec![p(1, 0), p(2, 0)]),
        a_match(&table, "CCCCC", 10, vec![p(2, 0), p(3, 0)]),
        a_match(&table, "DDDDD", 5, vec![p(3, 0), p(0, 0)]),
        a_match(&table, "EEEEE", 1, vec![p(9, 9)]),
    ];
    let taken = take_greedily(&sorted);
    let order: Vec<String> = taken.iter().map(|m| text(&table, m)).collect();
    assert_eq!(order, ["AAAAA", "CCCCC", "EEEEE"]);
    assert!(is_claimed(&taken, &vec![p(7, 7), p(3, 0)]));
    assert!(!is_claimed(&taken, &vec![p(7, 7), p(4, 0)]));
    assert!(!is_claimed(&taken, &Vec::new()));
    assert!(overlapping(&vec![p(0, 0), p(1, 1)], &vec![p(2, 2), p(1, 1)]));
    assert!(!overlapping(&vec![p(0, 0), p(1, 1)], &vec![p(1, 0), p(0, 1)]));
}
