use golden_core::dictionary::Dictionary;
use golden_core::game::grid_cells;
use golden_core::game::is_empty_cell;
use golden_core::game::Cell;
use golden_core::game::CellPathingStatus;
use golden_core::game::Game;
use golden_core::game::GameSnapshot;
use golden_core::game::GameState;
use golden_core::generator::Generator;
use golden_core::grid::Grid;
use golden_core::grid::Position;
use golden_core::lexicon::french_letters_table;
use golden_core::lexicon::LettersTable;

fn p(x: u8, y: u8) -> Position {
    Position::new(x, y)
}

/// A dictionary none of whose words can come up: the pool holds one `W`
/// and one `K` only.
fn barren(table: &LettersTable) -> Dictionary {
    Dictionary::new("WKWKWK", table)
}

fn letters_of(snapshot: &GameSnapshot) -> Vec<u8> {
    snapshot.grid().iter().map(|cell| cell.letter).collect()
}

fn count_letters(snapshot: &GameSnapshot) -> usize {
    snapshot.grid().iter().filter(|cell| !is_empty_cell(cell.letter)).count()
}

fn same_snapshot(a: &GameSnapshot, b: &GameSnapshot) -> bool {
    let words_a: Vec<(String, u16)> = a.found_words().iter().map(|w| (w.word(), w.score())).collect();
    let words_b: Vec<(String, u16)> = b.found_words().iter().map(|w| (w.word(), w.score())).collect();
    a.clock_remaining_ms == b.clock_remaining_ms && a.grid() == b.grid() && words_a == words_b
}

#[test]
fn new_game_starts_with_eight_letters() {
    let table = french_letters_table();
    let dictionary = barren(&table);
    let mut game = Game::new(5000, 6, 5, 1, &table, &dictionary);
    assert!(game.state == GameState::OnGoing);
    assert_eq!(game.clock_max_ms, 5000);
    assert_eq!(game.grid_width, 6);
    assert_eq!(game.grid_height, 5);
    assert_eq!(game.score, 0);
    assert_eq!(game.triplets_current_index, 0);
    assert_eq!(game.triplets().len(), 192);
    assert_eq!(game.golden_word(), table.parse_word("WKWKWK").unwrap().letters());
    // W9 K9 W9 K9 W9 K9 = 54, times 2, and the bonus
    assert_eq!(game.golden_word_score, 208);
    let snapshot = game.tick(0, Vec::new(), None);
    assert_eq!(snapshot.clock_remaining_ms, 5000);
    assert_eq!(snapshot.grid().len(), 30);
    assert_eq!(count_letters(&snapshot), 8);
    assert!(snapshot.found_words().is_empty());
}

#[test]
fn new_game_uses_every_letter_of_the_pool_once() {
    let table = french_letters_table();
    let dictionary = barren(&table);
    let mut game = Game::new(5000, 6, 5, 77, &table, &dictionary);
    let snapshot = game.tick(0, Vec::new(), None);
    let mut all: Vec<u8> = letters_of(&snapshot).into_iter().filter(|&l| !is_empty_cell(l)).collect();
    all.extend(game.triplets());
    all.sort();
    assert_eq!(all, table.expand_pool());
}

#[test]
fn accessors_read_the_letters_table() {
    let table = french_letters_table();
    let dictionary = barren(&table);
    let game = Game::new(5000, 6, 5, 1, &table, &dictionary);
    assert_eq!(game.get_letter(0), 'A');
    assert_eq!(game.get_letter_score(0), 1);
    assert_eq!(game.get_letter(22), 'W');
    assert_eq!(game.get_letter_score(22), 9);
    let copy = game.get_letters_table();
    for i in 0..26 {
        assert_eq!(copy.try_get_letter_char(i), table.try_get_letter_char(i));
        assert_eq!(copy.try_get_letter_score(i), table.try_get_letter_score(i));
    }
    assert!(is_empty_cell(255));
    assert!(!is_empty_cell(0));
    assert!(!is_empty_cell(254));
}

#[test]
fn same_seed_gives_the_same_game() {
    let table = french_letters_table();
    let dictionary = Dictionary::new("MAISON\nJARDIN\nSOLEIL\nARBRE\nTABLE\nWKWKWK", &table);
    for seed in [0u32, 1, 2, 12345, u32::MAX] {
        let mut first = Game::new(1000, 5, 4, seed, &table, &dictionary);
        let mut second = Game::new(1000, 5, 4, seed, &table, &dictionary);
        assert_eq!(first.golden_word(), second.golden_word());
        assert_eq!(first.triplets(), second.triplets());
        let mut hover = None;
        for step in 0..40u8 {
            let clicks = vec![p(step % 5, step % 4), p((step + 2) % 5, (step / 3) % 4)];
            let a = first.tick(400, clicks.clone(), hover);
            let b = second.tick(400, clicks, hover);
            assert!(same_snapshot(&a, &b));
            assert!(first.state == second.state);
            assert_eq!(first.score, second.score);
            assert_eq!(first.triplets_current_index, second.triplets_current_index);
            hover = Some(p((step + 1) % 5, (step + 3) % 4));
        }
    }
}

#[test]
fn other_seed_gives_another_game() {
    let table = french_letters_table();
    let dictionary = barren(&table);
    let mut first = Game::new(1000, 6, 5, 1, &table, &dictionary);
    let mut second = Game::new(1000, 6, 5, 2, &table, &dictionary);
    assert_ne!(first.triplets(), second.triplets());
    let a = first.tick(0, Vec::new(), None);
    let b = second.tick(0, Vec::new(), None);
    assert_ne!(letters_of(&a), letters_of(&b));
}

#[test]
fn clock_runs_down_and_is_set_back() {
    let table = french_letters_table();
    let dictionary = barren(&table);
    let mut game = Game::new(1000, 6, 5, 1, &table, &dictionary);
    assert_eq!(game.tick(300, Vec::new(), None).clock_remaining_ms, 700);
    assert_eq!(game.tick(300, Vec::new(), None).clock_remaining_ms, 400);
    assert_eq!(game.triplets_current_index, 0);
    let snapshot = game.tick(500, Vec::new(), None);
    assert_eq!(snapshot.clock_remaining_ms, 1000);
    assert_eq!(game.triplets_current_index, 1);
    assert_eq!(count_letters(&snapshot), 11);
    let triplets = game.triplets();
    let mut on_grid: Vec<u8> = letters_of(&snapshot).into_iter().filter(|&l| !is_empty_cell(l)).collect();
    on_grid.sort();
    let before = {
        let mut fresh = Game::new(1000, 6, 5, 1, &table, &dictionary);
        letters_of(&fresh.tick(0, Vec::new(), None))
    };
    let mut expected: Vec<u8> = before.into_iter().filter(|&l| !is_empty_cell(l)).collect();
    expected.extend(&triplets[0..3]);
    expected.sort();
    assert_eq!(on_grid, expected);
}

#[test]
fn three_empty_cells_take_one_triplet_and_the_next_ends_the_game() {
    let table = french_letters_table();
    let dictionary = barren(&table);
    for seed in 0..20u32 {
        let mut game = Game::new(1000, 11, 1, seed, &table, &dictionary);
        let start = game.tick(0, Vec::new(), None);
        assert_eq!(count_letters(&start), 8);
        let filled = game.tick(1000, Vec::new(), None);
        assert_eq!(count_letters(&filled), 11);
        assert!(game.state == GameState::OnGoing);
        assert_eq!(filled.clock_remaining_ms, 1000);
        assert_eq!(game.triplets_current_index, 1);
        let over = game.tick(1000, Vec::new(), None);
        assert!(game.state == GameState::Finished);
        assert_eq!(game.triplets_current_index, 2);
        assert_eq!(over.clock_remaining_ms, 0);
        assert_eq!(letters_of(&over), letters_of(&filled));
        let later = game.tick(1000, vec![p(0, 0)], Some(p(1, 0)));
        assert!(game.state == GameState::Finished);
        assert!(same_snapshot(&later, &over));
        assert_eq!(game.triplets_current_index, 2);
    }
}

#[test]
fn click_on_empty_cell_starts_no_drag() {
    let table = french_letters_table();
    let dictionary = barren(&table);
    let mut game = Game::new(1000, 6, 5, 3, &table, &dictionary);
    let start = game.tick(0, Vec::new(), None);
    let empty = start.grid().iter().find(|cell| is_empty_cell(cell.letter)).unwrap().position;
    let snapshot = game.tick(0, vec![empty], Some(p(2, 2)));
    assert_eq!(snapshot.grid().len(), 30);
    for (shown, before) in snapshot.grid().iter().zip(start.grid().iter()) {
        assert!(shown.pathing_status == CellPathingStatus::Neutral);
        assert_eq!(shown.position, before.position);
        assert_eq!(shown.letter, before.letter);
    }
    let after = game.tick(0, Vec::new(), None);
    assert!(after.grid().iter().all(|cell| cell.pathing_status == CellPathingStatus::Neutral));
}

#[test]
fn snapshot_lists_the_cells_row_by_row() {
    let table = french_letters_table();
    let dictionary = barren(&table);
    let mut game = Game::new(1000, 4, 3, 3, &table, &dictionary);
    let snapshot = game.tick(0, Vec::new(), None);
    let positions: Vec<Position> = snapshot.grid().iter().map(|cell| cell.position).collect();
    let mut expected = Vec::new();
    for y in 0..3 {
        for x in 0..4 {
            expected.push(p(x, y));
        }
    }
    assert_eq!(positions, expected);
}

#[test]
fn click_on_letter_starts_a_drag_and_second_click_lets_go() {
    let table = french_letters_table();
    let dictionary = barren(&table);
    let mut game = Game::new(1000, 6, 5, 3, &table, &dictionary);
    let start = game.tick(0, Vec::new(), None);
    let held = start.grid().iter().find(|cell| !is_empty_cell(cell.letter)).unwrap().position;
    let dragging = game.tick(0, vec![held], None);
    for cell in dragging.grid().iter() {
        assert!(cell.pathing_status != CellPathingStatus::Neutral);
    }
    let on_the_way = dragging
        .grid()
        .iter()
        .filter(|cell| cell.pathing_status == CellPathingStatus::Path)
        .count();
    assert_eq!(on_the_way, 1);
    let on_path = dragging
        .grid()
        .into_iter()
        .find(|cell| cell.pathing_status == CellPathingStatus::Path)
        .unwrap();
    assert_eq!(on_path.position, held);
    let released = game.tick(0, vec![held], Some(p(0, 0)));
    assert!(released.grid().iter().all(|cell| cell.pathing_status == CellPathingStatus::Neutral));
}

#[test]
fn drag_moves_the_letter_along_a_path() {
    let table = french_letters_table();
    let dictionary = barren(&table);
    let mut game = Game::new(1000, 8, 8, 9, &table, &dictionary);
    let start = game.tick(0, Vec::new(), None);
    let cells = start.grid();
    let held = cells.iter().find(|cell| !is_empty_cell(cell.letter)).unwrap();
    let grid = {
        let mut grid = Grid::empty(8, 8);
        for cell in cells.iter() {
            if !is_empty_cell(cell.letter) {
                grid.update_cell(cell.position, golden_core::grid::Cell::Letter(cell.letter));
            }
        }
        grid
    };
    let target = cells
        .iter()
        .find(|cell| {
            is_empty_cell(cell.letter)
                && grid.path_exists(&held.position, &cell.position)
                && grid.most_direct_path(&held.position, &cell.position).unwrap().len() >= 3
        })
        .unwrap();
    let hovering = game.tick(0, vec![held.position], Some(target.position));
    let path = grid.most_direct_path(&held.position, &target.position).unwrap();
    let shown = hovering.grid();
    let on_path = shown.iter().filter(|cell| cell.pathing_status == CellPathingStatus::Path).count();
    assert_eq!(on_path, path.len());
    for (i, cell) in shown.iter().enumerate() {
        let pos = p((i % 8) as u8, (i / 8) as u8);
        if pos == held.position {
            assert_eq!(cell.position, target.position);
            assert!(cell.pathing_status == CellPathingStatus::Path);
            assert_eq!(cell.letter, held.letter);
        } else if pos == target.position {
            assert_eq!(cell.position, held.position);
            assert!(cell.pathing_status == CellPathingStatus::Path);
        } else {
            assert_eq!(cell.position, pos);
            let expected = if grid.path_exists(&held.position, &pos) {
                CellPathingStatus::Walkable
            } else {
                CellPathingStatus::Blocked
            };
            assert!(cell.pathing_status == CellPathingStatus::Path || cell.pathing_status == expected);
        }
    }
    let moved = game.tick(0, vec![target.position], None);
    let after = moved.grid();
    for (i, cell) in after.iter().enumerate() {
        let pos = p((i % 8) as u8, (i / 8) as u8);
        assert!(cell.pathing_status == CellPathingStatus::Neutral);
        assert_eq!(cell.position, pos);
        if pos == held.position {
            assert!(is_empty_cell(cell.letter));
        } else if pos == target.position {
            assert_eq!(cell.letter, held.letter);
        } else {
            assert_eq!(cell.letter, cells[i].letter);
        }
    }
    assert_eq!(game.triplets_current_index, 0);
    assert_eq!(moved.clock_remaining_ms, 1000);
}

#[test]
fn grid_cells_show_path_and_reach() {
    let table = french_letters_table();
    let grid = Grid::from_vec(
        3,
        2,
        vec![(p(0, 0), 'A'), (p(1, 0), 'B'), (p(1, 1), 'C')],
        &table,
    )
    .unwrap();
    let from = p(0, 0);
    let allowed = Some(grid.allowed_moving_positions(from));
    let path = Some(vec![p(0, 0), p(0, 1)]);
    let cells = grid_cells(&grid, Some(from), &allowed, &path);
    let expected = vec![
        Cell { position: p(0, 1), pathing_status: CellPathingStatus::Path, letter: 0 },
        Cell { position: p(1, 0), pathing_status: CellPathingStatus::Walkable, letter: 1 },
        Cell { position: p(2, 0), pathing_status: CellPathingStatus::Blocked, letter: 255 },
        Cell { position: p(0, 0), pathing_status: CellPathingStatus::Path, letter: 255 },
        Cell { position: p(1, 1), pathing_status: CellPathingStatus::Walkable, letter: 2 },
        Cell { position: p(2, 1), pathing_status: CellPathingStatus::Blocked, letter: 255 },
    ];
    assert_eq!(cells, expected);
    let plain = grid_cells(&grid, None, &None, &None);
    let letters: Vec<u8> = plain.iter().map(|cell| cell.letter).collect();
    assert_eq!(letters, vec![0, 1, 255, 255, 2, 255]);
    assert!(plain.iter().all(|cell| cell.pathing_status == CellPathingStatus::Neutral));
    // a drag to a cell that no walk leads to shows no way at all
    let no_way = grid_cells(&grid, Some(from), &allowed, &None);
    assert!(no_way.iter().all(|cell| cell.pathing_status == CellPathingStatus::Neutral));
}

#[test]
fn found_words_are_listed_with_their_text_and_score() {
    let table = french_letters_table();
    // every word of five equal letters is a word, so that words come up
    let mut text = String::from("WKWKWK\n");
    for c in ['A', 'E', 'I', 'R', 'S', 'T', 'N', 'O', 'L', 'U'] {
        for len in 5..=8 {
            for _ in 0..len {
                text.push(c);
            }
            text.push('\n');
        }
    }
    // and every pair of frequent letters alternating
    for a in ['A', 'E', 'I', 'S', 'R'] {
        for b in ['A', 'E', 'I', 'S', 'R', 'T', 'N'] {
            for tail in ["", "A", "E", "I", "S"] {
                text.push_str(&format!("{a}{b}{a}{b}{a}{tail}\n"));
                text.push_str(&format!("{a}{a}{b}{b}{a}{tail}\n"));
                text.push_str(&format!("{a}{b}{b}{a}{b}{tail}\n"));
                text.push_str(&format!("{b}{a}{a}{a}{b}{tail}\n"));
                text.push_str(&format!("{a}{a}{a}{b}{b}{tail}\n"));
            }
        }
    }
    let dictionary = Dictionary::new(&text, &table);
    let mut found_some = false;
    for seed in 0..60u32 {
        let mut game = Game::new(10, 5, 5, seed, &table, &dictionary);
        let mut last = game.tick(0, Vec::new(), None);
        for _ in 0..64 {
            last = game.tick(10, Vec::new(), None);
            if game.state == GameState::Finished {
                break;
            }
        }
        let words = last.found_words();
        let mut total: u32 = 0;
        for word in words.iter() {
            let text = word.word();
            let parsed = table.parse_word(&text).unwrap();
            assert!(dictionary.contains(&parsed));
            let golden = table.parse_word("WKWKWK").unwrap();
            assert_eq!(parsed.score(&table, &golden), Ok(word.score()));
            total += word.score() as u32;
            found_some = true;
        }
        assert_eq!(game.score as u32, total);
    }
    assert!(found_some);
}

#[test]
fn generator_is_not_touched_by_clicks() {
    let table = french_letters_table();
    let dictionary = barren(&table);
    let mut clicked = Game::new(1000, 6, 5, 4, &table, &dictionary);
    let mut idle = Game::new(1000, 6, 5, 4, &table, &dictionary);
    let start = clicked.tick(0, Vec::new(), None);
    idle.tick(0, Vec::new(), None);
    let held = start.grid().iter().find(|cell| !is_empty_cell(cell.letter)).unwrap().position;
    clicked.tick(100, vec![held, held, held], Some(p(0, 0)));
    clicked.tick(100, vec![held], None);
    idle.tick(200, Vec::new(), None);
    let a = clicked.tick(800, Vec::new(), None);
    let b = idle.tick(800, Vec::new(), None);
    assert_eq!(letters_of(&a), letters_of(&b));
    let mut unused = Generator::from_seed(4);
    assert!(unused.index_below(10) < 10);
}
