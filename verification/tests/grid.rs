use golden_core::dictionary::Dictionary;
use golden_core::generator::Generator;
use golden_core::grid::Cell;
use golden_core::grid::Direction;
use golden_core::grid::Grid;
use golden_core::grid::GridError;
use golden_core::grid::MaybePosition;
use golden_core::grid::MoveResult;
use golden_core::grid::Position;
use golden_core::lexicon::french_letters_table;
use golden_core::lexicon::LettersTable;
use golden_core::routes::number_of_angles;

fn p(x: u8, y: u8) -> Position {
    Position::new(x, y)
}

/// The grid drawn by `rows`, where a space is an empty cell.
fn grid_of(table: &LettersTable, rows: &[&str]) -> Grid {
    let mut entries = Vec::new();
    for (y, row) in rows.iter().enumerate() {
        for (x, c) in row.chars().enumerate() {
            if c != ' ' {
                entries.push((p(x as u8, y as u8), c));
            }
        }
    }
    Grid::from_vec(rows[0].chars().count(), rows.len(), entries, table).unwrap()
}

fn rows_of(table: &LettersTable, grid: &Grid) -> Vec<String> {
    let mut rows = Vec::new();
    for y in 0..grid.height() {
        let mut row = String::new();
        for x in 0..grid.width() {
            row.push(match grid.cell(&p(x, y)) {
                Cell::Letter(i) => table.try_get_letter_char(i),
                Cell::Empty => ' ',
            });
        }
        rows.push(row);
    }
    rows
}

fn letter(table: &LettersTable, c: char) -> Cell {
    Cell::Letter(table.try_get_letter_index(c).unwrap())
}

#[test]
fn grid_macro_works() {
    let table = french_letters_table();
    let grid = Grid::from_vec(
        4,
        4,
        vec![
            (p(0, 0), 'Y'),
            (p(3, 0), 'N'),
            (p(1, 1), 'E'),
            (p(0, 2), 'Y'),
            (p(2, 2), 'S'),
            (p(3, 2), 'O'),
        ],
        &table,
    )
    .unwrap();

    assert_eq!(grid.cell(&Position::new(0 as u8, 0 as u8)), letter(&table, 'Y'));

    assert_eq!(grid.cell(&Position::new(3 as u8, 0 as u8)), letter(&table, 'N'));

    assert_eq!(grid.cell(&Position::new(3 as u8, 2 as u8)), letter(&table, 'O'));

    assert_eq!(grid.cell(&Position::new(1 as u8, 0 as u8)), Cell::Empty);

    assert_eq!(grid.cell(&Position::new(3 as u8, 1 as u8)), Cell::Empty);
}

#[test]
fn empty_grid_has_only_empty_cells() {
    let grid = Grid::empty(3, 2);
    assert_eq!(grid.width(), 3);
    assert_eq!(grid.height(), 2);
    for x in 0..3 {
        for y in 0..2 {
            assert_eq!(grid.cell(&p(x, y)), Cell::Empty);
        }
    }
    assert_eq!(grid.empty_cells().len(), 6);
    assert_eq!(Grid::empty(0, 5).empty_cells().len(), 0);
    assert_eq!(Grid::empty(255, 255).empty_cells().len(), 65025);
}

#[test]
fn update_cell_changes_one_cell() {
    let mut grid = Grid::empty(3, 3);
    grid.update_cell(p(2, 1), Cell::Letter(7));
    for x in 0..3 {
        for y in 0..3 {
            let expected = if (x, y) == (2, 1) { Cell::Letter(7) } else { Cell::Empty };
            assert_eq!(grid.cell(&p(x, y)), expected);
        }
    }
    grid.update_cell(p(2, 1), Cell::Empty);
    assert_eq!(grid.cell(&p(2, 1)), Cell::Empty);
}

#[test]
fn from_vec_reports_what_is_wrong() {
    let table = french_letters_table();
    assert_eq!(
        Grid::from_vec(256, 3, Vec::new(), &table).err(),
        Some(GridError::InvalidGridSize { size: 256 })
    );
    assert_eq!(
        Grid::from_vec(3, 1000, Vec::new(), &table).err(),
        Some(GridError::InvalidGridSize { size: 1000 })
    );
    assert_eq!(
        Grid::from_vec(300, 1000, Vec::new(), &table).err(),
        Some(GridError::InvalidGridSize { size: 300 })
    );
    assert_eq!(
        Grid::from_vec(3, 3, vec![(p(0, 0), 'A'), (p(1, 1), 'a')], &table).err(),
        Some(GridError::InvalidGridInitializationDueToUnknownLetter { letter: 'a' })
    );
    assert_eq!(
        Grid::from_vec(3, 3, vec![(p(0, 0), 'A'), (p(3, 1), 'B')], &table).err(),
        Some(GridError::NotInGrid { pos: p(3, 1) })
    );
    assert_eq!(
        Grid::from_vec(3, 3, vec![(p(0, 3), '?'), (p(1, 1), 'a')], &table).err(),
        Some(GridError::InvalidGridInitializationDueToUnknownLetter { letter: '?' })
    );
    let grid = Grid::from_vec(2, 2, vec![(p(0, 0), 'A'), (p(0, 0), 'B')], &table).unwrap();
    assert_eq!(grid.cell(&p(0, 0)), letter(&table, 'B'));
}

#[test]
fn neighbours_of_a_position() {
    let from = p(5, 7);
    assert_eq!(MaybePosition::new(&from, &Direction::N), MaybePosition { x: 5, y: 6 });
    assert_eq!(MaybePosition::new(&from, &Direction::E), MaybePosition { x: 6, y: 7 });
    assert_eq!(MaybePosition::new(&from, &Direction::S), MaybePosition { x: 5, y: 8 });
    assert_eq!(MaybePosition::new(&from, &Direction::O), MaybePosition { x: 4, y: 7 });
    let corner = p(0, 0);
    assert_eq!(MaybePosition::new(&corner, &Direction::N), MaybePosition { x: 0, y: -1 });
    assert_eq!(MaybePosition::new(&corner, &Direction::O), MaybePosition { x: -1, y: 0 });
    let far = p(255, 255);
    assert_eq!(MaybePosition::new(&far, &Direction::E), MaybePosition { x: 256, y: 255 });
    assert_eq!(MaybePosition::new(&far, &Direction::S), MaybePosition { x: 255, y: 256 });
    assert_eq!(
        Direction::all(),
        vec![Direction::N, Direction::E, Direction::S, Direction::O]
    );
}

#[test]
fn is_in_grid_checks_both_coordinates() {
    let grid = Grid::empty(4, 3);
    assert_eq!(grid.is_in_grid(MaybePosition { x: 0, y: 0 }), Some(p(0, 0)));
    assert_eq!(grid.is_in_grid(MaybePosition { x: 3, y: 2 }), Some(p(3, 2)));
    assert_eq!(grid.is_in_grid(MaybePosition { x: 4, y: 2 }), None);
    assert_eq!(grid.is_in_grid(MaybePosition { x: 3, y: 3 }), None);
    assert_eq!(grid.is_in_grid(MaybePosition { x: -1, y: 0 }), None);
    assert_eq!(grid.is_in_grid(MaybePosition { x: 0, y: -1 }), None);
    let wide = Grid::empty(200, 1);
    assert_eq!(wide.is_in_grid(MaybePosition { x: 199, y: 0 }), Some(p(199, 0)));
    assert_eq!(wide.is_in_grid(MaybePosition { x: 200, y: 0 }), None);
}

#[test]
fn empty_cells_are_ordered_by_column_then_row() {
    let table = french_letters_table();
    let grid = grid_of(&table, &["A B", "  C", "D  "]);
    assert_eq!(
        grid.empty_cells(),
        vec![p(0, 1), p(1, 0), p(1, 1), p(1, 2), p(2, 2)]
    );
}

#[test]
fn random_empty_cell_is_an_empty_cell() {
    let table = french_letters_table();
    let grid = grid_of(&table, &["A B", "  C", "D  "]);
    let mut generator = Generator::from_seed(3);
    let mut seen = Vec::new();
    for _ in 0..200 {
        let pos = grid.random_empty_cell_position(&mut generator).unwrap();
        assert_eq!(grid.cell(&pos), Cell::Empty);
        if !seen.contains(&pos) {
            seen.push(pos);
        }
    }
    assert_eq!(seen.len(), 5);
    let mut first = Generator::from_seed(11);
    let mut second = Generator::from_seed(11);
    for _ in 0..20 {
        assert_eq!(
            grid.random_empty_cell_position(&mut first),
            grid.try_random_empty_cell_position(&mut second).ok()
        );
    }
}

#[test]
fn full_grid_has_no_random_empty_cell() {
    let table = french_letters_table();
    let grid = grid_of(&table, &["AB", "CD"]);
    let mut generator = Generator::from_seed(3);
    assert_eq!(grid.random_empty_cell_position(&mut generator), None);
    assert_eq!(
        grid.try_random_empty_cell_position(&mut generator),
        Err(GridError::MissingAMandatoryEmptyCell)
    );
    // nothing was drawn: the generator is where one of the same seed starts
    let mut fresh = Generator::from_seed(3);
    assert_eq!(generator.index_below(1000), fresh.index_below(1000));
}

#[test]
fn path_exists_through_empty_cells_only() {
    let table = french_letters_table();
    let grid = grid_of(&table, &["A B ", "CCC ", "D   "]);
    assert!(grid.path_exists(&p(0, 0), &p(0, 0)));
    assert!(grid.path_exists(&p(0, 0), &p(1, 0)));
    assert!(grid.path_exists(&p(0, 0), &p(2, 0)));
    assert!(grid.path_exists(&p(0, 0), &p(0, 1)));
    assert!(!grid.path_exists(&p(0, 0), &p(3, 0)));
    assert!(!grid.path_exists(&p(0, 0), &p(0, 2)));
    assert!(grid.path_exists(&p(0, 2), &p(3, 0)));
    assert!(grid.path_exists(&p(0, 2), &p(2, 0)));
    assert!(grid.path_exists(&p(0, 2), &p(1, 1)));
    assert!(!grid.path_exists(&p(0, 2), &p(1, 0)));
    assert!(!grid.path_exists(&p(0, 2), &p(9, 9)));
    assert!(grid.path_exists(&p(9, 9), &p(9, 9)));
    assert!(grid.path_exists(&p(4, 0), &p(3, 0)));
    assert!(grid.path_exists(&p(4, 0), &p(0, 2)));
}

#[test]
fn allowed_moving_positions_are_the_connected_ones() {
    let table = french_letters_table();
    let grid = grid_of(&table, &["A B ", "CCC ", "D   "]);
    let mut from_a = grid.allowed_moving_positions(p(0, 0));
    from_a.sort_by_key(|pos| (pos.y, pos.x));
    assert_eq!(from_a, vec![p(0, 0), p(1, 0), p(2, 0), p(0, 1), p(1, 1)]);
    let mut from_d = grid.allowed_moving_positions(p(0, 2));
    from_d.sort_by_key(|pos| (pos.y, pos.x));
    assert_eq!(
        from_d,
        vec![p(2, 0), p(3, 0), p(0, 1), p(1, 1), p(2, 1), p(3, 1), p(0, 2), p(1, 2), p(2, 2), p(3, 2)]
    );
    for x in 0..4 {
        for y in 0..3 {
            assert_eq!(from_a.contains(&p(x, y)), grid.path_exists(&p(0, 0), &p(x, y)));
            assert_eq!(from_d.contains(&p(x, y)), grid.path_exists(&p(0, 2), &p(x, y)));
        }
    }
}

#[test]
fn move_cell_without_path_leaves_the_grid_unchanged() {
    let table = french_letters_table();
    let rows = ["A B ", "CCC ", "D   "];
    let mut grid = grid_of(&table, &rows);
    assert_eq!(grid.move_cell(p(0, 0), p(3, 2)), MoveResult::NoPath);
    assert_eq!(rows_of(&table, &grid), rows);
    assert_eq!(grid.move_cell(p(0, 2), p(1, 0)), MoveResult::NoPath);
    assert_eq!(rows_of(&table, &grid), rows);
}

#[test]
fn move_cell_swaps_the_two_cells() {
    let table = french_letters_table();
    let mut grid = grid_of(&table, &["A B ", "CCC ", "D   "]);
    assert_eq!(grid.move_cell(p(0, 2), p(3, 0)), MoveResult::Moved);
    assert_eq!(rows_of(&table, &grid), ["A BD", "CCC ", "    "]);
    assert_eq!(grid.move_cell(p(0, 0), p(2, 0)), MoveResult::Moved);
    assert_eq!(rows_of(&table, &grid), ["B AD", "CCC ", "    "]);
    assert_eq!(grid.move_cell(p(1, 0), p(1, 0)), MoveResult::Moved);
    assert_eq!(rows_of(&table, &grid), ["B AD", "CCC ", "    "]);
}

#[test]
fn most_direct_path_to_itself_is_the_position_alone() {
    let table = french_letters_table();
    let grid = grid_of(&table, &["A B ", "CCC ", "D   "]);
    assert_eq!(grid.most_direct_path(&p(0, 0), &p(0, 0)), Some(vec![p(0, 0)]));
    assert_eq!(grid.most_direct_path(&p(3, 2), &p(3, 2)), Some(vec![p(3, 2)]));
    assert_eq!(grid.most_direct_path(&p(9, 9), &p(9, 9)), Some(vec![p(9, 9)]));
}

#[test]
fn most_direct_path_between_disconnected_regions_is_none() {
    let table = french_letters_table();
    let grid = grid_of(&table, &["A B ", "CCC ", "D   "]);
    assert_eq!(grid.most_direct_path(&p(0, 0), &p(3, 2)), None);
    assert_eq!(grid.most_direct_path(&p(0, 2), &p(1, 0)), None);
    let surrounded = grid_of(&table, &["  B  ", " BAB ", "  B  "]);
    assert_eq!(surrounded.most_direct_path(&p(2, 1), &p(0, 0)), None);
    assert_eq!(surrounded.most_direct_path(&p(2, 1), &p(4, 2)), None);
    assert_eq!(
        surrounded.most_direct_path(&p(2, 1), &p(2, 0)),
        Some(vec![p(2, 1), p(2, 0)])
    );
}

#[test]
fn most_direct_path_is_shortest() {
    let table = french_letters_table();
    let grid = grid_of(&table, &["A B ", "CCC ", "D   "]);
    assert_eq!(
        grid.most_direct_path(&p(0, 2), &p(3, 0)),
        Some(vec![p(0, 2), p(1, 2), p(2, 2), p(3, 2), p(3, 1), p(3, 0)])
    );
    assert_eq!(
        grid.most_direct_path(&p(0, 0), &p(2, 0)),
        Some(vec![p(0, 0), p(1, 0), p(2, 0)])
    );
    let detour = grid_of(&table, &["A    ", "BBBB ", "     ", " BBBB", "C    "]);
    let path = detour.most_direct_path(&p(0, 0), &p(0, 4)).unwrap();
    assert_eq!(
        path,
        vec![
            p(0, 0), p(1, 0), p(2, 0), p(3, 0), p(4, 0), p(4, 1), p(4, 2), p(3, 2), p(2, 2),
            p(1, 2), p(0, 2), p(0, 3), p(0, 4),
        ]
    );
    assert_eq!(number_of_angles(&path), 3);
}

#[test]
fn most_direct_path_has_the_fewest_turns() {
    let open = Grid::empty(4, 4);
    let straight = open.most_direct_path(&p(0, 1), &p(3, 1)).unwrap();
    assert_eq!(straight, vec![p(0, 1), p(1, 1), p(2, 1), p(3, 1)]);
    let corner = open.most_direct_path(&p(0, 0), &p(3, 3)).unwrap();
    assert_eq!(corner.len(), 7);
    assert_eq!(number_of_angles(&corner), 1);
    let knight = open.most_direct_path(&p(0, 0), &p(1, 2)).unwrap();
    assert_eq!(knight.len(), 4);
    assert_eq!(number_of_angles(&knight), 1);
}

#[test]
fn number_of_angles_counts_turns() {
    assert_eq!(number_of_angles(&Vec::new()), 0);
    assert_eq!(number_of_angles(&vec![p(0, 0)]), 0);
    assert_eq!(number_of_angles(&vec![p(0, 0), p(0, 1)]), 0);
    assert_eq!(number_of_angles(&vec![p(0, 0), p(0, 1), p(0, 2), p(0, 3)]), 0);
    assert_eq!(number_of_angles(&vec![p(0, 0), p(1, 0), p(1, 1)]), 1);
    assert_eq!(number_of_angles(&vec![p(0, 0), p(1, 0), p(1, 1), p(2, 1), p(2, 2)]), 3);
    assert_eq!(number_of_angles(&vec![p(0, 0), p(1, 0), p(2, 0), p(2, 1), p(2, 2)]), 1);
}

#[test]
fn retrieve_words_finds_nothing_without_connecting_letters() {
    let table = french_letters_table();
    let dictionary = Dictionary::new("YEYSO\nNOYES\nMAISON\nYNEYSO", &table);
    let golden = table.parse_word("MAISON").unwrap();
    let rows = ["Y  N", " E  ", "Y SO"];
    let mut grid = grid_of(&table, &rows);
    assert_eq!(grid.width(), 4);
    assert_eq!(grid.height(), 3);
    assert!(grid.get_words(&dictionary, &table, &golden).is_empty());
    let matches = grid.retrieve_words(&dictionary, &table, &golden);
    assert!(matches.is_empty());
    assert_eq!(rows_of(&table, &grid), rows);
}
