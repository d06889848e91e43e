use minesweeper::rand::{pick_in_range, random_range, scatter};
use minesweeper::{BoardError, Cell, Minesweeper, OpenResult, Position};

fn opened_cells(ms: &Minesweeper) -> Vec<Position> {
    let mut cells = Vec::new();
    for y in 0..ms.height() {
        for x in 0..ms.width() {
            if ms.is_opened((x, y)) {
                cells.push((x, y));
            }
        }
    }
    cells
}

fn mine_cells(ms: &Minesweeper) -> Vec<Position> {
    let mut cells = Vec::new();
    for y in 0..ms.height() {
        for x in 0..ms.width() {
            if ms.is_mine((x, y)) {
                cells.push((x, y));
            }
        }
    }
    cells
}

fn flagged_cells(ms: &Minesweeper) -> Vec<Position> {
    let mut cells = Vec::new();
    for y in 0..ms.height() {
        for x in 0..ms.width() {
            if ms.is_flagged((x, y)) {
                cells.push((x, y));
            }
        }
    }
    cells
}

#[test]
fn it_works() {
    let mut ms = Minesweeper::new(10, 10, 3).unwrap();
    ms.open((5, 5));
    ms.toggle_flag((6, 6));
    println!("{}", ms.to_text());
}

#[test]
fn new_places_the_requested_number_of_mines_inside_the_grid() {
    for mine_count in [0usize, 1, 9, 50, 99] {
        let ms = Minesweeper::new(10, 10, mine_count).unwrap();
        assert_eq!(ms.width(), 10);
        assert_eq!(ms.height(), 10);
        assert_eq!(mine_cells(&ms).len(), mine_count);
        assert!(opened_cells(&ms).is_empty());
        assert!(flagged_cells(&ms).is_empty());
        assert!(!ms.is_lost());
    }
}

#[test]
fn new_fills_a_narrow_grid_up_to_one_free_cell() {
    let ms = Minesweeper::new(1, 7, 6).unwrap();
    assert_eq!(mine_cells(&ms).len(), 6);
    let ms = Minesweeper::new(7, 1, 6).unwrap();
    assert_eq!(mine_cells(&ms).len(), 6);
}

#[test]
fn new_varies_the_layout() {
    let first = mine_cells(&Minesweeper::new(16, 16, 40).unwrap());
    let mut differs = false;
    for _ in 0..20 {
        if mine_cells(&Minesweeper::new(16, 16, 40).unwrap()) != first {
            differs = true;
        }
    }
    assert!(differs);
}

#[test]
fn new_refuses_a_full_grid() {
    assert_eq!(Minesweeper::new(5, 5, 25).err(), Some(BoardError::InvalidMineCount));
    assert_eq!(Minesweeper::new(5, 5, 26).err(), Some(BoardError::InvalidMineCount));
    assert!(Minesweeper::new(5, 5, 24).is_ok());
}

#[test]
fn new_refuses_an_empty_grid() {
    assert_eq!(Minesweeper::new(0, 0, 0).err(), Some(BoardError::InvalidMineCount));
    assert_eq!(Minesweeper::new(0, 4, 0).err(), Some(BoardError::InvalidMineCount));
    assert_eq!(Minesweeper::new(4, 0, 0).err(), Some(BoardError::InvalidMineCount));
}

#[test]
fn new_refuses_a_grid_too_large_to_count() {
    assert_eq!(Minesweeper::new(usize::MAX, 2, 0).err(), Some(BoardError::TooLarge));
    assert_eq!(Minesweeper::new(usize::MAX, usize::MAX, 5).err(), Some(BoardError::TooLarge));
}

#[test]
fn with_mines_places_exactly_the_listed_mines() {
    let ms = Minesweeper::with_mines(4, 3, &vec![(3, 2), (0, 0), (1, 2), (0, 0)]).unwrap();
    assert_eq!(mine_cells(&ms), vec![(0, 0), (1, 2), (3, 2)]);
    assert!(opened_cells(&ms).is_empty());
    assert!(flagged_cells(&ms).is_empty());
    assert!(!ms.is_lost());
}

#[test]
fn with_mines_reports_each_error() {
    assert_eq!(
        Minesweeper::with_mines(usize::MAX, 2, &vec![]).err(),
        Some(BoardError::TooLarge)
    );
    assert_eq!(
        Minesweeper::with_mines(3, 3, &vec![(0, 0), (3, 0)]).err(),
        Some(BoardError::OutOfBounds)
    );
    assert_eq!(
        Minesweeper::with_mines(3, 3, &vec![(0, 3)]).err(),
        Some(BoardError::OutOfBounds)
    );
    assert_eq!(
        Minesweeper::with_mines(2, 1, &vec![(0, 0), (1, 0)]).err(),
        Some(BoardError::InvalidMineCount)
    );
    assert_eq!(Minesweeper::with_mines(0, 0, &vec![]).err(), Some(BoardError::InvalidMineCount));
    assert!(Minesweeper::with_mines(2, 1, &vec![(1, 0), (1, 0)]).is_ok());
}

#[test]
fn neighbors_of_an_inner_cell_come_column_by_column() {
    let ms = Minesweeper::with_mines(5, 5, &vec![]).unwrap();
    assert_eq!(
        ms.iter_neighbors((2, 3)),
        vec![(1, 2), (1, 3), (1, 4), (2, 2), (2, 4), (3, 2), (3, 3), (3, 4)]
    );
}

#[test]
fn neighbors_are_clipped_at_corners_and_edges() {
    let ms = Minesweeper::with_mines(4, 3, &vec![]).unwrap();
    assert_eq!(ms.iter_neighbors((0, 0)), vec![(0, 1), (1, 0), (1, 1)]);
    assert_eq!(ms.iter_neighbors((3, 2)), vec![(2, 1), (2, 2), (3, 1)]);
    assert_eq!(ms.iter_neighbors((3, 0)), vec![(2, 0), (2, 1), (3, 1)]);
    assert_eq!(ms.iter_neighbors((0, 1)), vec![(0, 0), (0, 2), (1, 0), (1, 1), (1, 2)]);
    assert_eq!(ms.iter_neighbors((2, 0)), vec![(1, 0), (1, 1), (2, 1), (3, 0), (3, 1)]);
}

#[test]
fn neighbors_on_a_single_cell_grid_are_none() {
    let ms = Minesweeper::with_mines(1, 1, &vec![]).unwrap();
    assert_eq!(ms.iter_neighbors((0, 0)), Vec::<Position>::new());
}

#[test]
fn neighbors_of_a_position_outside_the_grid() {
    let ms = Minesweeper::with_mines(4, 3, &vec![]).unwrap();
    assert_eq!(ms.iter_neighbors((4, 0)), vec![(3, 0), (3, 1)]);
    assert_eq!(ms.iter_neighbors((4, 3)), vec![(3, 2)]);
    assert_eq!(ms.iter_neighbors((5, 1)), Vec::<Position>::new());
    assert_eq!(ms.iter_neighbors((usize::MAX, usize::MAX)), Vec::<Position>::new());
    assert_eq!(ms.iter_neighbors((usize::MAX, 1)), Vec::<Position>::new());
}

#[test]
fn neighboring_mines_counts_the_mines_around() {
    let mines = vec![(0, 0), (1, 0), (2, 0), (0, 1), (2, 1), (0, 2), (1, 2), (2, 2)];
    let ms = Minesweeper::with_mines(4, 4, &mines).unwrap();
    assert_eq!(ms.neighboring_mines((1, 1)), 8);
    assert_eq!(ms.neighboring_mines((0, 0)), 2);
    assert_eq!(ms.neighboring_mines((3, 0)), 2);
    assert_eq!(ms.neighboring_mines((3, 1)), 3);
    assert_eq!(ms.neighboring_mines((3, 3)), 1);
    assert_eq!(ms.neighboring_mines((0, 3)), 2);
    assert_eq!(ms.neighboring_mines((1, 3)), 3);
    assert_eq!(ms.neighboring_mines((4, 0)), 0);
    assert_eq!(ms.neighboring_mines((3, 4)), 0);
    assert_eq!(ms.neighboring_mines((2, 3)), 2);
    assert_eq!(ms.neighboring_mines((3, 2)), 2);
}

#[test]
fn neighboring_mines_of_a_position_outside_the_grid() {
    let ms = Minesweeper::with_mines(4, 4, &vec![(3, 3), (3, 2)]).unwrap();
    assert_eq!(ms.neighboring_mines((4, 4)), 1);
    assert_eq!(ms.neighboring_mines((4, 3)), 2);
    assert_eq!(ms.neighboring_mines((5, 3)), 0);
}

#[test]
fn neighboring_mines_does_not_count_the_cell_itself() {
    let ms = Minesweeper::with_mines(3, 3, &vec![(1, 1)]).unwrap();
    assert_eq!(ms.neighboring_mines((1, 1)), 0);
    assert_eq!(ms.neighboring_mines((0, 0)), 1);
    assert_eq!(ms.neighboring_mines((2, 1)), 1);
}

#[test]
fn scenario_ten_by_ten_with_nine_mines() {
    let mut ms = Minesweeper::new(10, 10, 9).unwrap();
    assert!(opened_cells(&ms).is_empty());
    assert!(!ms.is_lost());
    ms.toggle_flag((6, 6));
    assert!(ms.is_flagged((6, 6)));
    ms.toggle_flag((6, 6));
    assert!(!ms.is_flagged((6, 6)));
    let was_mine = ms.is_mine((5, 5));
    ms.open((5, 5));
    if was_mine {
        assert!(ms.is_lost());
    } else {
        assert!(ms.is_opened((5, 5)));
        assert!(!ms.is_lost());
    }
}

#[test]
fn scenario_three_by_three_without_mines() {
    for y in 0..3 {
        for x in 0..3 {
            let mut ms = Minesweeper::new(3, 3, 0).unwrap();
            assert_eq!(ms.open((x, y)), Some(OpenResult::NoMine(0)));
            assert_eq!(opened_cells(&ms).len(), 9);
            assert_eq!(ms.to_text(), " 0  0  0 \n 0  0  0 \n 0  0  0 \n");
            assert!(ms.won());
        }
    }
}

#[test]
fn scenario_five_by_five_with_twenty_five_mines_fails() {
    assert!(Minesweeper::new(5, 5, 25).is_err());
}

#[test]
fn open_reports_the_count_of_the_opened_cell() {
    let mut ms = Minesweeper::with_mines(3, 3, &vec![(0, 0), (2, 2)]).unwrap();
    assert_eq!(ms.open((1, 1)), Some(OpenResult::NoMine(2)));
    assert_eq!(opened_cells(&ms), vec![(1, 1)]);
    assert_eq!(ms.open((1, 0)), Some(OpenResult::NoMine(1)));
    assert_eq!(opened_cells(&ms), vec![(1, 0), (1, 1)]);
    assert!(!ms.is_lost());
}

#[test]
fn open_spreads_over_blank_cells_and_stops_at_counts() {
    // Mines in the right column of a 5 by 4 grid: the two columns next to no mine
    // are blank, the fourth carries counts and stops the opening.
    let mines = vec![(4, 0), (4, 1), (4, 2), (4, 3)];
    let mut ms = Minesweeper::with_mines(5, 4, &mines).unwrap();
    assert_eq!(ms.open((0, 0)), Some(OpenResult::NoMine(0)));
    assert_eq!(opened_cells(&ms).len(), 16);
    for y in 0..4 {
        for x in 0..4 {
            assert!(ms.is_opened((x, y)));
        }
        assert!(!ms.is_opened((4, y)));
    }
    assert!(!ms.is_lost());
    assert!(ms.won());
    assert_eq!(
        ms.to_text(),
        " 0  0  0  2  \u{1F7EA} \n 0  0  0  3  \u{1F7EA} \n 0  0  0  3  \u{1F7EA} \n 0  0  0  2  \u{1F7EA} \n"
    );
}

#[test]
fn open_does_not_spread_through_a_wall_of_counts() {
    // A column of mines splits the grid: an opening on the left stays on the left.
    let mines = vec![(2, 0), (2, 1), (2, 2)];
    let mut ms = Minesweeper::with_mines(5, 3, &mines).unwrap();
    assert_eq!(ms.open((0, 1)), Some(OpenResult::NoMine(0)));
    assert_eq!(opened_cells(&ms), vec![(0, 0), (1, 0), (0, 1), (1, 1), (0, 2), (1, 2)]);
    assert!(!ms.won());
    assert_eq!(ms.open((4, 1)), Some(OpenResult::NoMine(0)));
    assert_eq!(opened_cells(&ms).len(), 12);
    assert!(ms.won());
}

#[test]
fn open_spreads_around_a_corner() {
    let mines = vec![(1, 1)];
    let mut ms = Minesweeper::with_mines(5, 5, &mines).unwrap();
    assert_eq!(ms.open((4, 4)), Some(OpenResult::NoMine(0)));
    // Everything opens but the mine and the three cells in the corner behind it,
    // which touch no blank cell.
    assert_eq!(opened_cells(&ms).len(), 21);
    assert_eq!(
        ms.to_text(),
        " \u{1F7EA}  \u{1F7EA}  1  0  0 \n \u{1F7EA}  \u{1F7EA}  1  0  0 \n 1  1  1  0  0 \n 0  0  0  0  0 \n 0  0  0  0  0 \n"
    );
    assert_eq!(ms.cell((0, 1)), Cell::Hidden);
    assert_eq!(ms.cell((2, 2)), Cell::Open(1));
    assert_eq!(ms.cell((3, 3)), Cell::Open(0));
    assert!(!ms.won());
    assert_eq!(ms.open((0, 0)), Some(OpenResult::NoMine(1)));
    assert_eq!(ms.open((1, 0)), Some(OpenResult::NoMine(1)));
    assert!(!ms.won());
    assert_eq!(ms.open((0, 1)), Some(OpenResult::NoMine(1)));
    assert!(ms.won());
}

#[test]
fn open_skips_flagged_cells_when_spreading() {
    let mut ms = Minesweeper::with_mines(5, 1, &vec![]).unwrap();
    ms.toggle_flag((2, 0));
    assert_eq!(ms.open((0, 0)), Some(OpenResult::NoMine(0)));
    assert_eq!(opened_cells(&ms), vec![(0, 0), (1, 0)]);
    assert_eq!(flagged_cells(&ms), vec![(2, 0)]);
    assert_eq!(ms.to_text(), " 0  0  \u{1F6A9}  \u{1F7EA}  \u{1F7EA} \n");
}

#[test]
fn open_twice_changes_nothing() {
    let mut ms = Minesweeper::with_mines(4, 4, &vec![(3, 3)]).unwrap();
    assert_eq!(ms.open((2, 2)), Some(OpenResult::NoMine(1)));
    let text = ms.to_text();
    assert_eq!(ms.open((2, 2)), None);
    assert_eq!(ms.to_text(), text);
    assert_eq!(opened_cells(&ms), vec![(2, 2)]);

    assert_eq!(ms.open((0, 0)), Some(OpenResult::NoMine(0)));
    let text = ms.to_text();
    let opened = opened_cells(&ms);
    assert_eq!(ms.open((0, 0)), None);
    assert_eq!(ms.open((1, 1)), None);
    assert_eq!(ms.to_text(), text);
    assert_eq!(opened_cells(&ms), opened);
}

#[test]
fn open_of_a_flagged_cell_changes_nothing() {
    let mut ms = Minesweeper::with_mines(3, 3, &vec![(0, 0)]).unwrap();
    ms.toggle_flag((0, 0));
    ms.toggle_flag((2, 2));
    let text = ms.to_text();
    assert_eq!(ms.open((0, 0)), None);
    assert_eq!(ms.open((2, 2)), None);
    assert_eq!(ms.to_text(), text);
    assert!(!ms.is_lost());
    assert!(opened_cells(&ms).is_empty());
    ms.toggle_flag((2, 2));
    assert_eq!(ms.open((2, 2)), Some(OpenResult::NoMine(0)));
    assert!(ms.is_opened((2, 2)));
}

#[test]
fn open_of_a_mine_loses_the_game_for_good() {
    let mut ms = Minesweeper::with_mines(3, 3, &vec![(1, 1)]).unwrap();
    ms.toggle_flag((0, 0));
    assert_eq!(ms.open((1, 1)), Some(OpenResult::Mine));
    assert!(ms.is_lost());
    assert!(!ms.won());
    assert_eq!(opened_cells(&ms), vec![(1, 1)]);
    let text = ms.to_text();
    assert_eq!(
        text,
        " \u{1F6A9}  \u{1F7EA}  \u{1F7EA} \n \u{1F7EA}  \u{1F4A3}  \u{1F7EA} \n \u{1F7EA}  \u{1F7EA}  \u{1F7EA} \n"
    );
    assert_eq!(ms.open((2, 2)), None);
    assert_eq!(ms.open((1, 1)), None);
    ms.toggle_flag((0, 0));
    ms.toggle_flag((2, 0));
    assert_eq!(ms.to_text(), text);
    assert_eq!(opened_cells(&ms), vec![(1, 1)]);
    assert_eq!(flagged_cells(&ms), vec![(0, 0)]);
    assert!(ms.is_lost());
}

#[test]
fn open_of_a_lone_mine_does_not_spread() {
    let mut ms = Minesweeper::with_mines(5, 5, &vec![(2, 2)]).unwrap();
    assert_eq!(ms.neighboring_mines((2, 2)), 0);
    assert_eq!(ms.open((2, 2)), Some(OpenResult::Mine));
    assert_eq!(opened_cells(&ms), vec![(2, 2)]);
}

#[test]
fn open_outside_the_grid_changes_nothing() {
    let mut ms = Minesweeper::with_mines(3, 2, &vec![]).unwrap();
    assert_eq!(ms.open((3, 0)), None);
    assert_eq!(ms.open((0, 2)), None);
    assert_eq!(ms.open((usize::MAX, usize::MAX)), None);
    assert!(opened_cells(&ms).is_empty());
    assert_eq!(ms.to_text(), " \u{1F7EA}  \u{1F7EA}  \u{1F7EA} \n \u{1F7EA}  \u{1F7EA}  \u{1F7EA} \n");
}

#[test]
fn open_floods_a_large_grid() {
    let mut ms = Minesweeper::with_mines(120, 90, &vec![]).unwrap();
    assert_eq!(ms.open((60, 45)), Some(OpenResult::NoMine(0)));
    assert_eq!(opened_cells(&ms).len(), 120 * 90);
    assert!(ms.won());
}

#[test]
fn toggle_flag_sets_and_clears() {
    let mut ms = Minesweeper::with_mines(3, 3, &vec![(0, 0)]).unwrap();
    ms.toggle_flag((2, 1));
    assert_eq!(flagged_cells(&ms), vec![(2, 1)]);
    assert_eq!(ms.cell((2, 1)), Cell::Flagged);
    ms.toggle_flag((0, 0));
    assert_eq!(flagged_cells(&ms), vec![(0, 0), (2, 1)]);
    ms.toggle_flag((2, 1));
    assert_eq!(flagged_cells(&ms), vec![(0, 0)]);
    assert_eq!(ms.cell((2, 1)), Cell::Hidden);
    assert!(opened_cells(&ms).is_empty());
    assert_eq!(mine_cells(&ms), vec![(0, 0)]);
}

#[test]
fn toggle_flag_leaves_opened_cells_alone() {
    let mut ms = Minesweeper::with_mines(3, 3, &vec![(0, 0)]).unwrap();
    ms.open((1, 1));
    ms.toggle_flag((1, 1));
    assert!(flagged_cells(&ms).is_empty());
    assert_eq!(ms.cell((1, 1)), Cell::Open(1));
}

#[test]
fn toggle_flag_outside_the_grid_changes_nothing() {
    let mut ms = Minesweeper::with_mines(3, 3, &vec![(0, 0)]).unwrap();
    ms.toggle_flag((3, 3));
    ms.toggle_flag((0, 17));
    assert!(!ms.is_flagged((3, 3)));
    assert!(!ms.is_flagged((0, 17)));
    assert!(flagged_cells(&ms).is_empty());
}

#[test]
fn flags_and_openings_never_overlap() {
    let mut ms = Minesweeper::with_mines(6, 6, &vec![(5, 5), (0, 5)]).unwrap();
    let moves: Vec<Position> =
        vec![(1, 1), (2, 2), (3, 0), (4, 4), (5, 4), (0, 0), (2, 5), (5, 0), (1, 4), (4, 5)];
    for (step, &p) in moves.iter().enumerate() {
        if step % 3 == 0 {
            ms.toggle_flag(p);
        } else {
            ms.open(p);
        }
        ms.toggle_flag(moves[(step + 3) % moves.len()]);
        for y in 0..6 {
            for x in 0..6 {
                assert!(!(ms.is_opened((x, y)) && ms.is_flagged((x, y))));
            }
        }
    }
}

#[test]
fn cell_reads_each_state() {
    let mut ms = Minesweeper::with_mines(3, 1, &vec![(0, 0)]).unwrap();
    assert_eq!(ms.cell((0, 0)), Cell::Hidden);
    assert_eq!(ms.cell((7, 7)), Cell::Hidden);
    ms.toggle_flag((2, 0));
    assert_eq!(ms.cell((2, 0)), Cell::Flagged);
    ms.open((1, 0));
    assert_eq!(ms.cell((1, 0)), Cell::Open(1));
    ms.open((0, 0));
    assert_eq!(ms.cell((0, 0)), Cell::Mine);
}

#[test]
fn to_text_renders_every_digit() {
    let mines = vec![(0, 0), (1, 0), (2, 0), (0, 1), (2, 1), (0, 2), (1, 2), (2, 2)];
    let mut ms = Minesweeper::with_mines(5, 3, &mines).unwrap();
    assert_eq!(ms.open((1, 1)), Some(OpenResult::NoMine(8)));
    assert_eq!(ms.open((3, 1)), Some(OpenResult::NoMine(3)));
    assert_eq!(ms.open((3, 0)), Some(OpenResult::NoMine(2)));
    assert_eq!(ms.open((4, 0)), Some(OpenResult::NoMine(0)));
    assert_eq!(
        ms.to_text(),
        " \u{1F7EA}  \u{1F7EA}  \u{1F7EA}  2  0 \n \u{1F7EA}  8  \u{1F7EA}  3  0 \n \u{1F7EA}  \u{1F7EA}  \u{1F7EA}  2  0 \n"
    );

    let mines = vec![(0, 0), (1, 0), (2, 0), (0, 1), (0, 2), (1, 2), (2, 2), (4, 1)];
    let mut ms = Minesweeper::with_mines(6, 3, &mines).unwrap();
    assert_eq!(ms.open((1, 1)), Some(OpenResult::NoMine(7)));
    assert_eq!(ms.open((2, 1)), Some(OpenResult::NoMine(4)));
    assert_eq!(ms.open((3, 1)), Some(OpenResult::NoMine(3)));
    let mines = vec![(0, 0), (1, 0), (2, 0), (0, 1), (0, 2), (1, 2)];
    let mut ms = Minesweeper::with_mines(3, 3, &mines).unwrap();
    assert_eq!(ms.open((1, 1)), Some(OpenResult::NoMine(6)));
    assert_eq!(ms.open((2, 1)), Some(OpenResult::NoMine(3)));
    assert_eq!(ms.open((2, 2)), Some(OpenResult::NoMine(1)));
    assert_eq!(
        ms.to_text(),
        " \u{1F7EA}  \u{1F7EA}  \u{1F7EA} \n \u{1F7EA}  6  3 \n \u{1F7EA}  \u{1F7EA}  1 \n"
    );
    let mines = vec![(0, 0), (1, 0), (2, 0), (0, 1), (0, 2)];
    let mut ms = Minesweeper::with_mines(3, 3, &mines).unwrap();
    assert_eq!(ms.open((1, 1)), Some(OpenResult::NoMine(5)));
    assert_eq!(ms.cell((1, 1)), Cell::Open(5));
}

#[test]
fn to_text_has_one_line_for_each_row() {
    let ms = Minesweeper::new(10, 10, 9).unwrap();
    let text = ms.to_text();
    assert_eq!(text.lines().count(), 10);
    assert!(text.ends_with('\n'));
    for line in text.lines() {
        assert_eq!(line, " \u{1F7EA} ".repeat(10));
    }
}

#[test]
fn won_needs_every_free_cell_opened() {
    let mut ms = Minesweeper::with_mines(2, 2, &vec![(0, 0)]).unwrap();
    assert!(!ms.won());
    ms.open((1, 0));
    ms.open((0, 1));
    assert!(!ms.won());
    ms.open((1, 1));
    assert!(ms.won());
    assert!(!ms.is_lost());
}

#[test]
fn random_range_stays_in_range() {
    for _ in 0..2000 {
        let r = random_range(3, 10);
        assert!(3 <= r && r < 10);
    }
    for _ in 0..100 {
        assert_eq!(random_range(5, 6), 5);
        assert_eq!(random_range(0, 1), 0);
        assert_eq!(random_range(usize::MAX - 1, usize::MAX), usize::MAX - 1);
    }
}

#[test]
fn random_range_reaches_every_member() {
    let mut seen = [false; 8];
    for _ in 0..2000 {
        seen[random_range(0, 8)] = true;
    }
    assert_eq!(seen, [true; 8]);
}

#[test]
fn pick_in_range_folds_the_word() {
    assert_eq!(pick_in_range(0, 0, 10), 0);
    assert_eq!(pick_in_range(9, 0, 10), 9);
    assert_eq!(pick_in_range(10, 0, 10), 0);
    assert_eq!(pick_in_range(1234567, 0, 10), 7);
    assert_eq!(pick_in_range(25, 3, 10), 7);
    assert_eq!(pick_in_range(u64::MAX, 5, 6), 5);
    assert_eq!(pick_in_range(u64::MAX, 0, 16), 15);
    assert_eq!(pick_in_range(7, 100, 104), 103);
}

#[test]
fn scatter_draws_distinct_numbers_below_the_total() {
    for (total, count) in [(0usize, 0usize), (1, 0), (1, 1), (10, 3), (10, 10), (1000, 999), (usize::MAX, 50)] {
        let chosen = scatter(total, count);
        assert_eq!(chosen.len(), count);
        for &i in chosen.iter() {
            assert!(i < total);
        }
    }
}

#[test]
fn scatter_reaches_every_number() {
    let mut seen = [false; 6];
    for _ in 0..500 {
        for &i in scatter(6, 2).iter() {
            seen[i] = true;
        }
    }
    assert_eq!(seen, [true; 6]);
}

#[test]
fn flood_fill_is_connected_and_stops_at_counts() {
    for round in 0..40 {
        let mut ms = Minesweeper::new(12, 9, 10).unwrap();
        ms.toggle_flag((round % 12, round % 9));
        let start = (0..9)
            .flat_map(|y| (0..12).map(move |x| (x, y)))
            .find(|&p| !ms.is_mine(p) && !ms.is_flagged(p) && ms.neighboring_mines(p) == 0);
        let start = match start {
            Some(p) => p,
            None => continue,
        };
        assert_eq!(ms.open(start), Some(OpenResult::NoMine(0)));
        let opened = opened_cells(&ms);
        // Every opened cell is linked to the start through opened cells.
        let mut linked = vec![start];
        let mut next = 0;
        while next < linked.len() {
            let c = linked[next];
            next += 1;
            for n in ms.iter_neighbors(c) {
                if ms.is_opened(n) && !linked.contains(&n) {
                    linked.push(n);
                }
            }
        }
        assert_eq!(linked.len(), opened.len());
        for &c in opened.iter() {
            assert!(!ms.is_mine(c));
            // A cell at the rim of the opening has a mine next to it, or the cell
            // beyond it carries a flag.
            for n in ms.iter_neighbors(c) {
                if !ms.is_opened(n) {
                    assert!(ms.neighboring_mines(c) > 0 || ms.is_flagged(n));
                }
            }
        }
        assert!(!ms.is_lost());
    }
}

#[test]
fn mines_stay_where_they_are() {
    let mut ms = Minesweeper::with_mines(4, 4, &vec![(0, 0), (3, 1)]).unwrap();
    ms.open((2, 3));
    ms.toggle_flag((0, 0));
    ms.open((3, 1));
    ms.open((1, 1));
    assert_eq!(mine_cells(&ms), vec![(0, 0), (3, 1)]);
    assert_eq!(ms.width(), 4);
    assert_eq!(ms.height(), 4);
}
