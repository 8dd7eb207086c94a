use minesweeper::mine_sweeper_cell::{FLAG, HIDDEN, MINE, QUESTION};
use minesweeper::{Cell, CellKind, CellState, Minesweeper};

fn states(b: &Minesweeper) -> Vec<CellState> {
    b.cells().iter().map(|c| c.state).collect()
}

fn mine_count(b: &Minesweeper) -> usize {
    b.cells().iter().filter(|c| c.kind == CellKind::Mine).count()
}

fn draws_for(n: usize, seed: u64) -> Vec<usize> {
    let mut x = seed;
    let mut out = Vec::new();
    for k in 0..n.saturating_sub(1) {
        x = x.wrapping_mul(6364136223846793005).wrapping_add(1442695040888963407);
        let i = n - 1 - k;
        out.push(((x >> 33) as usize) % (i + 1));
    }
    out
}

#[test]
fn corner_cell_has_three_neighbours() {
    assert_eq!(Minesweeper::adjacent_indices(5, 5, 0), vec![1, 5, 6]);
}

#[test]
fn inner_cell_has_eight_neighbours() {
    let adj = Minesweeper::adjacent_indices(5, 5, 7);
    assert_eq!(adj, vec![1, 2, 3, 6, 8, 11, 12, 13]);
    assert_eq!(adj.len(), 8);
}

#[test]
fn edge_and_last_cells_are_clipped() {
    assert_eq!(Minesweeper::adjacent_indices(5, 5, 2), vec![1, 3, 6, 7, 8]);
    assert_eq!(Minesweeper::adjacent_indices(5, 5, 24), vec![18, 19, 23]);
    assert_eq!(Minesweeper::adjacent_indices(1, 3, 1), vec![0, 2]);
    assert!(Minesweeper::adjacent_indices(1, 1, 0).is_empty());
}

#[test]
fn init_places_rounded_share_of_mines() {
    for rows in 3..12 {
        for cols in 3..12 {
            let n = rows * cols;
            let b = Minesweeper::init(rows, cols, &draws_for(n, (rows * 31 + cols) as u64));
            let expected = (n as f64 * 0.15).round() as usize;
            assert_eq!(mine_count(&b), expected, "rows {} cols {}", rows, cols);
            assert_eq!(b.total_mines(), expected);
        }
    }
}

#[test]
fn total_mines_exact_values() {
    assert_eq!(Minesweeper::init(3, 3, &vec![]).total_mines(), 1);
    assert_eq!(Minesweeper::init(4, 5, &vec![]).total_mines(), 3);
    assert_eq!(Minesweeper::init(5, 5, &vec![]).total_mines(), 4);
    assert_eq!(Minesweeper::init(10, 10, &vec![]).total_mines(), 15);
    assert_eq!(Minesweeper::init(2, 5, &vec![]).total_mines(), 2);
}

#[test]
fn empty_board_has_no_cells() {
    let b = Minesweeper::init(0, 4, &vec![]);
    assert!(b.cells().is_empty());
    assert_eq!(b.total_mines(), 0);
    assert_eq!(b.remaining_flags(), 0);
    assert!(b.is_game_won());
    assert!(!b.is_game_lost());
    assert_eq!(b.render(), "");
}

#[test]
fn without_draws_mines_take_the_first_indices() {
    let b = Minesweeper::init(5, 5, &vec![]);
    let mined: Vec<bool> = b.cells().iter().map(|c| c.kind == CellKind::Mine).collect();
    for (i, m) in mined.iter().enumerate() {
        assert_eq!(*m, i < 4);
    }
}

#[test]
fn draws_drive_the_shuffle() {
    // positions 3, 2, 1 each swap with position 0: order becomes 1, 2, 3, 0
    let b = Minesweeper::init(2, 2, &vec![0, 0, 0]);
    let mined: Vec<usize> = (0..4).filter(|&i| b.cells()[i].kind == CellKind::Mine).collect();
    assert_eq!(mined, vec![1]);
}

#[test]
fn draws_are_taken_modulo_the_position() {
    // 7 % 4 = 3 keeps position 3; 5 % 3 = 2 keeps 2; 9 % 2 = 1 keeps 1
    let b = Minesweeper::init(2, 2, &vec![7, 5, 9]);
    let mined: Vec<usize> = (0..4).filter(|&i| b.cells()[i].kind == CellKind::Mine).collect();
    assert_eq!(mined, vec![0]);
}

#[test]
fn counts_match_brute_force() {
    for seed in 0..20u64 {
        let (rows, cols) = (6, 7);
        let b = Minesweeper::init(rows, cols, &draws_for(rows * cols, seed));
        let cells = b.cells();
        for i in 0..rows * cols {
            let expected = Minesweeper::adjacent_indices(rows, cols, i)
                .iter()
                .filter(|&&j| cells[j].kind == CellKind::Mine)
                .count();
            assert_eq!(cells[i].adj_mine_count as usize, expected);
        }
    }
}

#[test]
fn with_mines_counts_neighbours() {
    let b = Minesweeper::with_mines(3, 3, &vec![0, 8]);
    let counts: Vec<u8> = b.cells().iter().map(|c| c.adj_mine_count).collect();
    assert_eq!(counts, vec![0, 1, 0, 1, 2, 1, 0, 1, 0]);
    assert!(b.cells().iter().all(|c| c.state == CellState::Hidden));
}

#[test]
fn reveal_twice_is_reveal_once() {
    for seed in 0..10u64 {
        let mut once = Minesweeper::init(6, 6, &draws_for(36, seed));
        let mut twice = Minesweeper::init(6, 6, &draws_for(36, seed));
        let i = (seed as usize * 7) % 36;
        once.reveal_cell(i);
        twice.reveal_cell(i);
        twice.reveal_cell(i);
        assert_eq!(once.cells(), twice.cells());
    }
}

#[test]
fn flood_fill_reveals_every_empty_cell() {
    let mut b = Minesweeper::with_mines(5, 5, &vec![24]);
    b.reveal_cell(0);
    let cells = b.cells();
    for i in 0..24 {
        assert_eq!(cells[i].state, CellState::Revealed, "cell {}", i);
    }
    assert_eq!(cells[24].state, CellState::Hidden);
    assert!(!b.is_game_lost());
}

#[test]
fn numbered_cell_reveals_alone() {
    let mut b = Minesweeper::with_mines(5, 5, &vec![24]);
    b.reveal_cell(18);
    let revealed: Vec<usize> = (0..25).filter(|&i| b.cells()[i].state == CellState::Revealed).collect();
    assert_eq!(revealed, vec![18]);
}

#[test]
fn flood_stops_at_numbered_border() {
    // a wall of mines down the middle column splits the board
    let mut b = Minesweeper::with_mines(5, 5, &vec![2, 7, 12, 17, 22]);
    b.reveal_cell(0);
    let revealed: Vec<usize> = (0..25).filter(|&i| b.cells()[i].state == CellState::Revealed).collect();
    assert_eq!(revealed, vec![0, 1, 5, 6, 10, 11, 15, 16, 20, 21]);
}

#[test]
fn flood_reveals_flagged_cells_in_the_area() {
    let mut b = Minesweeper::with_mines(5, 5, &vec![24]);
    b.flag_cell(12);
    b.reveal_cell(0);
    assert_eq!(b.cells()[12].state, CellState::Revealed);
}

#[test]
fn game_won_iff_flags_match_mines() {
    let mut b = Minesweeper::with_mines(4, 4, &vec![3, 9]);
    assert!(!b.is_game_won());
    b.flag_cell(3);
    assert!(!b.is_game_won());
    b.flag_cell(9);
    assert!(b.is_game_won());
    let mut c = Minesweeper::with_mines(4, 4, &vec![3, 9]);
    c.flag_cell(3);
    c.flag_cell(10);
    assert!(!c.is_game_won());
}

#[test]
fn extra_flag_on_empty_cell_does_not_block_win() {
    let mut b = Minesweeper::with_mines(4, 4, &vec![3, 9]);
    b.flag_cell(3);
    b.flag_cell(9);
    b.flag_cell(0);
    assert!(b.is_game_won());
}

#[test]
fn revealing_a_mine_loses() {
    let mut b = Minesweeper::with_mines(4, 4, &vec![3, 9]);
    assert!(!b.is_game_lost());
    b.flag_cell(9);
    b.reveal_cell(3);
    assert!(b.is_game_lost());
}

#[test]
fn running_out_of_flags_with_a_wrong_one_loses() {
    // 16 cells hold 2 mines (16 * 0.15 = 2.4)
    let mut b = Minesweeper::with_mines(4, 4, &vec![3, 9]);
    b.flag_cell(3);
    assert_eq!(b.remaining_flags(), 1);
    assert!(!b.is_game_lost());
    b.flag_cell(0);
    assert_eq!(b.remaining_flags(), 0);
    assert!(b.is_game_lost());
}

#[test]
fn remaining_flags_goes_negative() {
    let mut b = Minesweeper::with_mines(4, 4, &vec![3, 9]);
    for i in 0..5 {
        b.flag_cell(i);
    }
    assert_eq!(b.remaining_flags(), -3);
    assert!(!b.is_game_lost());
}

#[test]
fn toggle_flag_round_trip() {
    let mut b = Minesweeper::with_mines(3, 3, &vec![4]);
    b.toggle_flag(0);
    assert_eq!(b.cells()[0].state, CellState::Flagged);
    b.toggle_flag(0);
    assert_eq!(b.cells()[0].state, CellState::Hidden);
}

#[test]
fn toggle_flag_on_revealed_cell_is_noop() {
    let mut b = Minesweeper::with_mines(3, 3, &vec![4]);
    b.reveal_cell(0);
    b.toggle_flag(0);
    assert_eq!(b.cells()[0].state, CellState::Revealed);
    b.toggle_flag(0);
    assert_eq!(b.cells()[0].state, CellState::Revealed);
}

#[test]
fn toggle_flag_on_questioned_cell_flags_it() {
    let mut b = Minesweeper::with_mines(3, 3, &vec![4]);
    b.question_cell(1);
    b.toggle_flag(1);
    assert_eq!(b.cells()[1].state, CellState::Flagged);
}

#[test]
fn toggle_question_round_trip() {
    let mut b = Minesweeper::with_mines(3, 3, &vec![4]);
    b.toggle_question(2);
    assert_eq!(b.cells()[2].state, CellState::Questioned);
    b.toggle_question(2);
    assert_eq!(b.cells()[2].state, CellState::Hidden);
}

#[test]
fn marks_leave_revealed_cells_alone() {
    let mut b = Minesweeper::with_mines(3, 3, &vec![4]);
    b.reveal_cell(0);
    let before = states(&b);
    b.flag_cell(0);
    b.question_cell(0);
    b.unmark_cell(0);
    b.toggle_flag(0);
    b.toggle_question(0);
    assert_eq!(states(&b), before);
}

#[test]
fn marks_set_and_clear_states() {
    let mut b = Minesweeper::with_mines(3, 3, &vec![4]);
    b.flag_cell(1);
    assert_eq!(b.cells()[1].state, CellState::Flagged);
    b.question_cell(1);
    assert_eq!(b.cells()[1].state, CellState::Questioned);
    b.unmark_cell(1);
    assert_eq!(b.cells()[1].state, CellState::Hidden);
}

#[test]
fn flagged_and_unflagged_mine_queries() {
    let mut b = Minesweeper::with_mines(3, 3, &vec![4]);
    assert!(b.unflagged_mine_cell(4));
    assert!(!b.flagged_mine_cell(4));
    b.flag_cell(4);
    assert!(b.flagged_mine_cell(4));
    assert!(!b.unflagged_mine_cell(4));
    b.flag_cell(0);
    assert!(!b.flagged_mine_cell(0));
    assert!(!b.unflagged_mine_cell(0));
}

#[test]
fn render_shows_player_view() {
    let mut b = Minesweeper::with_mines(2, 2, &vec![0]);
    let h = HIDDEN;
    assert_eq!(b.render(), format!(" {h} {h}\n {h} {h}\n"));
    b.reveal_cell(3);
    b.flag_cell(0);
    b.question_cell(1);
    assert_eq!(b.render(), format!(" {FLAG} {QUESTION}\n {h} 1\n"));
    b.reveal_cell(0);
    assert_eq!(b.render(), format!(" {MINE} {QUESTION}\n {h} 1\n"));
}

#[test]
fn render_shows_zero_for_lone_cell() {
    let mut b = Minesweeper::with_mines(1, 3, &vec![2]);
    b.reveal_cell(0);
    assert_eq!(b.render(), format!(" 0 1 {HIDDEN}\n"));
}

#[test]
fn debug_shows_kinds_and_counts() {
    let b = Minesweeper::with_mines(2, 3, &vec![0]);
    assert_eq!(b.debug(), format!(" {MINE} 1 0\n 1 1 0\n"));
}

#[test]
fn to_1d_is_row_major() {
    let b = Minesweeper::init(5, 5, &vec![]);
    assert_eq!(b.to_1d(2, 3), 13);
    assert_eq!(b.to_1d(0, 0), 0);
    assert_eq!(b.to_1d(4, 4), 24);
    assert_eq!(b.num_rows(), 5);
    assert_eq!(b.num_cols(), 5);
}

#[test]
fn cell_size_matches_the_type() {
    assert_eq!(Minesweeper::cell_size(), std::mem::size_of::<Cell>());
}

#[test]
fn cell_basics() {
    let mut c = Cell::new(CellKind::Empty);
    assert_eq!(c.state, CellState::Hidden);
    assert!(c.is_lone_cell());
    assert!(!c.is_mined());
    assert!(!c.is_revealed());
    c.set_adj_mine_count(2);
    assert_eq!(c.adj_mine_count(), 2);
    assert!(!c.is_lone_cell());
    c.set_state(CellState::Flagged);
    assert!(c.is_flagged());
    c.set_state(CellState::Questioned);
    assert!(c.is_questioned());
    c.set_state(CellState::Revealed);
    assert!(c.is_revealed());
    c.set_kind(CellKind::Mine);
    assert!(c.is_mined());
    assert!(!c.is_lone_cell());
}

#[test]
fn cell_glyphs() {
    let mut c = Cell::new(CellKind::Empty);
    assert_eq!(c.glyph(), HIDDEN);
    assert_eq!(c.debug_glyph(), '0');
    c.set_state(CellState::Revealed);
    assert_eq!(c.glyph(), '0');
    c.set_adj_mine_count(3);
    assert_eq!(c.glyph(), '3');
    assert_eq!(c.debug_glyph(), '3');
    let m = Cell::new(CellKind::Mine);
    assert_eq!(m.debug_glyph(), MINE);
}
