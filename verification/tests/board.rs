use minesweeper::board::Board;
use minesweeper::cell::{Cell, CellState, CellType};

fn cell_at(b: &Board, r: usize, c: usize) -> Cell {
    b.cell(r, c).unwrap()
}

fn is_visible(b: &Board, r: usize, c: usize) -> bool {
    matches!(cell_at(b, r, c).cell_state, CellState::Visible)
}

fn count_visible(b: &Board) -> usize {
    let mut n = 0;
    for v in b.render_view() {
        if v.visible {
            n += 1;
        }
    }
    n
}

fn count_mines(b: &Board) -> usize {
    let mut n = 0;
    for r in 0..b.y_cells() {
        for c in 0..b.x_cells() {
            if matches!(cell_at(b, r, c).cell_type, CellType::Mine) {
                n += 1;
            }
        }
    }
    n
}

#[test]
fn cell_construction_and_state_update() {
    let mut cell = Cell::new(CellType::Number(3), CellState::Hidden);
    assert_eq!(cell.cell_type, CellType::Number(3));
    assert_eq!(cell.cell_state, CellState::Hidden);
    cell.update_state(CellState::Visible);
    assert_eq!(cell.cell_type, CellType::Number(3));
    assert_eq!(cell.cell_state, CellState::Visible);
}

#[test]
fn generated_grid_has_requested_mine_count() {
    let b = Board::new(16, 16, 1, 2, 50, 800);
    assert_eq!(count_mines(&b), 50);
    assert_eq!(count_visible(&b), 0);
}

#[test]
fn generated_grid_with_zero_and_full_mines() {
    let b = Board::new(4, 4, 1, 2, 0, 100);
    assert_eq!(count_mines(&b), 0);
    let b2 = Board::new(4, 4, 1, 2, 16, 100);
    assert_eq!(count_mines(&b2), 16);
}

#[test]
fn neighbor_counts_single_center_mine() {
    // 3x3 grid, one mine at (1,1) = flattened 4: all 8 others carry count 1
    let b = Board::from_mine_positions(3, 3, 1, 2, 10, &vec![4]);
    for r in 0..3 {
        for c in 0..3 {
            if (r, c) == (1, 1) {
                assert_eq!(cell_at(&b, r, c).cell_type, CellType::Mine);
            } else {
                assert_eq!(cell_at(&b, r, c).cell_type, CellType::Number(1));
            }
        }
    }
}

#[test]
fn neighbor_counts_two_mines() {
    // 3x3 grid, mines at (0,0) and (1,1): the cells touching both count 2
    let b = Board::from_mine_positions(3, 3, 1, 2, 10, &vec![0, 4]);
    assert_eq!(cell_at(&b, 0, 0).cell_type, CellType::Mine);
    assert_eq!(cell_at(&b, 1, 1).cell_type, CellType::Mine);
    assert_eq!(cell_at(&b, 0, 1).cell_type, CellType::Number(2));
    assert_eq!(cell_at(&b, 1, 0).cell_type, CellType::Number(2));
    assert_eq!(cell_at(&b, 0, 2).cell_type, CellType::Number(1));
    assert_eq!(cell_at(&b, 2, 0).cell_type, CellType::Number(1));
    assert_eq!(cell_at(&b, 1, 2).cell_type, CellType::Number(1));
    assert_eq!(cell_at(&b, 2, 1).cell_type, CellType::Number(1));
    assert_eq!(cell_at(&b, 2, 2).cell_type, CellType::Number(1));
}

#[test]
fn revealing_number_cell_reveals_only_it() {
    let b0 = Board::from_mine_positions(3, 3, 1, 2, 10, &vec![4]);
    let mut b = b0;
    assert!(b.reveal_cell(0, 0).is_ok());
    assert!(is_visible(&b, 0, 0));
    assert_eq!(count_visible(&b), 1);
}

#[test]
fn reveal_is_idempotent_on_visible_cell() {
    let mut b = Board::from_mine_positions(3, 3, 1, 2, 10, &vec![4]);
    assert!(b.reveal_cell(0, 0).is_ok());
    let after_first: Vec<bool> = b.render_view().iter().map(|v| v.visible).collect();
    assert!(b.reveal_cell(0, 0).is_ok());
    let after_second: Vec<bool> = b.render_view().iter().map(|v| v.visible).collect();
    assert_eq!(after_first, after_second);
}

#[test]
fn revealing_mine_reveals_entire_grid() {
    let mut b = Board::from_mine_positions(3, 3, 1, 2, 10, &vec![4]);
    assert!(b.reveal_cell(0, 0).is_ok());
    assert!(b.reveal_cell(1, 1).is_ok());
    assert_eq!(count_visible(&b), 9);
}

#[test]
fn flood_fill_reveals_whole_empty_grid() {
    // 4x4 grid with no mines: every cell is empty, one click shows them all
    let b = Board::from_mine_positions(4, 4, 1, 2, 10, &vec![]);
    for r in 0..4 {
        for c in 0..4 {
            assert_eq!(cell_at(&b, r, c).cell_type, CellType::Empty);
        }
    }
    let mut b = b;
    assert!(b.reveal_cell(2, 1).is_ok());
    assert_eq!(count_visible(&b), 16);
}

#[test]
fn flood_fill_stops_at_number_border_and_skips_mine() {
    // 3x3 grid, mine at (0,0): flooding from (2,2) reveals the empty region
    // and its number border but never the mine
    let mut b = Board::from_mine_positions(3, 3, 1, 2, 10, &vec![0]);
    assert!(b.reveal_cell(2, 2).is_ok());
    assert!(!is_visible(&b, 0, 0));
    assert_eq!(count_visible(&b), 8);
    assert_eq!(cell_at(&b, 1, 1).cell_type, CellType::Number(1));
    assert!(is_visible(&b, 1, 1));
}

#[test]
fn flood_fill_reports_fault_on_inconsistent_grid() {
    // A hand-built grid that violates the generation invariant: an empty
    // cell sits directly beside a mine
    let cells = vec![
        Cell::new(CellType::Empty, CellState::Hidden),
        Cell::new(CellType::Mine, CellState::Hidden),
        Cell::new(CellType::Empty, CellState::Hidden),
        Cell::new(CellType::Empty, CellState::Hidden),
    ];
    let mut b = Board::from_cells(2, 2, 1, 2, 10, cells);
    assert!(b.reveal_cell(0, 0).is_err());
}

#[test]
fn out_of_range_reveal_is_noop() {
    let mut b = Board::from_mine_positions(3, 3, 1, 2, 10, &vec![4]);
    assert!(b.reveal_cell(3, 0).is_ok());
    assert!(b.reveal_cell(0, 3).is_ok());
    assert!(b.reveal_cell(100, 100).is_ok());
    assert_eq!(count_visible(&b), 0);
}

#[test]
fn out_of_bounds_click_is_noop() {
    let mut b = Board::from_mine_positions(3, 3, 1, 2, 10, &vec![4]);
    assert!(b.update((-5, 10)).is_ok());
    assert!(b.update((10, -1)).is_ok());
    assert!(b.update((10_000, 10_000)).is_ok());
    assert_eq!(count_visible(&b), 0);
}

#[test]
fn corner_click_maps_to_tile() {
    // tile 10, gap 3, padding 2: tile (1, 2) starts at x = 2 + 2*13 = 28,
    // y = 2 + 1*13 = 15
    let b = Board::from_mine_positions(3, 3, 3, 2, 10, &vec![4]);
    assert_eq!(b.coordinate_for(28, 15), Some((1, 2)));
    assert_eq!(b.coordinate_for(0, 0), Some((0, 0)));
}

#[test]
fn gap_click_maps_to_no_tile() {
    // tile 10, gap 3: x = 11 and x = 12 fall in the gap right of tile 0
    let b = Board::from_mine_positions(3, 3, 3, 2, 10, &vec![4]);
    assert_eq!(b.coordinate_for(11, 0), None);
    assert_eq!(b.coordinate_for(12, 0), None);
    assert_eq!(b.coordinate_for(0, 11), None);
}

#[test]
fn click_reveals_clicked_cell() {
    let mut b = Board::from_mine_positions(3, 3, 3, 2, 10, &vec![4]);
    assert!(b.update((28, 15)).is_ok());
    assert!(is_visible(&b, 1, 2));
    assert_eq!(count_visible(&b), 1);
}

#[test]
fn render_view_reports_positions_and_hidden_content() {
    let mut b = Board::from_mine_positions(2, 2, 1, 2, 10, &vec![0]);
    let before = b.render_view();
    assert_eq!(before.len(), 4);
    assert!(before.iter().all(|v| !v.visible && v.shown.is_none()));
    assert_eq!((before[3].row, before[3].col), (1, 1));
    assert!(b.reveal_cell(1, 1).is_ok());
    let after = b.render_view();
    assert!(after[3].visible);
    assert_eq!(after[3].shown, Some(CellType::Number(1)));
}

#[test]
fn tile_width_derived_from_screen_width() {
    // 16 columns, gap 1, padding 2, screen 800: (800 - 2 - 16) / 16 = 48
    let b = Board::new(16, 16, 1, 2, 0, 800);
    assert_eq!(b.tile_width(), 48);
    assert_eq!(b.gap(), 1);
    assert_eq!(b.padding(), 2);
    assert_eq!(b.x_cells(), 16);
    assert_eq!(b.y_cells(), 16);
}
