use minesweeper::grid::{
    check_win, count_mines, create_grid, draw_is_mine, grid_from_mines, reveal_cell, toggle_flag, Cell,
    CellContent, CellState, Grid, CERTAIN,
};

fn layout(rows: &[&str]) -> Vec<Vec<bool>> {
    rows.iter().map(|r| r.chars().map(|c| c == '*').collect()).collect()
}

fn states(grid: &Grid) -> Vec<String> {
    grid.iter()
        .map(|row| {
            row.iter()
                .map(|c| match c.state {
                    CellState::Visible => 'v',
                    CellState::Invisible => '.',
                    CellState::Flagged => 'f',
                })
                .collect()
        })
        .collect()
}

#[test]
fn one_cell_without_mines() {
    let mut grid = create_grid(1, 1, 0);
    assert_eq!(grid.len(), 1);
    assert_eq!(grid[0].len(), 1);
    assert_eq!(grid[0][0].content, CellContent::Empty);
    assert_eq!(grid[0][0].state, CellState::Invisible);
    assert!(!reveal_cell(&mut grid, 0, 0));
    assert_eq!(grid[0][0].state, CellState::Visible);
    assert!(check_win(&grid));
}

#[test]
fn one_cell_with_a_mine() {
    let mut grid = create_grid(1, 1, CERTAIN);
    assert_eq!(grid[0][0].content, CellContent::Mine);
    assert!(reveal_cell(&mut grid, 0, 0));
    assert_eq!(grid[0][0].state, CellState::Visible);
    assert!(!check_win(&grid));
}

#[test]
fn corner_next_to_centre_mine_does_not_cascade() {
    let mut grid = grid_from_mines(&layout(&["...", ".*.", "..."]));
    assert_eq!(grid[0][0].content, CellContent::Close(1));
    assert!(!reveal_cell(&mut grid, 0, 0));
    assert_eq!(states(&grid), vec!["v..", "...", "..."]);
}

#[test]
fn board_without_mines_opens_in_one_reveal() {
    for (x, y) in [(0, 0), (1, 1), (2, 1), (2, 2)] {
        let mut grid = grid_from_mines(&layout(&["...", "...", "..."]));
        assert!(!reveal_cell(&mut grid, x, y));
        assert_eq!(states(&grid), vec!["vvv", "vvv", "vvv"]);
        assert!(check_win(&grid));
    }
}

#[test]
fn reveal_after_a_mine_still_shows_the_cell() {
    let mut grid = grid_from_mines(&layout(&["*..", "...", "..*"]));
    assert!(reveal_cell(&mut grid, 0, 0));
    assert!(!reveal_cell(&mut grid, 1, 0));
    assert_eq!(grid[0][1].state, CellState::Visible);
    assert_eq!(states(&grid), vec!["vv.", "...", "..."]);
}

#[test]
fn counts_match_the_mines_around() {
    let grid = grid_from_mines(&layout(&["*..*", "....", ".**."]));
    let expect = [
        [CellContent::Mine, CellContent::Close(1), CellContent::Close(1), CellContent::Mine],
        [CellContent::Close(2), CellContent::Close(3), CellContent::Close(3), CellContent::Close(2)],
        [CellContent::Close(1), CellContent::Mine, CellContent::Mine, CellContent::Close(1)],
    ];
    for y in 0..3 {
        for x in 0..4 {
            assert_eq!(grid[y][x].content, expect[y][x]);
            assert_eq!(grid[y][x].state, CellState::Invisible);
        }
    }
}

#[test]
fn every_generated_count_is_exact() {
    let grid = create_grid(9, 7, 300_000);
    for y in 0..7usize {
        for x in 0..9usize {
            if grid[y][x].content == CellContent::Mine {
                continue;
            }
            let mut n = 0;
            for sy in y.saturating_sub(1)..=(y + 1).min(6) {
                for sx in x.saturating_sub(1)..=(x + 1).min(8) {
                    if grid[sy][sx].content == CellContent::Mine {
                        n += 1;
                    }
                }
            }
            let want = if n == 0 { CellContent::Empty } else { CellContent::Close(n) };
            assert_eq!(grid[y][x].content, want);
        }
    }
}

#[test]
fn eight_mines_around_one_cell() {
    let grid = grid_from_mines(&layout(&["***", "*.*", "***"]));
    assert_eq!(grid[1][1].content, CellContent::Close(8));
}

#[test]
fn count_mines_recounts_in_place() {
    let mut grid: Grid = vec![
        vec![
            Cell { content: CellContent::Mine, state: CellState::Flagged },
            Cell { content: CellContent::Close(5), state: CellState::Visible },
            Cell { content: CellContent::Empty, state: CellState::Invisible },
        ],
        vec![
            Cell { content: CellContent::Empty, state: CellState::Invisible },
            Cell { content: CellContent::Empty, state: CellState::Invisible },
            Cell { content: CellContent::Close(3), state: CellState::Invisible },
        ],
    ];
    count_mines(&mut grid);
    assert_eq!(grid[0][0].content, CellContent::Mine);
    assert_eq!(grid[0][1].content, CellContent::Close(1));
    assert_eq!(grid[0][2].content, CellContent::Empty);
    assert_eq!(grid[1][0].content, CellContent::Close(1));
    assert_eq!(grid[1][1].content, CellContent::Close(1));
    assert_eq!(grid[1][2].content, CellContent::Empty);
    assert_eq!(grid[0][0].state, CellState::Flagged);
    assert_eq!(grid[0][1].state, CellState::Visible);
}

#[test]
fn second_reveal_changes_nothing() {
    let mut grid = grid_from_mines(&layout(&["*..", "...", "..."]));
    assert!(!reveal_cell(&mut grid, 1, 1));
    assert_eq!(grid[1][1].state, CellState::Visible);
    let before = states(&grid);
    assert!(!reveal_cell(&mut grid, 1, 1));
    assert_eq!(states(&grid), before);
}

#[test]
fn flood_fill_stops_at_the_numbered_ring() {
    let mut grid = grid_from_mines(&layout(&[".....", ".....", "...**", "...*."]));
    assert!(!reveal_cell(&mut grid, 0, 0));
    assert_eq!(states(&grid), vec!["vvvvv", "vvvvv", "vvv..", "vvv.."]);
}

#[test]
fn flagged_cell_blocks_reveal_and_cascade() {
    let mut grid = grid_from_mines(&layout(&["...", "...", "..*"]));
    assert!(toggle_flag(&mut grid, 1, 0));
    assert_eq!(grid[0][1].state, CellState::Flagged);
    assert!(!reveal_cell(&mut grid, 1, 0));
    assert_eq!(grid[0][1].state, CellState::Flagged);
    assert!(!reveal_cell(&mut grid, 0, 0));
    assert_eq!(states(&grid), vec!["vf.", "vv.", "vv."]);
    assert_eq!(grid[0][2].state, CellState::Invisible);
    assert_eq!(grid[2][2].state, CellState::Invisible);
}

#[test]
fn flagged_mine_is_not_detonated() {
    let mut grid = grid_from_mines(&layout(&["*"]));
    assert!(toggle_flag(&mut grid, 0, 0));
    assert!(!reveal_cell(&mut grid, 0, 0));
    assert_eq!(grid[0][0].state, CellState::Flagged);
    assert!(check_win(&grid));
}

#[test]
fn toggle_flag_cycles_and_ignores_shown_cells() {
    let mut grid = grid_from_mines(&layout(&["*."]));
    assert!(toggle_flag(&mut grid, 0, 0));
    assert_eq!(grid[0][0].state, CellState::Flagged);
    assert!(toggle_flag(&mut grid, 0, 0));
    assert_eq!(grid[0][0].state, CellState::Invisible);
    assert!(!reveal_cell(&mut grid, 1, 0));
    assert!(!toggle_flag(&mut grid, 1, 0));
    assert_eq!(grid[0][1].state, CellState::Visible);
}

#[test]
fn win_needs_flags_exactly_on_mines() {
    let mut grid = grid_from_mines(&layout(&["*."]));
    assert!(!check_win(&grid));
    reveal_cell(&mut grid, 1, 0);
    assert!(!check_win(&grid));
    toggle_flag(&mut grid, 0, 0);
    assert!(check_win(&grid));
    // revealing again or toggling a shown cell keeps the win
    reveal_cell(&mut grid, 1, 0);
    reveal_cell(&mut grid, 0, 0);
    toggle_flag(&mut grid, 1, 0);
    assert!(check_win(&grid));
    // taking the flag off the mine loses it
    toggle_flag(&mut grid, 0, 0);
    assert!(!check_win(&grid));

    let mut wrong = grid_from_mines(&layout(&["*."]));
    toggle_flag(&mut wrong, 0, 0);
    toggle_flag(&mut wrong, 1, 0);
    assert!(!check_win(&wrong));
}

#[test]
fn draw_thresholds() {
    assert!(!draw_is_mine(0, 0));
    assert!(!draw_is_mine(u32::MAX, 0));
    assert!(draw_is_mine(0, CERTAIN));
    assert!(draw_is_mine(u32::MAX, CERTAIN));
    assert!(draw_is_mine(u32::MAX, u32::MAX));
    // a chance of one half splits the range at 2^31
    assert!(draw_is_mine(0x7fff_ffff, 500_000));
    assert!(!draw_is_mine(0x8000_0000, 500_000));
    assert!(draw_is_mine(0, 1));
    assert!(!draw_is_mine(4295, 1));
}

#[test]
fn generated_grid_has_the_asked_size() {
    let grid = create_grid(4, 3, 500_000);
    assert_eq!(grid.len(), 3);
    for row in &grid {
        assert_eq!(row.len(), 4);
        for c in row {
            assert_eq!(c.state, CellState::Invisible);
        }
    }
    let all = create_grid(3, 2, CERTAIN);
    assert!(all.iter().all(|r| r.iter().all(|c| c.content == CellContent::Mine)));
    let none = create_grid(3, 2, 0);
    assert!(none.iter().all(|r| r.iter().all(|c| c.content == CellContent::Empty)));
}
