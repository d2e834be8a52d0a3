use fashion_mnist_rust::drawing::{
    apply_command, grid_pixels, new_grid, parse_command, Command, Reply, COARSE_SIZE, FULL_SIZE, SCALE,
};

#[test]
fn test_grid_to_matrix_shape() {
    let grid = vec![vec![false; COARSE_SIZE]; COARSE_SIZE];
    let m = grid_pixels(&grid);
    assert_eq!(m.len(), 784);
}

#[test]
fn test_empty_grid_produces_all_zero_pixels() {
    let grid = vec![vec![false; COARSE_SIZE]; COARSE_SIZE];
    let m = grid_pixels(&grid);
    assert!(m.iter().all(|&v| !v));
}

#[test]
fn test_single_filled_cell_upscales_to_block() {
    let mut grid = vec![vec![false; COARSE_SIZE]; COARSE_SIZE];
    grid[0][0] = true;
    let m = grid_pixels(&grid);
    for r in 0..SCALE {
        for c in 0..SCALE {
            let idx = r * FULL_SIZE + c;
            assert!(m[idx], "pixel ({},{}) should be filled from coarse cell (0,0)", r, c);
        }
    }
    let far_idx = (FULL_SIZE - 1) * FULL_SIZE + (FULL_SIZE - 1);
    assert!(!m[far_idx]);
    assert_eq!(m.iter().filter(|&&v| v).count(), SCALE * SCALE);
}

#[test]
fn test_full_grid_produces_all_ones() {
    let grid = vec![vec![true; COARSE_SIZE]; COARSE_SIZE];
    let m = grid_pixels(&grid);
    assert!(m.iter().all(|&v| v));
}

#[test]
fn commands_are_read_from_words() {
    assert_eq!(parse_command(b"toggle 3 4"), Command::Toggle { row: 3, col: 4 });
    assert_eq!(parse_command(b"  fill\t13  0 "), Command::Fill { row: 13, col: 0 });
    assert_eq!(parse_command(b"fill 99 1"), Command::Fill { row: 99, col: 1 });
    assert_eq!(parse_command(b"toggle a 4"), Command::ToggleUsage);
    assert_eq!(parse_command(b"fill 1 -2"), Command::FillUsage);
    assert_eq!(parse_command(b"clear"), Command::Clear);
    assert_eq!(parse_command(b"predict"), Command::Predict);
    assert_eq!(parse_command(b"quit"), Command::Quit);
    assert_eq!(parse_command(b"toggle 1"), Command::Unrecognized);
    assert_eq!(parse_command(b"quit now"), Command::Unrecognized);
    assert_eq!(parse_command(b"Quit"), Command::Unrecognized);
    assert_eq!(parse_command(b""), Command::Unrecognized);
}

#[test]
fn commands_edit_the_grid() {
    let mut grid = new_grid();
    assert_eq!(grid.len(), COARSE_SIZE);
    assert_eq!(apply_command(&mut grid, Command::Toggle { row: 2, col: 5 }), Reply::Updated);
    assert!(grid[2][5]);
    assert_eq!(apply_command(&mut grid, Command::Toggle { row: 2, col: 5 }), Reply::Updated);
    assert!(!grid[2][5]);
    assert_eq!(apply_command(&mut grid, Command::Fill { row: 13, col: 13 }), Reply::Updated);
    assert_eq!(apply_command(&mut grid, Command::Fill { row: 13, col: 13 }), Reply::Updated);
    assert!(grid[13][13]);
    assert_eq!(apply_command(&mut grid, Command::Fill { row: 14, col: 0 }), Reply::OutOfRange);
    assert_eq!(apply_command(&mut grid, Command::Toggle { row: 0, col: 14 }), Reply::OutOfRange);
    assert_eq!(apply_command(&mut grid, Command::Predict), Reply::Predict);
    assert!(grid[13][13]);
    assert_eq!(apply_command(&mut grid, Command::Clear), Reply::Cleared);
    assert!(grid.iter().all(|row| row.len() == COARSE_SIZE && row.iter().all(|&c| !c)));
    assert_eq!(apply_command(&mut grid, Command::Quit), Reply::Quit);
    assert_eq!(apply_command(&mut grid, Command::ToggleUsage), Reply::ToggleUsage);
    assert_eq!(apply_command(&mut grid, Command::FillUsage), Reply::FillUsage);
    assert_eq!(apply_command(&mut grid, Command::Unrecognized), Reply::Unrecognized);
}

#[test]
fn cell_maps_to_its_block() {
    let mut grid = new_grid();
    apply_command(&mut grid, parse_command(b"fill 3 7"));
    let m = grid_pixels(&grid);
    for r in 0..FULL_SIZE {
        for c in 0..FULL_SIZE {
            assert_eq!(m[r * FULL_SIZE + c], r / 2 == 3 && c / 2 == 7);
        }
    }
}

fn expected_grid(grid: &[Vec<bool>]) -> String {
    let mut out = String::from("    ");
    for c in 0..COARSE_SIZE {
        out += &format!("{:>2}", c);
    }
    out += "\n";
    for (r, row) in grid.iter().enumerate() {
        out += &format!("{:>3} ", r);
        for &cell in row {
            out += &format!(" {}", if cell { '#' } else { '.' });
        }
        out += "\n";
    }
    out
}

#[test]
fn grid_display_matches_layout() {
    let mut grid = new_grid();
    apply_command(&mut grid, parse_command(b"fill 0 0"));
    apply_command(&mut grid, parse_command(b"toggle 13 12"));
    let shown = String::from_utf8(fashion_mnist_rust::drawing::render_grid(&grid)).unwrap();
    assert_eq!(shown, expected_grid(&grid));
    assert!(shown.starts_with("     0 1 2 3 4 5 6 7 8 910111213\n  0  # . ."));
    assert!(shown.ends_with(" 13  . . . . . . . . . . . . # .\n"));
}
