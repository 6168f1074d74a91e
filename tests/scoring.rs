use payout_grid::{score, Grid};

#[test]
fn test_rows_one_value() {
    let payouts: [i32; 25] = [0, 0, 0, 0, 0, 0, 10_000, 36, 720, 360, 80, 252, 108, 72, 54, 180, 72, 180, 119, 36, 306, 1080, 144, 1800, 3600];
    let grid = Grid::new().set(Some(1), (0, 0));
    let score = score(&grid, payouts);
    assert_eq!(528, score.rows[0], "Testing grid - row 0");
    assert_eq!(276, score.rows[1], "Testing grid - row 1");
    assert_eq!(276, score.rows[2], "Testing grid - row 2");

    assert_eq!(528, score.columns[0], "Testing grid - col 0");
    assert_eq!(276, score.columns[1], "Testing grid - col 1");
    assert_eq!(276, score.columns[2], "Testing grid - col 2");

    assert_eq!(528, score.diagonals[0], "Testing grid - diagonal 0");
    assert_eq!(276, score.diagonals[1], "Testing grid - diagonal 1");
}

#[test]
fn test_two_value() {
    let payouts: [i32; 25] = [0, 0, 0, 0, 0, 0, 10_000, 36, 720, 360, 80, 252, 108, 72, 54, 180, 72, 180, 119, 36, 306, 1080, 144, 1800, 3600];
    let grid = Grid::new().set(Some(1), (0, 0)).set(Some(3), (0, 2));
    let score = score(&grid, payouts);
    assert_eq!(1656, score.rows[0], "Testing grid - row 0");
    assert_eq!(363, score.rows[1], "Testing grid - row 1");
    assert_eq!(363, score.rows[2], "Testing grid - row 2");

    assert_eq!(153, score.columns[0], "Testing grid - col 0");
    assert_eq!(363, score.columns[1], "Testing grid - col 1");
    assert_eq!(130, score.columns[2], "Testing grid - col 2");

    assert_eq!(153, score.diagonals[0], "Testing grid - diagonal 0");
    assert_eq!(130, score.diagonals[1], "Testing grid - diagonal 1");
}
