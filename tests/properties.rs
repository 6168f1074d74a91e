use payout_grid::{
    calculate_average_increase, calculate_candidate_sums, calculate_expected_column_value,
    calculate_expected_diagonal_value, calculate_expected_row_value, calculate_expected_value,
    score, GameError, Grid, GridResult,
};

const PAYOUTS: [i32; 25] = [0, 0, 0, 0, 0, 0, 10_000, 36, 720, 360, 80, 252, 108, 72, 54, 180, 72, 180, 119, 36, 306, 1080, 144, 1800, 3600];

fn magic_square() -> Grid {
    let rows = [[2u8, 7, 6], [9, 5, 1], [4, 3, 8]];
    let mut g = Grid::new();
    for r in 0..3 {
        for c in 0..3 {
            g = g.set(Some(rows[r][c]), (r as i32, c as i32));
        }
    }
    g
}

#[test]
fn one_digit_board_total() {
    let g = Grid::new().set(Some(1), (0, 0));
    let s = score(&g, PAYOUTS);
    assert_eq!(s.rows, [528, 276, 276]);
    assert_eq!(s.columns, [528, 276, 276]);
    assert_eq!(s.diagonals, [528, 276]);
    assert_eq!(s.sum(), 2964);
}

#[test]
fn two_digit_board_lines() {
    let g = Grid::new().set(Some(1), (0, 0)).set(Some(3), (0, 2));
    assert_eq!(calculate_expected_row_value(&g, 0, PAYOUTS), 1656);
    assert_eq!(calculate_expected_column_value(&g, 2, PAYOUTS), 130);
    assert_eq!(calculate_expected_diagonal_value(&g, 0, PAYOUTS), 153);
    assert_eq!(calculate_expected_diagonal_value(&g, 1, PAYOUTS), 130);
}

#[test]
fn total_is_sum_of_lines() {
    let g = Grid::new().set(Some(4), (1, 1)).set(Some(9), (2, 0));
    let s = score(&g, PAYOUTS);
    let by_hand: i32 = s.rows.iter().sum::<i32>() + s.columns.iter().sum::<i32>() + s.diagonals.iter().sum::<i32>();
    assert_eq!(s.sum(), by_hand);
}

#[test]
fn full_grid_lines_pay_their_sum() {
    let g = magic_square();
    assert!(g.unused_digits().is_empty());
    let s = score(&g, PAYOUTS);
    assert_eq!(s.rows, [180, 180, 180]);
    assert_eq!(s.columns, [180, 180, 180]);
    assert_eq!(s.diagonals, [180, 180]);
    assert_eq!(s.sum(), 1440);
}

#[test]
fn full_line_has_single_completion() {
    assert_eq!(calculate_candidate_sums(vec![1, 2, 3], vec![]), vec![6]);
    assert_eq!(calculate_candidate_sums(vec![9, 8, 7], vec![1, 2, 3]), vec![24]);
    let g = Grid::new().set(Some(1), (0, 0)).set(Some(2), (0, 1)).set(Some(3), (0, 2));
    assert_eq!(calculate_expected_row_value(&g, 0, PAYOUTS), 10_000);
}

#[test]
fn completion_count_is_falling_factorial() {
    assert_eq!(calculate_candidate_sums(vec![1], vec![2, 3, 4, 5]).len(), 4 * 3);
    assert_eq!(calculate_candidate_sums(vec![], (1..=9).collect()).len(), 9 * 8 * 7);
    assert_eq!(calculate_candidate_sums(vec![4, 5], vec![1, 2, 3]).len(), 3);
    assert_eq!(calculate_candidate_sums(vec![], vec![1, 2]).len(), 0);
}

#[test]
fn completions_come_in_pool_order() {
    assert_eq!(calculate_candidate_sums(vec![1], vec![2, 3, 4]), vec![6, 7, 6, 8, 7, 8]);
}

#[test]
fn permutation_mean_matches_combination_mean() {
    let pool: Vec<u8> = vec![2, 3, 5, 8, 9];
    let perms = calculate_candidate_sums(vec![1], pool.clone());
    let mut combos: Vec<i32> = Vec::new();
    for i in 0..pool.len() {
        for j in (i + 1)..pool.len() {
            combos.push(1 + pool[i] as i32 + pool[j] as i32);
        }
    }
    let perm_total: i64 = perms.iter().map(|s| *s as i64).sum();
    let combo_total: i64 = combos.iter().map(|s| *s as i64).sum();
    assert_eq!(perm_total * combos.len() as i64, combo_total * perms.len() as i64);
    let perm_pay: i64 = perms.iter().map(|s| PAYOUTS[*s as usize] as i64).sum();
    let combo_pay: i64 = combos.iter().map(|s| PAYOUTS[*s as usize] as i64).sum();
    assert_eq!(perm_pay / perms.len() as i64, combo_pay / combos.len() as i64);
}

#[test]
fn line_value_from_digits() {
    let g = Grid::new().set(Some(1), (0, 0));
    assert_eq!(calculate_expected_value(&g, PAYOUTS, [Some(1), None, None]), Ok(528));
    assert_eq!(calculate_expected_value(&g, PAYOUTS, [None, None, None]), Ok(276));
}

#[test]
fn line_without_completion_is_invalid_state() {
    let g = magic_square().set(None, (0, 0)).set(None, (1, 1));
    assert_eq!(g.unused_digits(), vec![2, 5]);
    assert_eq!(calculate_expected_value(&g, PAYOUTS, [None, None, None]), Err(GameError::InvalidState));
    assert_eq!(calculate_expected_value(&g, PAYOUTS, [None, None, Some(6)]), Ok((PAYOUTS[13] + PAYOUTS[13]) / 2));
}

#[test]
fn sub_then_add_round_trips() {
    let a = GridResult { rows: [5, -3, 7], columns: [0, 100, -100], diagonals: [42, -42] };
    let b = GridResult { rows: [9, 9, -9], columns: [1, -1, 2], diagonals: [1000, 7] };
    let back = a.sub(&b).add(&b);
    assert_eq!((back.rows, back.columns, back.diagonals), (a.rows, a.columns, a.diagonals));
    let again = a.add(&b).sub(&b);
    assert_eq!((again.rows, again.columns, again.diagonals), (a.rows, a.columns, a.diagonals));
    let d = a.sub(&b);
    assert_eq!(d.rows, [-4, -12, 16]);
}

#[test]
fn div_truncates_toward_zero() {
    let a = GridResult { rows: [-7, 7, 0], columns: [1, -1, 9], diagonals: [-9, 10] };
    let q = a.div(2);
    assert_eq!(q.rows, [-3, 3, 0]);
    assert_eq!(q.columns, [0, 0, 4]);
    assert_eq!(q.diagonals, [-4, 5]);
    assert_eq!(GridResult::new().sum(), 0);
}

#[test]
fn place_then_clear_restores_state() {
    let g = Grid::new().set(Some(1), (0, 0)).set(Some(7), (2, 1));
    let back = g.set(Some(5), (1, 1)).set(None, (1, 1));
    for r in 0..3 {
        for c in 0..3 {
            assert_eq!(back.cell(r, c), g.cell(r, c));
        }
    }
    assert_eq!(back.unused_digits(), g.unused_digits());
    assert_eq!(back.unused_digits(), vec![2, 3, 4, 5, 6, 8, 9]);
}

#[test]
fn replacing_a_digit_moves_its_mark() {
    let g = Grid::new().set(Some(1), (0, 0)).set(Some(2), (0, 0));
    assert_eq!(g.cell(0, 0), Some(2));
    assert_eq!(g.unused_digits(), vec![1, 3, 4, 5, 6, 7, 8, 9]);
}

#[test]
fn checked_set_reports_errors() {
    let g = Grid::new().set(Some(1), (0, 0));
    assert_eq!(g.checked_set(Some(2), (3, 0)).err(), Some(GameError::OutOfBounds));
    assert_eq!(g.checked_set(Some(2), (0, -1)).err(), Some(GameError::OutOfBounds));
    assert_eq!(g.checked_set(Some(0), (1, 1)).err(), Some(GameError::InvalidDigit));
    assert_eq!(g.checked_set(Some(10), (1, 1)).err(), Some(GameError::InvalidDigit));
    assert_eq!(g.checked_set(Some(1), (1, 1)).err(), Some(GameError::DuplicateDigit));
    let same = g.checked_set(Some(1), (0, 0)).ok().unwrap();
    assert_eq!(same.cell(0, 0), Some(1));
    let moved = g.checked_set(Some(4), (2, 2)).ok().unwrap();
    assert_eq!(moved.cell(2, 2), Some(4));
    assert_eq!(moved.unused_digits(), vec![2, 3, 5, 6, 7, 8, 9]);
}

#[test]
fn average_increase_sums_candidate_scores() {
    let g = Grid::new().set(Some(1), (0, 0));
    let sum = calculate_average_increase(&g, PAYOUTS, (1, 1));
    let mut expected = GridResult::new();
    for d in g.unused_digits() {
        expected = expected.add(&score(&g.set(Some(d), (1, 1)), PAYOUTS));
    }
    assert_eq!((sum.rows, sum.columns, sum.diagonals), (expected.rows, expected.columns, expected.diagonals));
    let avg = sum.div(8);
    let base = score(&g, PAYOUTS);
    let delta = avg.sub(&base);
    assert_eq!(delta.sum(), avg.sum() - base.sum());
}

#[test]
fn average_increase_on_last_cell() {
    let g = magic_square().set(None, (2, 2));
    let sum = calculate_average_increase(&g, PAYOUTS, (2, 2));
    let full = score(&magic_square(), PAYOUTS);
    assert_eq!((sum.rows, sum.columns, sum.diagonals), (full.rows, full.columns, full.diagonals));
}
