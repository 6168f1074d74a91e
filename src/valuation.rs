use vstd::prelude::*;

use crate::completion::{
    calculate_candidate_sums, combination_sums, completion_sums, digit_total, falling,
    lemma_completion_count, lemma_full_line_single, lemma_permutation_mean, total_by,
};
use crate::grid::{count_filled, count_used, unused_upto, GameError, Grid, GridView};
use crate::result::{plus, total, GridResult};

verus! {

/// The reward for a line that sums to `s`; sums off the table pay nothing.
pub open spec fn payout_at(payouts: Seq<i32>, s: int) -> int {
    if 0 <= s < 25 {
        payouts[s] as int
    } else {
        0
    }
}

/// Sum of the rewards for each sum in `sums`.
pub open spec fn payout_total(payouts: Seq<i32>, sums: Seq<int>) -> int
    decreases sums.len(),
{
    if sums.len() == 0 {
        0
    } else {
        payout_total(payouts, sums.drop_last()) + payout_at(payouts, sums.last())
    }
}

/// The average reward over `sums`, rounded down.
pub open spec fn expected_payout(payouts: Seq<i32>, sums: Seq<int>) -> int {
    payout_total(payouts, sums) / (sums.len() as int)
}

/// The table holds 25 rewards, none negative.
pub open spec fn valid_payouts(payouts: Seq<i32>) -> bool {
    payouts.len() == 25 && forall|i: int| 0 <= i < 25 ==> 0 <= #[trigger] payouts[i]
}

/// The digits that stand in `cells`, in order.
pub open spec fn known_digits(cells: Seq<Option<u8>>) -> Seq<u8>
    decreases cells.len(),
{
    if cells.len() == 0 {
        seq![]
    } else {
        match cells.last() {
            Some(d) => known_digits(cells.drop_last()).push(d),
            None => known_digits(cells.drop_last()),
        }
    }
}

/// The sums of every completion of line `l` from the digits not on the board.
pub open spec fn line_sums(v: GridView, l: int) -> Seq<int> {
    completion_sums(known_digits(v.line_cells(l)), v.unused())
}

/// The expected reward of line `l`: the rounded-down average over its completions.
pub open spec fn line_value(v: GridView, payouts: Seq<i32>, l: int) -> int {
    expected_payout(payouts, line_sums(v, l))
}

/// The eight line values of a board, in the order rows, columns, diagonals.
pub open spec fn score_of(v: GridView, payouts: Seq<i32>) -> Seq<int> {
    Seq::new(8, |l: int| line_value(v, payouts, l))
}

/// Eight zeros.
pub open spec fn zeros() -> Seq<int> {
    Seq::new(8, |i: int| 0int)
}

/// The sum of the scores of the boards with each of the first `n` unused digits
/// placed in cell `idx`.
pub open spec fn candidate_total(v: GridView, payouts: Seq<i32>, idx: int, n: int) -> Seq<int>
    decreases n,
{
    if n <= 0 {
        zeros()
    } else {
        plus(
            candidate_total(v, payouts, idx, n - 1),
            score_of(v.placed(Some(v.unused()[n - 1]), idx), payouts),
        )
    }
}

/// The largest reward for which nine line values still add up within `i32`.
pub open spec fn payout_cap() -> int {
    i32::MAX / 9
}

proof fn lemma_payout_total_bound(payouts: Seq<i32>, sums: Seq<int>, m: int)
    requires
        payouts.len() == 25,
        forall|i: int| 0 <= i < 25 ==> 0 <= #[trigger] payouts[i] <= m,
        m >= 0,
    ensures
        0 <= payout_total(payouts, sums) <= sums.len() * m,
    decreases sums.len(),
{
    if sums.len() > 0 {
        lemma_payout_total_bound(payouts, sums.drop_last(), m);
        assert((sums.len() - 1) * m + m == sums.len() * m) by (nonlinear_arith);
    }
}

proof fn lemma_expected_bound(payouts: Seq<i32>, sums: Seq<int>, m: int)
    requires
        payouts.len() == 25,
        forall|i: int| 0 <= i < 25 ==> 0 <= #[trigger] payouts[i] <= m,
        m >= 0,
        sums.len() > 0,
    ensures
        0 <= expected_payout(payouts, sums) <= m,
{
    lemma_payout_total_bound(payouts, sums, m);
    let t = payout_total(payouts, sums);
    let n = sums.len() as int;
    assert(0 <= t / n <= m) by (nonlinear_arith)
        requires
            0 <= t <= n * m,
            n > 0,
            m >= 0,
    ;
}

proof fn lemma_falling_zero(n: nat, k: nat)
    ensures
        falling(n, k) == 0 <==> n < k,
    decreases k,
{
    if k > 0 && n > 0 {
        lemma_falling_zero((n - 1) as nat, (k - 1) as nat);
        let f = falling((n - 1) as nat, (k - 1) as nat) as int;
        assert((n as int) * f == 0 <==> f == 0) by (nonlinear_arith)
            requires
                n > 0,
                f >= 0,
        ;
    }
}

proof fn lemma_falling_small(n: nat, k: nat)
    requires
        n <= 9,
        k <= 3,
    ensures
        falling(n, k) <= if k == 0 {
            1int
        } else if k == 1 {
            9int
        } else if k == 2 {
            81int
        } else {
            729int
        },
    decreases k,
{
    if k > 0 && n > 0 {
        lemma_falling_small((n - 1) as nat, (k - 1) as nat);
        let f = falling((n - 1) as nat, (k - 1) as nat) as int;
        let b: int = if k == 1 {
            1int
        } else if k == 2 {
            9int
        } else {
            81int
        };
        assert((n as int) * f <= 9 * b) by (nonlinear_arith)
            requires
                0 <= n <= 9,
                0 <= f <= b,
        ;
    }
}

proof fn lemma_unused_upto(used: Seq<bool>, n: int)
    requires
        0 <= n <= used.len(),
        n <= 9,
    ensures
        unused_upto(used, n).len() == n - count_used(used, n),
        0 <= count_used(used, n) <= n,
        forall|j: int|
            0 <= j < unused_upto(used, n).len() ==> {
                let d = #[trigger] unused_upto(used, n)[j];
                1 <= d <= n && !used[d - 1]
            },
    decreases n,
{
    if n > 0 {
        lemma_unused_upto(used, n - 1);
    }
}

proof fn lemma_known_len(cells: Seq<Option<u8>>)
    requires
        cells.len() == 3,
    ensures
        known_digits(cells).len() == (if cells[0] is Some { 1int } else { 0int }) + (if cells[1] is Some {
            1int
        } else {
            0int
        }) + (if cells[2] is Some { 1int } else { 0int }),
{
    reveal_with_fuel(known_digits, 4);
    assert(cells.drop_last().drop_last().drop_last() =~= Seq::<Option<u8>>::empty());
}

/// On a well-formed board every line has at least one completion.
proof fn lemma_line_completable(v: GridView, l: int)
    requires
        v.wf(),
        0 <= l < 8,
    ensures
        line_sums(v, l).len() > 0,
{
    let known = known_digits(v.line_cells(l));
    lemma_known_len(v.line_cells(l));
    lemma_unused_upto(v.used, 9);
    reveal_with_fuel(count_filled, 10);
    lemma_completion_count(digit_total(known), (3 - known.len()) as nat, v.unused());
    lemma_falling_zero(v.unused().len(), (3 - known.len()) as nat);
}

/// A line whose three digits are known is worth exactly the reward for its sum.
pub proof fn lemma_full_line_value(payouts: Seq<i32>, known: Seq<u8>, pool: Seq<u8>)
    requires
        known.len() == 3,
    ensures
        expected_payout(payouts, completion_sums(known, pool)) == payout_at(payouts, digit_total(known)),
{
    lemma_full_line_single(known, pool);
    let sums = completion_sums(known, pool);
    assert(sums.drop_last() =~= Seq::<int>::empty());
    assert(payout_total(payouts, sums.drop_last()) == 0);
    assert(payout_total(payouts, sums) == payout_at(payouts, digit_total(known)));
}

proof fn lemma_payout_total_by(payouts: Seq<i32>, sums: Seq<int>)
    ensures
        payout_total(payouts, sums) == total_by(sums, |x: int| payout_at(payouts, x)),
    decreases sums.len(),
{
    if sums.len() > 0 {
        lemma_payout_total_by(payouts, sums.drop_last());
    }
}

/// A line's expected value is the same when its completions are taken without
/// regard to order: the rounded-down mean reward over the combinations of the
/// digits left.
pub proof fn lemma_line_value_by_combinations(payouts: Seq<i32>, known: Seq<u8>, pool: Seq<u8>)
    requires
        known.len() <= 3,
        combination_sums(digit_total(known), (3 - known.len()) as nat, pool).len() > 0,
    ensures
        expected_payout(payouts, completion_sums(known, pool)) == payout_total(
            payouts,
            combination_sums(digit_total(known), (3 - known.len()) as nat, pool),
        ) / (combination_sums(digit_total(known), (3 - known.len()) as nat, pool).len() as int),
{
    let k = (3 - known.len()) as nat;
    let s = digit_total(known);
    lemma_permutation_mean(|x: int| payout_at(payouts, x), s, k, pool);
    lemma_payout_total_by(payouts, completion_sums(known, pool));
    lemma_payout_total_by(payouts, combination_sums(s, k, pool));
}

/// On a full board no digit is left, and every line is worth exactly the reward
/// for the sum of its three digits.
pub proof fn lemma_full_grid(v: GridView, payouts: Seq<i32>, l: int)
    requires
        v.wf(),
        forall|i: int| 0 <= i < 9 ==> (#[trigger] v.cells[i]) is Some,
        0 <= l < 8,
    ensures
        v.unused().len() == 0,
        known_digits(v.line_cells(l)).len() == 3,
        line_value(v, payouts, l) == payout_at(payouts, digit_total(known_digits(v.line_cells(l)))),
{
    lemma_unused_upto(v.used, 9);
    reveal_with_fuel(count_filled, 10);
    lemma_known_len(v.line_cells(l));
    lemma_full_line_value(payouts, known_digits(v.line_cells(l)), v.unused());
}

/// The total of a board's score is the sum of its eight line values.
pub proof fn lemma_score_total(v: GridView, payouts: Seq<i32>)
    ensures
        total(score_of(v, payouts)) == line_value(v, payouts, 0) + line_value(v, payouts, 1)
            + line_value(v, payouts, 2) + line_value(v, payouts, 3) + line_value(v, payouts, 4)
            + line_value(v, payouts, 5) + line_value(v, payouts, 6) + line_value(v, payouts, 7),
{
}

/// The digits that stand in `digits`, in order.
fn known_of(digits: &[Option<u8>; 3]) -> (r: Vec<u8>)
    ensures
        r@ == known_digits(digits@),
{
    let mut r: Vec<u8> = Vec::new();
    let mut i: usize = 0;
    while i < 3
        invariant
            i <= 3,
            r@ == known_digits(digits@.subrange(0, i as int)),
        decreases 3 - i,
    {
        proof {
            assert(digits@.subrange(0, i + 1).drop_last() =~= digits@.subrange(0, i as int));
        }
        if let Some(d) = digits[i] {
            r.push(d);
        }
        i = i + 1;
    }
    proof {
        assert(digits@.subrange(0, 3) =~= digits@);
    }
    r
}

/// The payout for a line sum, zero off the table.
fn payout_for(payouts: &[i32; 25], s: i32) -> (r: i32)
    ensures
        r == payout_at(payouts@, s as int),
{
    if 0 <= s && s < 25 {
        payouts[s as usize]
    } else {
        0
    }
}

/// Expected reward of a line whose cells hold `digits`, when its empty cells are
/// filled without repetition from the digits not on `grid`: the rounded-down
/// average of the rewards over every completion. A line that cannot be completed
/// from what is left is reported as an invalid state.
pub fn calculate_expected_value(grid: &Grid, payouts: [i32; 25], digits: [Option<u8>; 3]) -> (r: Result<
    i32,
    GameError,
>)
    requires
        valid_payouts(payouts@),
    ensures
        ({
            let known = known_digits(digits@);
            let sums = completion_sums(known, grid@.unused());
            &&& r is Err <==> grid@.unused().len() < 3 - known.len()
            &&& r is Err ==> r == Err::<i32, GameError>(GameError::InvalidState)
            &&& r is Ok ==> r == Ok::<i32, GameError>(expected_payout(payouts@, sums) as i32)
                && r->Ok_0 == expected_payout(payouts@, sums)
        }),
{
    let row_digits = known_of(&digits);
    let unused_digits = grid.unused_digits();
    proof {
        assert(known_digits(digits@).len() <= 3) by {
            lemma_known_len(digits@);
        }
        grid.lemma_shape();
        lemma_unused_upto(grid@.used, 9);
    }
    let possible_sums = calculate_candidate_sums(row_digits, unused_digits);
    let ghost known = known_digits(digits@);
    let ghost k = (3 - known.len()) as nat;
    let ghost sums = possible_sums@.map_values(|v: i32| v as int);
    proof {
        lemma_completion_count(digit_total(known), k, grid@.unused());
        lemma_falling_zero(grid@.unused().len(), k);
        lemma_falling_small(grid@.unused().len(), k);
    }
    let size = possible_sums.len();
    if size == 0 {
        return Err(GameError::InvalidState);
    }
    let mut total: i64 = 0;
    let mut i: usize = 0;
    while i < size
        invariant
            size == possible_sums.len(),
            size <= 729,
            i <= size,
            sums == possible_sums@.map_values(|v: i32| v as int),
            valid_payouts(payouts@),
            total == payout_total(payouts@, sums.subrange(0, i as int)),
            0 <= total <= i * (i32::MAX as int),
        decreases size - i,
    {
        proof {
            assert(sums.subrange(0, i + 1).drop_last() =~= sums.subrange(0, i as int));
        }
        let p = payout_for(&payouts, possible_sums[i]);
        proof {
            assert((i + 1) * (i32::MAX as int) == i * (i32::MAX as int) + i32::MAX) by (nonlinear_arith);
            assert(i * (i32::MAX as int) <= 729 * (i32::MAX as int)) by (nonlinear_arith)
                requires
                    i <= 729,
            ;
        }
        total = total + p as i64;
        i = i + 1;
    }
    proof {
        assert(sums.subrange(0, size as int) =~= sums);
        lemma_expected_bound(payouts@, sums, i32::MAX as int);
    }
    Ok((total / size as i64) as i32)
}

/// Expected reward of row `row` (0..3).
pub fn calculate_expected_row_value(grid: &Grid, row: u32, payouts: [i32; 25]) -> (r: i32)
    requires
        grid@.wf(),
        row < 3,
        valid_payouts(payouts@),
    ensures
        r == line_value(grid@, payouts@, row as int),
{
    let r = row as usize;
    let digits = [grid.cell(r, 0), grid.cell(r, 1), grid.cell(r, 2)];
    proof {
        assert(digits@ =~= grid@.line_cells(row as int));
        lemma_line_completable(grid@, row as int);
        lemma_completion_count(
            digit_total(known_digits(digits@)),
            (3 - known_digits(digits@).len()) as nat,
            grid@.unused(),
        );
        lemma_falling_zero(grid@.unused().len(), (3 - known_digits(digits@).len()) as nat);
    }
    calculate_expected_value(grid, payouts, digits).unwrap()
}

/// Expected reward of column `column` (0..3).
pub fn calculate_expected_column_value(grid: &Grid, column: u32, payouts: [i32; 25]) -> (r: i32)
    requires
        grid@.wf(),
        column < 3,
        valid_payouts(payouts@),
    ensures
        r == line_value(grid@, payouts@, 3 + column),
{
    let c = column as usize;
    let digits = [grid.cell(0, c), grid.cell(1, c), grid.cell(2, c)];
    proof {
        assert(digits@ =~= grid@.line_cells(3 + column));
        lemma_line_completable(grid@, 3 + column);
        lemma_completion_count(
            digit_total(known_digits(digits@)),
            (3 - known_digits(digits@).len()) as nat,
            grid@.unused(),
        );
        lemma_falling_zero(grid@.unused().len(), (3 - known_digits(digits@).len()) as nat);
    }
    calculate_expected_value(grid, payouts, digits).unwrap()
}

/// Expected reward of a diagonal: 0 is the main diagonal (top-left to
/// bottom-right), 1 the anti-diagonal (top-right to bottom-left).
pub fn calculate_expected_diagonal_value(grid: &Grid, diagonal: u32, payouts: [i32; 25]) -> (r: i32)
    requires
        grid@.wf(),
        diagonal < 2,
        valid_payouts(payouts@),
    ensures
        r == line_value(grid@, payouts@, 6 + diagonal),
{
    let digits = if diagonal == 0 {
        [grid.cell(0, 0), grid.cell(1, 1), grid.cell(2, 2)]
    } else {
        [grid.cell(0, 2), grid.cell(1, 1), grid.cell(2, 0)]
    };
    proof {
        assert(digits@ =~= grid@.line_cells(6 + diagonal));
        lemma_line_completable(grid@, 6 + diagonal);
        lemma_completion_count(
            digit_total(known_digits(digits@)),
            (3 - known_digits(digits@).len()) as nat,
            grid@.unused(),
        );
        lemma_falling_zero(grid@.unused().len(), (3 - known_digits(digits@).len()) as nat);
    }
    calculate_expected_value(grid, payouts, digits).unwrap()
}

/// The eight expected line values of a board.
pub fn score(grid: &Grid, payouts: [i32; 25]) -> (r: GridResult)
    requires
        grid@.wf(),
        valid_payouts(payouts@),
    ensures
        r@ == score_of(grid@, payouts@),
{
    let r = GridResult {
        rows: [
            calculate_expected_row_value(grid, 0, payouts),
            calculate_expected_row_value(grid, 1, payouts),
            calculate_expected_row_value(grid, 2, payouts),
        ],
        columns: [
            calculate_expected_column_value(grid, 0, payouts),
            calculate_expected_column_value(grid, 1, payouts),
            calculate_expected_column_value(grid, 2, payouts),
        ],
        diagonals: [
            calculate_expected_diagonal_value(grid, 0, payouts),
            calculate_expected_diagonal_value(grid, 1, payouts),
        ],
    };
    proof {
        assert(r@ =~= score_of(grid@, payouts@));
    }
    r
}


/// Every line value of a well-formed board lies between zero and the largest reward.
proof fn lemma_score_bound(v: GridView, payouts: Seq<i32>, m: int)
    requires
        v.wf(),
        payouts.len() == 25,
        forall|i: int| 0 <= i < 25 ==> 0 <= #[trigger] payouts[i] <= m,
        m >= 0,
    ensures
        forall|l: int| 0 <= l < 8 ==> 0 <= #[trigger] score_of(v, payouts)[l] <= m,
{
    assert forall|l: int| 0 <= l < 8 implies 0 <= #[trigger] score_of(v, payouts)[l] <= m by {
        lemma_line_completable(v, l);
        lemma_expected_bound(payouts, line_sums(v, l), m);
    }
}

/// For a target cell, the sum over every digit not on the board of the score of
/// the board with that digit placed there. Dividing by the number of such digits
/// gives the expected result of committing to the cell before the digit is known.
pub fn calculate_average_increase(grid: &Grid, payouts: [i32; 25], point: (i32, i32)) -> (r: GridResult)
    requires
        grid@.wf(),
        valid_payouts(payouts@),
        forall|i: int| 0 <= i < 25 ==> #[trigger] payouts@[i] <= payout_cap(),
        0 <= point.0 < 3,
        0 <= point.1 < 3,
    ensures
        r@ == candidate_total(grid@, payouts@, 3 * point.0 + point.1, grid@.unused().len() as int),
{
    let ghost v = grid@;
    let ghost idx = 3 * point.0 + point.1;
    let candidates = grid.unused_digits();
    proof {
        grid.lemma_shape();
        lemma_unused_upto(v.used, 9);
    }
    let mut acc = GridResult::new();
    proof {
        assert(acc@ =~= candidate_total(v, payouts@, idx, 0));
    }
    let mut i: usize = 0;
    while i < candidates.len()
        invariant
            v == grid@,
            v.wf(),
            idx == 3 * point.0 + point.1,
            0 <= point.0 < 3,
            0 <= point.1 < 3,
            valid_payouts(payouts@),
            forall|j: int| 0 <= j < 25 ==> #[trigger] payouts@[j] <= payout_cap(),
            candidates@ == v.unused(),
            candidates.len() <= 9,
            forall|j: int|
                0 <= j < candidates@.len() ==> {
                    let d = #[trigger] candidates@[j];
                    1 <= d <= 9 && !v.used[d - 1]
                },
            i <= candidates.len(),
            acc@ == candidate_total(v, payouts@, idx, i as int),
            forall|k: int| 0 <= k < 8 ==> 0 <= #[trigger] acc@[k] <= i * payout_cap(),
        decreases candidates.len() - i,
    {
        let d = candidates[i];
        proof {
            assert forall|j: int| 0 <= j < 9 && j != idx implies v.cells[j] != Some(d) by {
                if v.cells[j] == Some(d) {
                    assert(v.used[d - 1]);
                }
            }
        }
        let g = grid.set(Some(d), point);
        let s = score(&g, payouts);
        proof {
            lemma_score_bound(g@, payouts@, payout_cap());
            assert forall|k: int| 0 <= k < 8 implies 0 <= #[trigger] plus(acc@, s@)[k] <= (i + 1)
                * payout_cap() by {
                assert(0 <= s@[k] <= payout_cap());
                assert(0 <= acc@[k] <= i * payout_cap());
                assert((i + 1) * payout_cap() == i * payout_cap() + payout_cap()) by (nonlinear_arith);
            }
            assert forall|k: int| 0 <= k < 8 implies i32::MIN <= #[trigger] plus(acc@, s@)[k]
                <= i32::MAX by {
                assert(0 <= plus(acc@, s@)[k] <= (i + 1) * payout_cap());
                assert((i + 1) * payout_cap() <= 9 * payout_cap()) by (nonlinear_arith)
                    requires
                        i + 1 <= 9,
                ;
            }
        }
        acc = acc.add(&s);
        i = i + 1;
    }
    acc
}

} // verus!
