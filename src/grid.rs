use vstd::prelude::*;

verus! {

/// What can go wrong when the game is driven with bad input or from a broken state.
#[derive(Debug, Clone, Copy, PartialEq, Eq, Structural)]
pub enum GameError {
    /// A coordinate outside the 3x3 grid.
    OutOfBounds,
    /// A digit outside 1..=9.
    InvalidDigit,
    /// A digit that already stands in another cell.
    DuplicateDigit,
    /// A line with no way to be completed from the digits left.
    InvalidState,
}

/// A snapshot of the board: nine cells in row-major order, each empty or
/// holding a digit, and the index of which digits are on the board.
#[derive(Clone, Copy)]
pub struct Grid {
    cells: [Option<u8>; 9],
    used_digits: [bool; 9],
}

/// The mathematical picture of a `Grid`: `cells[3 * row + col]`, and
/// `used[d - 1]` for digit `d`.
pub struct GridView {
    pub cells: Seq<Option<u8>>,
    pub used: Seq<bool>,
}

/// Number of filled entries among the first `n` of `cells`.
pub open spec fn count_filled(cells: Seq<Option<u8>>, n: int) -> int
    decreases n,
{
    if n <= 0 {
        0
    } else {
        count_filled(cells, n - 1) + if cells[n - 1] is Some { 1int } else { 0int }
    }
}

/// Number of `true` entries among the first `n` of `used`.
pub open spec fn count_used(used: Seq<bool>, n: int) -> int
    decreases n,
{
    if n <= 0 {
        0
    } else {
        count_used(used, n - 1) + if used[n - 1] { 1int } else { 0int }
    }
}

/// The digits among `1..=n` that `used` does not mark, in ascending order.
pub open spec fn unused_upto(used: Seq<bool>, n: int) -> Seq<u8>
    decreases n,
{
    if n <= 0 {
        seq![]
    } else if used[n - 1] {
        unused_upto(used, n - 1)
    } else {
        unused_upto(used, n - 1).push(n as u8)
    }
}

/// The digits 1..=9 that `used` does not mark, in ascending order.
pub open spec fn unused_of(used: Seq<bool>) -> Seq<u8> {
    unused_upto(used, 9)
}

/// Cell index of the `j`-th cell of line `l`: rows 0..3, columns 3..6, the main
/// diagonal 6 and the anti-diagonal 7.
pub open spec fn line_index(l: int, j: int) -> int {
    if l < 3 {
        3 * l + j
    } else if l < 6 {
        3 * j + (l - 3)
    } else if l == 6 {
        4 * j
    } else {
        2 + 2 * j
    }
}

impl GridView {
    /// Every cell holds a digit 1..=9 or nothing, no digit stands twice, and
    /// the used-digit index marks exactly the digits on the board (the count of
    /// marks equals the count of filled cells, a consequence kept for counting).
    pub open spec fn wf(self) -> bool {
        &&& self.digits_in_range()
        &&& self.used.len() == 9
        &&& forall|i: int|
            0 <= i < 9 && (#[trigger] self.cells[i]) is Some ==> {
                let d = self.cells[i]->Some_0;
                1 <= d <= 9 && self.used[d - 1]
            }
        &&& forall|i: int, j: int|
            0 <= i < 9 && 0 <= j < 9 && i != j && (#[trigger] self.cells[i]) is Some
                ==> self.cells[i] != #[trigger] self.cells[j]
        &&& forall|d: int|
            0 <= d < 9 && #[trigger] self.used[d] ==> exists|i: int|
                0 <= i < 9 && #[trigger] self.cells[i] == Some((d + 1) as u8)
        &&& count_used(self.used, 9) == count_filled(self.cells, 9)
    }

    /// Nine cells and nine marks, each cell empty or holding a digit 1..=9.
    pub open spec fn digits_in_range(self) -> bool {
        &&& self.cells.len() == 9
        &&& self.used.len() == 9
        &&& forall|i: int|
            0 <= i < 9 && (#[trigger] self.cells[i]) is Some ==> 1 <= self.cells[i]->Some_0 <= 9
    }

    /// The board with cell `idx` replaced by `number`: the previous occupant's
    /// mark is cleared, then the new occupant's mark is set.
    pub open spec fn placed(self, number: Option<u8>, idx: int) -> GridView {
        let cleared = match self.cells[idx] {
            Some(c) => self.used.update(c - 1, false),
            None => self.used,
        };
        GridView {
            cells: self.cells.update(idx, number),
            used: match number {
                Some(e) => cleared.update(e - 1, true),
                None => cleared,
            },
        }
    }

    /// `number` does not stand in a cell other than `idx`.
    pub open spec fn fresh_at(self, number: Option<u8>, idx: int) -> bool {
        forall|j: int| 0 <= j < 9 && j != idx && number is Some ==> self.cells[j] != number
    }

    /// The three cells of line `l`, in order.
    pub open spec fn line_cells(self, l: int) -> Seq<Option<u8>> {
        seq![
            self.cells[line_index(l, 0)],
            self.cells[line_index(l, 1)],
            self.cells[line_index(l, 2)],
        ]
    }

    /// The digits not on the board, ascending.
    pub open spec fn unused(self) -> Seq<u8> {
        unused_of(self.used)
    }
}

impl View for Grid {
    type V = GridView;

    closed spec fn view(&self) -> GridView {
        GridView { cells: self.cells@, used: self.used_digits@ }
    }
}

/// Placing a digit that stands nowhere else keeps the board well formed.
pub proof fn lemma_placed_wf(v: GridView, number: Option<u8>, idx: int)
    requires
        v.wf(),
        0 <= idx < 9,
        number matches Some(e) ==> 1 <= e <= 9,
        v.fresh_at(number, idx),
    ensures
        v.placed(number, idx).wf(),
{
    let w = v.placed(number, idx);
    assert forall|d: int| 0 <= d < 9 && #[trigger] w.used[d] implies exists|i: int|
        0 <= i < 9 && #[trigger] w.cells[i] == Some((d + 1) as u8) by {
        if number == Some((d + 1) as u8) {
            assert(w.cells[idx] == Some((d + 1) as u8));
        } else {
            assert(v.used[d]);
            let i = choose|i: int| 0 <= i < 9 && #[trigger] v.cells[i] == Some((d + 1) as u8);
            assert(v.cells[idx] != Some((d + 1) as u8));
            assert(w.cells[i] == Some((d + 1) as u8));
        }
    }
    if let Some(e) = number {
        if v.used[e - 1] {
            let i = choose|i: int| 0 <= i < 9 && #[trigger] v.cells[i] == Some(e);
            assert(i == idx);
        }
    }
    lemma_placed_counts(v, number, idx);
}

proof fn lemma_placed_counts(v: GridView, number: Option<u8>, idx: int)
    requires
        v.wf(),
        0 <= idx < 9,
        number matches Some(e) ==> 1 <= e <= 9,
        number matches Some(e) ==> (!v.used[e - 1] || v.cells[idx] == number),
    ensures
        count_used(v.placed(number, idx).used, 9) == count_filled(v.placed(number, idx).cells, 9),
{
    let cleared = match v.cells[idx] {
        Some(c) => v.used.update(c - 1, false),
        None => v.used,
    };
    if let Some(c) = v.cells[idx] {
        lemma_count_used_update(v.used, c - 1, false, 9);
    }
    if let Some(e) = number {
        lemma_count_used_update(cleared, e - 1, true, 9);
    }
    lemma_count_filled_update(v.cells, idx, number, 9);
}

proof fn lemma_count_used_update(used: Seq<bool>, i: int, b: bool, n: int)
    requires
        0 <= n <= used.len(),
        0 <= i < used.len(),
    ensures
        count_used(used.update(i, b), n) == count_used(used, n) + if 0 <= i < n {
            (if b { 1int } else { 0int }) - (if used[i] { 1int } else { 0int })
        } else {
            0int
        },
    decreases n,
{
    if n > 0 {
        lemma_count_used_update(used, i, b, n - 1);
    }
}

proof fn lemma_count_filled_update(cells: Seq<Option<u8>>, i: int, x: Option<u8>, n: int)
    requires
        0 <= n <= cells.len(),
        0 <= i < cells.len(),
    ensures
        count_filled(cells.update(i, x), n) == count_filled(cells, n) + if 0 <= i < n {
            (if x is Some { 1int } else { 0int }) - (if cells[i] is Some { 1int } else { 0int })
        } else {
            0int
        },
    decreases n,
{
    if n > 0 {
        lemma_count_filled_update(cells, i, x, n - 1);
    }
}

/// Placing an unused digit in an empty cell and then clearing that cell gives
/// back exactly the board and the used-digit index that were there before.
pub proof fn lemma_place_then_clear(v: GridView, d: u8, idx: int)
    requires
        v.wf(),
        0 <= idx < 9,
        1 <= d <= 9,
        v.cells[idx] is None,
        !v.used[d - 1],
    ensures
        v.placed(Some(d), idx).placed(None, idx) == v,
{
    let back = v.placed(Some(d), idx).placed(None, idx);
    assert(back.cells =~= v.cells);
    assert(back.used =~= v.used);
}

impl Grid {
    /// Every board has nine cells and nine marks.
    pub proof fn lemma_shape(&self)
        ensures
            self@.cells.len() == 9,
            self@.used.len() == 9,
    {
    }

    /// The empty board.
    pub fn new() -> (r: Grid)
        ensures
            r@.wf(),
            forall|i: int| 0 <= i < 9 ==> r@.cells[i] is None,
            forall|d: int| 0 <= d < 9 ==> !r@.used[d],
    {
        let r = Grid { cells: [None; 9], used_digits: [false; 9] };
        proof {
            reveal_with_fuel(count_used, 10);
            reveal_with_fuel(count_filled, 10);
        }
        r
    }

    /// The board with the cell at `point` (row, column) replaced by `number`.
    /// This does not check that `number` stands nowhere else; where it does, the
    /// used-digit index no longer matches the board.
    pub fn set(&self, number: Option<u8>, point: (i32, i32)) -> (r: Grid)
        requires
            self@.digits_in_range(),
            0 <= point.0 < 3,
            0 <= point.1 < 3,
            number matches Some(e) ==> 1 <= e <= 9,
        ensures
            r@ == self@.placed(number, 3 * point.0 + point.1),
            r@.digits_in_range(),
            self@.wf() && self@.fresh_at(number, 3 * point.0 + point.1) ==> r@.wf(),
    {
        let idx: usize = (3 * point.0 + point.1) as usize;
        let mut c = *self;
        if let Some(cn) = c.cells[idx] {
            c.used_digits[(cn - 1) as usize] = false;
        }
        if let Some(e) = number {
            c.used_digits[(e - 1) as usize] = true;
        }
        c.cells[idx] = number;
        proof {
            assert(c@.cells =~= self@.placed(number, idx as int).cells);
            assert(c@.used =~= self@.placed(number, idx as int).used);
            if self@.wf() && self@.fresh_at(number, idx as int) {
                lemma_placed_wf(self@, number, idx as int);
            }
        }
        c
    }

    /// Like `set`, but reports a coordinate off the board, a digit outside
    /// 1..=9, or a digit that already stands in another cell.
    pub fn checked_set(&self, number: Option<u8>, point: (i32, i32)) -> (r: Result<Grid, GameError>)
        requires
            self@.wf(),
        ensures
            !(0 <= point.0 < 3 && 0 <= point.1 < 3) ==> r == Err::<Grid, GameError>(
                GameError::OutOfBounds,
            ),
            (0 <= point.0 < 3 && 0 <= point.1 < 3) && (number matches Some(e) && !(1 <= e <= 9))
                ==> r == Err::<Grid, GameError>(GameError::InvalidDigit),
            (0 <= point.0 < 3 && 0 <= point.1 < 3) && (number matches Some(e) ==> 1 <= e <= 9) ==> {
                if self@.fresh_at(number, 3 * point.0 + point.1) {
                    r matches Ok(g) && g@ == self@.placed(number, 3 * point.0 + point.1) && g@.wf()
                } else {
                    r == Err::<Grid, GameError>(GameError::DuplicateDigit)
                }
            },
    {
        if point.0 < 0 || point.0 >= 3 || point.1 < 0 || point.1 >= 3 {
            return Err(GameError::OutOfBounds);
        }
        let idx: usize = (3 * point.0 + point.1) as usize;
        if let Some(e) = number {
            if e < 1 || e > 9 {
                return Err(GameError::InvalidDigit);
            }
            if self.used_digits[(e - 1) as usize] && self.cells[idx] != number {
                proof {
                    let d = (e - 1) as int;
                    assert(self@.used[d]);
                    let j = choose|j: int| 0 <= j < 9 && #[trigger] self@.cells[j] == Some((d + 1) as u8);
                    assert(j != idx);
                    assert(!self@.fresh_at(number, idx as int));
                }
                return Err(GameError::DuplicateDigit);
            }
            proof {
                assert forall|j: int| 0 <= j < 9 && j != idx && number is Some implies self@.cells[j]
                    != number by {
                    if self@.cells[j] == number {
                        if self@.cells[idx as int] == number {
                            assert(self@.cells[j] != self@.cells[idx as int]);
                        } else {
                            assert(self@.used[e - 1]);
                        }
                    }
                }
            }
        }
        Ok(self.set(number, point))
    }

    /// What stands in the cell at (`row`, `col`).
    pub fn cell(&self, row: usize, col: usize) -> (r: Option<u8>)
        requires
            row < 3,
            col < 3,
        ensures
            r == self@.cells[3 * row + col],
    {
        self.cells[3 * row + col]
    }

    /// The digits 1..=9 that are not on the board, ascending.
    pub fn unused_digits(&self) -> (r: Vec<u8>)
        ensures
            r@ == unused_of(self@.used),
    {
        let mut r: Vec<u8> = Vec::new();
        let mut i: usize = 0;
        while i < 9
            invariant
                i <= 9,
                r@ == unused_upto(self@.used, i as int),
            decreases 9 - i,
        {
            if !self.used_digits[i] {
                r.push((i + 1) as u8);
            }
            i = i + 1;
        }
        r
    }
}

} // verus!
