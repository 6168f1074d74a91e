use vstd::prelude::*;

verus! {

/// The eight per-line values of one evaluation: three rows, three columns, and
/// the main and anti-diagonal.
#[derive(Debug, Clone, Copy)]
pub struct GridResult {
    pub rows: [i32; 3],
    pub columns: [i32; 3],
    pub diagonals: [i32; 2],
}

/// Elementwise sum of two eight-value lists.
pub open spec fn plus(a: Seq<int>, b: Seq<int>) -> Seq<int> {
    Seq::new(8, |i: int| a[i] + b[i])
}

/// Elementwise difference of two eight-value lists.
pub open spec fn minus(a: Seq<int>, b: Seq<int>) -> Seq<int> {
    Seq::new(8, |i: int| a[i] - b[i])
}

/// Integer division rounding toward zero, for a positive divisor.
pub open spec fn trunc_div(a: int, d: int) -> int {
    if a >= 0 {
        a / d
    } else {
        -((-a) / d)
    }
}

/// Each of eight values divided by `d`, rounding toward zero.
pub open spec fn scaled_down(a: Seq<int>, d: int) -> Seq<int> {
    Seq::new(8, |i: int| trunc_div(a[i], d))
}

/// Sum of the eight values.
pub open spec fn total(a: Seq<int>) -> int {
    a[0] + a[1] + a[2] + a[3] + a[4] + a[5] + a[6] + a[7]
}

/// Every one of the eight values lies within `i32`.
pub open spec fn fits_i32(a: Seq<int>) -> bool {
    forall|i: int| 0 <= i < 8 ==> i32::MIN <= #[trigger] a[i] <= i32::MAX
}

impl View for GridResult {
    type V = Seq<int>;

    /// Rows 0..3, then columns 0..3, then the two diagonals.
    open spec fn view(&self) -> Seq<int> {
        seq![
            self.rows[0] as int,
            self.rows[1] as int,
            self.rows[2] as int,
            self.columns[0] as int,
            self.columns[1] as int,
            self.columns[2] as int,
            self.diagonals[0] as int,
            self.diagonals[1] as int,
        ]
    }
}

/// Subtracting and adding back the same result, or adding and subtracting it,
/// gives back the first result, value for value.
pub proof fn lemma_sub_add_round_trip(a: GridResult, b: GridResult)
    ensures
        plus(minus(a@, b@), b@) == a@,
        minus(plus(a@, b@), b@) == a@,
{
    assert(plus(minus(a@, b@), b@) =~= a@);
    assert(minus(plus(a@, b@), b@) =~= a@);
}

impl GridResult {
    /// All eight values zero.
    pub fn new() -> (r: GridResult)
        ensures
            r@ == Seq::new(8, |i: int| 0int),
    {
        let r = GridResult { rows: [0; 3], columns: [0; 3], diagonals: [0; 2] };
        proof {
            assert(r@ =~= Seq::new(8, |i: int| 0int));
        }
        r
    }

    /// Sum of all eight values.
    pub fn sum(&self) -> (r: i32)
        requires
            i32::MIN <= total(self@) <= i32::MAX,
        ensures
            r == total(self@),
    {
        let a = self.rows[0] as i64 + self.rows[1] as i64 + self.rows[2] as i64;
        let b = self.columns[0] as i64 + self.columns[1] as i64 + self.columns[2] as i64;
        let c = self.diagonals[0] as i64 + self.diagonals[1] as i64;
        (a + b + c) as i32
    }

    /// Elementwise sum.
    pub fn add(&self, other: &GridResult) -> (r: GridResult)
        requires
            fits_i32(plus(self@, other@)),
        ensures
            r@ == plus(self@, other@),
    {
        proof {
            assert(i32::MIN <= plus(self@, other@)[0] <= i32::MAX);
            assert(i32::MIN <= plus(self@, other@)[1] <= i32::MAX);
            assert(i32::MIN <= plus(self@, other@)[2] <= i32::MAX);
            assert(i32::MIN <= plus(self@, other@)[3] <= i32::MAX);
            assert(i32::MIN <= plus(self@, other@)[4] <= i32::MAX);
            assert(i32::MIN <= plus(self@, other@)[5] <= i32::MAX);
            assert(i32::MIN <= plus(self@, other@)[6] <= i32::MAX);
            assert(i32::MIN <= plus(self@, other@)[7] <= i32::MAX);
        }
        let r = GridResult {
            rows: [
                self.rows[0] + other.rows[0],
                self.rows[1] + other.rows[1],
                self.rows[2] + other.rows[2],
            ],
            columns: [
                self.columns[0] + other.columns[0],
                self.columns[1] + other.columns[1],
                self.columns[2] + other.columns[2],
            ],
            diagonals: [self.diagonals[0] + other.diagonals[0], self.diagonals[1] + other.diagonals[1]],
        };
        proof {
            assert(r@ =~= plus(self@, other@));
        }
        r
    }

    /// Elementwise difference.
    pub fn sub(&self, other: &GridResult) -> (r: GridResult)
        requires
            fits_i32(minus(self@, other@)),
        ensures
            r@ == minus(self@, other@),
    {
        proof {
            assert(i32::MIN <= minus(self@, other@)[0] <= i32::MAX);
            assert(i32::MIN <= minus(self@, other@)[1] <= i32::MAX);
            assert(i32::MIN <= minus(self@, other@)[2] <= i32::MAX);
            assert(i32::MIN <= minus(self@, other@)[3] <= i32::MAX);
            assert(i32::MIN <= minus(self@, other@)[4] <= i32::MAX);
            assert(i32::MIN <= minus(self@, other@)[5] <= i32::MAX);
            assert(i32::MIN <= minus(self@, other@)[6] <= i32::MAX);
            assert(i32::MIN <= minus(self@, other@)[7] <= i32::MAX);
        }
        let r = GridResult {
            rows: [
                self.rows[0] - other.rows[0],
                self.rows[1] - other.rows[1],
                self.rows[2] - other.rows[2],
            ],
            columns: [
                self.columns[0] - other.columns[0],
                self.columns[1] - other.columns[1],
                self.columns[2] - other.columns[2],
            ],
            diagonals: [self.diagonals[0] - other.diagonals[0], self.diagonals[1] - other.diagonals[1]],
        };
        proof {
            assert(r@ =~= minus(self@, other@));
        }
        r
    }

    /// Each value divided by `divisor`, rounding toward zero.
    pub fn div(&self, divisor: i32) -> (r: GridResult)
        requires
            divisor > 0,
        ensures
            r@ == scaled_down(self@, divisor as int),
    {
        let r = GridResult {
            rows: [self.rows[0] / divisor, self.rows[1] / divisor, self.rows[2] / divisor],
            columns: [self.columns[0] / divisor, self.columns[1] / divisor, self.columns[2] / divisor],
            diagonals: [self.diagonals[0] / divisor, self.diagonals[1] / divisor],
        };
        proof {
            assert(r@ =~= scaled_down(self@, divisor as int));
        }
        r
    }
}

} // verus!
