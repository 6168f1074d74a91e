//! Expected-value evaluation for a 3x3 digit-placement payout game: each row,
//! column and diagonal pays according to the sum of its three distinct digits,
//! and a partly filled board is valued by averaging over every way its lines can
//! still be completed from the digits left.
pub mod completion;
pub mod grid;
pub mod result;
pub mod valuation;

pub use completion::calculate_candidate_sums;
pub use grid::{GameError, Grid, GridView};
pub use result::GridResult;
pub use valuation::{
    calculate_average_increase, calculate_expected_column_value, calculate_expected_diagonal_value,
    calculate_expected_row_value, calculate_expected_value, score,
};
