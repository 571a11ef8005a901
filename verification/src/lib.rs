//! Regression forests over fixed-point data, with contracts that Verus proves.
//!
//! A forest is a set of binary regression trees. Each tree is grown from the whole
//! data set by splitting it, again and again, on the column whose mean parts the
//! targets with the greatest reduction of variance, the candidate columns being
//! drawn at random for every split; a forest predicts the mean of what its trees
//! predict.
//!
//! All numbers are fixed-point: an `i32` counts whole units of the caller's choice
//! (thousandths, say), and every quotient is rounded down to a whole unit. This
//! keeps the arithmetic exact, so that the contracts can say what each function
//! returns and not only roughly what.

pub mod array_ext;
pub mod arrays;
pub mod error;
pub mod forest;
pub mod sampling;
pub mod utils;
