//! Package version model and comparator.
//!
//! A package version string has the shape `[epoch:]version[-release]`.
//! This crate splits such a string into its three fields and defines a
//! total three-way comparison over version strings: epoch first, then
//! version, then release, each field compared segment by segment where a
//! segment is a maximal run of digits or of non-digits.

use vstd::prelude::*;

pub mod compare;
pub mod laws;
pub mod text;
pub mod version;

verus! {

/// The outcome of comparing two version strings.
#[derive(Clone, Copy, Debug, PartialEq, Eq, Structural)]
pub enum ComparisonResult {
    Less,
    Equal,
    Greater,
}

/// The opposite outcome: what the comparison of the swapped operands yields.
pub open spec fn flip(c: ComparisonResult) -> ComparisonResult {
    match c {
        ComparisonResult::Less => ComparisonResult::Greater,
        ComparisonResult::Equal => ComparisonResult::Equal,
        ComparisonResult::Greater => ComparisonResult::Less,
    }
}

} // verus!
