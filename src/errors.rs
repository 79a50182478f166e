use vstd::prelude::*;

verus! {

/// The ways in which a column selector can be refused.
#[derive(Debug, Clone, PartialEq, Eq)]
pub enum Error {
    /// The text is not of the form `N`, `N-`, `N-M` or `-M`.
    RangeParseError { s: String },
    /// A selector `N-M` whose end lies before its start.
    InvalidDecreasingRange { s: String },
    /// A selector that names column zero.
    ColumnsStartAtOne,
}

} // verus!
