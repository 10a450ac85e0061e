//! The ways a query can fail.
use vstd::prelude::*;

verus! {

#[derive(Clone, Copy, Debug, PartialEq, Eq, Structural)]
pub enum QueryError {
    /// The source could not be read.
    IoError,
    /// A CSV row is malformed or has another number of fields than the header.
    ParseError,
    /// An expression names a column that the input does not have.
    SchemaError,
    /// Arithmetic or a transform was applied to a column of an unfitting type.
    TypeMismatch,
    /// An argument is out of its range, such as a negative row count.
    InvalidArgument,
    /// A fixed-point or integer result does not fit in 64 bits.
    Overflow,
}

} // verus!
