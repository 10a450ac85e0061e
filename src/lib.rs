//! A small lazy tabular-query library: tables of typed cells, CSV loading,
//! and a plan of filter, projection, grouping and sort steps that `collect`
//! evaluates in the order they were chained.
use vstd::prelude::*;

pub mod column;
pub mod csv;
pub mod error;
pub mod expr;
pub mod group;
pub mod laws;
pub mod plan;
pub mod predicate;
pub mod sort;
pub mod table;
pub mod text;
pub mod value;

verus! {

} // verus!
