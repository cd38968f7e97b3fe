//! The comparison operators.

use vstd::prelude::*;

verus! {

/// The comparison of a clause.
#[derive(Debug, PartialEq, Eq, Clone, Copy)]
pub enum OpKind {
    /// `=`
    Eq,
    /// `<>`
    Ne,
    /// `<`
    Lt,
    /// `<=`
    Le,
    /// `>`
    Gt,
    /// `>=`
    Ge,
}

} // verus!
