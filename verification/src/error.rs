//! Errors of the library.

use vstd::prelude::*;

verus! {

/// Why an update, an order or a number was refused.
#[derive(Clone, Copy, Debug, PartialEq, Eq, Structural)]
pub enum ServerError {
    /// A price or size text is not a decimal number of the accepted form.
    InvalidNumber,
    /// An order was to be built from a diff that does not create an order.
    NotANewOrderDiff,
    /// A batch skipped a block: `expected` was due, `got` arrived.
    UnexpectedBlock { expected: u64, got: u64 },
}

} // verus!
