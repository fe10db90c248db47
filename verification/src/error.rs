//! The ways in which an operation of this crate fails.

use vstd::prelude::*;

verus! {

#[derive(Clone, Copy, Debug, PartialEq, Eq, Structural)]
pub enum Error {
    /// A polynomial's degree exceeds what the reference string supports.
    DegreeError,
    /// The table's size is not a supported domain size.
    TableSizeError,
    /// Table, witness and key sizes do not fit together.
    SizingError,
    /// The statement is not the commitment to the witness.
    StatementMismatchError,
    /// A witness value does not occur in the table.
    ProverError,
    /// A challenge fell on a value at which the argument is undefined.
    ChallengeError,
    /// The proof was rejected.
    VerificationError,
}

} // verus!
