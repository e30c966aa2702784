use vstd::prelude::*;

verus! {

/// Errors of the table library.
///
/// - `FormatError`: a table's byte length is not a multiple of the record
///   width, so it cannot be a dense array of records.
/// - `IOError`: the file or mapping behind a table could not be set up;
///   produced by the unverified shell around the library, never by the
///   verified core itself.
/// - `OrderViolation(p)`: the validator found the record at index `p` to be
///   smaller than its predecessor; `p` is the first such index in file order.
#[derive(Debug, Clone, Copy, PartialEq, Eq, Structural)]
pub enum TableError {
    FormatError,
    IOError,
    OrderViolation(usize),
}

} // verus!
