use vstd::prelude::*;

verus! {

/// Why an operation of the library was refused.
#[derive(Clone, Copy, Debug, PartialEq, Eq, Structural)]
pub enum AppError {
    /// A range parameter is not two unsigned integers separated by a comma.
    InvalidRange,
    /// A range starts after it ends.
    RangeStartAfterEnd,
    /// A range spans more than the widest page.
    RangeTooWide,
    /// A range starts past the deepest offset.
    RangeStartTooLarge,
    /// A sort parameter is not a list of a field and an order.
    InvalidSort,
    /// A sort order is neither `ASC` nor `DESC`.
    InvalidSortOrder,
    /// A request's target cannot be read or mapped to an upstream address.
    InvalidTarget,
    /// No record has the given id.
    NotFound,
    /// An id or a counter has run out of values.
    Exhausted,
    /// The store could not carry out an operation.
    Storage,
    /// A drive step was handed the outcome of another kind of step.
    UnexpectedOutcome,
    /// An inbound body is larger than ingest accepts.
    BodyTooLarge,
}

} // verus!
