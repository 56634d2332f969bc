//! The errors that the store and the query engine report.

use vstd::prelude::*;

verus! {

/// Why a request was refused as malformed.
#[derive(Clone, Copy, Debug, PartialEq, Eq, Structural)]
pub enum Reason {
    /// The payload is not a JSON object.
    NotObject,
    /// The payload's id field is not an unsigned integer.
    IdNotUnsigned,
    /// The key does not hold a collection.
    NotCollection,
    /// An array or null was assigned to a scalar.
    ArrayOrNull,
    /// The new scalar is of another JSON type than the old one.
    TypeMismatch,
    /// The sort fields and the sort directions differ in number.
    SortOrderMismatch,
    /// Pagination and slicing were both asked for.
    PaginateAndSlice,
    /// The slice starts after its end.
    SliceStartAfterEnd,
    /// The slice limit is zero.
    SliceZeroLimit,
    /// The slice has neither an end nor a limit.
    SliceWithoutBound,
    /// No id above the largest one in the collection is left.
    IdExhausted,
}

/// The kinds of failure of a store operation.
#[derive(Clone, Copy, Debug, PartialEq, Eq, Structural)]
pub enum ApiError {
    /// Structurally invalid input.
    BadRequest(Reason),
    /// The supplied id already exists.
    Conflict,
    /// The key or the item does not exist.
    NotFound,
    /// The document breaks an invariant that holds of every loaded document.
    Internal,
}

/// The sentence that tells a client what was wrong.
pub open spec fn reason_text(r: Reason) -> Seq<char> {
    match r {
        Reason::NotObject => "value is not object"@,
        Reason::IdNotUnsigned => "id must be an unsigned integer"@,
        Reason::NotCollection => "key is not array"@,
        Reason::ArrayOrNull => "value must be object or plain value, not array nor null"@,
        Reason::TypeMismatch => "value type mismatch"@,
        Reason::SortOrderMismatch => "sort and order length not match"@,
        Reason::PaginateAndSlice => "paginate and slice can not use together"@,
        Reason::SliceStartAfterEnd => "slice start must less than end"@,
        Reason::SliceZeroLimit => "slice limit can not be zero"@,
        Reason::SliceWithoutBound => "slice needs an end or a limit"@,
        Reason::IdExhausted => "no id is left above the largest one"@,
    }
}

impl Reason {
    /// A sentence that tells a client what was wrong.
    pub fn message(&self) -> (r: String)
        ensures
            r@ == reason_text(*self),
    {
        match self {
            Reason::NotObject => "value is not object".to_owned(),
            Reason::IdNotUnsigned => "id must be an unsigned integer".to_owned(),
            Reason::NotCollection => "key is not array".to_owned(),
            Reason::ArrayOrNull => "value must be object or plain value, not array nor null".to_owned(),
            Reason::TypeMismatch => "value type mismatch".to_owned(),
            Reason::SortOrderMismatch => "sort and order length not match".to_owned(),
            Reason::PaginateAndSlice => "paginate and slice can not use together".to_owned(),
            Reason::SliceStartAfterEnd => "slice start must less than end".to_owned(),
            Reason::SliceZeroLimit => "slice limit can not be zero".to_owned(),
            Reason::SliceWithoutBound => "slice needs an end or a limit".to_owned(),
            Reason::IdExhausted => "no id is left above the largest one".to_owned(),
        }
    }
}

} // verus!
