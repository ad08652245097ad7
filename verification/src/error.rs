//! The library's error type.
use vstd::prelude::*;

verus! {

/// What went wrong in a request to the area library.
#[derive(Debug)]
pub enum AreaError {
    /// The data source could not be read or parsed.
    DB(String),
    /// The system refused an operation (decompression, files).
    System(String),
    /// A requested code is not in the code tree.
    NotFind(String),
    /// A stored index was asked for a record it does not hold.
    Store(String),
}

/// The result of a request to the area library.
pub type AreaResult<T> = Result<T, AreaError>;

/// An `AreaError` with its message as characters.
pub enum AreaErrorView {
    DB(Seq<char>),
    System(Seq<char>),
    NotFind(Seq<char>),
    Store(Seq<char>),
}

impl View for AreaError {
    type V = AreaErrorView;

    open spec fn view(&self) -> AreaErrorView {
        match self {
            AreaError::DB(s) => AreaErrorView::DB(s@),
            AreaError::System(s) => AreaErrorView::System(s@),
            AreaError::NotFind(s) => AreaErrorView::NotFind(s@),
            AreaError::Store(s) => AreaErrorView::Store(s@),
        }
    }
}

} // verus!
