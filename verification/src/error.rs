use vstd::prelude::*;

verus! {

/// Errors of the reconciliation engine.
#[derive(Debug, Clone, PartialEq, Eq)]
pub enum CoreError {
    MissingIdentityField(String),
    InvalidIdentityRule(String),
    UnsupportedCanonVersion(u32),
    UnknownHashAlgorithm(String),
    MerkleLeafNotFound,
    InvalidDecimal(String),
    Other(String),
}

pub type CoreResult<T> = Result<T, CoreError>;

/// An error with its text as character sequences.
pub enum ErrorView {
    MissingIdentityField(Seq<char>),
    InvalidIdentityRule(Seq<char>),
    UnsupportedCanonVersion(u32),
    UnknownHashAlgorithm(Seq<char>),
    MerkleLeafNotFound,
    InvalidDecimal(Seq<char>),
    Other(Seq<char>),
}

impl View for CoreError {
    type V = ErrorView;

    open spec fn view(&self) -> ErrorView {
        match self {
            CoreError::MissingIdentityField(s) => ErrorView::MissingIdentityField(s@),
            CoreError::InvalidIdentityRule(s) => ErrorView::InvalidIdentityRule(s@),
            CoreError::UnsupportedCanonVersion(v) => ErrorView::UnsupportedCanonVersion(*v),
            CoreError::UnknownHashAlgorithm(s) => ErrorView::UnknownHashAlgorithm(s@),
            CoreError::MerkleLeafNotFound => ErrorView::MerkleLeafNotFound,
            CoreError::InvalidDecimal(s) => ErrorView::InvalidDecimal(s@),
            CoreError::Other(s) => ErrorView::Other(s@),
        }
    }
}

} // verus!
