//! The errors that the services report.
use vstd::prelude::*;


verus! {

/// Why a service operation failed.
#[derive(Debug)]
pub enum ServiceError {
    /// A parameter or a policy record is not acceptable.
    Param(String),
    /// The operation itself failed.
    Internal(String),
    /// A trusted service could not be set up.
    TrustedServiceInit(String),
    /// No trusted service has this source id.
    TrustedServiceNotFound(String),
    /// The keys file, or a key, is not acceptable.
    AdminKey(String),
    /// A file could not be read.
    Io(String),
}

/// A service error as mathematical data.
pub enum ServiceErrorView {
    Param(Seq<char>),
    Internal(Seq<char>),
    TrustedServiceInit(Seq<char>),
    TrustedServiceNotFound(Seq<char>),
    AdminKey(Seq<char>),
    Io(Seq<char>),
}

impl View for ServiceError {
    type V = ServiceErrorView;

    open spec fn view(&self) -> ServiceErrorView {
        match *self {
            ServiceError::Param(s) => ServiceErrorView::Param(s@),
            ServiceError::Internal(s) => ServiceErrorView::Internal(s@),
            ServiceError::TrustedServiceInit(s) => ServiceErrorView::TrustedServiceInit(s@),
            ServiceError::TrustedServiceNotFound(s) => ServiceErrorView::TrustedServiceNotFound(
                s@,
            ),
            ServiceError::AdminKey(s) => ServiceErrorView::AdminKey(s@),
            ServiceError::Io(s) => ServiceErrorView::Io(s@),
        }
    }
}

impl ServiceError {
    /// The text that the error carries.
    pub fn text(&self) -> (r: &String)
        ensures
            r@ == (match self@ {
                ServiceErrorView::Param(s) => s,
                ServiceErrorView::Internal(s) => s,
                ServiceErrorView::TrustedServiceInit(s) => s,
                ServiceErrorView::TrustedServiceNotFound(s) => s,
                ServiceErrorView::AdminKey(s) => s,
                ServiceErrorView::Io(s) => s,
            }),
    {
        match self {
            ServiceError::Param(s) => s,
            ServiceError::Internal(s) => s,
            ServiceError::TrustedServiceInit(s) => s,
            ServiceError::TrustedServiceNotFound(s) => s,
            ServiceError::AdminKey(s) => s,
            ServiceError::Io(s) => s,
        }
    }
}

} // verus!
