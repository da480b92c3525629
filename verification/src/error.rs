//! Typed errors: every way reading a container can fail, as plain text.

use vstd::prelude::*;

verus! {

/// Every way the library can fail.
#[derive(Debug, Clone, PartialEq, Eq)]
pub enum F2Error {
    /// A read failed, with the path or archive entry that caused it.
    Io {
        /// Path or archive entry being read.
        path: String,
        /// What the reader reported.
        message: String,
    },
    /// The archive could not be read as a zip container.
    Zip(String),
    /// Serialising or deserialising a manifest.
    Json(String),
    /// The container is not a usable OCF package.
    NotOcf(String),
    /// A command-line argument did not make sense.
    Usage(String),
}

/// The mathematical content of an error.
pub enum F2ErrorView {
    Io { path: Seq<char>, message: Seq<char> },
    Zip(Seq<char>),
    Json(Seq<char>),
    NotOcf(Seq<char>),
    Usage(Seq<char>),
}

impl View for F2Error {
    type V = F2ErrorView;

    open spec fn view(&self) -> F2ErrorView {
        match self {
            F2Error::Io { path, message } => F2ErrorView::Io { path: path@, message: message@ },
            F2Error::Zip(m) => F2ErrorView::Zip(m@),
            F2Error::Json(m) => F2ErrorView::Json(m@),
            F2Error::NotOcf(m) => F2ErrorView::NotOcf(m@),
            F2Error::Usage(m) => F2ErrorView::Usage(m@),
        }
    }
}

} // verus!
