//! Error type of the ICDD reader and writer.

use vstd::prelude::*;

use crate::text::concat;

verus! {

/// Errors that can occur opening, parsing or writing an ISO 21597-1 container.
///
/// Underlying I/O and ZIP failures are carried as their rendered messages.
#[derive(Debug)]
pub enum IcddError {
    /// I/O failure reading a file or ZIP entry.
    Io(String),
    /// The ZIP archive is malformed or not a ZIP.
    Zip(String),
    /// RDF/XML parse failure inside `Index.rdf` or a linkset.
    Rdf(String),
    /// A conformance requirement was not met (ISO 21597-1 Clause 5).
    NotConformant(String),
}

/// The rendering of a string by `{:?}` (quoted, with escapes).
pub uninterp spec fn debug_text(s: Seq<char>) -> Seq<char>;

/// Renders a string with `{:?}`.
#[verifier::external_body]
pub(crate) fn debug_quoted(s: &str) -> (r: String)
    ensures
        r@ == debug_text(s@),
{
    format!("{s:?}")
}

impl IcddError {
    /// The text this error displays as.
    pub open spec fn spec_message(&self) -> Seq<char> {
        match self {
            IcddError::Io(m) => "io error: "@ + m@,
            IcddError::Zip(m) => "zip error: "@ + m@,
            IcddError::Rdf(m) => "rdf parse error: "@ + m@,
            IcddError::NotConformant(m) => "not a conformant ICDD container: "@ + m@,
        }
    }

    /// The error is `NotConformant` with exactly this detail text.
    pub open spec fn is_not_conformant(&self, detail: Seq<char>) -> bool {
        self matches IcddError::NotConformant(m) && m@ == detail
    }

    /// The text this error displays as.
    pub fn message(&self) -> (r: String)
        ensures
            r@ == self.spec_message(),
    {
        match self {
            IcddError::Io(m) => concat("io error: ", m.as_str()),
            IcddError::Zip(m) => concat("zip error: ", m.as_str()),
            IcddError::Rdf(m) => concat("rdf parse error: ", m.as_str()),
            IcddError::NotConformant(m) => concat("not a conformant ICDD container: ", m.as_str()),
        }
    }
}

/// A `NotConformant` error carrying `detail`.
pub(crate) fn not_conformant(detail: String) -> (e: IcddError)
    ensures
        e.is_not_conformant(detail@),
{
    IcddError::NotConformant(detail)
}

} // verus!
