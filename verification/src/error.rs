//! Structured error type.
//!
//! Errors are split into two paths, per the "graceful degradation" principle:
//!
//! - **Fatal**: the document cannot be parsed at all (bad container, wrong
//!   password, structurally broken). These return `Err(PdfmuseError)`.
//! - **Degradable**: a single page/object is damaged, a font lacks a CMap, a
//!   page needs OCR, etc. These do not error; they are recorded in
//!   [`crate::ir::Document::warnings`] and parsing continues.

use vstd::prelude::*;
use vstd::string::StringExecFns;

verus! {

#[verifier::external_type_specification]
#[verifier::external_body]
pub struct ExIoError(std::io::Error);

/// A fatal parsing error. Non-fatal degradations use [`crate::ir::Warning`] instead.
#[derive(Debug)]
pub enum PdfmuseError {
    /// The bytes are not a recognized/supported document container.
    InvalidFormat,
    /// The format is recognized but not yet supported.
    Unsupported(String),
    /// The document is encrypted and no usable password was supplied.
    EncryptedNoPassword,
    /// The document is structurally broken beyond recovery.
    Malformed(String),
    /// An I/O failure.
    Io(std::io::Error),
}

/// Convenience alias used throughout the crate and by the public API.
pub type Result<T> = std::result::Result<T, PdfmuseError>;

/// `Malformed` with the message `prefix` followed by `detail`.
pub fn malformed_with(prefix: &str, detail: &str) -> (e: PdfmuseError)
    ensures
        e matches PdfmuseError::Malformed(m) && m@ == prefix@ + detail@,
{
    let mut m = String::new();
    m.append(prefix);
    m.append(detail);
    PdfmuseError::Malformed(m)
}

/// The text std gives an I/O error (`ToString` through its `Display`).
/// Nothing is claimed of it: it comes from the operating system.
#[verifier::external_body]
fn io_error_text(e: &std::io::Error) -> String {
    e.to_string()
}

impl PdfmuseError {
    /// The error's message, as its display form reads; an I/O error shows the
    /// I/O error's own text.
    pub fn message(&self) -> (r: String)
        ensures
            match self {
                PdfmuseError::InvalidFormat => r@ == "unrecognized or unsupported document format"@,
                PdfmuseError::Unsupported(what) => r@ == what@ + " is recognized but not yet supported"@,
                PdfmuseError::EncryptedNoPassword => r@ == "document is encrypted and requires a password"@,
                PdfmuseError::Malformed(detail) => r@ == "malformed document: "@ + detail@,
                PdfmuseError::Io(_) => true,
            },
    {
        match self {
            PdfmuseError::InvalidFormat => "unrecognized or unsupported document format".to_owned(),
            PdfmuseError::Unsupported(what) => {
                let mut m = what.clone();
                m.append(" is recognized but not yet supported");
                m
            },
            PdfmuseError::EncryptedNoPassword => "document is encrypted and requires a password".to_owned(),
            PdfmuseError::Malformed(detail) => {
                let mut m = "malformed document: ".to_owned();
                m.append(detail.as_str());
                m
            },
            PdfmuseError::Io(e) => io_error_text(e),
        }
    }
}

impl From<std::io::Error> for PdfmuseError {
    fn from(e: std::io::Error) -> (r: PdfmuseError) {
        PdfmuseError::Io(e)
    }
}

impl vstd::std_specs::convert::FromSpecImpl<std::io::Error> for PdfmuseError {
    open spec fn obeys_from_spec() -> bool {
        true
    }

    open spec fn from_spec(e: std::io::Error) -> PdfmuseError {
        PdfmuseError::Io(e)
    }
}

} // verus!
