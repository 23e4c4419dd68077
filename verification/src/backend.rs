//! Pluggable vision backend: the boundary to everything that needs a model.
//!
//! The core is deterministic and does no inference. OCR of scanned pages and
//! structure recognition of borderless tables go through [`VisionBackend`],
//! which users implement. The default [`NoopBackend`] does no inference: a
//! scanned page is surfaced as a `NeedsOcr` warning and left for a real
//! backend to fill in.

use vstd::prelude::*;

use crate::ir::{Cell, Char};

verus! {

/// A backend that can recover content the deterministic core cannot.
pub trait VisionBackend: Send + Sync {
    /// OCR a rasterized page (PNG at `dpi`) into positioned characters.
    fn ocr_page(&self, page_png: &[u8], dpi: u32) -> Result<Vec<Char>, BackendError>;

    /// Recognize the cell structure of a borderless-table region (PNG).
    fn detect_table(&self, region_png: &[u8]) -> Result<Vec<Vec<Cell>>, BackendError>;
}

/// The default backend: no model inference.
#[derive(Debug, Default, Clone, Copy)]
pub struct NoopBackend;

impl VisionBackend for NoopBackend {
    /// Always refuses: this backend does no OCR.
    fn ocr_page(&self, page_png: &[u8], dpi: u32) -> (r: Result<Vec<Char>, BackendError>)
        ensures
            r matches Err(BackendError::Unsupported),
    {
        Err(BackendError::Unsupported)
    }

    /// Always refuses: this backend does no table recognition.
    fn detect_table(&self, region_png: &[u8]) -> (r: Result<Vec<Vec<Cell>>, BackendError>)
        ensures
            r matches Err(BackendError::Unsupported),
    {
        Err(BackendError::Unsupported)
    }
}

/// An error from a vision backend.
#[derive(Debug)]
pub enum BackendError {
    /// This backend does not implement the requested operation.
    Unsupported,
    /// The backend failed at runtime.
    Failed(String),
}

impl BackendError {
    /// The error's message, as its display form reads.
    pub fn message(&self) -> (r: String)
        ensures
            match self {
                BackendError::Unsupported => r@ == "operation not supported by this backend"@,
                BackendError::Failed(why) => r@ == "backend failure: "@ + why@,
            },
    {
        match self {
            BackendError::Unsupported => "operation not supported by this backend".to_owned(),
            BackendError::Failed(why) => {
                let mut m = "backend failure: ".to_owned();
                m.append(why.as_str());
                m
            },
        }
    }
}

} // verus!
