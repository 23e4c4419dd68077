//! pdfmuse_core: a deterministic PDF/DOCX parser core. Documents are lowered
//! to one intermediate representation ([`ir`]) and rendered from it; OCR and
//! other model-based recovery stay behind the [`backend`] boundary.

pub mod text;
pub mod pdf;
pub mod ir;
pub mod markdown;
pub mod docx;
pub mod error;
pub mod layout;
pub mod backend;
pub mod cli;
pub mod format;
