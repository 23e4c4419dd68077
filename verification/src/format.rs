//! The input formats: recognising a document's container format from its
//! first bytes, or taking it from a caller's format name.

use vstd::prelude::*;
use vstd::string::StringExecFns;

use crate::error::PdfmuseError;

verus! {

/// An input document format.
#[derive(Clone, Copy, Debug, PartialEq, Eq)]
pub enum Format {
    Pdf,
    Docx,
}

/// `%PDF-`, the header every PDF file starts with.
pub open spec fn pdf_magic() -> Seq<u8> {
    seq![0x25u8, 0x50u8, 0x44u8, 0x46u8, 0x2Du8]
}

/// `PK\x03\x04`, the local-file header a ZIP container (and so a DOCX)
/// starts with.
pub open spec fn zip_magic() -> Seq<u8> {
    seq![0x50u8, 0x4Bu8, 0x03u8, 0x04u8]
}

pub open spec fn has_prefix(data: Seq<u8>, p: Seq<u8>) -> bool {
    data.len() >= p.len() && data.take(p.len() as int) == p
}

/// The format the bytes announce: PDF for the PDF header, DOCX for a ZIP
/// container, `None` for anything else.
pub open spec fn sniff_spec(data: Seq<u8>) -> Option<Format> {
    if has_prefix(data, pdf_magic()) {
        Some(Format::Pdf)
    } else if has_prefix(data, zip_magic()) {
        Some(Format::Docx)
    } else {
        None
    }
}

fn starts_with_bytes(data: &[u8], p: &[u8]) -> (b: bool)
    ensures
        b == has_prefix(data@, p@),
{
    if data.len() < p.len() {
        return false;
    }
    let mut i: usize = 0;
    while i < p.len()
        invariant
            i <= p@.len() <= data@.len(),
            forall|j: int| 0 <= j < i ==> data@[j] == p@[j],
        decreases p@.len() - i,
    {
        if data[i] != p[i] {
            assert(data@.take(p@.len() as int)[i as int] != p@[i as int]);
            return false;
        }
        i = i + 1;
    }
    assert(data@.take(p@.len() as int) =~= p@);
    true
}

/// Recognise the container format from the first bytes.
pub fn sniff(data: &[u8]) -> (r: Option<Format>)
    ensures
        r == sniff_spec(data@),
{
    let pdf: [u8; 5] = [0x25, 0x50, 0x44, 0x46, 0x2D];
    let zip: [u8; 4] = [0x50, 0x4B, 0x03, 0x04];
    assert(pdf@ =~= pdf_magic());
    assert(zip@ =~= zip_magic());
    if starts_with_bytes(data, &pdf) {
        Some(Format::Pdf)
    } else if starts_with_bytes(data, &zip) {
        Some(Format::Docx)
    } else {
        None
    }
}


/// A caller's format name: none means "detect from the bytes", `pdf` and
/// `docx` force a format, anything else is refused.
pub open spec fn format_from_name_spec(fmt: Option<Seq<char>>) -> Result<Option<Format>, Seq<char>> {
    match fmt {
        None => Ok(None),
        Some(f) => if f == "pdf"@ {
            Ok(Some(Format::Pdf))
        } else if f == "docx"@ {
            Ok(Some(Format::Docx))
        } else {
            Err("unknown format: "@ + f)
        },
    }
}

/// Read a caller's format name (`None` to detect from the bytes).
pub fn format_from_name(fmt: Option<&str>) -> (r: Result<Option<Format>, String>)
    ensures
        match format_from_name_spec(
            match fmt {
                Some(f) => Some(f@),
                None => None,
            },
        ) {
            Ok(v) => r == Ok::<Option<Format>, String>(v),
            Err(m) => r matches Err(e) && e@ == m,
        },
{
    match fmt {
        None => Ok(None),
        Some(f) => {
            let name = f.to_owned();
            if name == "pdf".to_owned() {
                Ok(Some(Format::Pdf))
            } else if name == "docx".to_owned() {
                Ok(Some(Format::Docx))
            } else {
                let mut m = "unknown format: ".to_owned();
                m.append(f);
                Err(m)
            }
        },
    }
}


/// The format to parse the bytes as: the forced one, else the one the bytes
/// announce; `InvalidFormat` when neither gives one.
pub fn choose_format(data: &[u8], forced: Option<Format>) -> (r: Result<Format, PdfmuseError>)
    ensures
        match forced {
            Some(f) => r matches Ok(g) && g == f,
            None => match sniff_spec(data@) {
                Some(f) => r matches Ok(g) && g == f,
                None => r matches Err(PdfmuseError::InvalidFormat),
            },
        },
{
    match forced {
        Some(f) => Ok(f),
        None => match sniff(data) {
            Some(f) => Ok(f),
            None => Err(PdfmuseError::InvalidFormat),
        },
    }
}

} // verus!
