use pdfmuse_core::error::PdfmuseError;
use pdfmuse_core::ir::{BBox, Block, WarningKind};
use pdfmuse_core::pdf::page::{malformed, naive_page, warn};

#[test]
fn naive_page_trims_text_into_one_paragraph() {
    let (page, w) = naive_page(1, 61200, 79200, Ok("  Hello pdfmuse \n".to_string()));
    assert!(w.is_none());
    assert_eq!(page.index, 0);
    assert_eq!((page.width, page.height), (61200, 79200));
    assert_eq!(page.blocks.len(), 1);
    match &page.blocks[0] {
        Block::Paragraph(p) => {
            assert_eq!(p.text, "Hello pdfmuse");
            assert_eq!(p.bbox, BBox::zero());
        }
        _ => panic!("expected paragraph"),
    }
}

#[test]
fn blank_page_has_no_blocks_and_failures_warn() {
    let (page, w) = naive_page(3, 0, 0, Ok(" \t\n".to_string()));
    assert_eq!(page.index, 2);
    assert!(page.blocks.is_empty());
    assert!(w.is_none());

    let (page, w) = naive_page(0, 0, 0, Err("bad stream".to_string()));
    assert_eq!(page.index, 0);
    assert!(page.blocks.is_empty());
    let w = w.expect("a warning");
    assert_eq!(w.page, Some(0));
    assert_eq!(w.kind, WarningKind::MalformedObject);
    assert_eq!(w.detail, "text extraction failed: bad stream");
}

#[test]
fn warning_constructors() {
    let m = malformed("object 1:0 references missing object 999:0".to_string());
    assert_eq!(m.page, None);
    assert_eq!(m.kind, WarningKind::MalformedObject);
    let w = warn(4, "content stream unreadable".to_string());
    assert_eq!(w.page, Some(4));
    assert_eq!(w.detail, "content stream unreadable");
}

#[test]
fn error_messages_read_like_their_display() {
    assert_eq!(PdfmuseError::InvalidFormat.message(), "unrecognized or unsupported document format");
    assert_eq!(
        PdfmuseError::Unsupported("XLSX".to_string()).message(),
        "XLSX is recognized but not yet supported"
    );
    assert_eq!(
        PdfmuseError::EncryptedNoPassword.message(),
        "document is encrypted and requires a password"
    );
    assert_eq!(PdfmuseError::Malformed("x".to_string()).message(), "malformed document: x");
    let io = std::io::Error::new(std::io::ErrorKind::Other, "disk gone");
    assert_eq!(PdfmuseError::from(io).message(), "disk gone");
}
