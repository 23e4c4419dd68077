use pdfmuse_core::format::{format_from_name, sniff, Format};

#[test]
fn recognises_pdf_and_zip_headers() {
    assert_eq!(sniff(b"%PDF-1.7\n..."), Some(Format::Pdf));
    assert_eq!(sniff(b"%PDF-"), Some(Format::Pdf));
    assert_eq!(sniff(b"PK\x03\x04rest"), Some(Format::Docx));
    assert_eq!(sniff(b"%PDF"), None);
    assert_eq!(sniff(b""), None);
    assert_eq!(sniff(b"definitely not a zip"), None);
}

#[test]
fn format_names() {
    assert_eq!(format_from_name(None), Ok(None));
    assert_eq!(format_from_name(Some("pdf")), Ok(Some(Format::Pdf)));
    assert_eq!(format_from_name(Some("docx")), Ok(Some(Format::Docx)));
    assert_eq!(format_from_name(Some("PDF")), Err("unknown format: PDF".to_string()));
}
