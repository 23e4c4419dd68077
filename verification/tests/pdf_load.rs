use lopdf::content::{Content, Operation};
use lopdf::{Dictionary, Document as LoDoc, EncryptionState, EncryptionVersion, Object, Permissions, Stream};
use pdfmuse_core::error::PdfmuseError;
use pdfmuse_core::ir::{Block, SourceKind};
use pdfmuse_core::pdf::load::{load, parse_pdf};

fn dict(pairs: Vec<(&str, Object)>) -> Dictionary {
    let mut d = Dictionary::new();
    for (k, v) in pairs {
        d.set(k, v);
    }
    d
}

/// Synthesize a minimal one-page digital PDF containing `text`.
fn sample_pdf(text: &str) -> Vec<u8> {
    let mut doc = sample_doc(text);
    let mut buf = Vec::new();
    doc.save_to(&mut buf).unwrap();
    buf
}

/// The same PDF, encrypted with user password `secret`.
fn encrypted() -> Vec<u8> {
    let mut doc = sample_doc("Hello pdfmuse");
    doc.version = "1.4".to_string();
    doc.reference_table.cross_reference_type = lopdf::xref::XrefType::CrossReferenceTable;
    doc.trailer.set(
        "ID",
        Object::Array(vec![Object::string_literal(vec![1u8; 16]), Object::string_literal(vec![2u8; 16])]),
    );
    let state = EncryptionState::try_from(EncryptionVersion::V2 {
        document: &doc,
        owner_password: "owner",
        user_password: "secret",
        key_length: 128,
        permissions: Permissions::all(),
    })
    .unwrap();
    doc.encrypt(&state).unwrap();
    let mut buf = Vec::new();
    doc.save_to(&mut buf).unwrap();
    buf
}

fn sample_doc(text: &str) -> LoDoc {
    let mut doc = LoDoc::with_version("1.5");
    let pages_id = doc.new_object_id();
    let font_id = doc.add_object(dict(vec![
        ("Type", Object::Name(b"Font".to_vec())),
        ("Subtype", Object::Name(b"Type1".to_vec())),
        ("BaseFont", Object::Name(b"Courier".to_vec())),
    ]));
    let resources_id = doc.add_object(dict(vec![(
        "Font",
        Object::Dictionary(dict(vec![("F1", Object::Reference(font_id))])),
    )]));
    let content = Content {
        operations: vec![
            Operation::new("BT", vec![]),
            Operation::new("Tf", vec![Object::Name(b"F1".to_vec()), Object::Integer(24)]),
            Operation::new("Td", vec![Object::Integer(100), Object::Integer(700)]),
            Operation::new("Tj", vec![Object::string_literal(text)]),
            Operation::new("ET", vec![]),
        ],
    };
    let content_id = doc.add_object(Stream::new(Dictionary::new(), content.encode().unwrap()));
    let page_id = doc.add_object(dict(vec![
        ("Type", Object::Name(b"Page".to_vec())),
        ("Parent", Object::Reference(pages_id)),
        ("Contents", Object::Reference(content_id)),
        ("Resources", Object::Reference(resources_id)),
        (
            "MediaBox",
            Object::Array(vec![Object::Integer(0), Object::Integer(0), Object::Integer(612), Object::Integer(792)]),
        ),
    ]));
    let pages = dict(vec![
        ("Type", Object::Name(b"Pages".to_vec())),
        ("Kids", Object::Array(vec![Object::Reference(page_id)])),
        ("Count", Object::Integer(1)),
    ]);
    doc.objects.insert(pages_id, Object::Dictionary(pages));
    let catalog_id = doc.add_object(dict(vec![
        ("Type", Object::Name(b"Catalog".to_vec())),
        ("Pages", Object::Reference(pages_id)),
    ]));
    doc.trailer.set("Root", catalog_id);
    doc
}

#[test]
fn no_password_is_rejected() {
    assert!(matches!(load(&encrypted(), None), Err(PdfmuseError::EncryptedNoPassword)));
}

#[test]
fn wrong_password_is_rejected() {
    assert!(matches!(load(&encrypted(), Some("wrong")), Err(PdfmuseError::EncryptedNoPassword)));
}

#[test]
fn extracts_non_empty_text_from_digital_pdf() {
    let bytes = sample_pdf("Hello pdfmuse");
    let (pdf, warnings) = load(&bytes, None).expect("loads a digital PDF");
    let doc = parse_pdf(&pdf, warnings, &vec![(61200, 79200)]).expect("parses a digital PDF");
    assert_eq!(doc.pages[0].index, 0);
    assert_eq!(doc.source, SourceKind::Pdf);
    assert_eq!(doc.pages.len(), 1);
    assert_eq!(doc.metadata.page_count, 1);
    assert!(doc.warnings.is_empty(), "unexpected warnings: {:?}", doc.warnings);
    assert_eq!((doc.pages[0].width, doc.pages[0].height), (61200, 79200));

    let text: String = doc.pages[0]
        .blocks
        .iter()
        .filter_map(|b| match b {
            Block::Paragraph(p) => Some(p.text.as_str()),
            _ => None,
        })
        .collect();
    assert!(text.contains("Hello pdfmuse"), "extracted text was: {text:?}");
}

#[test]
fn missing_sizes_default_to_zero() {
    let bytes = sample_pdf("x");
    let (pdf, warnings) = load(&bytes, Some("ignored")).unwrap();
    let doc = parse_pdf(&pdf, warnings, &vec![]).unwrap();
    assert_eq!((doc.pages[0].width, doc.pages[0].height), (0, 0));
    assert_eq!(doc.pages[0].index, 0);
}

#[test]
fn load_flags_dangling_reference() {
    // A catalog pointing at an object id that does not exist.
    let mut doc = LoDoc::with_version("1.5");
    let catalog = dict(vec![("Type", Object::Name(b"Catalog".to_vec())), ("Pages", Object::Reference((999, 0)))]);
    let cid = doc.add_object(catalog);
    doc.trailer.set("Root", cid);
    let mut buf = Vec::new();
    doc.save_to(&mut buf).unwrap();

    let (_pdf, warnings) = load(&buf, None).expect("load");
    assert!(
        warnings.iter().any(|w| w.detail.contains("missing object 999:0")),
        "warnings were: {warnings:?}"
    );
}

#[test]
fn garbage_is_malformed() {
    assert!(matches!(load(b"definitely not a pdf", None), Err(PdfmuseError::Malformed(_))));
}

