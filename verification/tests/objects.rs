use pdfmuse_core::ir::WarningKind;
use pdfmuse_core::pdf::objects::{scan, validate, IdTable, PdfObject};

#[test]
fn validation_flags_dangling_reference() {
    // A catalog pointing at an object id that does not exist.
    let objects = vec![(
        (1, 0),
        PdfObject::Dictionary(vec![PdfObject::Other, PdfObject::Reference(999, 0)]),
    )];
    let warnings = validate(&objects);
    assert!(
        warnings.iter().any(|w| w.detail.contains("missing object 999:0")),
        "warnings were: {warnings:?}"
    );
    assert_eq!(warnings.len(), 1);
    assert_eq!(warnings[0].detail, "object 1:0 references missing object 999:0");
    assert_eq!(warnings[0].page, None);
    assert_eq!(warnings[0].kind, WarningKind::MalformedObject);
}

#[test]
fn present_references_and_nested_values_are_checked() {
    let objects = vec![
        ((1, 0), PdfObject::Array(vec![PdfObject::Reference(2, 0), PdfObject::Array(vec![PdfObject::Reference(7, 3)])])),
        ((2, 0), PdfObject::Stream(vec![PdfObject::Reference(12, 0), PdfObject::Reference(1, 0)])),
    ];
    let details: Vec<String> = validate(&objects).into_iter().map(|w| w.detail).collect();
    assert_eq!(
        details,
        vec![
            "object 1:0 references missing object 7:3".to_string(),
            "object 2:0 references missing object 12:0".to_string(),
        ]
    );
}

#[test]
fn scan_appends_to_existing_warnings() {
    let mut out = validate(&vec![((5, 1), PdfObject::Reference(6, 0))]);
    scan(&IdTable::new(vec![(6, 0)]), (3, 0), &PdfObject::Reference(6, 0), &mut out);
    assert_eq!(out.len(), 1);
    scan(&IdTable::new(vec![]), (3, 0), &PdfObject::Reference(4294967295, 65535), &mut out);
    assert_eq!(out[1].detail, "object 3:0 references missing object 4294967295:65535");
}

#[test]
fn lookups_agree_on_sorted_and_unsorted_tables() {
    let sorted = IdTable::new(vec![(1, 0), (2, 0), (2, 5), (9, 1)]);
    let unsorted = IdTable::new(vec![(9, 1), (2, 0), (1, 0), (2, 5)]);
    for id in [(1, 0), (2, 0), (2, 5), (9, 1), (0, 0), (2, 1), (10, 0), (9, 0)] {
        assert_eq!(sorted.contains(id), unsorted.contains(id), "id {id:?}");
    }
    assert!(sorted.contains((2, 5)));
    assert!(!sorted.contains((2, 1)));
}
