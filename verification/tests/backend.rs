use pdfmuse_core::backend::{BackendError, NoopBackend, VisionBackend};

#[test]
fn noop_backend_does_no_inference() {
    let b = NoopBackend;
    assert!(matches!(b.ocr_page(&[], 300), Err(BackendError::Unsupported)));
    assert!(matches!(b.detect_table(&[]), Err(BackendError::Unsupported)));
}

#[test]
fn backend_error_messages() {
    assert_eq!(BackendError::Unsupported.message(), "operation not supported by this backend");
    assert_eq!(
        BackendError::Failed("model missing".to_string()).message(),
        "backend failure: model missing"
    );
}
