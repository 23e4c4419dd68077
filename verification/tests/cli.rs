use pdfmuse_core::cli::{parse_args, OutputFormat};

fn args(v: &[&str]) -> Vec<String> {
    v.iter().map(|s| s.to_string()).collect()
}

const USAGE: &str = "usage: pdfmuse parse <FILE> [--format json|md] [--debug]";

#[test]
fn parses_file_format_and_debug() {
    let a = parse_args(args(&["parse", "doc.pdf", "--format", "md", "--debug"])).unwrap();
    assert_eq!(a.file, "doc.pdf");
    assert_eq!(a.format, OutputFormat::Markdown);
    assert!(a.debug);
    let a = parse_args(args(&["parse", "--format", "json", "x.docx"])).unwrap();
    assert_eq!(a.file, "x.docx");
    assert_eq!(a.format, OutputFormat::Json);
    assert!(!a.debug);
}

#[test]
fn argument_errors_carry_usage() {
    assert_eq!(parse_args(args(&[])).unwrap_err(), format!("missing command\n{USAGE}"));
    assert_eq!(parse_args(args(&["dump"])).unwrap_err(), format!("unknown command 'dump'\n{USAGE}"));
    assert_eq!(parse_args(args(&["parse"])).unwrap_err(), format!("missing <FILE>\n{USAGE}"));
    assert_eq!(
        parse_args(args(&["parse", "f", "--format"])).unwrap_err(),
        format!("--format needs a value (json|md)\n{USAGE}")
    );
    assert_eq!(
        parse_args(args(&["parse", "f", "--format", "html"])).unwrap_err(),
        format!("unknown format 'html' (expected json|md)\n{USAGE}")
    );
    assert_eq!(parse_args(args(&["parse", "-v"])).unwrap_err(), format!("unknown option '-v'\n{USAGE}"));
    assert_eq!(
        parse_args(args(&["parse", "a", "b"])).unwrap_err(),
        format!("unexpected argument 'b'\n{USAGE}")
    );
}
