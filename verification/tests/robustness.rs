//! Robustness: parsing must never panic; malformed input degrades to `Err`
//! or partial output.

use pdfmuse_core::docx;
use pdfmuse_core::format::{choose_format, Format};
use pdfmuse_core::pdf::load::{load, parse_pdf};

/// Tiny deterministic PRNG (xorshift): reproducible, no time.
struct Rng(u64);
impl Rng {
    fn next(&mut self) -> u64 {
        let mut x = self.0;
        x ^= x << 13;
        x ^= x >> 7;
        x ^= x << 17;
        self.0 = x;
        x
    }
    fn below(&mut self, n: usize) -> usize {
        (self.next() % n as u64) as usize
    }
}

/// Parse as detected, as PDF and as DOCX; a panic fails the test.
fn parse_every_way(data: &[u8]) {
    let _ = choose_format(data, None);
    for format in [Format::Pdf, Format::Docx] {
        match choose_format(data, Some(format)) {
            Ok(Format::Pdf) => {
                if let Ok((pdf, warnings)) = load(data, None) {
                    let _ = parse_pdf(&pdf, warnings, &vec![]);
                }
            }
            Ok(Format::Docx) => {
                let _ = docx::parse(data);
            }
            Err(_) => {}
        }
    }
}

#[test]
fn never_panics_on_random_and_edge_bytes() {
    let mut rng = Rng(0xD1B54A32D192ED03);
    // Random buffers, some with PDF/ZIP magic to reach deeper code paths.
    for _ in 0..2000 {
        let n = rng.below(4096);
        let mut buf: Vec<u8> = (0..n).map(|_| rng.next() as u8).collect();
        match rng.below(4) {
            0 => buf = [&b"%PDF-1.5\n"[..], &buf].concat(),
            1 => buf = [&b"PK\x03\x04"[..], &buf].concat(),
            2 => buf.extend_from_slice(b"\nstartxref\n0\n%%EOF"),
            _ => {}
        }
        parse_every_way(&buf);
    }
    // Explicit edge cases.
    for edge in [&b""[..], b"%PDF-", b"%PDF-1.7", b"PK\x03\x04", b"xref", b"trailer<<>>"] {
        parse_every_way(edge);
    }
}
