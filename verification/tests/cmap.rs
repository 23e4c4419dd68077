use pdfmuse_core::pdf::cmap::parse_to_unicode;

#[test]
fn parses_bfchar() {
    let m = parse_to_unicode(b"1 beginbfchar\n<41> <005A>\nendbfchar");
    assert_eq!(m.get(&0x41).map(String::as_str), Some("Z"));
}

#[test]
fn parses_bfrange_incremental() {
    // codes 0x41..0x43 map to U+0061.. (a, b, c)
    let m = parse_to_unicode(b"1 beginbfrange\n<41> <43> <0061>\nendbfrange");
    assert_eq!(m.get(&0x41).map(String::as_str), Some("a"));
    assert_eq!(m.get(&0x42).map(String::as_str), Some("b"));
    assert_eq!(m.get(&0x43).map(String::as_str), Some("c"));
}

#[test]
fn parses_bfrange_array_and_cjk_and_surrogates() {
    let m = parse_to_unicode(
        b"beginbfrange\n<10> <11> [<4E2D> <6587>]\nendbfrange\nbeginbfchar\n<20> <D83DDE00>\nendbfchar",
    );
    assert_eq!(m.get(&0x10).map(String::as_str), Some("\u{4E2D}"));
    assert_eq!(m.get(&0x11).map(String::as_str), Some("\u{6587}"));
    assert_eq!(m.get(&0x20).map(String::as_str), Some("\u{1F600}"));
}

#[test]
fn later_entries_override_earlier_ones() {
    let m = parse_to_unicode(b"beginbfchar\n<41> <0061>\n<41> <0062>\nendbfchar");
    assert_eq!(m.len(), 1);
    assert_eq!(m.get(&0x41).map(String::as_str), Some("b"));
}

#[test]
fn empty_and_unrelated_input_give_no_entries() {
    assert!(parse_to_unicode(b"").is_empty());
    assert!(parse_to_unicode(b"/CIDInit /ProcSet findresource begin").is_empty());
}

#[test]
fn unpaired_surrogate_becomes_replacement_char() {
    let m = parse_to_unicode(b"beginbfchar\n<01> <D800>\nendbfchar");
    assert_eq!(m.get(&0x01).map(String::as_str), Some("\u{FFFD}"));
}

#[test]
fn incremental_range_bumps_only_the_last_unit() {
    // A two-unit destination: the last unit is incremented per code.
    let m = parse_to_unicode(b"beginbfrange\n<01> <02> <00410042>\nendbfrange");
    assert_eq!(m.get(&0x01).map(String::as_str), Some("AB"));
    assert_eq!(m.get(&0x02).map(String::as_str), Some("AC"));
}
