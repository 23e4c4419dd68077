use pdfmuse_core::pdf::glyphs::{
    apply_differences, base_encoding, canonical_base, name_to_unicode, BaseEncoding, DiffItem,
};

#[test]
fn glyph_name_resolution() {
    assert_eq!(name_to_unicode("space"), Some(" ".to_string()));
    assert_eq!(name_to_unicode("A"), Some("A".to_string()));
    assert_eq!(name_to_unicode("uni0041"), Some("A".to_string()));
    assert_eq!(name_to_unicode("u1F600"), Some("😀".to_string()));
    assert_eq!(name_to_unicode(".notdef"), None);
    assert_eq!(name_to_unicode(""), None);
}

#[test]
fn glyph_suffix_is_ignored() {
    assert_eq!(name_to_unicode("A.sc"), Some("A".to_string()));
    assert_eq!(name_to_unicode("zero.oldstyle"), Some("0".to_string()));
    assert_eq!(name_to_unicode(".sc"), None);
}

#[test]
fn uni_names_spell_several_characters() {
    assert_eq!(name_to_unicode("uni00410042"), Some("AB".to_string()));
    // A surrogate code point is not a character: the whole name fails.
    assert_eq!(name_to_unicode("uni0041D800"), None);
    // Not a multiple of four digits, and not a valid `u` name either.
    assert_eq!(name_to_unicode("uni004"), None);
}

#[test]
fn u_names_take_four_to_six_digits() {
    assert_eq!(name_to_unicode("u0041"), Some("A".to_string()));
    assert_eq!(name_to_unicode("u041"), None);
    assert_eq!(name_to_unicode("u0000041"), None);
    assert_eq!(name_to_unicode("u110000"), None);
    assert_eq!(name_to_unicode("unknownglyph"), None);
}

#[test]
fn differences_replace_names_from_each_code() {
    let mut names: Vec<String> = (0..256).map(|_| "x".to_string()).collect();
    let diffs = vec![
        DiffItem::Code(65),
        DiffItem::Name("alpha".to_string()),
        DiffItem::Name("beta".to_string()),
        DiffItem::Other,
        DiffItem::Code(-5),
        DiffItem::Name("zero-slot".to_string()),
        DiffItem::Code(255),
        DiffItem::Name("last".to_string()),
        DiffItem::Name("dropped".to_string()),
    ];
    apply_differences(&diffs, &mut names);
    assert_eq!(names[65], "alpha");
    assert_eq!(names[66], "beta");
    assert_eq!(names[67], "x");
    assert_eq!(names[0], "zero-slot");
    assert_eq!(names[255], "last");
    assert_eq!(names.len(), 256);
}

#[test]
fn canonical_base_strips_subset_and_maps_aliases() {
    assert_eq!(canonical_base("ABCDEF+Helvetica"), "Helvetica");
    assert_eq!(canonical_base("ABCDEF+Arial"), "Helvetica");
    assert_eq!(canonical_base("Arial,Bold"), "Helvetica-Bold");
    assert_eq!(canonical_base("Arial-Bold"), "Helvetica-Bold");
    assert_eq!(canonical_base("Times"), "Times-Roman");
    assert_eq!(canonical_base("TimesNewRoman"), "Times-Roman");
    // Not a subset tag: lower case, or not six letters.
    assert_eq!(canonical_base("abcdef+Helvetica"), "abcdef+Helvetica");
    assert_eq!(canonical_base("ABCDE+Helvetica"), "ABCDE+Helvetica");
    assert_eq!(canonical_base("Courier"), "Courier");
}

#[test]
fn base_encoding_follows_the_named_encoding() {
    assert_eq!(base_encoding(Some(b"WinAnsiEncoding"), "Helvetica"), BaseEncoding::WinAnsi);
    assert_eq!(base_encoding(Some(b"MacRomanEncoding"), "Helvetica"), BaseEncoding::MacRoman);
    assert_eq!(base_encoding(Some(b"StandardEncoding"), "ZapfDingbats"), BaseEncoding::Standard);
    assert_eq!(base_encoding(None, "ABCDEF+ZapfDingbats"), BaseEncoding::ZapfDingbats);
    assert_eq!(base_encoding(Some(b"Custom"), "Times-Roman"), BaseEncoding::Standard);
    assert_eq!(base_encoding(None, "Zapf"), BaseEncoding::Standard);
}

#[test]
fn latin1_and_typographic_glyph_names() {
    assert_eq!(name_to_unicode("Aacute"), Some("Á".to_string()));
    assert_eq!(name_to_unicode("ydieresis"), Some("ÿ".to_string()));
    assert_eq!(name_to_unicode("quoteright"), Some("\u{2019}".to_string()));
    assert_eq!(name_to_unicode("Euro"), Some("€".to_string()));
    assert_eq!(name_to_unicode("fi"), Some("\u{FB01}".to_string()));
    assert_eq!(name_to_unicode("emdash.alt"), Some("\u{2014}".to_string()));
}
