//! Glyph names of simple (Type1 / TrueType) fonts: resolving a glyph name to
//! Unicode, applying an encoding's `Differences` array, and canonical
//! base-font names.

use vstd::prelude::*;

use crate::docx::styles::lower_spec;
use crate::text::{char_from_u32, chars_equal, chars_of, is_scalar_value, push_char, strings_view};

verus! {

/// The number of names in the glyph list.
pub const GLYPH_COUNT: usize = 228;

/// The code point of the `i`-th glyph of the list: printable ASCII first,
/// then the Latin-1 and common typographic glyphs.
pub open spec fn glyph_code(i: usize) -> u32 {
    if i < 95 {
        (0x20 + i) as u32
    } else {
        match i {
        95usize => 0xA1u32,
        96usize => 0xA2u32,
        97usize => 0xA3u32,
        98usize => 0xA4u32,
        99usize => 0xA5u32,
        100usize => 0xA6u32,
        101usize => 0xA7u32,
        102usize => 0xA8u32,
        103usize => 0xA9u32,
        104usize => 0xAAu32,
        105usize => 0xABu32,
        106usize => 0xACu32,
        107usize => 0xAEu32,
        108usize => 0xAFu32,
        109usize => 0xB0u32,
        110usize => 0xB1u32,
        111usize => 0xB2u32,
        112usize => 0xB3u32,
        113usize => 0xB4u32,
        114usize => 0xB6u32,
        115usize => 0xB7u32,
        116usize => 0xB8u32,
        117usize => 0xB9u32,
        118usize => 0xBAu32,
        119usize => 0xBBu32,
        120usize => 0xBCu32,
        121usize => 0xBDu32,
        122usize => 0xBEu32,
        123usize => 0xBFu32,
        124usize => 0xC0u32,
        125usize => 0xC1u32,
        126usize => 0xC2u32,
        127usize => 0xC3u32,
        128usize => 0xC4u32,
        129usize => 0xC5u32,
        130usize => 0xC6u32,
        131usize => 0xC7u32,
        132usize => 0xC8u32,
        133usize => 0xC9u32,
        134usize => 0xCAu32,
        135usize => 0xCBu32,
        136usize => 0xCCu32,
        137usize => 0xCDu32,
        138usize => 0xCEu32,
        139usize => 0xCFu32,
        140usize => 0xD0u32,
        141usize => 0xD1u32,
        142usize => 0xD2u32,
        143usize => 0xD3u32,
        144usize => 0xD4u32,
        145usize => 0xD5u32,
        146usize => 0xD6u32,
        147usize => 0xD7u32,
        148usize => 0xD8u32,
        149usize => 0xD9u32,
        150usize => 0xDAu32,
        151usize => 0xDBu32,
        152usize => 0xDCu32,
        153usize => 0xDDu32,
        154usize => 0xDEu32,
        155usize => 0xDFu32,
        156usize => 0xE0u32,
        157usize => 0xE1u32,
        158usize => 0xE2u32,
        159usize => 0xE3u32,
        160usize => 0xE4u32,
        161usize => 0xE5u32,
        162usize => 0xE6u32,
        163usize => 0xE7u32,
        164usize => 0xE8u32,
        165usize => 0xE9u32,
        166usize => 0xEAu32,
        167usize => 0xEBu32,
        168usize => 0xECu32,
        169usize => 0xEDu32,
        170usize => 0xEEu32,
        171usize => 0xEFu32,
        172usize => 0xF0u32,
        173usize => 0xF1u32,
        174usize => 0xF2u32,
        175usize => 0xF3u32,
        176usize => 0xF4u32,
        177usize => 0xF5u32,
        178usize => 0xF6u32,
        179usize => 0xF7u32,
        180usize => 0xF8u32,
        181usize => 0xF9u32,
        182usize => 0xFAu32,
        183usize => 0xFBu32,
        184usize => 0xFCu32,
        185usize => 0xFDu32,
        186usize => 0xFEu32,
        187usize => 0xFFu32,
        188usize => 0x131u32,
        189usize => 0x141u32,
        190usize => 0x142u32,
        191usize => 0x152u32,
        192usize => 0x153u32,
        193usize => 0x160u32,
        194usize => 0x161u32,
        195usize => 0x178u32,
        196usize => 0x17Du32,
        197usize => 0x17Eu32,
        198usize => 0x192u32,
        199usize => 0x2C6u32,
        200usize => 0x2C7u32,
        201usize => 0x2D8u32,
        202usize => 0x2D9u32,
        203usize => 0x2DAu32,
        204usize => 0x2DBu32,
        205usize => 0x2DCu32,
        206usize => 0x2DDu32,
        207usize => 0x2013u32,
        208usize => 0x2014u32,
        209usize => 0x2018u32,
        210usize => 0x2019u32,
        211usize => 0x201Au32,
        212usize => 0x201Cu32,
        213usize => 0x201Du32,
        214usize => 0x201Eu32,
        215usize => 0x2020u32,
        216usize => 0x2021u32,
        217usize => 0x2022u32,
        218usize => 0x2026u32,
        219usize => 0x2030u32,
        220usize => 0x2039u32,
        221usize => 0x203Au32,
        222usize => 0x2044u32,
        223usize => 0x20ACu32,
        224usize => 0x2122u32,
        225usize => 0x2212u32,
        226usize => 0xFB01u32,
        227usize => 0xFB02u32,
            _ => 0u32,
        }
    }
}

fn glyph_code_exec(i: usize) -> (c: u32)
    requires
        i < GLYPH_COUNT,
    ensures
        c == glyph_code(i),
{
    if i < 95 {
        return 0x20 + i as u32;
    }
    match i {
        95 => 0xA1u32,
        96 => 0xA2u32,
        97 => 0xA3u32,
        98 => 0xA4u32,
        99 => 0xA5u32,
        100 => 0xA6u32,
        101 => 0xA7u32,
        102 => 0xA8u32,
        103 => 0xA9u32,
        104 => 0xAAu32,
        105 => 0xABu32,
        106 => 0xACu32,
        107 => 0xAEu32,
        108 => 0xAFu32,
        109 => 0xB0u32,
        110 => 0xB1u32,
        111 => 0xB2u32,
        112 => 0xB3u32,
        113 => 0xB4u32,
        114 => 0xB6u32,
        115 => 0xB7u32,
        116 => 0xB8u32,
        117 => 0xB9u32,
        118 => 0xBAu32,
        119 => 0xBBu32,
        120 => 0xBCu32,
        121 => 0xBDu32,
        122 => 0xBEu32,
        123 => 0xBFu32,
        124 => 0xC0u32,
        125 => 0xC1u32,
        126 => 0xC2u32,
        127 => 0xC3u32,
        128 => 0xC4u32,
        129 => 0xC5u32,
        130 => 0xC6u32,
        131 => 0xC7u32,
        132 => 0xC8u32,
        133 => 0xC9u32,
        134 => 0xCAu32,
        135 => 0xCBu32,
        136 => 0xCCu32,
        137 => 0xCDu32,
        138 => 0xCEu32,
        139 => 0xCFu32,
        140 => 0xD0u32,
        141 => 0xD1u32,
        142 => 0xD2u32,
        143 => 0xD3u32,
        144 => 0xD4u32,
        145 => 0xD5u32,
        146 => 0xD6u32,
        147 => 0xD7u32,
        148 => 0xD8u32,
        149 => 0xD9u32,
        150 => 0xDAu32,
        151 => 0xDBu32,
        152 => 0xDCu32,
        153 => 0xDDu32,
        154 => 0xDEu32,
        155 => 0xDFu32,
        156 => 0xE0u32,
        157 => 0xE1u32,
        158 => 0xE2u32,
        159 => 0xE3u32,
        160 => 0xE4u32,
        161 => 0xE5u32,
        162 => 0xE6u32,
        163 => 0xE7u32,
        164 => 0xE8u32,
        165 => 0xE9u32,
        166 => 0xEAu32,
        167 => 0xEBu32,
        168 => 0xECu32,
        169 => 0xEDu32,
        170 => 0xEEu32,
        171 => 0xEFu32,
        172 => 0xF0u32,
        173 => 0xF1u32,
        174 => 0xF2u32,
        175 => 0xF3u32,
        176 => 0xF4u32,
        177 => 0xF5u32,
        178 => 0xF6u32,
        179 => 0xF7u32,
        180 => 0xF8u32,
        181 => 0xF9u32,
        182 => 0xFAu32,
        183 => 0xFBu32,
        184 => 0xFCu32,
        185 => 0xFDu32,
        186 => 0xFEu32,
        187 => 0xFFu32,
        188 => 0x131u32,
        189 => 0x141u32,
        190 => 0x142u32,
        191 => 0x152u32,
        192 => 0x153u32,
        193 => 0x160u32,
        194 => 0x161u32,
        195 => 0x178u32,
        196 => 0x17Du32,
        197 => 0x17Eu32,
        198 => 0x192u32,
        199 => 0x2C6u32,
        200 => 0x2C7u32,
        201 => 0x2D8u32,
        202 => 0x2D9u32,
        203 => 0x2DAu32,
        204 => 0x2DBu32,
        205 => 0x2DCu32,
        206 => 0x2DDu32,
        207 => 0x2013u32,
        208 => 0x2014u32,
        209 => 0x2018u32,
        210 => 0x2019u32,
        211 => 0x201Au32,
        212 => 0x201Cu32,
        213 => 0x201Du32,
        214 => 0x201Eu32,
        215 => 0x2020u32,
        216 => 0x2021u32,
        217 => 0x2022u32,
        218 => 0x2026u32,
        219 => 0x2030u32,
        220 => 0x2039u32,
        221 => 0x203Au32,
        222 => 0x2044u32,
        223 => 0x20ACu32,
        224 => 0x2122u32,
        225 => 0x2212u32,
        226 => 0xFB01u32,
        227 => 0xFB02u32,
        _ => 0u32,
    }
}

/// The Adobe Glyph List name of a code point of the list (an ASCII letter
/// is its own name); the empty name for other code points.
pub open spec fn glyph_name_spec(code: u32) -> Seq<char> {
    if 0x41 <= code <= 0x5A || 0x61 <= code <= 0x7A {
        seq![code as char]
    } else {
        match code {
            0x20u32 => "space"@,
            0x21u32 => "exclam"@,
            0x22u32 => "quotedbl"@,
            0x23u32 => "numbersign"@,
            0x24u32 => "dollar"@,
            0x25u32 => "percent"@,
            0x26u32 => "ampersand"@,
            0x27u32 => "quotesingle"@,
            0x28u32 => "parenleft"@,
            0x29u32 => "parenright"@,
            0x2Au32 => "asterisk"@,
            0x2Bu32 => "plus"@,
            0x2Cu32 => "comma"@,
            0x2Du32 => "hyphen"@,
            0x2Eu32 => "period"@,
            0x2Fu32 => "slash"@,
            0x30u32 => "zero"@,
            0x31u32 => "one"@,
            0x32u32 => "two"@,
            0x33u32 => "three"@,
            0x34u32 => "four"@,
            0x35u32 => "five"@,
            0x36u32 => "six"@,
            0x37u32 => "seven"@,
            0x38u32 => "eight"@,
            0x39u32 => "nine"@,
            0x3Au32 => "colon"@,
            0x3Bu32 => "semicolon"@,
            0x3Cu32 => "less"@,
            0x3Du32 => "equal"@,
            0x3Eu32 => "greater"@,
            0x3Fu32 => "question"@,
            0x40u32 => "at"@,
            0x5Bu32 => "bracketleft"@,
            0x5Cu32 => "backslash"@,
            0x5Du32 => "bracketright"@,
            0x5Eu32 => "asciicircum"@,
            0x5Fu32 => "underscore"@,
            0x60u32 => "grave"@,
            0x7Bu32 => "braceleft"@,
            0x7Cu32 => "bar"@,
            0x7Du32 => "braceright"@,
            0x7Eu32 => "asciitilde"@,
            0xA1u32 => "exclamdown"@,
            0xA2u32 => "cent"@,
            0xA3u32 => "sterling"@,
            0xA4u32 => "currency"@,
            0xA5u32 => "yen"@,
            0xA6u32 => "brokenbar"@,
            0xA7u32 => "section"@,
            0xA8u32 => "dieresis"@,
            0xA9u32 => "copyright"@,
            0xAAu32 => "ordfeminine"@,
            0xABu32 => "guillemotleft"@,
            0xACu32 => "logicalnot"@,
            0xAEu32 => "registered"@,
            0xAFu32 => "macron"@,
            0xB0u32 => "degree"@,
            0xB1u32 => "plusminus"@,
            0xB2u32 => "twosuperior"@,
            0xB3u32 => "threesuperior"@,
            0xB4u32 => "acute"@,
            0xB6u32 => "paragraph"@,
            0xB7u32 => "periodcentered"@,
            0xB8u32 => "cedilla"@,
            0xB9u32 => "onesuperior"@,
            0xBAu32 => "ordmasculine"@,
            0xBBu32 => "guillemotright"@,
            0xBCu32 => "onequarter"@,
            0xBDu32 => "onehalf"@,
            0xBEu32 => "threequarters"@,
            0xBFu32 => "questiondown"@,
            0xC0u32 => "Agrave"@,
            0xC1u32 => "Aacute"@,
            0xC2u32 => "Acircumflex"@,
            0xC3u32 => "Atilde"@,
            0xC4u32 => "Adieresis"@,
            0xC5u32 => "Aring"@,
            0xC6u32 => "AE"@,
            0xC7u32 => "Ccedilla"@,
            0xC8u32 => "Egrave"@,
            0xC9u32 => "Eacute"@,
            0xCAu32 => "Ecircumflex"@,
            0xCBu32 => "Edieresis"@,
            0xCCu32 => "Igrave"@,
            0xCDu32 => "Iacute"@,
            0xCEu32 => "Icircumflex"@,
            0xCFu32 => "Idieresis"@,
            0xD0u32 => "Eth"@,
            0xD1u32 => "Ntilde"@,
            0xD2u32 => "Ograve"@,
            0xD3u32 => "Oacute"@,
            0xD4u32 => "Ocircumflex"@,
            0xD5u32 => "Otilde"@,
            0xD6u32 => "Odieresis"@,
            0xD7u32 => "multiply"@,
            0xD8u32 => "Oslash"@,
            0xD9u32 => "Ugrave"@,
            0xDAu32 => "Uacute"@,
            0xDBu32 => "Ucircumflex"@,
            0xDCu32 => "Udieresis"@,
            0xDDu32 => "Yacute"@,
            0xDEu32 => "Thorn"@,
            0xDFu32 => "germandbls"@,
            0xE0u32 => "agrave"@,
            0xE1u32 => "aacute"@,
            0xE2u32 => "acircumflex"@,
            0xE3u32 => "atilde"@,
            0xE4u32 => "adieresis"@,
            0xE5u32 => "aring"@,
            0xE6u32 => "ae"@,
            0xE7u32 => "ccedilla"@,
            0xE8u32 => "egrave"@,
            0xE9u32 => "eacute"@,
            0xEAu32 => "ecircumflex"@,
            0xEBu32 => "edieresis"@,
            0xECu32 => "igrave"@,
            0xEDu32 => "iacute"@,
            0xEEu32 => "icircumflex"@,
            0xEFu32 => "idieresis"@,
            0xF0u32 => "eth"@,
            0xF1u32 => "ntilde"@,
            0xF2u32 => "ograve"@,
            0xF3u32 => "oacute"@,
            0xF4u32 => "ocircumflex"@,
            0xF5u32 => "otilde"@,
            0xF6u32 => "odieresis"@,
            0xF7u32 => "divide"@,
            0xF8u32 => "oslash"@,
            0xF9u32 => "ugrave"@,
            0xFAu32 => "uacute"@,
            0xFBu32 => "ucircumflex"@,
            0xFCu32 => "udieresis"@,
            0xFDu32 => "yacute"@,
            0xFEu32 => "thorn"@,
            0xFFu32 => "ydieresis"@,
            0x131u32 => "dotlessi"@,
            0x141u32 => "Lslash"@,
            0x142u32 => "lslash"@,
            0x152u32 => "OE"@,
            0x153u32 => "oe"@,
            0x160u32 => "Scaron"@,
            0x161u32 => "scaron"@,
            0x178u32 => "Ydieresis"@,
            0x17Du32 => "Zcaron"@,
            0x17Eu32 => "zcaron"@,
            0x192u32 => "florin"@,
            0x2C6u32 => "circumflex"@,
            0x2C7u32 => "caron"@,
            0x2D8u32 => "breve"@,
            0x2D9u32 => "dotaccent"@,
            0x2DAu32 => "ring"@,
            0x2DBu32 => "ogonek"@,
            0x2DCu32 => "tilde"@,
            0x2DDu32 => "hungarumlaut"@,
            0x2013u32 => "endash"@,
            0x2014u32 => "emdash"@,
            0x2018u32 => "quoteleft"@,
            0x2019u32 => "quoteright"@,
            0x201Au32 => "quotesinglbase"@,
            0x201Cu32 => "quotedblleft"@,
            0x201Du32 => "quotedblright"@,
            0x201Eu32 => "quotedblbase"@,
            0x2020u32 => "dagger"@,
            0x2021u32 => "daggerdbl"@,
            0x2022u32 => "bullet"@,
            0x2026u32 => "ellipsis"@,
            0x2030u32 => "perthousand"@,
            0x2039u32 => "guilsinglleft"@,
            0x203Au32 => "guilsinglright"@,
            0x2044u32 => "fraction"@,
            0x20ACu32 => "Euro"@,
            0x2122u32 => "trademark"@,
            0x2212u32 => "minus"@,
            0xFB01u32 => "fi"@,
            0xFB02u32 => "fl"@,
            _ => ""@,
        }
    }
}

/// The standalone accent glyphs in the order Latin-1 lays out accented vowels:
/// grave, acute, circumflex, tilde, dieresis, ring.
pub open spec fn latin1_accent(k: int) -> u32 {
    if k == 0 {
        0x60
    } else if k == 1 {
        0xB4
    } else if k == 2 {
        0x2C6
    } else if k == 3 {
        0x2DC
    } else if k == 4 {
        0xA8
    } else {
        0x2DA
    }
}

/// The `j`-th accent of a vowel that has no tilde form (E, I, U).
pub open spec fn accent_without_tilde(j: int) -> int {
    if j < 3 {
        j
    } else {
        j + 1
    }
}

/// The glyph name of `code` is that of its base `letter` followed by that of
/// its `accent`'s own glyph.
pub open spec fn named_as_accented(code: u32, letter: u32, accent: u32) -> bool {
    glyph_name_spec(code) == glyph_name_spec(letter) + glyph_name_spec(accent)
}

/// Latin-1 lays out the accented forms of each vowel in accent order (grave,
/// acute, circumflex, tilde, dieresis, ring for A; no tilde for E, I and U),
/// each small letter 0x20 above its capital, and each is named by its letter
/// followed by its accent's glyph name: U+00E8 is "egrave", U+00E9 "eacute".
pub proof fn lemma_accented_vowel_names(j: int)
    ensures
        0 <= j < 6 ==> named_as_accented((0xC0 + j) as u32, 0x41, latin1_accent(j))
            && named_as_accented((0xE0 + j) as u32, 0x61, latin1_accent(j)),
        0 <= j < 5 ==> named_as_accented((0xD2 + j) as u32, 0x4F, latin1_accent(j))
            && named_as_accented((0xF2 + j) as u32, 0x6F, latin1_accent(j)),
        0 <= j < 4 ==> named_as_accented(
            (0xC8 + j) as u32,
            0x45,
            latin1_accent(accent_without_tilde(j)),
        ) && named_as_accented((0xE8 + j) as u32, 0x65, latin1_accent(accent_without_tilde(j)))
            && named_as_accented((0xCC + j) as u32, 0x49, latin1_accent(accent_without_tilde(j)))
            && named_as_accented((0xEC + j) as u32, 0x69, latin1_accent(accent_without_tilde(j)))
            && named_as_accented((0xD9 + j) as u32, 0x55, latin1_accent(accent_without_tilde(j)))
            && named_as_accented((0xF9 + j) as u32, 0x75, latin1_accent(accent_without_tilde(j))),
{
    if j == 0 {
        reveal_strlit("Agrave");
        reveal_strlit("Egrave");
        reveal_strlit("Igrave");
        reveal_strlit("Ograve");
        reveal_strlit("Ugrave");
        reveal_strlit("agrave");
        reveal_strlit("egrave");
        reveal_strlit("grave");
        reveal_strlit("igrave");
        reveal_strlit("ograve");
        reveal_strlit("ugrave");
        assert(glyph_name_spec(0xC0u32) =~= glyph_name_spec(0x41u32) + glyph_name_spec(0x60u32));
        assert(glyph_name_spec(0xE0u32) =~= glyph_name_spec(0x61u32) + glyph_name_spec(0x60u32));
        assert(glyph_name_spec(0xC8u32) =~= glyph_name_spec(0x45u32) + glyph_name_spec(0x60u32));
        assert(glyph_name_spec(0xE8u32) =~= glyph_name_spec(0x65u32) + glyph_name_spec(0x60u32));
        assert(glyph_name_spec(0xCCu32) =~= glyph_name_spec(0x49u32) + glyph_name_spec(0x60u32));
        assert(glyph_name_spec(0xECu32) =~= glyph_name_spec(0x69u32) + glyph_name_spec(0x60u32));
        assert(glyph_name_spec(0xD2u32) =~= glyph_name_spec(0x4Fu32) + glyph_name_spec(0x60u32));
        assert(glyph_name_spec(0xF2u32) =~= glyph_name_spec(0x6Fu32) + glyph_name_spec(0x60u32));
        assert(glyph_name_spec(0xD9u32) =~= glyph_name_spec(0x55u32) + glyph_name_spec(0x60u32));
        assert(glyph_name_spec(0xF9u32) =~= glyph_name_spec(0x75u32) + glyph_name_spec(0x60u32));
    } else if j == 1 {
        reveal_strlit("Aacute");
        reveal_strlit("Eacute");
        reveal_strlit("Iacute");
        reveal_strlit("Oacute");
        reveal_strlit("Uacute");
        reveal_strlit("aacute");
        reveal_strlit("acute");
        reveal_strlit("eacute");
        reveal_strlit("iacute");
        reveal_strlit("oacute");
        reveal_strlit("uacute");
        assert(glyph_name_spec(0xC1u32) =~= glyph_name_spec(0x41u32) + glyph_name_spec(0xB4u32));
        assert(glyph_name_spec(0xE1u32) =~= glyph_name_spec(0x61u32) + glyph_name_spec(0xB4u32));
        assert(glyph_name_spec(0xC9u32) =~= glyph_name_spec(0x45u32) + glyph_name_spec(0xB4u32));
        assert(glyph_name_spec(0xE9u32) =~= glyph_name_spec(0x65u32) + glyph_name_spec(0xB4u32));
        assert(glyph_name_spec(0xCDu32) =~= glyph_name_spec(0x49u32) + glyph_name_spec(0xB4u32));
        assert(glyph_name_spec(0xEDu32) =~= glyph_name_spec(0x69u32) + glyph_name_spec(0xB4u32));
        assert(glyph_name_spec(0xD3u32) =~= glyph_name_spec(0x4Fu32) + glyph_name_spec(0xB4u32));
        assert(glyph_name_spec(0xF3u32) =~= glyph_name_spec(0x6Fu32) + glyph_name_spec(0xB4u32));
        assert(glyph_name_spec(0xDAu32) =~= glyph_name_spec(0x55u32) + glyph_name_spec(0xB4u32));
        assert(glyph_name_spec(0xFAu32) =~= glyph_name_spec(0x75u32) + glyph_name_spec(0xB4u32));
    } else if j == 2 {
        reveal_strlit("Acircumflex");
        reveal_strlit("Ecircumflex");
        reveal_strlit("Icircumflex");
        reveal_strlit("Ocircumflex");
        reveal_strlit("Ucircumflex");
        reveal_strlit("acircumflex");
        reveal_strlit("circumflex");
        reveal_strlit("ecircumflex");
        reveal_strlit("icircumflex");
        reveal_strlit("ocircumflex");
        reveal_strlit("ucircumflex");
        assert(glyph_name_spec(0xC2u32) =~= glyph_name_spec(0x41u32) + glyph_name_spec(0x2C6u32));
        assert(glyph_name_spec(0xE2u32) =~= glyph_name_spec(0x61u32) + glyph_name_spec(0x2C6u32));
        assert(glyph_name_spec(0xCAu32) =~= glyph_name_spec(0x45u32) + glyph_name_spec(0x2C6u32));
        assert(glyph_name_spec(0xEAu32) =~= glyph_name_spec(0x65u32) + glyph_name_spec(0x2C6u32));
        assert(glyph_name_spec(0xCEu32) =~= glyph_name_spec(0x49u32) + glyph_name_spec(0x2C6u32));
        assert(glyph_name_spec(0xEEu32) =~= glyph_name_spec(0x69u32) + glyph_name_spec(0x2C6u32));
        assert(glyph_name_spec(0xD4u32) =~= glyph_name_spec(0x4Fu32) + glyph_name_spec(0x2C6u32));
        assert(glyph_name_spec(0xF4u32) =~= glyph_name_spec(0x6Fu32) + glyph_name_spec(0x2C6u32));
        assert(glyph_name_spec(0xDBu32) =~= glyph_name_spec(0x55u32) + glyph_name_spec(0x2C6u32));
        assert(glyph_name_spec(0xFBu32) =~= glyph_name_spec(0x75u32) + glyph_name_spec(0x2C6u32));
    } else if j == 3 {
        reveal_strlit("Atilde");
        reveal_strlit("Edieresis");
        reveal_strlit("Idieresis");
        reveal_strlit("Otilde");
        reveal_strlit("Udieresis");
        reveal_strlit("atilde");
        reveal_strlit("dieresis");
        reveal_strlit("edieresis");
        reveal_strlit("idieresis");
        reveal_strlit("otilde");
        reveal_strlit("tilde");
        reveal_strlit("udieresis");
        assert(glyph_name_spec(0xC3u32) =~= glyph_name_spec(0x41u32) + glyph_name_spec(0x2DCu32));
        assert(glyph_name_spec(0xE3u32) =~= glyph_name_spec(0x61u32) + glyph_name_spec(0x2DCu32));
        assert(glyph_name_spec(0xCBu32) =~= glyph_name_spec(0x45u32) + glyph_name_spec(0xA8u32));
        assert(glyph_name_spec(0xEBu32) =~= glyph_name_spec(0x65u32) + glyph_name_spec(0xA8u32));
        assert(glyph_name_spec(0xCFu32) =~= glyph_name_spec(0x49u32) + glyph_name_spec(0xA8u32));
        assert(glyph_name_spec(0xEFu32) =~= glyph_name_spec(0x69u32) + glyph_name_spec(0xA8u32));
        assert(glyph_name_spec(0xD5u32) =~= glyph_name_spec(0x4Fu32) + glyph_name_spec(0x2DCu32));
        assert(glyph_name_spec(0xF5u32) =~= glyph_name_spec(0x6Fu32) + glyph_name_spec(0x2DCu32));
        assert(glyph_name_spec(0xDCu32) =~= glyph_name_spec(0x55u32) + glyph_name_spec(0xA8u32));
        assert(glyph_name_spec(0xFCu32) =~= glyph_name_spec(0x75u32) + glyph_name_spec(0xA8u32));
    } else if j == 4 {
        reveal_strlit("Adieresis");
        reveal_strlit("Odieresis");
        reveal_strlit("adieresis");
        reveal_strlit("dieresis");
        reveal_strlit("odieresis");
        assert(glyph_name_spec(0xC4u32) =~= glyph_name_spec(0x41u32) + glyph_name_spec(0xA8u32));
        assert(glyph_name_spec(0xE4u32) =~= glyph_name_spec(0x61u32) + glyph_name_spec(0xA8u32));
        assert(glyph_name_spec(0xD6u32) =~= glyph_name_spec(0x4Fu32) + glyph_name_spec(0xA8u32));
        assert(glyph_name_spec(0xF6u32) =~= glyph_name_spec(0x6Fu32) + glyph_name_spec(0xA8u32));
    } else if j == 5 {
        reveal_strlit("Aring");
        reveal_strlit("aring");
        reveal_strlit("ring");
        assert(glyph_name_spec(0xC5u32) =~= glyph_name_spec(0x41u32) + glyph_name_spec(0x2DAu32));
        assert(glyph_name_spec(0xE5u32) =~= glyph_name_spec(0x61u32) + glyph_name_spec(0x2DAu32));
    }
}


/// A Latin-1 capital (U+00C0 to U+00DE, but the multiplication sign U+00D7)
/// and its small letter 0x20 above have the same glyph name but for the case
/// of its ASCII letters.
pub proof fn lemma_latin1_case_pairs(c: u32)
    requires
        0xC0 <= c <= 0xDE,
        c != 0xD7,
    ensures
        glyph_name_spec((c + 0x20) as u32) == lower_spec(glyph_name_spec(c)),
{
    if c == 0xC0 {
        reveal_strlit("Agrave");
        reveal_strlit("agrave");
        assert(glyph_name_spec(0xE0u32) =~= lower_spec(glyph_name_spec(0xC0u32)));
    } else if c == 0xC1 {
        reveal_strlit("Aacute");
        reveal_strlit("aacute");
        assert(glyph_name_spec(0xE1u32) =~= lower_spec(glyph_name_spec(0xC1u32)));
    } else if c == 0xC2 {
        reveal_strlit("Acircumflex");
        reveal_strlit("acircumflex");
        assert(glyph_name_spec(0xE2u32) =~= lower_spec(glyph_name_spec(0xC2u32)));
    } else if c == 0xC3 {
        reveal_strlit("Atilde");
        reveal_strlit("atilde");
        assert(glyph_name_spec(0xE3u32) =~= lower_spec(glyph_name_spec(0xC3u32)));
    } else if c == 0xC4 {
        reveal_strlit("Adieresis");
        reveal_strlit("adieresis");
        assert(glyph_name_spec(0xE4u32) =~= lower_spec(glyph_name_spec(0xC4u32)));
    } else if c == 0xC5 {
        reveal_strlit("Aring");
        reveal_strlit("aring");
        assert(glyph_name_spec(0xE5u32) =~= lower_spec(glyph_name_spec(0xC5u32)));
    } else if c == 0xC6 {
        reveal_strlit("AE");
        reveal_strlit("ae");
        assert(glyph_name_spec(0xE6u32) =~= lower_spec(glyph_name_spec(0xC6u32)));
    } else if c == 0xC7 {
        reveal_strlit("Ccedilla");
        reveal_strlit("ccedilla");
        assert(glyph_name_spec(0xE7u32) =~= lower_spec(glyph_name_spec(0xC7u32)));
    } else if c == 0xC8 {
        reveal_strlit("Egrave");
        reveal_strlit("egrave");
        assert(glyph_name_spec(0xE8u32) =~= lower_spec(glyph_name_spec(0xC8u32)));
    } else if c == 0xC9 {
        reveal_strlit("Eacute");
        reveal_strlit("eacute");
        assert(glyph_name_spec(0xE9u32) =~= lower_spec(glyph_name_spec(0xC9u32)));
    } else if c == 0xCA {
        reveal_strlit("Ecircumflex");
        reveal_strlit("ecircumflex");
        assert(glyph_name_spec(0xEAu32) =~= lower_spec(glyph_name_spec(0xCAu32)));
    } else if c == 0xCB {
        reveal_strlit("Edieresis");
        reveal_strlit("edieresis");
        assert(glyph_name_spec(0xEBu32) =~= lower_spec(glyph_name_spec(0xCBu32)));
    } else if c == 0xCC {
        reveal_strlit("Igrave");
        reveal_strlit("igrave");
        assert(glyph_name_spec(0xECu32) =~= lower_spec(glyph_name_spec(0xCCu32)));
    } else if c == 0xCD {
        reveal_strlit("Iacute");
        reveal_strlit("iacute");
        assert(glyph_name_spec(0xEDu32) =~= lower_spec(glyph_name_spec(0xCDu32)));
    } else if c == 0xCE {
        reveal_strlit("Icircumflex");
        reveal_strlit("icircumflex");
        assert(glyph_name_spec(0xEEu32) =~= lower_spec(glyph_name_spec(0xCEu32)));
    } else if c == 0xCF {
        reveal_strlit("Idieresis");
        reveal_strlit("idieresis");
        assert(glyph_name_spec(0xEFu32) =~= lower_spec(glyph_name_spec(0xCFu32)));
    } else if c == 0xD0 {
        reveal_strlit("Eth");
        reveal_strlit("eth");
        assert(glyph_name_spec(0xF0u32) =~= lower_spec(glyph_name_spec(0xD0u32)));
    } else if c == 0xD1 {
        reveal_strlit("Ntilde");
        reveal_strlit("ntilde");
        assert(glyph_name_spec(0xF1u32) =~= lower_spec(glyph_name_spec(0xD1u32)));
    } else if c == 0xD2 {
        reveal_strlit("Ograve");
        reveal_strlit("ograve");
        assert(glyph_name_spec(0xF2u32) =~= lower_spec(glyph_name_spec(0xD2u32)));
    } else if c == 0xD3 {
        reveal_strlit("Oacute");
        reveal_strlit("oacute");
        assert(glyph_name_spec(0xF3u32) =~= lower_spec(glyph_name_spec(0xD3u32)));
    } else if c == 0xD4 {
        reveal_strlit("Ocircumflex");
        reveal_strlit("ocircumflex");
        assert(glyph_name_spec(0xF4u32) =~= lower_spec(glyph_name_spec(0xD4u32)));
    } else if c == 0xD5 {
        reveal_strlit("Otilde");
        reveal_strlit("otilde");
        assert(glyph_name_spec(0xF5u32) =~= lower_spec(glyph_name_spec(0xD5u32)));
    } else if c == 0xD6 {
        reveal_strlit("Odieresis");
        reveal_strlit("odieresis");
        assert(glyph_name_spec(0xF6u32) =~= lower_spec(glyph_name_spec(0xD6u32)));
    } else if c == 0xD8 {
        reveal_strlit("Oslash");
        reveal_strlit("oslash");
        assert(glyph_name_spec(0xF8u32) =~= lower_spec(glyph_name_spec(0xD8u32)));
    } else if c == 0xD9 {
        reveal_strlit("Ugrave");
        reveal_strlit("ugrave");
        assert(glyph_name_spec(0xF9u32) =~= lower_spec(glyph_name_spec(0xD9u32)));
    } else if c == 0xDA {
        reveal_strlit("Uacute");
        reveal_strlit("uacute");
        assert(glyph_name_spec(0xFAu32) =~= lower_spec(glyph_name_spec(0xDAu32)));
    } else if c == 0xDB {
        reveal_strlit("Ucircumflex");
        reveal_strlit("ucircumflex");
        assert(glyph_name_spec(0xFBu32) =~= lower_spec(glyph_name_spec(0xDBu32)));
    } else if c == 0xDC {
        reveal_strlit("Udieresis");
        reveal_strlit("udieresis");
        assert(glyph_name_spec(0xFCu32) =~= lower_spec(glyph_name_spec(0xDCu32)));
    } else if c == 0xDD {
        reveal_strlit("Yacute");
        reveal_strlit("yacute");
        assert(glyph_name_spec(0xFDu32) =~= lower_spec(glyph_name_spec(0xDDu32)));
    } else if c == 0xDE {
        reveal_strlit("Thorn");
        reveal_strlit("thorn");
        assert(glyph_name_spec(0xFEu32) =~= lower_spec(glyph_name_spec(0xDEu32)));
    }
}

/// In Latin Extended-A the listed capitals (Lslash, OE, Scaron, Zcaron) stand
/// just below their small letters, which have the same glyph names but for
/// the case of their ASCII letters.
pub proof fn lemma_latin_extended_case_pairs(c: u32)
    requires
        c == 0x141 || c == 0x152 || c == 0x160 || c == 0x17D,
    ensures
        glyph_name_spec((c + 1) as u32) == lower_spec(glyph_name_spec(c)),
{
    if c == 0x141 {
        reveal_strlit("Lslash");
        reveal_strlit("lslash");
        assert(glyph_name_spec(0x142u32) =~= lower_spec(glyph_name_spec(0x141u32)));
    } else if c == 0x152 {
        reveal_strlit("OE");
        reveal_strlit("oe");
        assert(glyph_name_spec(0x153u32) =~= lower_spec(glyph_name_spec(0x152u32)));
    } else if c == 0x160 {
        reveal_strlit("Scaron");
        reveal_strlit("scaron");
        assert(glyph_name_spec(0x161u32) =~= lower_spec(glyph_name_spec(0x160u32)));
    } else if c == 0x17D {
        reveal_strlit("Zcaron");
        reveal_strlit("zcaron");
        assert(glyph_name_spec(0x17Eu32) =~= lower_spec(glyph_name_spec(0x17Du32)));
    }
}

/// The glyph name of a code point of the list.
fn glyph_name(code: u32) -> (n: Vec<char>)
    ensures
        n@ == glyph_name_spec(code),
{
    if (0x41 <= code && code <= 0x5A) || (0x61 <= code && code <= 0x7A) {
        let mut v: Vec<char> = Vec::new();
        v.push((code as u8) as char);
        assert(v@ =~= seq![code as char]);
        return v;
    }
    let s: &str = match code {
        0x20u32 => "space",
        0x21u32 => "exclam",
        0x22u32 => "quotedbl",
        0x23u32 => "numbersign",
        0x24u32 => "dollar",
        0x25u32 => "percent",
        0x26u32 => "ampersand",
        0x27u32 => "quotesingle",
        0x28u32 => "parenleft",
        0x29u32 => "parenright",
        0x2Au32 => "asterisk",
        0x2Bu32 => "plus",
        0x2Cu32 => "comma",
        0x2Du32 => "hyphen",
        0x2Eu32 => "period",
        0x2Fu32 => "slash",
        0x30u32 => "zero",
        0x31u32 => "one",
        0x32u32 => "two",
        0x33u32 => "three",
        0x34u32 => "four",
        0x35u32 => "five",
        0x36u32 => "six",
        0x37u32 => "seven",
        0x38u32 => "eight",
        0x39u32 => "nine",
        0x3Au32 => "colon",
        0x3Bu32 => "semicolon",
        0x3Cu32 => "less",
        0x3Du32 => "equal",
        0x3Eu32 => "greater",
        0x3Fu32 => "question",
        0x40u32 => "at",
        0x5Bu32 => "bracketleft",
        0x5Cu32 => "backslash",
        0x5Du32 => "bracketright",
        0x5Eu32 => "asciicircum",
        0x5Fu32 => "underscore",
        0x60u32 => "grave",
        0x7Bu32 => "braceleft",
        0x7Cu32 => "bar",
        0x7Du32 => "braceright",
        0x7Eu32 => "asciitilde",
        0xA1u32 => "exclamdown",
        0xA2u32 => "cent",
        0xA3u32 => "sterling",
        0xA4u32 => "currency",
        0xA5u32 => "yen",
        0xA6u32 => "brokenbar",
        0xA7u32 => "section",
        0xA8u32 => "dieresis",
        0xA9u32 => "copyright",
        0xAAu32 => "ordfeminine",
        0xABu32 => "guillemotleft",
        0xACu32 => "logicalnot",
        0xAEu32 => "registered",
        0xAFu32 => "macron",
        0xB0u32 => "degree",
        0xB1u32 => "plusminus",
        0xB2u32 => "twosuperior",
        0xB3u32 => "threesuperior",
        0xB4u32 => "acute",
        0xB6u32 => "paragraph",
        0xB7u32 => "periodcentered",
        0xB8u32 => "cedilla",
        0xB9u32 => "onesuperior",
        0xBAu32 => "ordmasculine",
        0xBBu32 => "guillemotright",
        0xBCu32 => "onequarter",
        0xBDu32 => "onehalf",
        0xBEu32 => "threequarters",
        0xBFu32 => "questiondown",
        0xC0u32 => "Agrave",
        0xC1u32 => "Aacute",
        0xC2u32 => "Acircumflex",
        0xC3u32 => "Atilde",
        0xC4u32 => "Adieresis",
        0xC5u32 => "Aring",
        0xC6u32 => "AE",
        0xC7u32 => "Ccedilla",
        0xC8u32 => "Egrave",
        0xC9u32 => "Eacute",
        0xCAu32 => "Ecircumflex",
        0xCBu32 => "Edieresis",
        0xCCu32 => "Igrave",
        0xCDu32 => "Iacute",
        0xCEu32 => "Icircumflex",
        0xCFu32 => "Idieresis",
        0xD0u32 => "Eth",
        0xD1u32 => "Ntilde",
        0xD2u32 => "Ograve",
        0xD3u32 => "Oacute",
        0xD4u32 => "Ocircumflex",
        0xD5u32 => "Otilde",
        0xD6u32 => "Odieresis",
        0xD7u32 => "multiply",
        0xD8u32 => "Oslash",
        0xD9u32 => "Ugrave",
        0xDAu32 => "Uacute",
        0xDBu32 => "Ucircumflex",
        0xDCu32 => "Udieresis",
        0xDDu32 => "Yacute",
        0xDEu32 => "Thorn",
        0xDFu32 => "germandbls",
        0xE0u32 => "agrave",
        0xE1u32 => "aacute",
        0xE2u32 => "acircumflex",
        0xE3u32 => "atilde",
        0xE4u32 => "adieresis",
        0xE5u32 => "aring",
        0xE6u32 => "ae",
        0xE7u32 => "ccedilla",
        0xE8u32 => "egrave",
        0xE9u32 => "eacute",
        0xEAu32 => "ecircumflex",
        0xEBu32 => "edieresis",
        0xECu32 => "igrave",
        0xEDu32 => "iacute",
        0xEEu32 => "icircumflex",
        0xEFu32 => "idieresis",
        0xF0u32 => "eth",
        0xF1u32 => "ntilde",
        0xF2u32 => "ograve",
        0xF3u32 => "oacute",
        0xF4u32 => "ocircumflex",
        0xF5u32 => "otilde",
        0xF6u32 => "odieresis",
        0xF7u32 => "divide",
        0xF8u32 => "oslash",
        0xF9u32 => "ugrave",
        0xFAu32 => "uacute",
        0xFBu32 => "ucircumflex",
        0xFCu32 => "udieresis",
        0xFDu32 => "yacute",
        0xFEu32 => "thorn",
        0xFFu32 => "ydieresis",
        0x131u32 => "dotlessi",
        0x141u32 => "Lslash",
        0x142u32 => "lslash",
        0x152u32 => "OE",
        0x153u32 => "oe",
        0x160u32 => "Scaron",
        0x161u32 => "scaron",
        0x178u32 => "Ydieresis",
        0x17Du32 => "Zcaron",
        0x17Eu32 => "zcaron",
        0x192u32 => "florin",
        0x2C6u32 => "circumflex",
        0x2C7u32 => "caron",
        0x2D8u32 => "breve",
        0x2D9u32 => "dotaccent",
        0x2DAu32 => "ring",
        0x2DBu32 => "ogonek",
        0x2DCu32 => "tilde",
        0x2DDu32 => "hungarumlaut",
        0x2013u32 => "endash",
        0x2014u32 => "emdash",
        0x2018u32 => "quoteleft",
        0x2019u32 => "quoteright",
        0x201Au32 => "quotesinglbase",
        0x201Cu32 => "quotedblleft",
        0x201Du32 => "quotedblright",
        0x201Eu32 => "quotedblbase",
        0x2020u32 => "dagger",
        0x2021u32 => "daggerdbl",
        0x2022u32 => "bullet",
        0x2026u32 => "ellipsis",
        0x2030u32 => "perthousand",
        0x2039u32 => "guilsinglleft",
        0x203Au32 => "guilsinglright",
        0x2044u32 => "fraction",
        0x20ACu32 => "Euro",
        0x2122u32 => "trademark",
        0x2212u32 => "minus",
        0xFB01u32 => "fi",
        0xFB02u32 => "fl",
        _ => "",
    };
    chars_of(s)
}

/// The character whose glyph name is `name`, searching the list from its
/// `i`-th glyph on.
pub open spec fn glyph_list_from(name: Seq<char>, i: int) -> Option<char>
    decreases GLYPH_COUNT - i,
{
    if i < 0 || i >= GLYPH_COUNT {
        None
    } else if glyph_name_spec(glyph_code(i as usize)) == name {
        Some(glyph_code(i as usize) as char)
    } else {
        glyph_list_from(name, i + 1)
    }
}

/// The character named `name` in the glyph list, if any.
pub open spec fn glyph_list(name: Seq<char>) -> Option<char> {
    glyph_list_from(name, 0)
}

fn glyph_list_lookup(name: &[char]) -> (r: Option<char>)
    ensures
        r == glyph_list(name@),
{
    let mut i: usize = 0;
    while i < GLYPH_COUNT
        invariant
            i <= GLYPH_COUNT,
            glyph_list_from(name@, i as int) == glyph_list(name@),
        decreases GLYPH_COUNT - i,
    {
        let code = glyph_code_exec(i);
        let n = glyph_name(code);
        if chars_equal(n.as_slice(), name) {
            let c = char_from_u32(code);
            assert(c is Some) by {
                assert(code == glyph_code(i));
            }
            return c;
        }
        i = i + 1;
    }
    None
}

/// The index of the first `sep` in `s`, or its length.
pub open spec fn first_index(s: Seq<char>, sep: char) -> int
    decreases s.len(),
{
    if s.len() == 0 {
        0
    } else if s[0] == sep {
        0
    } else {
        1 + first_index(s.drop_first(), sep)
    }
}

proof fn lemma_first_index(s: Seq<char>, sep: char, p: int)
    requires
        0 <= p <= s.len(),
        forall|i: int| 0 <= i < p ==> s[i] != sep,
        p < s.len() ==> s[p] == sep,
    ensures
        first_index(s, sep) == p,
    decreases s.len(),
{
    if s.len() > 0 && p > 0 {
        assert forall|i: int| 0 <= i < p - 1 implies s.drop_first()[i] != sep by {
            assert(s.drop_first()[i] == s[i + 1]);
        }
        lemma_first_index(s.drop_first(), sep, p - 1);
    }
}

/// Where `sep` first occurs in `s` (its length when it does not).
fn find_char(s: &Vec<char>, sep: char) -> (p: usize)
    ensures
        p == first_index(s@, sep),
        p <= s@.len(),
{
    let mut i: usize = 0;
    while i < s.len() && s[i] != sep
        invariant
            i <= s@.len(),
            forall|j: int| 0 <= j < i ==> s@[j] != sep,
        decreases s@.len() - i,
    {
        i = i + 1;
    }
    proof {
        lemma_first_index(s@, sep, i as int);
    }
    i
}

/// The value of a hexadecimal digit.
pub open spec fn hex_digit(c: char) -> Option<int> {
    if '0' <= c <= '9' {
        Some(c as int - '0' as int)
    } else if 'a' <= c <= 'f' {
        Some(c as int - 'a' as int + 10)
    } else if 'A' <= c <= 'F' {
        Some(c as int - 'A' as int + 10)
    } else {
        None
    }
}

pub open spec fn all_hex(s: Seq<char>) -> bool {
    forall|i: int| 0 <= i < s.len() ==> #[trigger] hex_digit(s[i]) is Some
}

/// The value of a run of hexadecimal digits.
pub open spec fn hex_value(s: Seq<char>) -> int
    decreases s.len(),
{
    if s.len() == 0 {
        0
    } else {
        16 * hex_value(s.drop_last()) + hex_digit(s.last())->0
    }
}

/// The digits of a number: `s` without one leading `+`.
pub open spec fn unsigned_digits(s: Seq<char>) -> Seq<char> {
    if s.len() > 0 && s[0] == '+' {
        s.drop_first()
    } else {
        s
    }
}

/// `s` read as a base-16 `u32` the way `u32::from_str_radix` reads it: an
/// optional `+`, then at least one hexadecimal digit, the value fitting.
pub open spec fn parse_hex_u32(s: Seq<char>) -> Option<u32> {
    let d = unsigned_digits(s);
    if d.len() > 0 && all_hex(d) && hex_value(d) <= u32::MAX {
        Some(hex_value(d) as u32)
    } else {
        None
    }
}

/// The character whose code point `s` spells in hexadecimal.
pub open spec fn hex_char(s: Seq<char>) -> Option<char> {
    match parse_hex_u32(s) {
        Some(v) => if is_scalar_value(v as int) {
            Some(v as char)
        } else {
            None
        },
        None => None,
    }
}

proof fn lemma_hex_value_prefix(d: Seq<char>, j: int)
    requires
        all_hex(d),
        0 <= j <= d.len(),
    ensures
        0 <= hex_value(d.take(j)) <= hex_value(d),
    decreases d.len(),
{
    if j < d.len() {
        let e = d.drop_last();
        assert(all_hex(e)) by {
            assert forall|i: int| 0 <= i < e.len() implies #[trigger] hex_digit(e[i]) is Some by {
                assert(e[i] == d[i]);
                assert(hex_digit(d[i]) is Some);
            }
        }
        lemma_hex_value_prefix(e, j);
        assert(e.take(j) =~= d.take(j));
        assert(hex_digit(d[d.len() - 1]) is Some);
        lemma_hex_value_prefix(e, e.len() as int);
        assert(e.take(e.len() as int) =~= e);
    } else {
        assert(d.take(j) =~= d);
        if d.len() > 0 {
            let e = d.drop_last();
            assert(all_hex(e)) by {
                assert forall|i: int| 0 <= i < e.len() implies #[trigger] hex_digit(e[i]) is Some by {
                    assert(e[i] == d[i]);
                    assert(hex_digit(d[i]) is Some);
                }
            }
            lemma_hex_value_prefix(e, e.len() as int);
            assert(e.take(e.len() as int) =~= e);
            assert(hex_digit(d[d.len() - 1]) is Some);
        }
    }
}

fn hex_digit_exec(c: char) -> (r: Option<u32>)
    ensures
        match hex_digit(c) {
            Some(v) => r == Some(v as u32) && 0 <= v < 16,
            None => r is None,
        },
{
    if '0' <= c && c <= '9' {
        Some((c as u32) - ('0' as u32))
    } else if 'a' <= c && c <= 'f' {
        Some((c as u32) - ('a' as u32) + 10)
    } else if 'A' <= c && c <= 'F' {
        Some((c as u32) - ('A' as u32) + 10)
    } else {
        None
    }
}

/// `u32::from_str_radix(s, 16)` on the characters `s`.
fn parse_hex(s: &[char]) -> (r: Option<u32>)
    ensures
        r == parse_hex_u32(s@),
{
    let start: usize = if s.len() > 0 && s[0] == '+' {
        1
    } else {
        0
    };
    let ghost d = unsigned_digits(s@);
    assert(d =~= s@.skip(start as int));
    if start >= s.len() {
        return None;
    }
    let mut acc: u64 = 0;
    let mut i: usize = start;
    assert(d.take(0) =~= Seq::<char>::empty());
    while i < s.len()
        invariant
            start <= i <= s@.len(),
            d == s@.skip(start as int),
            d == unsigned_digits(s@),
            d.len() > 0,
            acc == hex_value(d.take(i - start)),
            acc <= u32::MAX,
            all_hex(d.take(i - start)),
        decreases s@.len() - i,
    {
        let k: Ghost<int> = Ghost(i - start);
        assert(d[k@] == s@[i as int]);
        assert(d.take(k@ + 1).drop_last() =~= d.take(k@));
        match hex_digit_exec(s[i]) {
            None => {
                assert(hex_digit(d[k@]) is None);
                return None;
            },
            Some(v) => {
                let next: u64 = acc * 16 + (v as u64);
                assert(all_hex(d.take(k@ + 1))) by {
                    assert forall|j: int| 0 <= j < k@ + 1 implies #[trigger] hex_digit(d.take(k@ + 1)[j]) is Some by {
                        if j < k@ {
                            assert(d.take(k@ + 1)[j] == d.take(k@)[j]);
                        }
                    }
                }
                assert(d.take(k@ + 1).last() == d[k@]);
                assert(hex_value(d.take(k@ + 1)) == next);
                if next > 0xFFFF_FFFFu64 {
                    proof {
                        if all_hex(d) {
                            lemma_hex_value_prefix(d, k@ + 1);
                        }
                    }
                    return None;
                }
                acc = next;
            },
        }
        i = i + 1;
    }
    assert(d.take(i - start) =~= d);
    Some(acc as u32)
}

/// `hex_char` on the characters `s`.
fn hex_char_exec(s: &[char]) -> (r: Option<char>)
    ensures
        r == hex_char(s@),
{
    match parse_hex(s) {
        Some(v) => {
            char_from_u32(v)
        },
        None => None,
    }
}

/// The characters a `uniXXXX...` suffix spells, four hexadecimal digits per
/// character, for its first `k` groups; `None` if any group fails.
pub open spec fn uni_groups(h: Seq<char>, k: int) -> Option<Seq<char>>
    decreases k,
{
    if k <= 0 {
        Some(Seq::empty())
    } else {
        match uni_groups(h, k - 1) {
            Some(p) => match hex_char(h.subrange(4 * (k - 1), 4 * k)) {
                Some(c) => Some(p.push(c)),
                None => None,
            },
            None => None,
        }
    }
}

pub open spec fn all_ascii(s: Seq<char>) -> bool {
    forall|i: int| 0 <= i < s.len() ==> (#[trigger] s[i] as u32) < 128
}

pub open spec fn notdef() -> Seq<char> {
    seq!['.', 'n', 'o', 't', 'd', 'e', 'f']
}

/// A glyph name resolved to Unicode: the glyph list first, then the
/// `uniXXXX` (groups of four hexadecimal digits) and `uXXXX[XX]` (four to six
/// digits) conventions. A suffix from the first `.` on ("A.sc") is ignored.
pub open spec fn name_to_unicode_spec(name: Seq<char>) -> Option<Seq<char>> {
    let core = name.take(first_index(name, '.'));
    if name.len() == 0 || name == notdef() || core.len() == 0 {
        None
    } else if glyph_list(core) is Some {
        Some(seq![glyph_list(core)->0])
    } else if !all_ascii(core) {
        None
    } else if core.len() > 3 && core.take(3) == seq!['u', 'n', 'i'] && (core.len() - 3) % 4 == 0 {
        uni_groups(core.skip(3), (core.len() - 3) / 4)
    } else if core.len() > 0 && core[0] == 'u' && 4 <= core.len() - 1 <= 6 {
        match hex_char(core.skip(1)) {
            Some(c) => Some(seq![c]),
            None => None,
        }
    } else {
        None
    }
}

fn is_ascii_run(s: &Vec<char>) -> (b: bool)
    ensures
        b == all_ascii(s@),
{
    let mut i: usize = 0;
    while i < s.len()
        invariant
            i <= s@.len(),
            forall|j: int| 0 <= j < i ==> (#[trigger] s@[j] as u32) < 128,
        decreases s@.len() - i,
    {
        if (s[i] as u32) >= 128 {
            return false;
        }
        i = i + 1;
    }
    true
}

/// The characters `s[lo..hi]`.
fn slice_chars(s: &Vec<char>, lo: usize, hi: usize) -> (r: Vec<char>)
    requires
        lo <= hi <= s@.len(),
    ensures
        r@ == s@.subrange(lo as int, hi as int),
{
    let mut r: Vec<char> = Vec::new();
    let mut i: usize = lo;
    while i < hi
        invariant
            lo <= i <= hi <= s@.len(),
            r@ == s@.subrange(lo as int, i as int),
        decreases hi - i,
    {
        r.push(s[i]);
        i = i + 1;
        assert(r@ =~= s@.subrange(lo as int, i as int));
    }
    r
}

/// Resolve a glyph name to a Unicode string: the glyph list, then the
/// `uniXXXX` / `uXXXXXX` algorithmic conventions.
#[verifier::loop_isolation(false)]
pub fn name_to_unicode(name: &str) -> (r: Option<String>)
    ensures
        match name_to_unicode_spec(name@) {
            Some(t) => r matches Some(s) && s@ == t,
            None => r is None,
        },
{
    let chars = chars_of(name);
    let nd: [char; 7] = ['.', 'n', 'o', 't', 'd', 'e', 'f'];
    assert(nd@ =~= notdef());
    if chars.len() == 0 || chars_equal(chars.as_slice(), &nd) {
        return None;
    }
    let dot = find_char(&chars, '.');
    let core = slice_chars(&chars, 0, dot);
    assert(core@ =~= name@.take(first_index(name@, '.')));
    if core.len() == 0 {
        return None;
    }
    if let Some(c) = glyph_list_lookup(core.as_slice()) {
        let mut s = String::new();
        push_char(&mut s, c);
        assert(s@ =~= seq![c]);
        return Some(s);
    }
    if !is_ascii_run(&core) {
        return None;
    }
    let n = core.len();
    if n > 3 && core[0] == 'u' && core[1] == 'n' && core[2] == 'i' && (n - 3) % 4 == 0 {
        assert(core@.take(3) =~= seq!['u', 'n', 'i']);
        let ghost h = core@.skip(3);
        let groups = (n - 3) / 4;
        let mut s = String::new();
        let mut k: usize = 0;
        while k < groups
            invariant
                n == core@.len(),
                n > 3,
                groups == (n - 3) / 4,
                (n - 3) % 4 == 0,
                h == core@.skip(3),
                k <= groups,
                uni_groups(h, k as int) == Some(s@),
            decreases groups - k,
        {
            let lo = 3 + 4 * k;
            let group = slice_chars(&core, lo, lo + 4);
            assert(group@ =~= h.subrange(4 * k, 4 * (k + 1)));
            match hex_char_exec(group.as_slice()) {
                Some(c) => {
                    push_char(&mut s, c);
                },
                None => {
                    assert(hex_char(h.subrange(4 * k, 4 * k + 4)) is None);
                    assert(uni_groups(h, k as int + 1) is None);
                    proof {
                        lemma_uni_groups_fail(h, k as int + 1, groups as int);
                    }
                    return None;
                },
            }
            k = k + 1;
        }
        return Some(s);
    }
    assert(!(core@.len() > 3 && core@.take(3) == seq!['u', 'n', 'i'] && (core@.len() - 3) % 4 == 0))
        by {
        if core@.len() > 3 && core@.take(3) == seq!['u', 'n', 'i'] {
            assert(core@[0] == 'u' && core@[1] == 'n' && core@[2] == 'i');
        }
    }
    if core[0] == 'u' && 4 <= n - 1 && n - 1 <= 6 {
        let hex = slice_chars(&core, 1, n);
        assert(hex@ =~= core@.skip(1));
        match hex_char_exec(hex.as_slice()) {
            Some(c) => {
                let mut s = String::new();
                push_char(&mut s, c);
                assert(s@ =~= seq![c]);
                return Some(s);
            },
            None => {
                return None;
            },
        }
    }
    None
}

/// Once a group fails, every longer run of groups fails.
proof fn lemma_uni_groups_fail(h: Seq<char>, k: int, m: int)
    requires
        1 <= k <= m,
        uni_groups(h, k) is None,
    ensures
        uni_groups(h, m) is None,
    decreases m - k,
{
    if k < m {
        lemma_uni_groups_fail(h, k, m - 1);
    }
}


/// One entry of an encoding's `Differences` array: a code that sets where
/// the following names go, a glyph name, or anything else (skipped).
#[derive(Clone, Debug, PartialEq, Eq)]
pub enum DiffItem {
    Code(i64),
    Name(String),
    Other,
}

/// The next code and the names after the first `k` entries of `diffs`: a
/// code (negative ones count as 0) moves the position; a name replaces the
/// name at the position, below 256, and advances it.
pub open spec fn diff_state(diffs: Seq<DiffItem>, names: Seq<Seq<char>>, k: int) -> (int, Seq<Seq<char>>)
    decreases k,
{
    if k <= 0 {
        (0, names)
    } else {
        let (code, ns) = diff_state(diffs, names, k - 1);
        match diffs[k - 1] {
            DiffItem::Code(n) => (
                if n > 0 {
                    n as int
                } else {
                    0
                },
                ns,
            ),
            DiffItem::Name(g) => if code < 256 {
                (code + 1, ns.update(code, g@))
            } else {
                (code, ns)
            },
            DiffItem::Other => (code, ns),
        }
    }
}

/// The names with the whole `Differences` array applied.
pub open spec fn differences_applied(diffs: Seq<DiffItem>, names: Seq<Seq<char>>) -> Seq<Seq<char>> {
    diff_state(diffs, names, diffs.len() as int).1
}

/// Apply an encoding's `Differences` array to the 256 base-encoding names.
pub fn apply_differences(diffs: &Vec<DiffItem>, names: &mut Vec<String>)
    requires
        old(names)@.len() >= 256,
    ensures
        strings_view(final(names)@) == differences_applied(diffs@, strings_view(old(names)@)),
{
    let ghost start = strings_view(names@);
    let mut code: u64 = 0;
    let mut k: usize = 0;
    while k < diffs.len()
        invariant
            k <= diffs@.len(),
            names@.len() == old(names)@.len(),
            names@.len() >= 256,
            start == strings_view(old(names)@),
            diff_state(diffs@, start, k as int) == (code as int, strings_view(names@)),
        decreases diffs@.len() - k,
    {
        match &diffs[k] {
            DiffItem::Code(n) => {
                code = if *n > 0 {
                    *n as u64
                } else {
                    0
                };
            },
            DiffItem::Name(g) => {
                if code < 256 {
                    let ghost before = names@;
                    names.set(code as usize, g.clone());
                    assert(strings_view(names@) =~= strings_view(before).update(code as int, g@));
                    code = code + 1;
                }
            },
            DiffItem::Other => {},
        }
        k = k + 1;
    }
}

/// A subset tag: six capital ASCII letters.
pub open spec fn is_subset_tag(t: Seq<char>) -> bool {
    t.len() == 6 && forall|i: int| 0 <= i < 6 ==> 'A' <= #[trigger] t[i] <= 'Z'
}

/// The name without a subset prefix ("ABCDEF+Helvetica" is "Helvetica").
pub open spec fn strip_subset(base: Seq<char>) -> Seq<char> {
    let p = first_index(base, '+');
    if p < base.len() && is_subset_tag(base.take(p)) {
        base.skip(p + 1)
    } else {
        base
    }
}

/// A base-font name without its subset prefix, with a few common aliases
/// normalised to their Core-14 name.
pub open spec fn canonical_base_spec(base: Seq<char>) -> Seq<char> {
    let s = strip_subset(base);
    if s == "Arial"@ {
        "Helvetica"@
    } else if s == "Arial-Bold"@ || s == "Arial,Bold"@ {
        "Helvetica-Bold"@
    } else if s == "TimesNewRoman"@ || s == "Times"@ {
        "Times-Roman"@
    } else {
        s
    }
}

fn is_subset_tag_exec(t: &Vec<char>) -> (b: bool)
    ensures
        b == is_subset_tag(t@),
{
    if t.len() != 6 {
        return false;
    }
    let mut i: usize = 0;
    while i < 6
        invariant
            t@.len() == 6,
            i <= 6,
            forall|j: int| 0 <= j < i ==> 'A' <= #[trigger] t@[j] <= 'Z',
        decreases 6 - i,
    {
        if !('A' <= t[i] && t[i] <= 'Z') {
            return false;
        }
        i = i + 1;
    }
    true
}

/// Strip a subset prefix ("ABCDEF+Helvetica" → "Helvetica") and normalise a
/// few common aliases to their Core-14 name.
pub fn canonical_base(base: &str) -> (r: String)
    ensures
        r@ == canonical_base_spec(base@),
{
    let cs = chars_of(base);
    let p = find_char(&cs, '+');
    let stripped: String = if p < cs.len() && is_subset_tag_exec(&slice_chars(&cs, 0, p)) {
        assert(cs@.subrange(0, p as int) =~= cs@.take(p as int));
        crate::text::string_from_chars(slice_chars(&cs, p + 1, cs.len()).as_slice())
    } else {
        base.to_owned()
    };
    assert(stripped@ =~= strip_subset(base@));
    if stripped == "Arial".to_owned() {
        "Helvetica".to_owned()
    } else if stripped == "Arial-Bold".to_owned() || stripped == "Arial,Bold".to_owned() {
        "Helvetica-Bold".to_owned()
    } else if stripped == "TimesNewRoman".to_owned() || stripped == "Times".to_owned() {
        "Times-Roman".to_owned()
    } else {
        stripped
    }
}


proof fn lemma_first_index_concat(core: Seq<char>, rest: Seq<char>)
    requires
        forall|i: int| 0 <= i < core.len() ==> core[i] != '.',
        rest.len() > 0 && rest[0] == '.',
    ensures
        first_index(core + rest, '.') == core.len(),
        first_index(core, '.') == core.len(),
{
    lemma_first_index(core + rest, '.', core.len() as int);
    lemma_first_index(core, '.', core.len() as int);
}

/// A glyph-name suffix is ignored: `core.suffix` resolves as `core` does,
/// for a non-empty `core` without a dot.
pub proof fn lemma_suffix_ignored(core: Seq<char>, suffix: Seq<char>)
    requires
        core.len() > 0,
        forall|i: int| 0 <= i < core.len() ==> core[i] != '.',
    ensures
        name_to_unicode_spec(core + seq!['.'] + suffix) == name_to_unicode_spec(core),
{
    let rest = seq!['.'] + suffix;
    assert(core + seq!['.'] + suffix =~= core + rest);
    lemma_first_index_concat(core, rest);
    let name = core + rest;
    assert(name.take(core.len() as int) =~= core);
    assert(core.take(core.len() as int) =~= core);
    assert(name != notdef()) by {
        if name == notdef() {
            assert(name[0] == core[0]);
        }
    }
    assert(core != notdef()) by {
        if core == notdef() {
            assert(core[0] == '.');
        }
    }
}


/// Applying `Differences` keeps the number of names, and only ever changes
/// names below code 256.
pub proof fn lemma_differences_keep_names(diffs: Seq<DiffItem>, names: Seq<Seq<char>>, k: int)
    requires
        names.len() >= 256,
    ensures
        diff_state(diffs, names, k).1.len() == names.len(),
        diff_state(diffs, names, k).0 >= 0,
        forall|i: int| 256 <= i < names.len() ==> #[trigger] diff_state(diffs, names, k).1[i] == names[i],
    decreases k,
{
    if k > 0 {
        lemma_differences_keep_names(diffs, names, k - 1);
    }
}


/// The built-in encodings a simple font's names start from.
#[derive(Clone, Copy, Debug, PartialEq, Eq)]
pub enum BaseEncoding {
    WinAnsi,
    MacRoman,
    Standard,
    ZapfDingbats,
}

/// `s` occurs in `text` as a run of consecutive characters.
pub open spec fn contains_run(text: Seq<char>, s: Seq<char>) -> bool {
    exists|i: int| 0 <= i && i + s.len() <= text.len() && #[trigger] text.subrange(i, i + s.len()) == s
}

/// The base encoding of a font: the one its `/Encoding` (or the
/// `/BaseEncoding` of its encoding dictionary) names, else ZapfDingbats' own
/// for that font, else the standard encoding (the nominal default of a
/// non-symbolic Type1 font).
pub open spec fn base_encoding_spec(named: Option<Seq<u8>>, base: Seq<char>) -> BaseEncoding {
    if named == Some(ascii_bytes("WinAnsiEncoding"@)) {
        BaseEncoding::WinAnsi
    } else if named == Some(ascii_bytes("MacRomanEncoding"@)) {
        BaseEncoding::MacRoman
    } else if named == Some(ascii_bytes("StandardEncoding"@)) {
        BaseEncoding::Standard
    } else if contains_run(base, "ZapfDingbats"@) {
        BaseEncoding::ZapfDingbats
    } else {
        BaseEncoding::Standard
    }
}

/// The bytes of an ASCII name.
pub open spec fn ascii_bytes(s: Seq<char>) -> Seq<u8> {
    s.map_values(|c: char| c as u8)
}

fn ascii_bytes_exec(s: &str) -> (b: Vec<u8>)
    ensures
        b@ == ascii_bytes(s@),
{
    let cs = chars_of(s);
    let mut b: Vec<u8> = Vec::new();
    let mut i: usize = 0;
    while i < cs.len()
        invariant
            i <= cs@.len(),
            cs@ == s@,
            b@ == ascii_bytes(s@.take(i as int)),
        decreases cs@.len() - i,
    {
        b.push(cs[i] as u8);
        i = i + 1;
        assert(b@ =~= ascii_bytes(s@.take(i as int)));
    }
    assert(s@.take(i as int) =~= s@);
    b
}

fn names_equal(named: Option<&[u8]>, want: &str) -> (r: bool)
    ensures
        r == (match named {
            Some(n) => Some(n@),
            None => None,
        } == Some(ascii_bytes(want@))),
{
    match named {
        None => false,
        Some(n) => {
            let w = ascii_bytes_exec(want);
            crate::docx::xml::bytes_equal(n, w.as_slice())
        },
    }
}

fn contains_run_exec(text: &Vec<char>, s: &Vec<char>) -> (r: bool)
    requires
        s@.len() > 0,
    ensures
        r == contains_run(text@, s@),
{
    let n = text.len();
    if s.len() > n {
        return false;
    }
    let last = n - s.len();
    let mut i: usize = 0;
    while i <= last
        invariant
            n == text@.len(),
            s@.len() > 0,
            s@.len() <= text@.len(),
            last == text@.len() - s@.len(),
            i <= last + 1,
            forall|j: int| 0 <= j < i ==> #[trigger] text@.subrange(j, j + s@.len()) != s@,
        decreases last + 1 - i,
    {
        let run = slice_chars(text, i, i + s.len());
        if chars_equal(run.as_slice(), s.as_slice()) {
            return true;
        }
        i = i + 1;
    }
    assert forall|j: int| 0 <= j && j + s@.len() <= text@.len() implies #[trigger] text@.subrange(j, j + s@.len()) != s@ by {
        assert(j < i);
    }
    false
}

fn zapf_dingbats() -> (v: Vec<char>)
    ensures
        v@ == "ZapfDingbats"@,
        v@.len() > 0,
{
    let v = chars_of("ZapfDingbats");
    proof {
        reveal_strlit("ZapfDingbats");
    }
    v
}

/// Choose a simple font's base encoding from the name its encoding entry
/// gives (`None` when it names none) and its base-font name.
pub fn base_encoding(named: Option<&[u8]>, base: &str) -> (e: BaseEncoding)
    ensures
        e == base_encoding_spec(
            match named {
                Some(n) => Some(n@),
                None => None,
            },
            base@,
        ),
{
    if names_equal(named, "WinAnsiEncoding") {
        BaseEncoding::WinAnsi
    } else if names_equal(named, "MacRomanEncoding") {
        BaseEncoding::MacRoman
    } else if names_equal(named, "StandardEncoding") {
        BaseEncoding::Standard
    } else if contains_run_exec(&chars_of(base), &zapf_dingbats()) {
        BaseEncoding::ZapfDingbats
    } else {
        BaseEncoding::Standard
    }
}

} // verus!
