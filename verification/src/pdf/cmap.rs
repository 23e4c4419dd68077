//! `ToUnicode` CMap parsing — the key to correct text (CJK especially).
//!
//! A font's `/ToUnicode` stream maps character codes to Unicode via `bfchar` and
//! `bfrange` sections. Only those sections are read (codespace ranges and the
//! CIDInit boilerplate are skipped) into a `code -> String` map. Destination
//! values are UTF-16BE and may span several code units (ligatures, surrogate
//! pairs).

use std::collections::BTreeMap;
use vstd::prelude::*;

use crate::text::{chars_equal, decode_utf16, decode_utf16_lossy};

verus! {

broadcast use vstd::laws_cmp::group_laws_cmp;

// ---------------------------------------------------------------------------
// Tokens
// ---------------------------------------------------------------------------

/// A CMap token: a `<...>` hex string (its hex digits only), a bare keyword,
/// or a bracket.
pub enum Tok {
    Hex(Vec<u8>),
    Kw(Vec<char>),
    LBracket,
    RBracket,
}

/// The mathematical value of a token.
pub ghost enum TokSpec {
    Hex(Seq<u8>),
    Kw(Seq<char>),
    LBracket,
    RBracket,
}

impl View for Tok {
    type V = TokSpec;

    open spec fn view(&self) -> TokSpec {
        match self {
            Tok::Hex(h) => TokSpec::Hex(h@),
            Tok::Kw(k) => TokSpec::Kw(k@),
            Tok::LBracket => TokSpec::LBracket,
            Tok::RBracket => TokSpec::RBracket,
        }
    }
}

pub open spec fn toks_view(t: Seq<Tok>) -> Seq<TokSpec> {
    t.map_values(|x: Tok| x@)
}

/// A code-to-text map as the contracts see it.
pub type CMapView = Map<u32, Seq<char>>;

/// The contents of a code-to-string map, each string taken by its characters.
pub open spec fn text_map(m: Map<u32, String>) -> CMapView {
    Map::new(|k: u32| m.contains_key(k), |k: u32| m[k]@)
}

// ---------------------------------------------------------------------------
// Byte classes and the tokenizer's specification
// ---------------------------------------------------------------------------

pub open spec fn is_hex_digit(b: u8) -> bool {
    (48 <= b <= 57) || (65 <= b <= 70) || (97 <= b <= 102)
}

pub open spec fn is_ascii_alpha(b: u8) -> bool {
    (65 <= b <= 90) || (97 <= b <= 122)
}

/// Bytes that may continue a keyword: ASCII letters, digits and `.`.
pub open spec fn is_word_byte(b: u8) -> bool {
    is_ascii_alpha(b) || (48 <= b <= 57) || b == 46
}

/// Index of the first `>` at or after `i`, or the length when there is none.
pub open spec fn hex_close(s: Seq<u8>, i: int) -> int
    decreases s.len() - i,
{
    if i >= s.len() {
        i
    } else if s[i] == 62 {
        i
    } else {
        hex_close(s, i + 1)
    }
}

/// Index of the first byte at or after `i` that cannot continue a keyword.
pub open spec fn word_end(s: Seq<u8>, i: int) -> int
    decreases s.len() - i,
{
    if i >= s.len() {
        i
    } else if !is_word_byte(s[i]) {
        i
    } else {
        word_end(s, i + 1)
    }
}

pub proof fn lemma_hex_close_bounds(s: Seq<u8>, i: int)
    requires
        0 <= i <= s.len(),
    ensures
        i <= hex_close(s, i) <= s.len(),
        hex_close(s, i) < s.len() ==> s[hex_close(s, i)] == 62,
    decreases s.len() - i,
{
    if i < s.len() && s[i] != 62 {
        lemma_hex_close_bounds(s, i + 1);
    }
}

pub proof fn lemma_word_end_bounds(s: Seq<u8>, i: int)
    requires
        0 <= i <= s.len(),
    ensures
        i <= word_end(s, i) <= s.len(),
    decreases s.len() - i,
{
    if i < s.len() && is_word_byte(s[i]) {
        lemma_word_end_bounds(s, i + 1);
    }
}

pub open spec fn hex_digits_of(s: Seq<u8>) -> Seq<u8> {
    s.filter(|b: u8| is_hex_digit(b))
}

/// The tokens of `s` from index `i` on: `<...>` gives the hex digits between
/// the brackets, `[` and `]` give brackets, a letter starts a keyword of
/// letters, digits and dots, and every other byte is skipped.
pub open spec fn scan_from(s: Seq<u8>, i: int) -> Seq<TokSpec>
    decreases s.len() - i,
{
    if i < 0 || i >= s.len() {
        Seq::empty()
    } else if s[i] == 60 {
        let e = hex_close(s, i + 1);
        proof {
            lemma_hex_close_bounds(s, i + 1);
        }
        seq![TokSpec::Hex(hex_digits_of(s.subrange(i + 1, e)))] + if e < s.len() {
            scan_from(s, e + 1)
        } else {
            Seq::empty()
        }
    } else if s[i] == 91 {
        seq![TokSpec::LBracket] + scan_from(s, i + 1)
    } else if s[i] == 93 {
        seq![TokSpec::RBracket] + scan_from(s, i + 1)
    } else if is_ascii_alpha(s[i]) {
        let e = word_end(s, i);
        proof {
            lemma_word_end_bounds(s, i + 1);
        }
        seq![TokSpec::Kw(s.subrange(i, e).map_values(|b: u8| b as char))] + scan_from(s, e)
    } else {
        scan_from(s, i + 1)
    }
}

/// Splits CMap text into hex strings, brackets and bare keywords.
pub fn scan(bytes: &[u8]) -> (toks: Vec<Tok>)
    ensures
        toks_view(toks@) == scan_from(bytes@, 0),
{
    let ghost s = bytes@;
    let mut toks: Vec<Tok> = Vec::new();
    let mut i: usize = 0;
    assert(toks_view(toks@) =~= Seq::<TokSpec>::empty());
    while i < bytes.len()
        invariant
            s == bytes@,
            i <= bytes.len() + 1,
            toks_view(toks@) + scan_from(s, i as int) == scan_from(s, 0),
        decreases bytes.len() + 1 - i,
    {
        let ghost before = toks_view(toks@);
        let ghost i0 = i;
        let b = bytes[i];
        if b == 60 {
            let mut hex: Vec<u8> = Vec::new();
            let mut j: usize = i + 1;
            proof {
                lemma_hex_close_bounds(s, i + 1);
            }
            while j < bytes.len() && bytes[j] != 62
                invariant
                    s == bytes@,
                    i + 1 <= j <= bytes.len(),
                    hex_close(s, j as int) == hex_close(s, i + 1),
                    hex@ == hex_digits_of(s.subrange(i + 1, j as int)),
                decreases bytes.len() - j,
            {
                let ghost sub = s.subrange(i + 1, j as int);
                assert(s.subrange(i + 1, j + 1) =~= sub.push(s[j as int]));
                proof {
                    sub.lemma_filter_push(s[j as int], |b: u8| is_hex_digit(b));
                }
                let d = bytes[j];
                if (48 <= d && d <= 57) || (65 <= d && d <= 70) || (97 <= d && d <= 102) {
                    hex.push(d);
                }
                j = j + 1;
            }
            assert(hex_close(s, j as int) == j);
            let ghost t = Tok::Hex(hex);
            toks.push(Tok::Hex(hex));
            i = if j < bytes.len() {
                j + 1
            } else {
                j
            };
            assert(toks_view(toks@) =~= before.push(t@));
            assert(scan_from(s, i0 as int) == seq![t@] + scan_from(s, i as int));
            assert(toks_view(toks@) + scan_from(s, i as int) =~= before + scan_from(s, i0 as int));
        } else if b == 91 {
            toks.push(Tok::LBracket);
            i = i + 1;
            assert(toks_view(toks@) =~= before.push(TokSpec::LBracket));
            assert(toks_view(toks@) + scan_from(s, i as int) =~= before + scan_from(s, i0 as int));
        } else if b == 93 {
            toks.push(Tok::RBracket);
            i = i + 1;
            assert(toks_view(toks@) =~= before.push(TokSpec::RBracket));
            assert(toks_view(toks@) + scan_from(s, i as int) =~= before + scan_from(s, i0 as int));
        } else if (65 <= b && b <= 90) || (97 <= b && b <= 122) {
            let start = i;
            let mut word: Vec<char> = Vec::new();
            proof {
                lemma_word_end_bounds(s, i as int);
            }
            while i < bytes.len()
                && ((65 <= bytes[i] && bytes[i] <= 90) || (97 <= bytes[i] && bytes[i] <= 122) || (48
                    <= bytes[i] && bytes[i] <= 57) || bytes[i] == 46)
                invariant
                    s == bytes@,
                    start <= i <= bytes.len(),
                    word_end(s, i as int) == word_end(s, start as int),
                    word@ == s.subrange(start as int, i as int).map_values(|b: u8| b as char),
                decreases bytes.len() - i,
            {
                word.push(bytes[i] as char);
                i = i + 1;
                assert(word@ =~= s.subrange(start as int, i as int).map_values(|b: u8| b as char));
            }
            assert(word_end(s, i as int) == i);
            let ghost t = Tok::Kw(word);
            toks.push(Tok::Kw(word));
            assert(toks_view(toks@) =~= before.push(t@));
            assert(scan_from(s, i0 as int) == seq![t@] + scan_from(s, i as int));
            assert(toks_view(toks@) + scan_from(s, i as int) =~= before + scan_from(s, i0 as int));
        } else {
            i = i + 1;
        }
    }
    assert(scan_from(s, i as int) == Seq::<TokSpec>::empty());
    assert(toks_view(toks@) =~= toks_view(toks@) + Seq::<TokSpec>::empty());
    toks
}

// ---------------------------------------------------------------------------
// Hex values and UTF-16 destinations
// ---------------------------------------------------------------------------

pub open spec fn hex_digit_value(b: u8) -> int {
    if 48 <= b <= 57 {
        b - 48
    } else if 65 <= b <= 70 {
        b - 55
    } else {
        b - 87
    }
}

/// The number that a run of hex digits spells, most significant first.
pub open spec fn hex_number(s: Seq<u8>) -> int
    decreases s.len(),
{
    if s.len() == 0 {
        0
    } else {
        hex_number(s.drop_last()) * 16 + hex_digit_value(s.last())
    }
}

pub open spec fn all_hex(s: Seq<u8>) -> bool {
    forall|i: int| 0 <= i < s.len() ==> is_hex_digit(#[trigger] s[i])
}

/// A source code as `u32::from_str_radix(.., 16)` reads it, with 0 standing in
/// for an empty or overflowing number.
pub open spec fn hex_code(s: Seq<u8>) -> u32 {
    if s.len() == 0 || hex_number(s) > u32::MAX {
        0
    } else {
        hex_number(s) as u32
    }
}

pub open spec fn pow16(n: nat) -> int
    decreases n,
{
    if n == 0 {
        1
    } else {
        16 * pow16((n - 1) as nat)
    }
}

proof fn lemma_pow16_small()
    ensures
        pow16(0) == 1,
        pow16(1) == 16,
        pow16(2) == 256,
        pow16(3) == 4096,
        pow16(4) == 65536,
{
    reveal_with_fuel(pow16, 5);
}

proof fn lemma_hex_number_bounds(s: Seq<u8>)
    requires
        all_hex(s),
    ensures
        0 <= hex_number(s) < pow16(s.len()),
    decreases s.len(),
{
    if s.len() > 0 {
        assert(all_hex(s.drop_last()));
        lemma_hex_number_bounds(s.drop_last());
        assert(is_hex_digit(s[s.len() - 1]));
    }
}

proof fn lemma_hex_number_prefix_monotone(s: Seq<u8>, k: int)
    requires
        all_hex(s),
        0 <= k <= s.len(),
    ensures
        hex_number(s.take(k)) <= hex_number(s),
    decreases s.len(),
{
    if k < s.len() {
        assert(all_hex(s.drop_last()));
        assert(s.drop_last().take(k) =~= s.take(k));
        lemma_hex_number_prefix_monotone(s.drop_last(), k);
        assert(is_hex_digit(s[s.len() - 1]));
        lemma_hex_number_bounds(s.drop_last());
    } else {
        assert(s.take(k) =~= s);
    }
}

/// Reads a run of hex digits as a code (`0` when empty or over `u32::MAX`).
fn hex_u32(hex: &Vec<u8>) -> (v: u32)
    requires
        all_hex(hex@),
    ensures
        v == hex_code(hex@),
{
    if hex.len() == 0 {
        return 0;
    }
    let mut acc: u64 = 0;
    let mut i: usize = 0;
    while i < hex.len()
        invariant
            all_hex(hex@),
            i <= hex.len(),
            acc == hex_number(hex@.take(i as int)),
            acc <= u32::MAX,
        decreases hex.len() - i,
    {
        let d = hex[i];
        assert(is_hex_digit(hex@[i as int]));
        let dv: u64 = if d <= 57 {
            (d - 48) as u64
        } else if d <= 70 {
            (d - 55) as u64
        } else {
            (d - 87) as u64
        };
        assert(hex@.take(i + 1).drop_last() =~= hex@.take(i as int));
        acc = acc * 16 + dv;
        i = i + 1;
        if acc > 0xFFFF_FFFF {
            proof {
                lemma_hex_number_prefix_monotone(hex@, i as int);
            }
            return 0;
        }
    }
    assert(hex@.take(i as int) =~= hex@);
    acc as u32
}

/// The UTF-16 code units spelt by a run of hex digits, four digits per unit
/// (a shorter last group is read as it stands).
pub open spec fn hex_units(s: Seq<u8>) -> Seq<u16>
    decreases s.len(),
{
    if s.len() == 0 {
        Seq::empty()
    } else if s.len() <= 4 {
        seq![hex_number(s) as u16]
    } else {
        seq![hex_number(s.take(4)) as u16] + hex_units(s.skip(4))
    }
}

/// The UTF-16 code units of a hex destination.
fn utf16be_units(hex: &Vec<u8>) -> (units: Vec<u16>)
    requires
        all_hex(hex@),
    ensures
        units@ == hex_units(hex@),
{
    let mut units: Vec<u16> = Vec::new();
    let mut i: usize = 0;
    assert(hex@.skip(0) =~= hex@);
    while i < hex.len()
        invariant
            all_hex(hex@),
            i <= hex.len(),
            units@ + hex_units(hex@.skip(i as int)) == hex_units(hex@),
        decreases hex.len() - i,
    {
        let ghost rest = hex@.skip(i as int);
        let end: usize = if hex.len() - i <= 4 {
            hex.len()
        } else {
            i + 4
        };
        let mut v: u32 = 0;
        let mut j: usize = i;
        assert(all_hex(rest));
        while j < end
            invariant
                all_hex(hex@),
                i <= j <= end <= hex.len(),
                end - i <= 4,
                v == hex_number(hex@.subrange(i as int, j as int)),
                v < pow16((j - i) as nat),
            decreases end - j,
        {
            let d = hex[j];
            assert(is_hex_digit(hex@[j as int]));
            let dv: u32 = if d <= 57 {
                (d - 48) as u32
            } else if d <= 70 {
                (d - 55) as u32
            } else {
                (d - 87) as u32
            };
            assert(hex@.subrange(i as int, j + 1).drop_last() =~= hex@.subrange(
                i as int,
                j as int,
            ));
            assert(pow16((j + 1 - i) as nat) == 16 * pow16((j - i) as nat));
            proof {
                lemma_pow16_small();
            }
            v = v * 16 + dv;
            j = j + 1;
        }
        proof {
            lemma_pow16_small();
        }
        let ghost before = units@;
        units.push(v as u16);
        if hex.len() - i <= 4 {
            assert(rest =~= hex@.subrange(i as int, end as int));
            assert(hex@.skip(end as int) =~= Seq::<u8>::empty());
        } else {
            assert(rest.take(4) =~= hex@.subrange(i as int, end as int));
            assert(rest.skip(4) =~= hex@.skip(end as int));
        }
        assert(units@ + hex_units(hex@.skip(end as int)) =~= before + hex_units(rest));
        i = end;
    }
    assert(hex@.skip(i as int) =~= Seq::<u8>::empty());
    assert(units@ + hex_units(hex@.skip(i as int)) =~= units@);
    units
}

/// The text of a hex destination: its code units decoded as UTF-16.
pub open spec fn dest_text(hex: Seq<u8>) -> Seq<char> {
    decode_utf16(hex_units(hex))
}

fn utf16be(hex: &Vec<u8>) -> (s: String)
    requires
        all_hex(hex@),
    ensures
        s@ == dest_text(hex@),
{
    let units = utf16be_units(hex);
    decode_utf16_lossy(units.as_slice())
}

/// `units` with `offset` added, modulo 2^16, to the last unit.
pub open spec fn bump_last(units: Seq<u16>, offset: int) -> Seq<u16> {
    if units.len() == 0 {
        units
    } else {
        units.update(units.len() - 1, ((units.last() + offset) % 65536) as u16)
    }
}

/// The text of the `n`-th code of an incremental `bfrange` destination.
pub open spec fn range_text(base: Seq<u16>, n: int) -> Seq<char> {
    decode_utf16(bump_last(base, n))
}

/// Adds `offset` to the last UTF-16 unit (bfrange incremental destinations).
fn incremented(base: &Vec<u16>, offset: u32) -> (s: String)
    ensures
        s@ == range_text(base@, offset as int),
{
    let mut units = base.clone();
    let n = units.len();
    if n > 0 {
        let last = units[n - 1];
        let bumped: u32 = ((last as u32) + (offset % 65536)) % 65536;
        units.set(n - 1, bumped as u16);
        assert((((last as int) + (offset as int)) % 65536) == (((last as int) + (offset as int
            % 65536)) % 65536)) by (nonlinear_arith);
        assert(units@ =~= bump_last(base@, offset as int));
    } else {
        assert(units@ =~= bump_last(base@, offset as int));
    }
    decode_utf16_lossy(units.as_slice())
}

// ---------------------------------------------------------------------------
// Section grammar
// ---------------------------------------------------------------------------

pub open spec fn kw_beginbfchar() -> Seq<char> {
    seq!['b', 'e', 'g', 'i', 'n', 'b', 'f', 'c', 'h', 'a', 'r']
}

pub open spec fn kw_endbfchar() -> Seq<char> {
    seq!['e', 'n', 'd', 'b', 'f', 'c', 'h', 'a', 'r']
}

pub open spec fn kw_beginbfrange() -> Seq<char> {
    seq!['b', 'e', 'g', 'i', 'n', 'b', 'f', 'r', 'a', 'n', 'g', 'e']
}

pub open spec fn kw_endbfrange() -> Seq<char> {
    seq!['e', 'n', 'd', 'b', 'f', 'r', 'a', 'n', 'g', 'e']
}

pub open spec fn is_kw(t: TokSpec, w: Seq<char>) -> bool {
    t matches TokSpec::Kw(k) && k == w
}

/// Every hex token holds hex digits only.
pub open spec fn hex_tokens_wf(t: Seq<TokSpec>) -> bool {
    forall|i: int| 0 <= i < t.len() ==> (#[trigger] t[i] matches TokSpec::Hex(h) ==> all_hex(h))
}

/// A `bfchar` section from token `i`: `<src> <dst>` pairs map `src` to the text
/// of `dst`; a lone hex token or any other token is skipped; `endbfchar` ends
/// the section. Yields the index after the section and the updated map.
pub open spec fn bfchar_section(t: Seq<TokSpec>, i: int, m: CMapView) -> (int, CMapView)
    decreases t.len() - i,
{
    if i < 0 || i >= t.len() {
        (i, m)
    } else if is_kw(t[i], kw_endbfchar()) {
        (i + 1, m)
    } else if t[i] is Hex && i + 1 < t.len() && t[i + 1] is Hex {
        bfchar_section(t, i + 2, m.insert(hex_code(t[i]->Hex_0), dest_text(t[i + 1]->Hex_0)))
    } else {
        bfchar_section(t, i + 1, m)
    }
}

/// A bracketed destination list from token `j`: the `k`-th hex token gives the
/// text of code `code + k`, as long as that code does not pass `hi`; `]` ends it.
pub open spec fn bracket_list(t: Seq<TokSpec>, j: int, code: int, hi: u32, m: CMapView) -> (
    int,
    CMapView,
)
    decreases t.len() - j,
{
    if j < 0 || j >= t.len() {
        (j, m)
    } else if t[j] is RBracket {
        (j + 1, m)
    } else if t[j] is Hex {
        bracket_list(
            t,
            j + 1,
            code + 1,
            hi,
            if 0 <= code <= hi {
                m.insert(code as u32, dest_text(t[j]->Hex_0))
            } else {
                m
            },
        )
    } else {
        bracket_list(t, j + 1, code, hi, m)
    }
}

/// `m` with every code `c` in `lo..=hi` mapped to the `c - lo`-th increment of `base`.
pub open spec fn fill_range(m: CMapView, lo: u32, hi: u32, base: Seq<u16>) -> CMapView {
    Map::new(
        |c: u32| m.contains_key(c) || (lo <= c <= hi),
        |c: u32|
            if lo <= c <= hi {
                range_text(base, c - lo)
            } else {
                m[c]
            },
    )
}

pub proof fn lemma_bracket_list_bounds(t: Seq<TokSpec>, j: int, code: int, hi: u32, m: CMapView)
    requires
        0 <= j <= t.len(),
    ensures
        j <= bracket_list(t, j, code, hi, m).0 <= t.len(),
    decreases t.len() - j,
{
    if j < t.len() && !(t[j] is RBracket) {
        let m2 = if t[j] is Hex && 0 <= code <= hi {
            m.insert(code as u32, dest_text(t[j]->Hex_0))
        } else {
            m
        };
        let c2 = if t[j] is Hex {
            code + 1
        } else {
            code
        };
        lemma_bracket_list_bounds(t, j + 1, c2, hi, m2);
    }
}

/// A `bfrange` section from token `i`: `<lo> <hi> <dst>` maps each code of the
/// range to successive increments of `dst`; `<lo> <hi> [ ... ]` takes the
/// destinations from the list; `<lo>` not followed by a hex token ends the
/// section; `<lo> <hi>` followed by anything else is skipped; `endbfrange`
/// ends the section.
pub open spec fn bfrange_section(t: Seq<TokSpec>, i: int, m: CMapView) -> (int, CMapView)
    decreases t.len() - i,
{
    if i < 0 || i >= t.len() {
        (i, m)
    } else if is_kw(t[i], kw_endbfrange()) {
        (i + 1, m)
    } else if t[i] is Hex {
        if !(i + 1 < t.len() && t[i + 1] is Hex) {
            (i + 1, m)
        } else {
            let lo = hex_code(t[i]->Hex_0);
            let hi = hex_code(t[i + 1]->Hex_0);
            if i + 2 < t.len() && t[i + 2] is Hex {
                bfrange_section(t, i + 3, fill_range(m, lo, hi, hex_units(t[i + 2]->Hex_0)))
            } else if i + 2 < t.len() && t[i + 2] is LBracket {
                let r = bracket_list(t, i + 3, lo as int, hi, m);
                proof {
                    lemma_bracket_list_bounds(t, i + 3, lo as int, hi, m);
                }
                bfrange_section(t, r.0, r.1)
            } else {
                bfrange_section(t, i + 2, m)
            }
        }
    } else {
        bfrange_section(t, i + 1, m)
    }
}

pub proof fn lemma_bfchar_bounds(t: Seq<TokSpec>, i: int, m: CMapView)
    requires
        0 <= i <= t.len(),
    ensures
        i <= bfchar_section(t, i, m).0 <= t.len(),
    decreases t.len() - i,
{
    if i < t.len() && !is_kw(t[i], kw_endbfchar()) {
        if t[i] is Hex && i + 1 < t.len() && t[i + 1] is Hex {
            lemma_bfchar_bounds(
                t,
                i + 2,
                m.insert(hex_code(t[i]->Hex_0), dest_text(t[i + 1]->Hex_0)),
            );
        } else {
            lemma_bfchar_bounds(t, i + 1, m);
        }
    }
}

pub proof fn lemma_bfrange_bounds(t: Seq<TokSpec>, i: int, m: CMapView)
    requires
        0 <= i <= t.len(),
    ensures
        i <= bfrange_section(t, i, m).0 <= t.len(),
    decreases t.len() - i,
{
    if i < t.len() && !is_kw(t[i], kw_endbfrange()) {
        if t[i] is Hex {
            if i + 1 < t.len() && t[i + 1] is Hex {
                let lo = hex_code(t[i]->Hex_0);
                let hi = hex_code(t[i + 1]->Hex_0);
                if i + 2 < t.len() && t[i + 2] is Hex {
                    lemma_bfrange_bounds(t, i + 3, fill_range(m, lo, hi, hex_units(t[i + 2]->Hex_0)));
                } else if i + 2 < t.len() && t[i + 2] is LBracket {
                    let r = bracket_list(t, i + 3, lo as int, hi, m);
                    lemma_bracket_list_bounds(t, i + 3, lo as int, hi, m);
                    lemma_bfrange_bounds(t, r.0, r.1);
                } else {
                    lemma_bfrange_bounds(t, i + 2, m);
                }
            }
        } else {
            lemma_bfrange_bounds(t, i + 1, m);
        }
    }
}

proof fn lemma_bfchar_keeps_codes(t: Seq<TokSpec>, i: int, m: CMapView)
    ensures
        m.dom().subset_of(bfchar_section(t, i, m).1.dom()),
    decreases t.len() - i,
{
    if 0 <= i < t.len() && !is_kw(t[i], kw_endbfchar()) {
        if t[i] is Hex && i + 1 < t.len() && t[i + 1] is Hex {
            let m2 = m.insert(hex_code(t[i]->Hex_0), dest_text(t[i + 1]->Hex_0));
            lemma_bfchar_keeps_codes(t, i + 2, m2);
        } else {
            lemma_bfchar_keeps_codes(t, i + 1, m);
        }
    }
}

proof fn lemma_bracket_list_keeps_codes(t: Seq<TokSpec>, j: int, code: int, hi: u32, m: CMapView)
    ensures
        m.dom().subset_of(bracket_list(t, j, code, hi, m).1.dom()),
    decreases t.len() - j,
{
    if 0 <= j < t.len() && !(t[j] is RBracket) {
        if t[j] is Hex {
            let m2 = if 0 <= code <= hi {
                m.insert(code as u32, dest_text(t[j]->Hex_0))
            } else {
                m
            };
            lemma_bracket_list_keeps_codes(t, j + 1, code + 1, hi, m2);
        } else {
            lemma_bracket_list_keeps_codes(t, j + 1, code, hi, m);
        }
    }
}

proof fn lemma_bfrange_keeps_codes(t: Seq<TokSpec>, i: int, m: CMapView)
    ensures
        m.dom().subset_of(bfrange_section(t, i, m).1.dom()),
    decreases t.len() - i,
{
    if 0 <= i < t.len() && !is_kw(t[i], kw_endbfrange()) {
        if t[i] is Hex {
            if i + 1 < t.len() && t[i + 1] is Hex {
                let lo = hex_code(t[i]->Hex_0);
                let hi = hex_code(t[i + 1]->Hex_0);
                if i + 2 < t.len() && t[i + 2] is Hex {
                    lemma_bfrange_keeps_codes(t, i + 3, fill_range(m, lo, hi, hex_units(t[i + 2]->Hex_0)));
                } else if i + 2 < t.len() && t[i + 2] is LBracket {
                    let r = bracket_list(t, i + 3, lo as int, hi, m);
                    lemma_bracket_list_bounds(t, i + 3, lo as int, hi, m);
                    lemma_bracket_list_keeps_codes(t, i + 3, lo as int, hi, m);
                    lemma_bfrange_keeps_codes(t, r.0, r.1);
                } else {
                    lemma_bfrange_keeps_codes(t, i + 2, m);
                }
            }
        } else {
            lemma_bfrange_keeps_codes(t, i + 1, m);
        }
    }
}

/// A mapping, once made, is never dropped: later sections only add codes
/// or override their text.
pub proof fn lemma_mappings_never_dropped(t: Seq<TokSpec>, i: int, m: CMapView)
    ensures
        m.dom().subset_of(cmap_from(t, i, m).dom()),
    decreases t.len() - i,
{
    if 0 <= i < t.len() {
        if is_kw(t[i], kw_beginbfchar()) {
            let r = bfchar_section(t, i + 1, m);
            lemma_bfchar_bounds(t, i + 1, m);
            lemma_bfchar_keeps_codes(t, i + 1, m);
            lemma_mappings_never_dropped(t, r.0, r.1);
        } else if is_kw(t[i], kw_beginbfrange()) {
            let r = bfrange_section(t, i + 1, m);
            lemma_bfrange_bounds(t, i + 1, m);
            lemma_bfrange_keeps_codes(t, i + 1, m);
            lemma_mappings_never_dropped(t, r.0, r.1);
        } else {
            lemma_mappings_never_dropped(t, i + 1, m);
        }
    }
}

/// An incremental range maps every code from `lo` to `hi` to the base
/// destination with its last UTF-16 unit raised by the code's offset from
/// `lo`, and leaves every other code as it was.
pub proof fn lemma_range_fills_each_code(m: CMapView, lo: u32, hi: u32, base: Seq<u16>, c: u32)
    ensures
        lo <= c <= hi ==> fill_range(m, lo, hi, base).contains_key(c) && fill_range(m, lo, hi, base)[c]
            == decode_utf16(bump_last(base, c - lo)),
        !(lo <= c <= hi) ==> (fill_range(m, lo, hi, base).contains_key(c) == m.contains_key(c) && (
        m.contains_key(c) ==> fill_range(m, lo, hi, base)[c] == m[c])),
{
}

/// An incremental `bfrange` entry `<lo> <hi> <dst>`, each part by its hex digits.
pub type RangeEntry = (Seq<u8>, Seq<u8>, Seq<u8>);

/// The code range `lo..=hi` of an entry holds `c`.
pub open spec fn entry_covers(e: RangeEntry, c: u32) -> bool {
    hex_code(e.0) <= c <= hex_code(e.1)
}

/// The incremental entries `es` stand one after another in `t`, from token `i` on.
pub open spec fn range_entries_at(t: Seq<TokSpec>, i: int, es: Seq<RangeEntry>) -> bool {
    &&& 0 <= i
    &&& i + 3 * es.len() <= t.len()
    &&& forall|k: int|
        #![trigger es[k]]
        0 <= k < es.len() ==> {
            &&& t[i + 3 * k] == TokSpec::Hex(es[k].0)
            &&& t[i + 3 * k + 1] == TokSpec::Hex(es[k].1)
            &&& t[i + 3 * k + 2] == TokSpec::Hex(es[k].2)
        }
}

/// `m` after the entries `es`, applied in order.
pub open spec fn fill_ranges(m: CMapView, es: Seq<RangeEntry>) -> CMapView
    decreases es.len(),
{
    if es.len() == 0 {
        m
    } else {
        fill_ranges(
            fill_range(m, hex_code(es[0].0), hex_code(es[0].1), hex_units(es[0].2)),
            es.drop_first(),
        )
    }
}

proof fn lemma_bfrange_runs_entries(t: Seq<TokSpec>, i: int, es: Seq<RangeEntry>, m: CMapView)
    requires
        range_entries_at(t, i, es),
    ensures
        bfrange_section(t, i, m) == bfrange_section(t, i + 3 * es.len(), fill_ranges(m, es)),
    decreases es.len(),
{
    if es.len() > 0 {
        let e = es[0];
        assert(t[i] == TokSpec::Hex(e.0));
        assert(t[i + 1] == TokSpec::Hex(e.1));
        assert(t[i + 2] == TokSpec::Hex(e.2));
        let m2 = fill_range(m, hex_code(e.0), hex_code(e.1), hex_units(e.2));
        let rest = es.drop_first();
        assert forall|k: int| #![trigger rest[k]] 0 <= k < rest.len() implies {
            &&& t[(i + 3) + 3 * k] == TokSpec::Hex(rest[k].0)
            &&& t[(i + 3) + 3 * k + 1] == TokSpec::Hex(rest[k].1)
            &&& t[(i + 3) + 3 * k + 2] == TokSpec::Hex(rest[k].2)
        } by {
            assert(rest[k] == es[k + 1]);
            assert((i + 3) + 3 * k == i + 3 * (k + 1));
        }
        assert(range_entries_at(t, i + 3, rest));
        assert(bfrange_section(t, i, m) == bfrange_section(t, i + 3, m2));
        lemma_bfrange_runs_entries(t, i + 3, rest, m2);
        assert(i + 3 + 3 * rest.len() == i + 3 * es.len());
    }
}

proof fn lemma_fill_ranges_pointwise(m: CMapView, es: Seq<RangeEntry>, c: u32, k: int)
    ensures
        (0 <= k < es.len() && entry_covers(es[k], c) && (forall|j: int|
            k < j < es.len() ==> !entry_covers(#[trigger] es[j], c))) ==> fill_ranges(
            m,
            es,
        ).contains_key(c) && fill_ranges(m, es)[c] == range_text(
            hex_units(es[k].2),
            c - hex_code(es[k].0),
        ),
        (forall|j: int| 0 <= j < es.len() ==> !entry_covers(#[trigger] es[j], c)) ==> (fill_ranges(
            m,
            es,
        ).contains_key(c) == m.contains_key(c) && (m.contains_key(c) ==> fill_ranges(m, es)[c]
            == m[c])),
    decreases es.len(),
{
    if es.len() > 0 {
        let e = es[0];
        let m1 = fill_range(m, hex_code(e.0), hex_code(e.1), hex_units(e.2));
        let rest = es.drop_first();
        assert(fill_ranges(m, es) == fill_ranges(m1, rest));
        lemma_fill_ranges_pointwise(m1, rest, c, k - 1);
        lemma_fill_ranges_pointwise(m1, rest, c, 0);
        if 0 <= k < es.len() && entry_covers(es[k], c) && (forall|j: int|
            k < j < es.len() ==> !entry_covers(#[trigger] es[j], c)) {
            if k == 0 {
                assert forall|j: int| 0 <= j < rest.len() implies !entry_covers(
                    #[trigger] rest[j],
                    c,
                ) by {
                    assert(rest[j] == es[j + 1]);
                }
            } else {
                assert(rest[k - 1] == es[k]);
                assert forall|j: int| k - 1 < j < rest.len() implies !entry_covers(
                    #[trigger] rest[j],
                    c,
                ) by {
                    assert(rest[j] == es[j + 1]);
                }
            }
        }
        if forall|j: int| 0 <= j < es.len() ==> !entry_covers(#[trigger] es[j], c) {
            assert(!entry_covers(es[0], c));
            assert forall|j: int| 0 <= j < rest.len() implies !entry_covers(#[trigger] rest[j], c) by {
                assert(rest[j] == es[j + 1]);
            }
        }
    }
}

/// Every `<lo> <hi> <dst>` entry of a `bfrange` section is applied, up to
/// `endbfrange`: each code `c` of an entry's range `lo..=hi` maps to the entry's
/// destination with its last UTF-16 unit raised by `c - lo`, unless a later entry
/// of the section covers `c`; a code that no entry covers keeps what it had. The
/// section ends after `endbfrange`.
pub proof fn lemma_bfrange_applies_every_entry(
    t: Seq<TokSpec>,
    i: int,
    es: Seq<RangeEntry>,
    m: CMapView,
    c: u32,
    k: int,
)
    requires
        range_entries_at(t, i, es),
        i + 3 * es.len() < t.len(),
        is_kw(t[i + 3 * es.len()], kw_endbfrange()),
    ensures
        bfrange_section(t, i, m).0 == i + 3 * es.len() + 1,
        (0 <= k < es.len() && entry_covers(es[k], c) && (forall|j: int|
            k < j < es.len() ==> !entry_covers(#[trigger] es[j], c))) ==> bfrange_section(
            t,
            i,
            m,
        ).1.contains_key(c) && bfrange_section(t, i, m).1[c] == range_text(
            hex_units(es[k].2),
            c - hex_code(es[k].0),
        ),
        (forall|j: int| 0 <= j < es.len() ==> !entry_covers(#[trigger] es[j], c)) ==> (
        bfrange_section(t, i, m).1.contains_key(c) == m.contains_key(c) && (m.contains_key(c)
            ==> bfrange_section(t, i, m).1[c] == m[c])),
{
    lemma_bfrange_runs_entries(t, i, es, m);
    lemma_fill_ranges_pointwise(m, es, c, k);
}

/// `m` with each code `code + k` (up to `hi`) mapped to the text of the `k`-th
/// destination of `ds`.
pub open spec fn fill_list(m: CMapView, code: int, hi: u32, ds: Seq<Seq<u8>>) -> CMapView {
    Map::new(
        |c: u32| m.contains_key(c) || (code <= c <= hi && c - code < ds.len()),
        |c: u32|
            if code <= c <= hi && c - code < ds.len() {
                dest_text(ds[c - code])
            } else {
                m[c]
            },
    )
}

proof fn lemma_bracket_list_fills(t: Seq<TokSpec>, j: int, code: int, hi: u32, ds: Seq<Seq<u8>>, m: CMapView)
    requires
        0 <= j,
        0 <= code,
        j + ds.len() < t.len(),
        forall|k: int| #![trigger ds[k]] 0 <= k < ds.len() ==> t[j + k] == TokSpec::Hex(ds[k]),
        t[j + ds.len()] is RBracket,
    ensures
        bracket_list(t, j, code, hi, m) == (j + ds.len() + 1, fill_list(m, code, hi, ds)),
    decreases ds.len(),
{
    if ds.len() == 0 {
        assert(fill_list(m, code, hi, ds) =~= m);
    } else {
        assert(t[j] == TokSpec::Hex(ds[0]));
        let m2 = if 0 <= code <= hi {
            m.insert(code as u32, dest_text(ds[0]))
        } else {
            m
        };
        let rest = ds.drop_first();
        assert forall|k: int| #![trigger rest[k]] 0 <= k < rest.len() implies t[(j + 1) + k]
            == TokSpec::Hex(rest[k]) by {
            assert(rest[k] == ds[k + 1]);
        }
        assert(t[(j + 1) + rest.len()] is RBracket);
        lemma_bracket_list_fills(t, j + 1, code + 1, hi, rest, m2);
        assert forall|k: int| #![trigger rest[k]] 0 <= k < rest.len() implies rest[k] == ds[k + 1] by {}
        assert(fill_list(m2, code + 1, hi, rest) =~= fill_list(m, code, hi, ds));
    }
}

/// A bracketed `bfrange` entry `<lo> <hi> [<d0> <d1> ...]` maps code `lo + k`
/// to the text of the `k`-th destination, for each `k` that stays within
/// `hi`; the section then goes on after the closing `]`.
pub proof fn lemma_bfrange_bracket_entry(
    t: Seq<TokSpec>,
    i: int,
    lo: Seq<u8>,
    hi: Seq<u8>,
    ds: Seq<Seq<u8>>,
    m: CMapView,
)
    requires
        0 <= i,
        i + 3 + ds.len() < t.len(),
        t[i] == TokSpec::Hex(lo),
        t[i + 1] == TokSpec::Hex(hi),
        t[i + 2] is LBracket,
        forall|k: int| #![trigger ds[k]] 0 <= k < ds.len() ==> t[i + 3 + k] == TokSpec::Hex(ds[k]),
        t[i + 3 + ds.len()] is RBracket,
    ensures
        bfrange_section(t, i, m) == bfrange_section(
            t,
            i + 4 + ds.len(),
            fill_list(m, hex_code(lo) as int, hex_code(hi), ds),
        ),
{
    assert forall|k: int| #![trigger ds[k]] 0 <= k < ds.len() implies t[(i + 3) + k] == TokSpec::Hex(
        ds[k],
    ) by {}
    lemma_bracket_list_fills(t, i + 3, hex_code(lo) as int, hex_code(hi), ds, m);
}

/// The first code of an incremental range gets the destination itself; a
/// later code changes only the destination's last UTF-16 unit, raised (modulo
/// 2^16) by the code's offset from the first.
pub proof fn lemma_range_text_offsets(base: Seq<u16>, n: int)
    ensures
        range_text(base, 0) == decode_utf16(base),
        bump_last(base, n).len() == base.len(),
        forall|k: int| 0 <= k < base.len() - 1 ==> #[trigger] bump_last(base, n)[k] == base[k],
        base.len() > 0 ==> bump_last(base, n).last() == (base.last() + n) % 65536,
{
    if base.len() > 0 {
        assert((base.last() + 0) % 65536 == base.last());
        assert(bump_last(base, 0) =~= base);
    }
}

/// The map that a token stream describes from token `i` on: each `beginbfchar`
/// and `beginbfrange` opens a section that updates the map; every other token
/// is skipped. Later entries override earlier ones.
pub open spec fn cmap_from(t: Seq<TokSpec>, i: int, m: CMapView) -> CMapView
    decreases t.len() - i,
{
    if i < 0 || i >= t.len() {
        m
    } else if is_kw(t[i], kw_beginbfchar()) {
        let r = bfchar_section(t, i + 1, m);
        proof {
            lemma_bfchar_bounds(t, i + 1, m);
        }
        cmap_from(t, r.0, r.1)
    } else if is_kw(t[i], kw_beginbfrange()) {
        let r = bfrange_section(t, i + 1, m);
        proof {
            lemma_bfrange_bounds(t, i + 1, m);
        }
        cmap_from(t, r.0, r.1)
    } else {
        cmap_from(t, i + 1, m)
    }
}

/// The code-to-text map that a ToUnicode CMap describes.
pub open spec fn to_unicode_map(bytes: Seq<u8>) -> CMapView {
    cmap_from(scan_from(bytes, 0), 0, Map::empty())
}

pub proof fn lemma_scan_hex_wf(s: Seq<u8>, i: int)
    ensures
        hex_tokens_wf(scan_from(s, i)),
    decreases s.len() - i,
{
    if 0 <= i < s.len() {
        if s[i] == 60 {
            let e = hex_close(s, i + 1);
            lemma_hex_close_bounds(s, i + 1);
            let h = hex_digits_of(s.subrange(i + 1, e));
            assert forall|k: int| 0 <= k < h.len() implies is_hex_digit(#[trigger] h[k]) by {
                s.subrange(i + 1, e).lemma_filter_pred(|b: u8| is_hex_digit(b), k);
            }
            let rest = if e < s.len() {
                scan_from(s, e + 1)
            } else {
                Seq::empty()
            };
            if e < s.len() {
                lemma_scan_hex_wf(s, e + 1);
            }
            assert(scan_from(s, i) == seq![TokSpec::Hex(h)] + rest);
            assert forall|k: int| 0 <= k < scan_from(s, i).len() implies (#[trigger] scan_from(
                s,
                i,
            )[k] matches TokSpec::Hex(hh) ==> all_hex(hh)) by {
                if k > 0 {
                    assert(scan_from(s, i)[k] == rest[k - 1]);
                }
            }
        } else if s[i] == 91 || s[i] == 93 {
            lemma_scan_hex_wf(s, i + 1);
            assert forall|k: int| 0 <= k < scan_from(s, i).len() implies (#[trigger] scan_from(
                s,
                i,
            )[k] matches TokSpec::Hex(hh) ==> all_hex(hh)) by {
                if k > 0 {
                    assert(scan_from(s, i)[k] == scan_from(s, i + 1)[k - 1]);
                }
            }
        } else if is_ascii_alpha(s[i]) {
            let e = word_end(s, i);
            lemma_word_end_bounds(s, i + 1);
            lemma_scan_hex_wf(s, e);
            assert forall|k: int| 0 <= k < scan_from(s, i).len() implies (#[trigger] scan_from(
                s,
                i,
            )[k] matches TokSpec::Hex(hh) ==> all_hex(hh)) by {
                if k > 0 {
                    assert(scan_from(s, i)[k] == scan_from(s, e)[k - 1]);
                }
            }
        } else {
            lemma_scan_hex_wf(s, i + 1);
        }
    }
}

// ---------------------------------------------------------------------------
// Executable section parsers
// ---------------------------------------------------------------------------

/// Is the token the keyword `w`?
fn tok_is_kw(t: &Tok, w: &[char]) -> (r: bool)
    ensures
        r == is_kw(t@, w@),
{
    match t {
        Tok::Kw(k) => chars_equal(k.as_slice(), w),
        _ => false,
    }
}

proof fn lemma_insert_text(m: BTreeMap<u32, String>, m2: BTreeMap<u32, String>, k: u32, v: String)
    requires
        m2@ == m@.insert(k, v),
    ensures
        text_map(m2@) == text_map(m@).insert(k, v@),
{
    assert(text_map(m2@) =~= text_map(m@).insert(k, v@));
}

/// Reads `<src> <dst>` pairs until `endbfchar`; returns the index after the section.
#[verifier::loop_isolation(false)]
fn parse_bfchar(toks: &Vec<Tok>, i: usize, map: &mut BTreeMap<u32, String>) -> (next: usize)
    requires
        hex_tokens_wf(toks_view(toks@)),
    ensures
        (next as int, text_map(final(map)@)) == bfchar_section(
            toks_view(toks@),
            i as int,
            text_map(old(map)@),
        ),
{
    let ghost tv = toks_view(toks@);
    let ghost target = bfchar_section(tv, i as int, text_map(map@));
    let end_kw = ['e', 'n', 'd', 'b', 'f', 'c', 'h', 'a', 'r'];
    assert(end_kw@ =~= kw_endbfchar());
    let mut i = i;
    while i < toks.len()
        invariant
            tv == toks_view(toks@),
            hex_tokens_wf(tv),
            end_kw@ == kw_endbfchar(),
            bfchar_section(tv, i as int, text_map(map@)) == target,
        decreases toks.len() - i,
    {
        assert(tv[i as int] == toks@[i as int]@);
        if tok_is_kw(&toks[i], &end_kw) {
            assert(is_kw(tv[i as int], kw_endbfchar()));
            assert(bfchar_section(tv, i as int, text_map(map@)) == (i + 1, text_map(map@)));
            return i + 1;
        }
        let mut advanced = false;
        if let Tok::Hex(src) = &toks[i] {
            if i + 1 < toks.len() {
                assert(tv[i + 1] == toks@[i + 1]@);
                if let Tok::Hex(dst) = &toks[i + 1] {
                    assert(all_hex(tv[i as int]->Hex_0));
                    assert(all_hex(tv[i + 1]->Hex_0));
                    let code = hex_u32(src);
                    let text = utf16be(dst);
                    let ghost before = *map;
                    map.insert(code, text);
                    proof {
                        lemma_insert_text(before, *map, code, text);
                    }
                    i = i + 2;
                    advanced = true;
                }
            }
        }
        if !advanced {
            i = i + 1;
        }
    }
    i
}

/// `m` with the codes in `lo..stop` filled from the increments of `base`.
pub open spec fn fill_upto(m: CMapView, lo: u32, stop: int, base: Seq<u16>) -> CMapView {
    Map::new(
        |c: u32| m.contains_key(c) || (lo <= c < stop),
        |c: u32|
            if lo <= c < stop {
                range_text(base, c - lo)
            } else {
                m[c]
            },
    )
}

/// Maps every code of `lo..=hi` to successive increments of `base`.
fn fill_incremental(map: &mut BTreeMap<u32, String>, lo: u32, hi: u32, base: &Vec<u16>)
    ensures
        text_map(final(map)@) == fill_range(text_map(old(map)@), lo, hi, base@),
{
    let ghost m0 = text_map(map@);
    let mut code: u64 = lo as u64;
    assert(fill_upto(m0, lo, lo as int, base@) =~= m0);
    while code <= hi as u64
        invariant
            lo <= code,
            code <= hi as u64 + 1 || code == lo,
            text_map(map@) == fill_upto(m0, lo, code as int, base@),
        decreases hi as u64 + 1 - code,
    {
        let n = (code - lo as u64) as u32;
        let s = incremented(base, n);
        let ghost before = *map;
        map.insert(code as u32, s);
        proof {
            lemma_insert_text(before, *map, code as u32, s);
        }
        assert(fill_upto(m0, lo, code + 1, base@) =~= fill_upto(m0, lo, code as int, base@).insert(
            code as u32,
            range_text(base@, code - lo),
        ));
        code = code + 1;
    }
    if lo <= hi {
        assert(fill_upto(m0, lo, code as int, base@) =~= fill_range(m0, lo, hi, base@));
    } else {
        assert(fill_upto(m0, lo, code as int, base@) =~= fill_range(m0, lo, hi, base@));
    }
}

proof fn lemma_bracket_list_past_hi(t: Seq<TokSpec>, j: int, c1: int, c2: int, hi: u32, m: CMapView)
    requires
        c1 > hi,
        c2 > hi,
    ensures
        bracket_list(t, j, c1, hi, m) == bracket_list(t, j, c2, hi, m),
    decreases t.len() - j,
{
    if 0 <= j < t.len() && !(t[j] is RBracket) {
        if t[j] is Hex {
            lemma_bracket_list_past_hi(t, j + 1, c1 + 1, c2 + 1, hi, m);
        } else {
            lemma_bracket_list_past_hi(t, j + 1, c1, c2, hi, m);
        }
    }
}

/// Reads a bracketed destination list starting at token `j` (just after `[`).
#[verifier::loop_isolation(false)]
fn parse_bracket_list(
    toks: &Vec<Tok>,
    j: usize,
    lo: u32,
    hi: u32,
    map: &mut BTreeMap<u32, String>,
) -> (next: usize)
    requires
        hex_tokens_wf(toks_view(toks@)),
    ensures
        (next as int, text_map(final(map)@)) == bracket_list(
            toks_view(toks@),
            j as int,
            lo as int,
            hi,
            text_map(old(map)@),
        ),
{
    let ghost tv = toks_view(toks@);
    let ghost target = bracket_list(tv, j as int, lo as int, hi, text_map(map@));
    let mut j = j;
    let mut code: u64 = if lo <= hi {
        lo as u64
    } else {
        hi as u64 + 1
    };
    let ghost mut spec_code: int = lo as int;
    while j < toks.len()
        invariant
            tv == toks_view(toks@),
            hex_tokens_wf(tv),
            code <= hi as u64 + 1,
            spec_code >= code,
            code <= hi ==> spec_code == code,
            bracket_list(tv, j as int, spec_code, hi, text_map(map@)) == target,
        decreases toks.len() - j,
    {
        assert(tv[j as int] == toks@[j as int]@);
        match &toks[j] {
            Tok::RBracket => {
                return j + 1;
            },
            Tok::Hex(dst) => {
                if code <= hi as u64 {
                    assert(all_hex(tv[j as int]->Hex_0));
                    let text = utf16be(dst);
                    let ghost before = *map;
                    map.insert(code as u32, text);
                    proof {
                        lemma_insert_text(before, *map, code as u32, text);
                    }
                    code = code + 1;
                    proof {
                        spec_code = spec_code + 1;
                    }
                } else {
                    proof {
                        lemma_bracket_list_past_hi(tv, j + 1, spec_code + 1, code as int, hi, text_map(map@));
                        spec_code = code as int;
                    }
                }
                j = j + 1;
            },
            _ => {
                j = j + 1;
            },
        }
    }
    j
}

/// Reads `bfrange` entries until `endbfrange`; returns the index after the section.
#[verifier::loop_isolation(false)]
fn parse_bfrange(toks: &Vec<Tok>, i: usize, map: &mut BTreeMap<u32, String>) -> (next: usize)
    requires
        hex_tokens_wf(toks_view(toks@)),
    ensures
        (next as int, text_map(final(map)@)) == bfrange_section(
            toks_view(toks@),
            i as int,
            text_map(old(map)@),
        ),
{
    let ghost tv = toks_view(toks@);
    let ghost target = bfrange_section(tv, i as int, text_map(map@));
    let end_kw = ['e', 'n', 'd', 'b', 'f', 'r', 'a', 'n', 'g', 'e'];
    assert(end_kw@ =~= kw_endbfrange());
    let mut i = i;
    while i < toks.len()
        invariant
            tv == toks_view(toks@),
            hex_tokens_wf(tv),
            end_kw@ == kw_endbfrange(),
            bfrange_section(tv, i as int, text_map(map@)) == target,
        decreases toks.len() - i,
    {
        assert(tv[i as int] == toks@[i as int]@);
        if tok_is_kw(&toks[i], &end_kw) {
            return i + 1;
        }
        match &toks[i] {
            Tok::Hex(lo_hex) => {
                if !(i + 1 < toks.len()) {
                    return i + 1;
                }
                assert(tv[i + 1] == toks@[i + 1]@);
                let hi_hex = match &toks[i + 1] {
                    Tok::Hex(h) => h,
                    _ => {
                        return i + 1;
                    },
                };
                assert(all_hex(tv[i as int]->Hex_0));
                assert(all_hex(tv[i + 1]->Hex_0));
                let lo = hex_u32(lo_hex);
                let hi = hex_u32(hi_hex);
                if i + 2 < toks.len() {
                    assert(tv[i + 2] == toks@[i + 2]@);
                    match &toks[i + 2] {
                        Tok::Hex(dst) => {
                            assert(all_hex(tv[i + 2]->Hex_0));
                            let base = utf16be_units(dst);
                            fill_incremental(map, lo, hi, &base);
                            i = i + 3;
                        },
                        Tok::LBracket => {
                            proof {
                                lemma_bracket_list_bounds(tv, i + 3, lo as int, hi, text_map(map@));
                            }
                            i = parse_bracket_list(toks, i + 3, lo, hi, map);
                        },
                        _ => {
                            i = i + 2;
                        },
                    }
                } else {
                    i = i + 2;
                }
            },
            _ => {
                i = i + 1;
            },
        }
    }
    i
}

/// Parses a `ToUnicode` CMap into a `code -> Unicode string` map.
#[verifier::loop_isolation(false)]
pub fn parse_to_unicode(bytes: &[u8]) -> (map: BTreeMap<u32, String>)
    ensures
        text_map(map@) == to_unicode_map(bytes@),
{
    let toks = scan(bytes);
    let ghost tv = toks_view(toks@);
    proof {
        lemma_scan_hex_wf(bytes@, 0);
    }
    let begin_char = ['b', 'e', 'g', 'i', 'n', 'b', 'f', 'c', 'h', 'a', 'r'];
    let begin_range = ['b', 'e', 'g', 'i', 'n', 'b', 'f', 'r', 'a', 'n', 'g', 'e'];
    assert(begin_char@ =~= kw_beginbfchar());
    assert(begin_range@ =~= kw_beginbfrange());
    let mut map: BTreeMap<u32, String> = BTreeMap::new();
    assert(text_map(map@) =~= Map::<u32, Seq<char>>::empty());
    let mut i: usize = 0;
    while i < toks.len()
        invariant
            tv == toks_view(toks@),
            hex_tokens_wf(tv),
            begin_char@ == kw_beginbfchar(),
            begin_range@ == kw_beginbfrange(),
            cmap_from(tv, i as int, text_map(map@)) == to_unicode_map(bytes@),
        decreases toks.len() - i,
    {
        assert(tv[i as int] == toks@[i as int]@);
        if tok_is_kw(&toks[i], &begin_char) {
            proof {
                lemma_bfchar_bounds(tv, i + 1, text_map(map@));
            }
            i = parse_bfchar(&toks, i + 1, &mut map);
        } else if tok_is_kw(&toks[i], &begin_range) {
            proof {
                lemma_bfrange_bounds(tv, i + 1, text_map(map@));
            }
            i = parse_bfrange(&toks, i + 1, &mut map);
        } else {
            i = i + 1;
        }
    }
    map
}

} // verus!
