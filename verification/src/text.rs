//! Character-level helpers shared by the parsers and renderers: building
//! strings, comparing character runs, and decoding UTF-16.

use vstd::prelude::*;
use vstd::string::StringExecFns;

verus! {

/// A Unicode scalar value: at most U+10FFFF and not a surrogate.
pub open spec fn is_scalar_value(v: int) -> bool {
    0 <= v <= 0x10FFFF && !(0xD800 <= v <= 0xDFFF)
}

/// The replacement character that lossy decoders emit for invalid input.
pub open spec fn replacement_char() -> char {
    '\u{FFFD}'
}

/// Appends one character to a string: std's `String::push`.
/// The contract claims that the new contents are the old contents followed by `c`.
#[verifier::external_body]
pub(crate) fn push_char(s: &mut String, c: char)
    ensures
        final(s)@ == old(s)@.push(c),
{
    s.push(c);
}

/// std's `char::from_u32`. The contract claims what its documentation states:
/// it returns the character with code point `v` exactly when `v` is a Unicode
/// scalar value, and `None` otherwise.
#[verifier::external_body]
pub(crate) fn char_from_u32(v: u32) -> (r: Option<char>)
    ensures
        r is Some <==> is_scalar_value(v as int),
        r matches Some(c) ==> c as u32 == v && c == v as char,
{
    char::from_u32(v)
}

/// A string holding exactly the characters of `cs`.
pub fn string_from_chars(cs: &[char]) -> (s: String)
    ensures
        s@ == cs@,
{
    let mut s = String::new();
    let mut i: usize = 0;
    while i < cs.len()
        invariant
            i <= cs.len(),
            s@ == cs@.subrange(0, i as int),
        decreases cs.len() - i,
    {
        push_char(&mut s, cs[i]);
        i = i + 1;
        assert(s@ =~= cs@.subrange(0, i as int));
    }
    assert(cs@.subrange(0, cs@.len() as int) =~= cs@);
    s
}

/// Appends every character of `cs` to `s`.
pub fn push_chars(s: &mut String, cs: &[char])
    ensures
        final(s)@ == old(s)@ + cs@,
{
    let mut i: usize = 0;
    while i < cs.len()
        invariant
            i <= cs.len(),
            s@ == old(s)@ + cs@.subrange(0, i as int),
        decreases cs.len() - i,
    {
        push_char(s, cs[i]);
        i = i + 1;
        assert(s@ =~= old(s)@ + cs@.subrange(0, i as int));
    }
    assert(cs@.subrange(0, cs@.len() as int) =~= cs@);
}

/// The characters of a string slice, in order.
pub fn chars_of(s: &str) -> (cs: Vec<char>)
    ensures
        cs@ == s@,
{
    let mut cs: Vec<char> = Vec::new();
    for c in it: s.chars()
        invariant
            it.seq() == s@,
            cs@ == s@.take(it.index() as int),
    {
        cs.push(c);
    }
    cs
}

/// Is the code unit a leading (high) surrogate?
pub open spec fn is_high_surrogate(u: u16) -> bool {
    0xD800 <= u <= 0xDBFF
}

/// Is the code unit a trailing (low) surrogate?
pub open spec fn is_low_surrogate(u: u16) -> bool {
    0xDC00 <= u <= 0xDFFF
}

/// The code point that a surrogate pair stands for.
pub open spec fn pair_code_point(hi: u16, lo: u16) -> int {
    0x10000 + (hi - 0xD800) * 0x400 + (lo - 0xDC00)
}

/// Lossy UTF-16 decoding: a well-formed surrogate pair yields one character,
/// an unpaired surrogate yields U+FFFD, any other unit stands for itself.
pub open spec fn decode_utf16(u: Seq<u16>) -> Seq<char>
    decreases u.len(),
{
    if u.len() == 0 {
        Seq::empty()
    } else if is_high_surrogate(u[0]) && u.len() >= 2 && is_low_surrogate(u[1]) {
        seq![pair_code_point(u[0], u[1]) as char] + decode_utf16(u.skip(2))
    } else if is_high_surrogate(u[0]) || is_low_surrogate(u[0]) {
        seq![replacement_char()] + decode_utf16(u.skip(1))
    } else {
        seq![u[0] as char] + decode_utf16(u.skip(1))
    }
}

/// Decodes UTF-16 code units into a string, replacing each unpaired surrogate
/// with U+FFFD (the behaviour of std's `String::from_utf16_lossy`).
pub fn decode_utf16_lossy(units: &[u16]) -> (s: String)
    ensures
        s@ == decode_utf16(units@),
{
    broadcast use vstd::utf8::char_u32_cast;

    let mut s = String::new();
    let mut i: usize = 0;
    assert(units@.skip(0) =~= units@);
    while i < units.len()
        invariant
            i <= units.len(),
            s@ + decode_utf16(units@.skip(i as int)) == decode_utf16(units@),
        decreases units.len() - i,
    {
        let ghost rest = units@.skip(i as int);
        let u = units[i];
        if 0xD800 <= u && u <= 0xDBFF && i + 1 < units.len() && 0xDC00 <= units[i + 1]
            && units[i + 1] <= 0xDFFF {
            let lo = units[i + 1];
            let cp: u32 = 0x10000 + ((u as u32) - 0xD800) * 0x400 + ((lo as u32) - 0xDC00);
            assert(rest.skip(2) =~= units@.skip(i + 2));
            let c = char_from_u32(cp);
            match c {
                Some(c) => {
                    let ghost before = s@;
                    push_char(&mut s, c);
                    proof {
                        vstd::utf8::char_u32_cast(c, cp);
                    }
                    assert(pair_code_point(rest[0], rest[1]) == cp as int);
                    assert(decode_utf16(rest) == seq![c] + decode_utf16(units@.skip(i + 2)));
                    assert(s@ + decode_utf16(units@.skip(i + 2)) =~= before + decode_utf16(rest));
                },
                None => {
                    assert(false);
                },
            }
            i = i + 2;
        } else if 0xD800 <= u && u <= 0xDFFF {
            assert(rest.skip(1) =~= units@.skip(i + 1));
            let ghost before = s@;
            push_char(&mut s, '\u{FFFD}');
            assert(decode_utf16(rest) == seq![replacement_char()] + decode_utf16(units@.skip(i + 1)));
            assert(s@ + decode_utf16(units@.skip(i + 1)) =~= before + decode_utf16(rest));
            i = i + 1;
        } else {
            assert(rest.skip(1) =~= units@.skip(i + 1));
            let c = char_from_u32(u as u32);
            match c {
                Some(c) => {
                    let ghost before = s@;
                    push_char(&mut s, c);
                    proof {
                        vstd::utf8::char_u32_cast(c, u as u32);
                    }
                    assert((rest[0] as char) == c);
                    assert(decode_utf16(rest) == seq![c] + decode_utf16(units@.skip(i + 1)));
                    assert(s@ + decode_utf16(units@.skip(i + 1)) =~= before + decode_utf16(rest));
                },
                None => {
                    assert(false);
                },
            }
            i = i + 1;
        }
    }
    assert(units@.skip(units@.len() as int) =~= Seq::<u16>::empty());
    s
}

/// Do the two character runs hold the same characters?
pub fn chars_equal(a: &[char], b: &[char]) -> (r: bool)
    ensures
        r == (a@ == b@),
{
    if a.len() != b.len() {
        return false;
    }
    let mut i: usize = 0;
    while i < a.len()
        invariant
            a.len() == b.len(),
            i <= a.len(),
            a@.subrange(0, i as int) == b@.subrange(0, i as int),
        decreases a.len() - i,
    {
        if a[i] != b[i] {
            assert(a@[i as int] != b@[i as int]);
            return false;
        }
        i = i + 1;
        assert(a@.subrange(0, i as int) =~= a@.subrange(0, i - 1).push(a@[i - 1]));
        assert(b@.subrange(0, i as int) =~= b@.subrange(0, i - 1).push(b@[i - 1]));
    }
    assert(a@ =~= a@.subrange(0, a@.len() as int));
    assert(b@ =~= b@.subrange(0, b@.len() as int));
    true
}

/// The characters of each string, in order.
pub open spec fn strings_view(v: Seq<String>) -> Seq<Seq<char>> {
    v.map_values(|s: String| s@)
}

pub proof fn lemma_strings_view_push(v: Seq<String>, x: String)
    ensures
        strings_view(v.push(x)) == strings_view(v).push(x@),
{
    assert(strings_view(v.push(x)) =~= strings_view(v).push(x@));
}

/// The parts, in order, with `sep` between each two neighbours.
pub open spec fn join(parts: Seq<Seq<char>>, sep: Seq<char>) -> Seq<char>
    decreases parts.len(),
{
    if parts.len() == 0 {
        Seq::empty()
    } else if parts.len() == 1 {
        parts[0]
    } else {
        join(parts.drop_last(), sep) + sep + parts.last()
    }
}

/// Joins the strings with `sep` between neighbours.
pub fn join_strings(parts: &Vec<String>, sep: &[char]) -> (s: String)
    ensures
        s@ == join(strings_view(parts@), sep@),
{
    let ghost pv = strings_view(parts@);
    let mut s = String::new();
    let mut i: usize = 0;
    while i < parts.len()
        invariant
            pv == strings_view(parts@),
            i <= parts.len(),
            s@ == join(pv.take(i as int), sep@),
        decreases parts.len() - i,
    {
        assert(pv.take(i + 1).drop_last() =~= pv.take(i as int));
        assert(pv.take(i + 1).last() == parts@[i as int]@);
        if i > 0 {
            push_chars(&mut s, sep);
        } else {
            assert(pv.take(0) =~= Seq::<Seq<char>>::empty());
        }
        s.append(parts[i].as_str());
        i = i + 1;
    }
    assert(pv.take(i as int) =~= pv);
    s
}

} // verus!
