//! Resolve DOCX paragraph style ids to heading levels.
//!
//! A paragraph references a style by id (`w:pPr/w:pStyle @w:val`). A style is a
//! heading when its display name is `heading 1`..`heading 9` (Word's convention,
//! case-insensitive) or its id looks like `Heading{N}`. A `styleId -> level`
//! table is built from `word/styles.xml`; [`heading_level`] falls back to
//! interpreting a `Heading{N}` id directly, so headings still resolve when that
//! part is missing.

use vstd::prelude::*;

use crate::docx::xml::{attr_by_local, attr_by_local_spec, bytes_equal, event_at, XmlCursor, XmlEvent, XmlEventView};
use crate::error::PdfmuseError;
use crate::text::{chars_equal, chars_of, push_chars, string_from_chars};

verus! {

// ---------------------------------------------------------------------------
// Character-level rules
// ---------------------------------------------------------------------------

pub open spec fn is_ascii_digit(c: char) -> bool {
    '0' <= c <= '9'
}

/// The number that a run of decimal digits spells.
pub open spec fn decimal_value(s: Seq<char>) -> int
    decreases s.len(),
{
    if s.len() == 0 {
        0
    } else {
        decimal_value(s.drop_last()) * 10 + (s.last() as int - '0' as int)
    }
}

pub open spec fn all_digits(s: Seq<char>) -> bool {
    forall|i: int| 0 <= i < s.len() ==> is_ascii_digit(#[trigger] s[i])
}

/// An unsigned integer as `str::parse` reads it: an optional `+`, then one or
/// more decimal digits, of value at most `max`.
pub open spec fn parse_unsigned(s: Seq<char>, max: int) -> Option<int> {
    let d = if s.len() > 0 && s[0] == '+' {
        s.skip(1)
    } else {
        s
    };
    if d.len() == 0 || !all_digits(d) || decimal_value(d) > max {
        None
    } else {
        Some(decimal_value(d))
    }
}

/// Unicode's `White_Space` characters (what `char::is_whitespace` accepts).
pub open spec fn is_unicode_whitespace(c: char) -> bool {
    let v = c as u32;
    (0x09 <= v <= 0x0D) || v == 0x20 || v == 0x85 || v == 0xA0 || v == 0x1680 || (0x2000 <= v
        <= 0x200A) || v == 0x2028 || v == 0x2029 || v == 0x202F || v == 0x205F || v == 0x3000
}

pub open spec fn trim_start_spec(s: Seq<char>) -> Seq<char>
    decreases s.len(),
{
    if s.len() > 0 && is_unicode_whitespace(s[0]) {
        trim_start_spec(s.skip(1))
    } else {
        s
    }
}

pub open spec fn trim_end_spec(s: Seq<char>) -> Seq<char>
    decreases s.len(),
{
    if s.len() > 0 && is_unicode_whitespace(s.last()) {
        trim_end_spec(s.drop_last())
    } else {
        s
    }
}

/// `s` without leading and trailing whitespace (`str::trim`).
pub open spec fn trim_spec(s: Seq<char>) -> Seq<char> {
    trim_end_spec(trim_start_spec(s))
}

pub open spec fn lower_char(c: char) -> char {
    if 'A' <= c <= 'Z' {
        ((c as u32) + 32) as char
    } else {
        c
    }
}

/// ASCII letters lowered, everything else kept (`str::to_ascii_lowercase`).
pub open spec fn lower_spec(s: Seq<char>) -> Seq<char> {
    s.map_values(|c: char| lower_char(c))
}

pub open spec fn heading_word() -> Seq<char> {
    seq!['h', 'e', 'a', 'd', 'i', 'n', 'g']
}

pub open spec fn starts_with(s: Seq<char>, p: Seq<char>) -> bool {
    s.len() >= p.len() && s.take(p.len() as int) == p
}

/// A heading level: the digits must read as a `u8` in `1..=9`.
pub open spec fn valid_level_spec(digits: Seq<char>) -> Option<u8> {
    match parse_unsigned(digits, 255) {
        Some(n) => if 1 <= n <= 9 {
            Some(n as u8)
        } else {
            None
        },
        None => None,
    }
}

/// `"heading 3"` gives 3: Word's display-name form, case-insensitive, with
/// surrounding whitespace ignored.
pub open spec fn level_from_name_spec(name: Seq<char>) -> Option<u8> {
    let lower = lower_spec(trim_spec(name));
    if starts_with(lower, heading_word()) {
        valid_level_spec(trim_spec(lower.skip(7)))
    } else {
        None
    }
}

/// `"Heading3"` gives 3: the style-id form, case-insensitive.
pub open spec fn level_from_id_spec(id: Seq<char>) -> Option<u8> {
    let lower = lower_spec(id);
    if starts_with(lower, heading_word()) {
        valid_level_spec(lower.skip(7))
    } else {
        None
    }
}

/// Reads an unsigned decimal number (optional `+`) of value at most `max`.
pub fn parse_unsigned_chars(s: &[char], max: u32) -> (r: Option<u32>)
    ensures
        r is Some ==> parse_unsigned(s@, max as int) == Some(r->0 as int),
        r is None ==> parse_unsigned(s@, max as int) is None,
{
    let start: usize = if s.len() > 0 && s[0] == '+' {
        1
    } else {
        0
    };
    let ghost d = if s@.len() > 0 && s@[0] == '+' {
        s@.skip(1)
    } else {
        s@
    };
    assert(d =~= s@.skip(start as int));
    if start == s.len() {
        return None;
    }
    let mut acc: u64 = 0;
    let mut i: usize = start;
    while i < s.len()
        invariant
            start <= i <= s@.len(),
            d == s@.skip(start as int),
            d == (if s@.len() > 0 && s@[0] == '+' {
                s@.skip(1)
            } else {
                s@
            }),
            d.len() > 0,
            all_digits(d.take(i - start)),
            acc == decimal_value(d.take(i - start)),
            acc <= max,
        decreases s@.len() - i,
    {
        let c = s[i];
        assert(d[i - start] == c);
        if !('0' <= c && c <= '9') {
            assert(!all_digits(d));
            return None;
        }
        assert(d.take(i - start + 1).drop_last() =~= d.take(i - start));
        acc = acc * 10 + ((c as u32) - 48) as u64;
        i = i + 1;
        assert(all_digits(d.take(i - start))) by {
            assert forall|k: int| 0 <= k < i - start implies is_ascii_digit(#[trigger] d.take(i - start)[k]) by {
                if k < i - start - 1 {
                    assert(d.take(i - start)[k] == d.take(i - start - 1)[k]);
                }
            }
        }
        if acc > max as u64 {
            proof {
                lemma_decimal_prefix_monotone(d, i - start);
            }
            return None;
        }
    }
    assert(d.take(i - start) =~= d);
    Some(acc as u32)
}

proof fn lemma_decimal_nonneg(s: Seq<char>)
    requires
        all_digits(s),
    ensures
        decimal_value(s) >= 0,
    decreases s.len(),
{
    if s.len() > 0 {
        assert(all_digits(s.drop_last()));
        lemma_decimal_nonneg(s.drop_last());
        assert(is_ascii_digit(s[s.len() - 1]));
    }
}

proof fn lemma_decimal_prefix_monotone(s: Seq<char>, k: int)
    requires
        0 <= k <= s.len(),
        all_digits(s.take(k)),
    ensures
        all_digits(s) ==> decimal_value(s.take(k)) <= decimal_value(s),
    decreases s.len(),
{
    if k < s.len() && all_digits(s) {
        assert(all_digits(s.drop_last()));
        assert(s.drop_last().take(k) =~= s.take(k));
        lemma_decimal_prefix_monotone(s.drop_last(), k);
        lemma_decimal_nonneg(s.drop_last());
        assert(is_ascii_digit(s[s.len() - 1]));
    } else if k == s.len() {
        assert(s.take(k) =~= s);
    }
}

/// Accept only levels 1..=9 (Word's heading range).
pub fn valid_level(digits: &[char]) -> (r: Option<u8>)
    ensures
        r == valid_level_spec(digits@),
{
    match parse_unsigned_chars(digits, 255) {
        Some(n) => if 1 <= n && n <= 9 {
            Some(n as u8)
        } else {
            None
        },
        None => None,
    }
}

/// Is the character whitespace in Unicode's sense (`char::is_whitespace`)?
pub fn is_whitespace(c: char) -> (r: bool)
    ensures
        r == is_unicode_whitespace(c),
{
    let v = c as u32;
    (0x09 <= v && v <= 0x0D) || v == 0x20 || v == 0x85 || v == 0xA0 || v == 0x1680 || (0x2000 <= v
        && v <= 0x200A) || v == 0x2028 || v == 0x2029 || v == 0x202F || v == 0x205F || v == 0x3000
}

/// The characters without leading and trailing whitespace.
pub fn trim_chars(s: &[char]) -> (r: Vec<char>)
    ensures
        r@ == trim_spec(s@),
{
    let mut a: usize = 0;
    assert(s@.skip(0) =~= s@);
    while a < s.len() && is_whitespace(s[a])
        invariant
            a <= s@.len(),
            trim_start_spec(s@.skip(a as int)) == trim_start_spec(s@),
        decreases s@.len() - a,
    {
        assert(s@.skip(a as int).skip(1) =~= s@.skip(a + 1));
        a = a + 1;
    }
    let ghost st = s@.skip(a as int);
    assert(trim_start_spec(st) == st);
    let mut b: usize = s.len();
    assert(st =~= s@.subrange(a as int, b as int));
    while b > a && is_whitespace(s[b - 1])
        invariant
            a <= b <= s@.len(),
            trim_end_spec(s@.subrange(a as int, b as int)) == trim_end_spec(st),
        decreases b - a,
    {
        assert(s@.subrange(a as int, b as int).drop_last() =~= s@.subrange(a as int, b - 1));
        b = b - 1;
    }
    let mut r: Vec<char> = Vec::new();
    let mut k: usize = a;
    while k < b
        invariant
            a <= k <= b <= s@.len(),
            r@ == s@.subrange(a as int, k as int),
        decreases b - k,
    {
        r.push(s[k]);
        k = k + 1;
        assert(r@ =~= s@.subrange(a as int, k as int));
    }
    r
}

/// ASCII letters lowered, everything else kept.
pub fn lower_chars(s: &[char]) -> (r: Vec<char>)
    ensures
        r@ == lower_spec(s@),
{
    let mut r: Vec<char> = Vec::new();
    let mut i: usize = 0;
    while i < s.len()
        invariant
            i <= s@.len(),
            r@ == lower_spec(s@.take(i as int)),
        decreases s@.len() - i,
    {
        let c = s[i];
        let l = if 'A' <= c && c <= 'Z' {
            ((c as u32 + 32) as u8) as char
        } else {
            c
        };
        assert(l == lower_char(c)) by {
            if 'A' <= c && c <= 'Z' {
                assert((((c as u32 + 32) as u8) as char) == (((c as u32) + 32) as char));
            }
        }
        r.push(l);
        i = i + 1;
        assert(r@ =~= lower_spec(s@.take(i as int)));
    }
    assert(s@.take(i as int) =~= s@);
    r
}

/// The characters after `heading`, when `s` starts with it.
fn after_heading(s: &[char]) -> (r: Option<Vec<char>>)
    ensures
        match r {
            Some(rest) => starts_with(s@, heading_word()) && rest@ == s@.skip(7),
            None => !starts_with(s@, heading_word()),
        },
{
    let word: [char; 7] = ['h', 'e', 'a', 'd', 'i', 'n', 'g'];
    assert(word@ =~= heading_word());
    if s.len() < 7 {
        return None;
    }
    let mut head: Vec<char> = Vec::new();
    let mut rest: Vec<char> = Vec::new();
    let mut i: usize = 0;
    while i < s.len()
        invariant
            s@.len() >= 7,
            i <= s@.len(),
            head@ == s@.take(if i < 7 { i as int } else { 7 }),
            rest@ == if i <= 7 { Seq::<char>::empty() } else { s@.subrange(7, i as int) },
        decreases s@.len() - i,
    {
        if i < 7 {
            head.push(s[i]);
        } else {
            rest.push(s[i]);
        }
        i = i + 1;
        assert(head@ =~= s@.take(if i < 7 { i as int } else { 7 }));
        assert(rest@ =~= if i <= 7 { Seq::<char>::empty() } else { s@.subrange(7, i as int) });
    }
    if chars_equal(head.as_slice(), &word) {
        assert(rest@ =~= s@.skip(7));
        Some(rest)
    } else {
        None
    }
}

/// `"heading 3"` → `3` (Word's display name form, case-insensitive).
pub fn level_from_name(name: &[char]) -> (r: Option<u8>)
    ensures
        r == level_from_name_spec(name@),
{
    let trimmed = trim_chars(name);
    let lower = lower_chars(trimmed.as_slice());
    match after_heading(lower.as_slice()) {
        Some(digits) => {
            let d = trim_chars(digits.as_slice());
            valid_level(d.as_slice())
        },
        None => None,
    }
}

/// `"Heading3"` → `3` (the style-id form, case-insensitive).
pub fn level_from_id(id: &[char]) -> (r: Option<u8>)
    ensures
        r == level_from_id_spec(id@),
{
    let lower = lower_chars(id);
    match after_heading(lower.as_slice()) {
        Some(digits) => valid_level(digits.as_slice()),
        None => None,
    }
}

// ---------------------------------------------------------------------------
// The style table
// ---------------------------------------------------------------------------

/// The table that `entries` describe: later entries override earlier ones.
pub open spec fn entries_map(e: Seq<(String, u8)>) -> Map<Seq<char>, u8>
    decreases e.len(),
{
    if e.len() == 0 {
        Map::empty()
    } else {
        entries_map(e.drop_last()).insert(e.last().0@, e.last().1)
    }
}

/// A `styleId -> heading level` table.
pub struct StyleMap {
    entries: Vec<(String, u8)>,
}

impl View for StyleMap {
    type V = Map<Seq<char>, u8>;

    closed spec fn view(&self) -> Map<Seq<char>, u8> {
        entries_map(self.entries@)
    }
}

proof fn lemma_entries_map_suffix_miss(e: Seq<(String, u8)>, i: int, k: Seq<char>)
    requires
        0 <= i <= e.len(),
        forall|j: int| i <= j < e.len() ==> (#[trigger] e[j]).0@ != k,
    ensures
        entries_map(e).contains_key(k) == entries_map(e.take(i)).contains_key(k),
        entries_map(e).contains_key(k) ==> entries_map(e)[k] == entries_map(e.take(i))[k],
    decreases e.len() - i,
{
    if i < e.len() {
        assert(e.drop_last().take(i) =~= e.take(i));
        lemma_entries_map_suffix_miss(e.drop_last(), i, k);
    } else {
        assert(e.take(i) =~= e);
    }
}

impl StyleMap {
    /// An empty table.
    pub fn new() -> (m: StyleMap)
        ensures
            m@ == Map::<Seq<char>, u8>::empty(),
    {
        StyleMap { entries: Vec::new() }
    }

    /// Records `id -> level`, replacing an earlier level for the same id.
    pub fn insert(&mut self, id: String, level: u8)
        ensures
            final(self)@ == old(self)@.insert(id@, level),
    {
        let ghost e = self.entries@;
        self.entries.push((id, level));
        assert(self.entries@.drop_last() =~= e);
    }

    /// The level recorded for `id`, if any.
    pub fn get(&self, id: &[char]) -> (r: Option<u8>)
        ensures
            r == if self@.contains_key(id@) {
                Some(self@[id@])
            } else {
                None::<u8>
            },
    {
        let ghost e = self.entries@;
        let mut i: usize = self.entries.len();
        while i > 0
            invariant
                e == self.entries@,
                i <= e.len(),
                forall|j: int| i <= j < e.len() ==> (#[trigger] e[j]).0@ != id@,
            decreases i,
        {
            let key = chars_of(self.entries[i - 1].0.as_str());
            if chars_equal(key.as_slice(), id) {
                proof {
                    lemma_entries_map_suffix_miss(e, i as int, id@);
                    assert(e.take(i as int).drop_last() =~= e.take(i - 1));
                }
                return Some(self.entries[i - 1].1);
            }
            i = i - 1;
        }
        proof {
            lemma_entries_map_suffix_miss(e, 0, id@);
        }
        None
    }
}

/// A paragraph style's heading level: the table's entry when there is one,
/// else the `Heading{N}` reading of the id itself.
pub open spec fn heading_level_spec(styles: Map<Seq<char>, u8>, style_id: Seq<char>) -> Option<u8> {
    if styles.contains_key(style_id) {
        Some(styles[style_id])
    } else {
        level_from_id_spec(style_id)
    }
}

/// Resolve a paragraph's `pStyle` id to a heading level.
///
/// Prefers the table built from `styles.xml`, then falls back to reading a
/// `Heading{N}` style id directly.
pub fn heading_level(styles: &StyleMap, style_id: &str) -> (r: Option<u8>)
    ensures
        r == heading_level_spec(styles@, style_id@),
{
    let id = chars_of(style_id);
    if let Some(level) = styles.get(id.as_slice()) {
        return Some(level);
    }
    level_from_id(id.as_slice())
}

// ---------------------------------------------------------------------------
// Reading styles.xml
// ---------------------------------------------------------------------------

/// The ASCII bytes of a name.
pub open spec fn ascii(s: Seq<char>) -> Seq<u8> {
    s.map_values(|c: char| c as u8)
}

pub open spec fn tag_style() -> Seq<u8> {
    ascii(seq!['s', 't', 'y', 'l', 'e'])
}

pub open spec fn tag_name() -> Seq<u8> {
    ascii(seq!['n', 'a', 'm', 'e'])
}

pub open spec fn attr_style_id() -> Seq<u8> {
    ascii(seq!['s', 't', 'y', 'l', 'e', 'I', 'd'])
}

pub open spec fn attr_val() -> Seq<u8> {
    ascii(seq!['v', 'a', 'l'])
}

/// The message of a fatal XML error in a DOCX part.
pub open spec fn xml_message(e: Seq<char>) -> Seq<char> {
    "invalid DOCX XML: "@ + e
}

pub open spec fn opt_string_view(o: Option<String>) -> Option<Seq<char>> {
    match o {
        Some(s) => Some(s@),
        None => None,
    }
}

/// A `w:name` element inside the style `id`: a heading display name gives the
/// level, else the id's own `Heading{N}` form does.
pub open spec fn name_update(cur: Option<Seq<char>>, t: crate::docx::xml::XmlTagView, m: Map<Seq<char>, u8>) -> Map<Seq<char>, u8> {
    match cur {
        Some(id) => {
            let name = match attr_by_local_spec(t.attrs, attr_val()) {
                Some(v) => v,
                None => Seq::empty(),
            };
            match level_from_name_spec(name) {
                Some(l) => m.insert(id, l),
                None => match level_from_id_spec(id) {
                    Some(l) => m.insert(id, l),
                    None => m,
                },
            }
        },
        None => m,
    }
}

/// The style table that the events of `styles.xml` from the `k`-th on build,
/// inside the style `cur`, onto `m`: `<w:style w:styleId>` opens a style,
/// `<w:name w:val>` (start or empty) names it, `</w:style>` closes it; the end
/// of input finishes, and an XML error is fatal.
pub open spec fn styles_from(xml: Seq<u8>, k: int, cur: Option<Seq<char>>, m: Map<Seq<char>, u8>) -> Result<Map<Seq<char>, u8>, Seq<char>>
    decreases xml.len() + 1 - k,
{
    if k < 0 || k > xml.len() {
        Ok(m)
    } else {
        match event_at(xml, k) {
            Err(e) => Err(xml_message(e)),
            Ok(XmlEventView::Start(t)) => if t.name == tag_style() {
                styles_from(xml, k + 1, attr_by_local_spec(t.attrs, attr_style_id()), m)
            } else if t.name == tag_name() {
                styles_from(xml, k + 1, cur, name_update(cur, t, m))
            } else {
                styles_from(xml, k + 1, cur, m)
            },
            Ok(XmlEventView::Empty(t)) => if t.name == tag_name() {
                styles_from(xml, k + 1, cur, name_update(cur, t, m))
            } else {
                styles_from(xml, k + 1, cur, m)
            },
            Ok(XmlEventView::End(n)) => if n == tag_style() {
                styles_from(xml, k + 1, None, m)
            } else {
                styles_from(xml, k + 1, cur, m)
            },
            Ok(XmlEventView::Eof) => Ok(m),
            Ok(_) => styles_from(xml, k + 1, cur, m),
        }
    }
}

/// The style table of a `styles.xml` part, or its fatal XML error message.
pub open spec fn styles_spec(xml: Seq<u8>) -> Result<Map<Seq<char>, u8>, Seq<char>> {
    styles_from(xml, 0, None, Map::empty())
}

fn update_from_name(map: &mut StyleMap, cur: &Option<String>, t: &crate::docx::xml::XmlTag)
    ensures
        final(map)@ == name_update(opt_string_view(*cur), t@, old(map)@),
{
    if let Some(id) = cur {
        let val: [u8; 3] = ['v' as u8, 'a' as u8, 'l' as u8];
        assert(val@ =~= attr_val());
        let name = match attr_by_local(t, &val) {
            Some(v) => chars_of(v.as_str()),
            None => Vec::new(),
        };
        let id_chars = chars_of(id.as_str());
        match level_from_name(name.as_slice()) {
            Some(l) => map.insert(id.clone(), l),
            None => match level_from_id(id_chars.as_slice()) {
                Some(l) => map.insert(id.clone(), l),
                None => {},
            },
        }
    }
}

/// Parse `word/styles.xml` into a `styleId -> heading level (1..=9)` table.
pub fn parse_styles(xml: &[u8]) -> (r: Result<StyleMap, PdfmuseError>)
    ensures
        r is Ok ==> styles_spec(xml@) == Ok::<Map<Seq<char>, u8>, Seq<char>>(r->Ok_0@),
        r is Err ==> (r->Err_0 matches PdfmuseError::Malformed(m) && styles_spec(xml@) == Err::<
            Map<Seq<char>, u8>,
            Seq<char>,
        >(m@)),
{
    let style: [u8; 5] = ['s' as u8, 't' as u8, 'y' as u8, 'l' as u8, 'e' as u8];
    let name: [u8; 4] = ['n' as u8, 'a' as u8, 'm' as u8, 'e' as u8];
    let style_id: [u8; 7] = ['s' as u8, 't' as u8, 'y' as u8, 'l' as u8, 'e' as u8, 'I' as u8, 'd' as u8];
    assert(style@ =~= tag_style());
    assert(name@ =~= tag_name());
    assert(style_id@ =~= attr_style_id());
    let mut cur = XmlCursor::open(xml);
    let mut map = StyleMap::new();
    let mut current_id: Option<String> = None;
    loop
        invariant
            style@ == tag_style(),
            name@ == tag_name(),
            style_id@ == attr_style_id(),
            cur.input() == xml@,
            0 <= cur.pos() <= xml@.len() + 1,
            styles_from(xml@, cur.pos(), opt_string_view(current_id), map@) == styles_spec(xml@),
        decreases xml@.len() + 1 - cur.pos(),
    {
        let ev = cur.next();
        match ev {
            Err(e) => {
                return Err(crate::error::malformed_with("invalid DOCX XML: ", e.as_str()));
            },
            Ok(XmlEvent::Start(t)) => {
                if bytes_equal(t.name.as_slice(), &style) {
                    current_id = attr_by_local(&t, &style_id);
                } else if bytes_equal(t.name.as_slice(), &name) {
                    update_from_name(&mut map, &current_id, &t);
                }
            },
            Ok(XmlEvent::Empty(t)) => {
                if bytes_equal(t.name.as_slice(), &name) {
                    update_from_name(&mut map, &current_id, &t);
                }
            },
            Ok(XmlEvent::End(n)) => {
                if bytes_equal(n.as_slice(), &style) {
                    current_id = None;
                }
            },
            Ok(XmlEvent::Eof) => {
                return Ok(map);
            },
            Ok(_) => {},
        }
    }
}


/// Every level of the table lies in Word's heading range `1..=9`.
pub open spec fn levels_in_range(m: Map<Seq<char>, u8>) -> bool {
    forall|k: Seq<char>| #[trigger] m.contains_key(k) ==> 1 <= m[k] <= 9
}

proof fn lemma_styles_from_in_range(xml: Seq<u8>, k: int, cur: Option<Seq<char>>, m: Map<Seq<char>, u8>)
    requires
        levels_in_range(m),
    ensures
        styles_from(xml, k, cur, m) matches Ok(r) ==> levels_in_range(r),
    decreases xml.len() + 1 - k,
{
    if 0 <= k <= xml.len() {
        match event_at(xml, k) {
            Err(e) => {},
            Ok(XmlEventView::Start(t)) => {
                if t.name == tag_style() {
                    lemma_styles_from_in_range(xml, k + 1, attr_by_local_spec(t.attrs, attr_style_id()), m);
                } else if t.name == tag_name() {
                    assert(levels_in_range(name_update(cur, t, m)));
                    lemma_styles_from_in_range(xml, k + 1, cur, name_update(cur, t, m));
                } else {
                    lemma_styles_from_in_range(xml, k + 1, cur, m);
                }
            },
            Ok(XmlEventView::Empty(t)) => {
                if t.name == tag_name() {
                    assert(levels_in_range(name_update(cur, t, m)));
                    lemma_styles_from_in_range(xml, k + 1, cur, name_update(cur, t, m));
                } else {
                    lemma_styles_from_in_range(xml, k + 1, cur, m);
                }
            },
            Ok(XmlEventView::End(n)) => {
                if n == tag_style() {
                    lemma_styles_from_in_range(xml, k + 1, None, m);
                } else {
                    lemma_styles_from_in_range(xml, k + 1, cur, m);
                }
            },
            Ok(XmlEventView::Eof) => {},
            Ok(_) => {
                lemma_styles_from_in_range(xml, k + 1, cur, m);
            },
        }
    }
}

/// Heading levels always lie in Word's range `1..=9`: out-of-range levels
/// are rejected, whether they come from `styles.xml` or from a style id.
pub proof fn lemma_heading_levels_in_range(xml: Seq<u8>, style_id: Seq<char>)
    ensures
        styles_spec(xml) matches Ok(m) ==> (heading_level_spec(m, style_id) matches Some(n) ==> 1 <= n
            <= 9),
        level_from_id_spec(style_id) matches Some(n) ==> 1 <= n <= 9,
{
    lemma_styles_from_in_range(xml, 0, None, Map::empty());
}

} // verus!
