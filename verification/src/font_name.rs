//! Telling a legacy layout by the name of its font.

use vstd::prelude::*;
use vstd::utf8::encode_utf8;
use crate::tables::{
    strictly_increasing, tables_are_sorted, LegacyTable, FONTASY_HIMALI, KANTIPUR, PCS_NEPALI,
    PREETI, SAGARMATHA,
};
use crate::text::{chars_of, text_of};

verus! {

/// Weight and flavour suffixes vary per foundry but never change the layout.
pub const SUFFIXES: [&'static str; 7] = ["normal", "regular", "bold", "italic", "mt", "ps", "tt"];

/// The value of an ASCII hexadecimal digit.
pub open spec fn hex_value(byte: u8) -> Option<u8> {
    if 0x30 <= byte <= 0x39 {
        Some((byte - 0x30) as u8)
    } else if 0x41 <= byte <= 0x46 {
        Some((byte - 0x41 + 10) as u8)
    } else if 0x61 <= byte <= 0x66 {
        Some((byte - 0x61 + 10) as u8)
    } else {
        None
    }
}

/// The number that two hexadecimal digits write.
pub open spec fn hex_pair(first: u8, second: u8) -> Option<u8> {
    match (hex_value(first), hex_value(second)) {
        (Some(high), Some(low)) => Some((high * 16 + low) as u8),
        _ => None,
    }
}

/// The byte that an escape at `i` stands for: a `#` and two hexadecimal digits.
pub open spec fn escape_at(bytes: Seq<u8>, i: int) -> Option<u8> {
    if 0 <= i && i + 2 < bytes.len() && bytes[i] == 0x23 {
        hex_pair(bytes[i + 1], bytes[i + 2])
    } else {
        None
    }
}

/// `bytes[i..]` with its escapes resolved, each byte read as the character of
/// that number.
pub open spec fn unescaped_from(bytes: Seq<u8>, i: int) -> Seq<char>
    decreases bytes.len() - i,
{
    if i < 0 || i >= bytes.len() {
        Seq::empty()
    } else {
        match escape_at(bytes, i) {
            Some(byte) => seq![byte as char] + unescaped_from(bytes, i + 3),
            None => seq![bytes[i] as char] + unescaped_from(bytes, i + 1),
        }
    }
}

/// `name` with its escapes resolved; a name without a `#` is left alone.
pub open spec fn unescaped(name: Seq<char>) -> Seq<char> {
    if name.contains('#') {
        unescaped_from(encode_utf8(name), 0)
    } else {
        name
    }
}

/// What follows the last plus sign of a name, or all of it.
pub open spec fn stem(name: Seq<char>) -> Seq<char>
    decreases name.len(),
{
    if name.len() == 0 || name.last() == '+' {
        Seq::empty()
    } else {
        stem(name.drop_last()).push(name.last())
    }
}

/// An ASCII letter or digit.
pub open spec fn ascii_alphanumeric(c: char) -> bool {
    ||| '0' <= c <= '9'
    ||| 'A' <= c <= 'Z'
    ||| 'a' <= c <= 'z'
}

/// An ASCII letter in lower case; anything else as it is.
pub open spec fn ascii_lower(c: char) -> char {
    if 'A' <= c <= 'Z' {
        (c as u8 + 32) as char
    } else {
        c
    }
}

/// The ASCII letters and digits of a name, in lower case.
pub open spec fn squeezed(name: Seq<char>) -> Seq<char>
    decreases name.len(),
{
    if name.len() == 0 {
        Seq::empty()
    } else {
        let before = squeezed(name.drop_last());
        if ascii_alphanumeric(name.last()) {
            before.push(ascii_lower(name.last()))
        } else {
            before
        }
    }
}

/// A known suffix ends `name`, with something in front of it.
pub open spec fn suffix_ends(name: Seq<char>, k: int) -> bool {
    &&& 0 <= k < 7
    &&& SUFFIXES[k]@.len() < name.len()
    &&& SUFFIXES[k]@.is_suffix_of(name)
}

/// `name` without its suffixes: whichever of them ends it is taken off, as long
/// as something is left, until none does.
pub open spec fn bare(name: Seq<char>) -> Seq<char>
    decreases name.len(),
{
    if exists|k: int| #[trigger] suffix_ends(name, k) {
        let k = choose|k: int| #[trigger] suffix_ends(name, k);
        proof {
            if suffix_ends(name, k) {
                suffixes_are_told_apart(k, k);
            }
        }
        bare(name.take(name.len() - SUFFIXES[k]@.len()))
    } else {
        name
    }
}

/// The name that a layout goes by.
pub open spec fn normalized(base_font: Seq<char>) -> Seq<char> {
    bare(squeezed(unescaped(stem(base_font))))
}

/// The known suffixes have at least two letters, and no two of them end in the
/// same two.
pub proof fn suffixes_are_told_apart(j: int, k: int)
    requires
        0 <= j < 7,
        0 <= k < 7,
    ensures
        SUFFIXES[j]@.len() >= 2,
        SUFFIXES[k]@.len() >= 2,
        j != k ==> SUFFIXES[j]@.last() != SUFFIXES[k]@.last() || SUFFIXES[j]@[SUFFIXES[j]@.len()
            - 2] != SUFFIXES[k]@[SUFFIXES[k]@.len() - 2],
{
    reveal_strlit("normal");
    reveal_strlit("regular");
    reveal_strlit("bold");
    reveal_strlit("italic");
    reveal_strlit("mt");
    reveal_strlit("ps");
    reveal_strlit("tt");
}

/// At most one suffix ends a name, so it does not matter which is looked for
/// first.
pub proof fn one_suffix_ends_a_name(name: Seq<char>, j: int, k: int)
    requires
        suffix_ends(name, j),
        suffix_ends(name, k),
    ensures
        j == k,
{
    suffixes_are_told_apart(j, k);
    let n = name.len();
    let (x, y) = (SUFFIXES[j]@, SUFFIXES[k]@);
    assert(x =~= name.subrange(n - x.len(), n as int));
    assert(y =~= name.subrange(n - y.len(), n as int));
    assert(x[x.len() - 2] == name[n - 2]);
    assert(y[y.len() - 2] == name[n - 2]);
    assert(x.last() == name[n - 1]);
    assert(y.last() == name[n - 1]);
}

/// A suffix that ends a name is the one that is taken off it.
pub proof fn ending_suffix_is_taken_off(name: Seq<char>, k: int)
    requires
        suffix_ends(name, k),
    ensures
        bare(name) == bare(name.take(name.len() - SUFFIXES[k]@.len())),
{
    let chosen = choose|k: int| #[trigger] suffix_ends(name, k);
    one_suffix_ends_a_name(name, chosen, k);
}

/// The names of the legacy fonts.
pub open spec fn listed_name(name: Seq<char>) -> bool {
    ||| name == "preeti"@
    ||| name == "ganesh"@
    ||| name == "ganess"@
    ||| name == "aakar"@
    ||| name == "arap002"@
    ||| name == "himalb"@
    ||| name == "himalli"@
    ||| name == "fontasyhimali"@
    ||| name == "kantipur"@
    ||| name == "pcsnepali"@
    ||| name == "sagarmatha"@
}

/// The layout that goes by a normalized name.
pub open spec fn layout_named(name: Seq<char>) -> Option<Seq<(u8, &'static str)>> {
    if name == "preeti"@ || name == "ganesh"@ || name == "ganess"@ || name == "aakar"@ || name
        == "arap002"@ || name == "himalb"@ || name == "himalli"@ {
        Some(PREETI@)
    } else if name == "fontasyhimali"@ {
        Some(FONTASY_HIMALI@)
    } else if name == "kantipur"@ {
        Some(KANTIPUR@)
    } else if name == "pcsnepali"@ {
        Some(PCS_NEPALI@)
    } else if name == "sagarmatha"@ {
        Some(SAGARMATHA@)
    } else {
        None
    }
}

fn same_text(name: &String, label: &str) -> (same: bool)
    ensures
        same == (name@ == label@),
{
    *name == label.to_string()
}

/// Match a `/BaseFont` name against the legacy Nepali layouts.
///
/// Matching is on the font name alone and deliberately outranks any
/// `/ToUnicode` the file carries: these fonts either omit it or ship a Latin
/// identity map that decodes to gibberish, so the name is the stronger
/// evidence. Names are compared with the subset prefix, case, separators, and
/// the weight/variant suffixes foundries tack on all removed, which is what
/// collapses `CICECD+FONTASYHIMALITTNORMAL` and `Fontasy Himali` onto one
/// table.
///
/// The Preeti list is longer than its name suggests: Nepali publishers ship a
/// crowd of relabelled clones that share the layout exactly. Membership here is
/// measured, not assumed — the two layouts swap the digit row against a set of
/// consonants, so decoding a sample both ways says plainly which one a font
/// wants (`ARAP002` yields `नेपाल राष्ट्र बैंक` under Preeti and mojibake under
/// Himali; `FontasyHimali` is the other way round).
pub fn legacy_table(base_font: &str) -> (table: Option<LegacyTable>)
    ensures
        table is Some <==> layout_named(normalized(base_font@)) is Some,
        table matches Some(table) ==> {
            &&& layout_named(normalized(base_font@)) == Some(table@)
            &&& strictly_increasing(table@)
        },
        table is Some <==> listed_name(normalized(base_font@)),
{
    // Names only, so an unlisted clone falls through and shows as Latin. That
    // is the intended failure: visibly untranslated beats silently wrong
    // Devanagari. To add one, decode a sample under both tables and follow the
    // digit row.
    let name = normalize_font_name(base_font);
    proof {
        tables_are_sorted();
    }
    if same_text(&name, "preeti") || same_text(&name, "ganesh") || same_text(&name, "ganess")
        || same_text(&name, "aakar") || same_text(&name, "arap002") || same_text(&name, "himalb")
        || same_text(&name, "himalli") {
        Some(PREETI.as_slice())
    } else if same_text(&name, "fontasyhimali") {
        Some(FONTASY_HIMALI.as_slice())
    } else if same_text(&name, "kantipur") {
        Some(KANTIPUR.as_slice())
    } else if same_text(&name, "pcsnepali") {
        Some(PCS_NEPALI.as_slice())
    } else if same_text(&name, "sagarmatha") {
        Some(SAGARMATHA.as_slice())
    } else {
        None
    }
}

/// What follows the last plus sign of a name, or all of it.
fn stem_of(name: &str) -> (rest: String)
    ensures
        rest@ == stem(name@),
{
    let chars = chars_of(name);
    let mut kept: Vec<char> = Vec::new();
    let mut i: usize = 0;
    while i < chars.len()
        invariant
            i <= chars.len(),
            chars@ == name@,
            kept@ == stem(name@.take(i as int)),
        decreases chars.len() - i,
    {
        assert(name@.take(i + 1).drop_last() == name@.take(i as int));
        if chars[i] == '+' {
            kept = Vec::new();
        } else {
            kept.push(chars[i]);
        }
        i += 1;
    }
    assert(name@.take(name@.len() as int) == name@);
    text_of(&kept)
}

/// Whether a suffix ends a name, with something in front of it.
fn ends_in(name: &[char], suffix: &[char]) -> (ends: bool)
    ensures
        ends == (suffix@.len() < name@.len() && suffix@.is_suffix_of(name@)),
{
    if suffix.len() >= name.len() {
        return false;
    }
    let base: usize = name.len() - suffix.len();
    let mut k: usize = 0;
    while k < suffix.len()
        invariant
            k <= suffix.len() < name.len(),
            base == name.len() - suffix.len(),
            forall|j: int| 0 <= j < k ==> name@[base + j] == suffix@[j],
        decreases suffix.len() - k,
    {
        if name[base + k] != suffix[k] {
            assert(!suffix@.is_suffix_of(name@)) by {
                if suffix@.is_suffix_of(name@) {
                    assert(suffix@[k as int] == name@.subrange(
                        base as int,
                        name@.len() as int,
                    )[k as int]);
                }
            }
            return false;
        }
        k += 1;
    }
    assert(suffix@ =~= name@.subrange(base as int, name@.len() as int));
    true
}

/// Take the suffix that ends a name off it, or tell that none does.
fn strip_suffix(name: &mut Vec<char>) -> (stripped: bool)
    ensures
        bare(final(name)@) == bare(old(name)@),
        stripped ==> final(name)@.len() < old(name)@.len(),
        !stripped ==> final(name)@ == old(name)@ && forall|k: int|
            !#[trigger] suffix_ends(old(name)@, k),
{
    let mut n: usize = 0;
    while n < 7
        invariant
            n <= 7,
            name@ == old(name)@,
            forall|k: int| 0 <= k < n ==> !#[trigger] suffix_ends(name@, k),
        decreases 7 - n,
    {
        let suffix = chars_of(SUFFIXES[n]);
        if ends_in(name.as_slice(), &suffix) {
            proof {
                assert(suffix_ends(name@, n as int));
                ending_suffix_is_taken_off(name@, n as int);
                suffixes_are_told_apart(n as int, n as int);
            }
            let rest: usize = name.len() - suffix.len();
            assert(name@.take(rest as int) == name@.subrange(0, rest as int));
            name.truncate(rest);
            return true;
        }
        n += 1;
    }
    false
}

/// `/CICECD+FONTASYHIMALITTNORMAL` and `/Fontasy#20Himali` → `fontasyhimali`.
pub fn normalize_font_name(base_font: &str) -> (name: String)
    ensures
        name@ == normalized(base_font@),
{
    let stem = stem_of(base_font);
    let decoded = chars_of(decode_name_escapes(stem.as_str()).as_str());
    let mut name: Vec<char> = Vec::new();
    let mut i: usize = 0;
    while i < decoded.len()
        invariant
            i <= decoded.len(),
            name@ == squeezed(decoded@.take(i as int)),
        decreases decoded.len() - i,
    {
        let ch = decoded[i];
        assert(decoded@.take(i + 1).drop_last() == decoded@.take(i as int));
        if matches!(ch, '0'..='9' | 'a'..='z') {
            name.push(ch);
        } else if matches!(ch, 'A'..='Z') {
            name.push((ch as u8 + 32) as char);
        }
        i += 1;
    }
    assert(decoded@.take(decoded@.len() as int) == decoded@);
    let ghost full = name@;
    let mut more = true;
    while more
        invariant
            bare(name@) == bare(full),
            !more ==> forall|k: int| !#[trigger] suffix_ends(name@, k),
        decreases name.len(), more as int,
    {
        more = strip_suffix(&mut name);
    }
    text_of(&name)
}

fn hex_digit(byte: u8) -> (value: Option<u8>)
    ensures
        value == hex_value(byte),
{
    match byte {
        0x30..=0x39 => Some(byte - 0x30),
        0x41..=0x46 => Some(byte - 0x41 + 10),
        0x61..=0x66 => Some(byte - 0x61 + 10),
        _ => None,
    }
}

fn hex_byte(first: u8, second: u8) -> (value: Option<u8>)
    ensures
        value == hex_pair(first, second),
{
    match (hex_digit(first), hex_digit(second)) {
        (Some(high), Some(low)) => Some(high * 16 + low),
        _ => None,
    }
}

/// Resolve `#XX` escapes in a PDF name, so `Fontasy#20Himali` does not
/// normalize to `fontasy20himali` and miss its table. A no-op once the parser
/// has already unescaped the name.
pub fn decode_name_escapes(name: &str) -> (decoded: String)
    ensures
        decoded@ == unescaped(name@),
{
    let chars = chars_of(name);
    let mut k: usize = 0;
    while k < chars.len() && chars[k] != '#'
        invariant
            k <= chars.len(),
            chars@ == name@,
            forall|j: int| 0 <= j < k ==> name@[j] != '#',
        decreases chars.len() - k,
    {
        k += 1;
    }
    if k == chars.len() {
        assert(!name@.contains('#'));
        return name.to_string();
    }
    assert(name@[k as int] == '#');
    let bytes = name.as_bytes();
    let mut out = String::new();
    let mut i: usize = 0;
    assert(out@ + unescaped_from(bytes@, 0) == unescaped(name@));
    while i < bytes.len()
        invariant
            i <= bytes.len(),
            out@ + unescaped_from(bytes@, i as int) == unescaped(name@),
        decreases bytes.len() - i,
    {
        let ghost before = out@;
        let escape = if bytes[i] == 0x23 && bytes.len() - i > 2 {
            hex_byte(bytes[i + 1], bytes[i + 2])
        } else {
            None
        };
        match escape {
            Some(byte) => {
                out.push(byte as char);
                assert(before + (seq![byte as char] + unescaped_from(bytes@, i + 3)) == out@
                    + unescaped_from(bytes@, i + 3));
                i += 3;
            },
            None => {
                out.push(bytes[i] as char);
                assert(before + (seq![bytes@[i as int] as char] + unescaped_from(bytes@, i + 1))
                    == out@ + unescaped_from(bytes@, i + 1));
                i += 1;
            },
        }
    }
    assert(out@ + unescaped_from(bytes@, i as int) == out@);
    out
}

} // verus!
