//! What a font's character map says of its glyphs.

use vstd::prelude::*;
use std::collections::HashMap;
use crate::glyphs::texts_view;
use crate::script::{devanagari, devanagari_by_number, is_devanagari_char};
use crate::text::chars_of;

verus! {

broadcast use vstd::std_specs::hash::group_hash_axioms;

/// Smallest number of Devanagari glyphs an embedded font must expose before we
/// treat it as a Devanagari font. Low enough for a heavily subset font, high
/// enough that a Latin font carrying a stray Devanagari glyph does not qualify.
pub const MIN_DEVANAGARI_GLYPHS: usize = 8;

/// `code` is a Unicode scalar value: a codepoint that is no surrogate.
pub open spec fn scalar_value(code: u32) -> bool {
    ||| code <= 0xD7FF
    ||| 0xE000 <= code <= 0x10FFFF
}

/// Trusted: `char::from_u32` gives the character with the given number, and
/// `None` where no character has it.
pub assume_specification[ char::from_u32 ](code: u32) -> (ch: Option<char>)
    ensures
        ch == if scalar_value(code) {
            Some(code as char)
        } else {
            None
        },
;

/// `texts` after one mapping of a character map, from a codepoint to the glyph
/// it has if any. The first codepoint of a glyph names it.
pub open spec fn with_mapping(texts: Map<u16, Seq<char>>, code: u32, gid: Option<u16>) -> Map<
    u16,
    Seq<char>,
> {
    match gid {
        Some(gid) if scalar_value(code) && !texts.contains_key(gid) => texts.insert(
            gid,
            seq![code as char],
        ),
        _ => texts,
    }
}

/// `texts` after a list of mappings, in order.
pub open spec fn with_mappings(
    texts: Map<u16, Seq<char>>,
    mappings: Seq<(u32, Option<u16>)>,
) -> Map<u16, Seq<char>>
    decreases mappings.len(),
{
    if mappings.len() == 0 {
        texts
    } else {
        let (code, gid) = mappings.last();
        with_mapping(with_mappings(texts, mappings.drop_last()), code, gid)
    }
}

/// Enter one mapping of a character map, unless the glyph already has a text.
pub fn record_mapping(resolved: &mut HashMap<u16, String>, code: u32, gid: Option<u16>)
    ensures
        texts_view(final(resolved)@) == with_mapping(texts_view(old(resolved)@), code, gid),
{
    let ghost before = resolved@;
    if let (Some(ch), Some(gid)) = (char::from_u32(code), gid) {
        if !resolved.contains_key(&gid) {
            let mut text = String::new();
            text.push(ch);
            assert(text@ == seq![ch]);
            resolved.insert(gid, text);
            assert(texts_view(resolved@) == texts_view(before).insert(gid, seq![ch]));
        }
    }
}

/// The first codepoint that a glyph is given names it: later mappings leave it
/// alone.
pub proof fn first_codepoint_names_the_glyph(
    texts: Map<u16, Seq<char>>,
    mappings: Seq<(u32, Option<u16>)>,
    gid: u16,
)
    requires
        texts.contains_key(gid),
    ensures
        with_mappings(texts, mappings).contains_key(gid),
        with_mappings(texts, mappings)[gid] == texts[gid],
    decreases mappings.len(),
{
    if mappings.len() > 0 {
        first_codepoint_names_the_glyph(texts, mappings.drop_last(), gid);
    }
}

/// Every character of `text` is Devanagari.
pub open spec fn all_devanagari(text: Seq<char>) -> bool {
    forall|i: int| 0 <= i < text.len() ==> devanagari(#[trigger] text[i])
}

/// The glyphs whose text is all Devanagari.
pub open spec fn devanagari_glyphs(texts: Map<u16, Seq<char>>) -> Set<u16> {
    texts.dom().filter(|gid: u16| all_devanagari(texts[gid]))
}

/// There are enough Devanagari glyphs, and no fewer of them than of others.
pub open spec fn mostly_devanagari(texts: Map<u16, Seq<char>>) -> bool {
    let count = devanagari_glyphs(texts).len();
    &&& count >= MIN_DEVANAGARI_GLYPHS
    &&& count * 2 >= texts.len()
}

fn is_all_devanagari(text: &str) -> (all: bool)
    ensures
        all == all_devanagari(text@),
{
    let chars = chars_of(text);
    let mut i: usize = 0;
    while i < chars.len()
        invariant
            i <= chars.len(),
            chars@ == text@,
            forall|k: int| 0 <= k < i ==> devanagari(#[trigger] text@[k]),
        decreases chars.len() - i,
    {
        if !is_devanagari_char(chars[i]) {
            return false;
        }
        i += 1;
    }
    true
}

/// Whether the glyphs that a character map names make a Devanagari font.
pub fn is_devanagari_font(resolved: &HashMap<u16, String>) -> (yes: bool)
    ensures
        yes == mostly_devanagari(texts_view(resolved@)),
{
    let ghost texts = texts_view(resolved@);
    let total: usize = resolved.len();
    let ghost keys = vstd::std_specs::iter::IteratorSpec::remaining(&resolved.keys());
    let mut count: usize = 0;
    let ghost mut counted: Set<u16> = Set::empty();
    for gid in it: resolved.keys()
        invariant
            texts == texts_view(resolved@),
            it.seq() == keys,
            keys.unref().to_set() == resolved@.dom(),
            keys.no_duplicates(),
            keys.len() == total,
            count <= it.index() <= keys.len(),
            counted.finite(),
            counted.len() == count,
            forall|g: u16| #[trigger]
                counted.contains(g) <==> all_devanagari(texts[g]) && exists|k: int|
                    0 <= k < it.index() && *#[trigger] keys[k] == g,
    {
        proof {
            assert(keys[it.index() as int] == gid);
            assert(keys.unref()[it.index() as int] == *gid);
            assert(resolved@.dom().contains(*gid));
        }
        if let Some(text) = resolved.get(gid) {
            assert(texts[*gid] == text@);
            if is_all_devanagari(text.as_str()) {
                count += 1;
                proof {
                    counted = counted.insert(*gid);
                }
            }
        }
    }
    proof {
        assert(texts.dom() =~= resolved@.dom());
        assert forall|g: u16|
            resolved@.dom().contains(g) <==> exists|k: int|
                0 <= k < keys.len() && *#[trigger] keys[k] == g by {
            if resolved@.dom().contains(g) {
                let k = choose|k: int| 0 <= k < keys.len() && keys.unref()[k] == g;
                assert(*keys[k] == g);
            }
            if exists|k: int| 0 <= k < keys.len() && *#[trigger] keys[k] == g {
                let k = choose|k: int| 0 <= k < keys.len() && *#[trigger] keys[k] == g;
                assert(keys.unref()[k] == g);
            }
        }
        assert(counted =~= devanagari_glyphs(texts));
    }
    count >= MIN_DEVANAGARI_GLYPHS && count >= total - count
}

/// A glyph that is not named yet is named by the first of the mappings that
/// gives it a codepoint that is a character.
pub proof fn a_glyph_is_named_by_its_first_codepoint(
    texts: Map<u16, Seq<char>>,
    mappings: Seq<(u32, Option<u16>)>,
    k: int,
    gid: u16,
)
    requires
        !texts.contains_key(gid),
        0 <= k < mappings.len(),
        mappings[k].1 == Some(gid),
        mappings[k].0 < 0xD800 || 0xDFFF < mappings[k].0 < 0x11_0000,
        forall|j: int|
            0 <= j < k && (#[trigger] mappings[j]).1 == Some(gid) ==> 0xD7FF < mappings[j].0
                < 0xE000 || mappings[j].0 >= 0x11_0000,
    ensures
        with_mappings(texts, mappings).contains_key(gid),
        with_mappings(texts, mappings)[gid].len() == 1,
        with_mappings(texts, mappings)[gid][0] as u32 == mappings[k].0,
    decreases mappings.len(),
{
    let before = mappings.drop_last();
    if k < mappings.len() - 1 {
        assert(before[k] == mappings[k]);
        assert forall|j: int|
            0 <= j < k && (#[trigger] before[j]).1 == Some(gid) implies 0xD7FF < before[j].0
            < 0xE000 || before[j].0 >= 0x11_0000 by {
            assert(before[j] == mappings[j]);
        }
        a_glyph_is_named_by_its_first_codepoint(texts, before, k, gid);
    } else {
        assert forall|j: int| 0 <= j < before.len() && (#[trigger] before[j]).1 == Some(
            gid,
        ) implies 0xD7FF < before[j].0 < 0xE000 || before[j].0 >= 0x11_0000 by {
            assert(before[j] == mappings[j]);
        }
        a_glyph_without_a_codepoint_is_not_named(texts, before, gid);
        assert(mappings.last() == mappings[k]);
        let code = mappings[k].0;
        assert((code as char) as u32 == code);
    }
}

/// A glyph that none of the mappings gives a character stays as it was.
pub proof fn a_glyph_without_a_codepoint_is_not_named(
    texts: Map<u16, Seq<char>>,
    mappings: Seq<(u32, Option<u16>)>,
    gid: u16,
)
    requires
        forall|j: int|
            0 <= j < mappings.len() && (#[trigger] mappings[j]).1 == Some(gid) ==> 0xD7FF
                < mappings[j].0 < 0xE000 || mappings[j].0 >= 0x11_0000,
    ensures
        with_mappings(texts, mappings).contains_key(gid) == texts.contains_key(gid),
        texts.contains_key(gid) ==> with_mappings(texts, mappings)[gid] == texts[gid],
    decreases mappings.len(),
{
    if mappings.len() > 0 {
        let before = mappings.drop_last();
        assert forall|j: int| 0 <= j < before.len() && (#[trigger] before[j]).1 == Some(
            gid,
        ) implies 0xD7FF < before[j].0 < 0xE000 || before[j].0 >= 0x11_0000 by {
            assert(before[j] == mappings[j]);
        }
        a_glyph_without_a_codepoint_is_not_named(texts, before, gid);
        assert(mappings[mappings.len() - 1] == mappings.last());
    }
}

/// A font is Devanagari where eight or more of the glyphs that its character map
/// names are written in Devanagari alone, and they are half of them or more.
pub proof fn a_devanagari_font_is_told_by_its_glyphs(
    texts: Map<u16, Seq<char>>,
    named: Set<u16>,
)
    requires
        forall|gid: u16| #[trigger]
            named.contains(gid) <==> texts.contains_key(gid) && forall|i: int|
                0 <= i < texts[gid].len() ==> (0x900 <= (#[trigger] texts[gid][i]) as u32 <= 0x97F
                    || 0xA8E0 <= texts[gid][i] as u32 <= 0xA8FF),
    ensures
        mostly_devanagari(texts) <==> named.len() >= 8 && 2 * named.len() >= texts.len(),
{
    assert forall|gid: u16| #[trigger] named.contains(gid) <==> devanagari_glyphs(texts).contains(
        gid,
    ) by {
        if devanagari_glyphs(texts).contains(gid) {
            assert forall|i: int| 0 <= i < texts[gid].len() implies (0x900 <= (
            #[trigger] texts[gid][i]) as u32 <= 0x97F || 0xA8E0 <= texts[gid][i] as u32
                <= 0xA8FF) by {
                assert(devanagari(texts[gid][i]));
            }
        }
        if named.contains(gid) {
            assert forall|i: int| 0 <= i < texts[gid].len() implies devanagari(
                #[trigger] texts[gid][i],
            ) by {
                let c = texts[gid][i];
                assert(0x900 <= c as u32 <= 0x97F || 0xA8E0 <= c as u32 <= 0xA8FF);
                devanagari_by_number(c);
            }
            assert(all_devanagari(texts[gid]));
        }
    }
    assert(named =~= devanagari_glyphs(texts));
}

} // verus!
