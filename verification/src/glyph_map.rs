//! The texts of the glyphs of an embedded Devanagari font.

use vstd::prelude::*;
use std::collections::HashMap;
use crate::cff::{are_hints_in_reach, hints_in_reach};
use crate::cmap::{
    a_devanagari_font_is_told_by_its_glyphs, devanagari_glyphs, is_devanagari_font,
    mostly_devanagari, with_mappings,
};
use crate::digits::{
    digits_in_order, disguised, other_glyphs_are_untouched, remap_disguised_latin_digits,
    same_drawing, seven_disguises_are_seen_through, six_disguises_are_left_alone,
    what_a_disguise_is, with_true_digits, DigitGlyph, DigitSlots, GlyphMetrics, DEVANAGARI_DIGITS,
    LATIN_DIGITS,
};
use crate::font_file::{
    accepted, cmap_codepoints, cmap_glyph, cmap_has, cmap_is_unicode, cmap_length, cmap_mappings,
    cmap_reached, cmap_subtable, cmap_subtable_count, cmap_unicode, covered_glyphs, covered_ranges,
    face_advance, face_bounding_box, face_glyph_count, face_has_glyf, face_parses,
    face_units_per_em, first_unicode_glyph, glyph_bounding_box, glyph_hor_advance, glyph_index,
    gsub_count, gsub_coverage, gsub_has, gsub_kind, gsub_length, gsub_ligature_set, gsub_reached,
    gsub_set_count, gsub_subtable, has_cmap_subtable, has_glyf, has_subtable, kind, ligature_set,
    ligature_set_count, lookup_count, lookup_length, number_of_glyphs, parses, record_cmap,
    substitutes, units_per_em, Kind, KindView,
};
use crate::font_tables::{
    bytes, face_records, find_tables, font_tables, Tables, TablesView,
};
use crate::glyphs::{
    add_derived_glyphs, glyph_text, named_glyphs_keep_their_text, texts_view,
    the_glyphs_of_a_face_are_named, with_derived,
};
use crate::gsub::{
    collect_gsub_reversals, ligature_set_view, lookup_view, lookups_view, reversed_ligatures,
    reversed_singles, Coverage, LigatureSet, LigatureSetView, Substitution, SubstitutionView,
};
use crate::preflight::{
    directory_in_reach, is_subtable_ending, is_subtable_in_reach, subtable_ends, subtable_in_reach,
};

verus! {

broadcast use vstd::std_specs::hash::group_hash_axioms;

/// What the Unicode subtables of a character map say, the first `count` of the
/// subtables taken in order.
pub open spec fn cmap_texts(cmap: Seq<u8>, count: int) -> Map<u16, Seq<char>>
    decreases count,
{
    if count <= 0 {
        Map::empty()
    } else {
        let before = cmap_texts(cmap, count - 1);
        if cmap_unicode(cmap, (count - 1) as u16) {
            with_mappings(before, cmap_mappings(cmap, (count - 1) as u16))
        } else {
            before
        }
    }
}

/// What the whole character map of a face says, up to the first subtable that
/// cannot be read.
pub open spec fn face_texts(tables: TablesView) -> Map<u16, Seq<char>> {
    match tables.cmap {
        Some(cmap) => cmap_texts(cmap, cmap_reached(cmap, 0) as int),
        None => Map::empty(),
    }
}

/// The glyph that a face has for a character.
pub open spec fn face_glyph(tables: TablesView, ch: char) -> Option<u16> {
    match tables.cmap {
        Some(cmap) => first_unicode_glyph(cmap, cmap_reached(cmap, 0), ch as u32, 0),
        None => None,
    }
}

/// The compact outlines, where the box of a glyph is read out of them: the face
/// has no others, and the program of the glyph can be followed.
pub open spec fn compact_outlines(tables: TablesView, gid: u16) -> Option<Seq<u8>> {
    match tables.cff {
        Some(cff) => if !face_has_glyf(tables.head, tables.maxp, tables.loca, tables.glyf)
            && hints_in_reach(cff, gid) {
            Some(cff)
        } else {
            None
        },
        None => None,
    }
}

/// The metrics of a glyph, where the face states both of them.
pub open spec fn face_metrics(tables: TablesView, gid: u16) -> Option<GlyphMetrics> {
    match face_advance(tables.hhea, tables.maxp, tables.hmtx, gid) {
        Some(advance) => match face_bounding_box(
            tables.head,
            tables.maxp,
            tables.loca,
            tables.glyf,
            compact_outlines(tables, gid),
            gid,
        ) {
            Some(rect) => Some((advance, rect)),
            None => None,
        },
        None => None,
    }
}

/// The two glyphs that a face has for a digit. They are measured where there are
/// two of them.
pub open spec fn face_digit(tables: TablesView, latin: char, devanagari: char) -> DigitSlots {
    match (face_glyph(tables, latin), face_glyph(tables, devanagari)) {
        (Some(left), Some(right)) => if left != right {
            DigitSlots {
                latin: Some(DigitGlyph { gid: left, metrics: face_metrics(tables, left) }),
                devanagari: Some(DigitGlyph { gid: right, metrics: face_metrics(tables, right) }),
            }
        } else {
            unmeasured(Some(left), Some(right))
        },
        (left, right) => unmeasured(left, right),
    }
}

/// The glyphs of a digit, without their metrics.
pub open spec fn unmeasured(latin: Option<u16>, devanagari: Option<u16>) -> DigitSlots {
    DigitSlots {
        latin: match latin {
            Some(gid) => Some(DigitGlyph { gid, metrics: None }),
            None => None,
        },
        devanagari: match devanagari {
            Some(gid) => Some(DigitGlyph { gid, metrics: None }),
            None => None,
        },
    }
}

/// The two glyphs of each digit.
pub open spec fn face_digits(tables: TablesView) -> Seq<DigitSlots> {
    Seq::new(10, |i: int| face_digit(tables, LATIN_DIGITS[i], DEVANAGARI_DIGITS[i]))
}

/// The ligature sets of one ligature subtable.
pub open spec fn gsub_ligature_sets(gsub: Seq<u8>, lookup: u16, index: u16) -> Seq<
    Option<LigatureSetView>,
> {
    Seq::new(
        gsub_set_count(gsub, lookup, index) as nat,
        |i: int| gsub_ligature_set(gsub, lookup, index, i as u16),
    )
}

/// One substitution subtable.
pub open spec fn gsub_substitution(gsub: Seq<u8>, lookup: u16, index: u16) -> SubstitutionView {
    let coverage = gsub_coverage(gsub, lookup, index);
    match gsub_kind(gsub, lookup, index) {
        KindView::Ligature => SubstitutionView::Ligature {
            coverage,
            ligature_sets: gsub_ligature_sets(gsub, lookup, index),
        },
        KindView::SingleDelta { delta } => SubstitutionView::SingleDelta { coverage, delta },
        KindView::SingleList { substitutes } => SubstitutionView::SingleList {
            coverage,
            substitutes,
        },
        KindView::Other => SubstitutionView::Other,
    }
}

/// One substitution lookup, where it can be read, up to the first subtable that
/// cannot.
pub open spec fn gsub_lookup(gsub: Seq<u8>, lookup: u16) -> Option<Seq<SubstitutionView>> {
    match gsub_length(gsub, lookup) {
        Some(_) => Some(
            Seq::new(
                gsub_reached(gsub, lookup, 0) as nat,
                |i: int| gsub_substitution(gsub, lookup, i as u16),
            ),
        ),
        None => None,
    }
}

/// All the substitution lookups.
pub open spec fn gsub_lookups(gsub: Seq<u8>) -> Seq<Option<Seq<SubstitutionView>>> {
    Seq::new(gsub_count(gsub) as nat, |i: int| gsub_lookup(gsub, i as u16))
}

/// All the substitution lookups of a face.
pub open spec fn face_lookups(tables: TablesView) -> Seq<Option<Seq<SubstitutionView>>> {
    match tables.gsub {
        Some(gsub) => gsub_lookups(gsub),
        None => Seq::empty(),
    }
}

/// What the character map names, corrected and completed: disguised digits are
/// repointed, and the glyphs that only substitutions reach are named by them.
pub open spec fn completed(
    texts: Map<u16, Seq<char>>,
    units_per_em: u16,
    digits: Seq<DigitSlots>,
    lookups: Seq<Option<Seq<SubstitutionView>>>,
    glyph_count: u16,
) -> Map<u16, Seq<char>> {
    with_derived(
        with_true_digits(texts, digits, units_per_em),
        reversed_ligatures(lookups),
        reversed_singles(lookups),
        glyph_count,
    )
}

/// The file is a font that the parser accepts.
pub open spec fn readable(font: Seq<u8>) -> bool {
    font_tables(font) matches Some(tables) && accepted(tables)
}

/// What the character map of a font says.
pub open spec fn font_texts(font: Seq<u8>) -> Map<u16, Seq<char>> {
    face_texts(font_tables(font)->0)
}

/// The texts of the glyphs of a face, completed.
pub open spec fn face_glyph_map(tables: TablesView) -> Map<u16, Seq<char>> {
    completed(
        face_texts(tables),
        face_units_per_em(tables.head),
        face_digits(tables),
        face_lookups(tables),
        face_glyph_count(tables.maxp),
    )
}

/// The texts of the glyphs of a Devanagari font; `None` for anything else.
pub open spec fn font_glyph_map(font: Seq<u8>) -> Option<Map<u16, Seq<char>>> {
    if readable(font) && mostly_devanagari(font_texts(font)) {
        Some(face_glyph_map(font_tables(font)->0))
    } else {
        None
    }
}

/// Count the subtables of a character map, up to the first that cannot be read.
fn count_mappings(cmap: &[u8]) -> (count: u16)
    ensures
        count == cmap_reached(cmap@, 0),
        forall|i: u16| i < count ==> #[trigger] cmap_has(cmap@, i),
{
    let length: u16 = cmap_subtable_count(cmap);
    let mut index: u16 = 0;
    while index < length
        invariant
            index <= length,
            length == cmap_length(cmap@),
            cmap_reached(cmap@, index) == cmap_reached(cmap@, 0),
            forall|i: u16| i < index ==> #[trigger] cmap_has(cmap@, i),
        decreases length - index,
    {
        if !is_subtable_in_reach(cmap, index) {
            return index;
        }
        if !has_cmap_subtable(cmap, index) {
            return index;
        }
        assert(cmap_has(cmap@, index));
        index += 1;
    }
    index
}

/// Read the Unicode subtables of a character map.
fn read_cmap(cmap: &[u8]) -> (resolved: HashMap<u16, String>)
    ensures
        texts_view(resolved@) == cmap_texts(cmap@, cmap_reached(cmap@, 0) as int),
{
    let mut resolved: HashMap<u16, String> = HashMap::new();
    let count: u16 = count_mappings(cmap);
    assert(texts_view(resolved@) == Map::<u16, Seq<char>>::empty());
    let mut index: u16 = 0;
    while index < count
        invariant
            index <= count,
            forall|i: u16| i < count ==> #[trigger] cmap_has(cmap@, i),
            texts_view(resolved@) == cmap_texts(cmap@, index as int),
        decreases count - index,
    {
        assert(cmap_has(cmap@, index));
        if cmap_is_unicode(cmap, index) {
            record_cmap(cmap, index, &mut resolved);
        }
        index += 1;
    }
    resolved
}

/// Read the character map of a face.
fn read_texts(tables: &Tables<'_>) -> (resolved: HashMap<u16, String>)
    ensures
        texts_view(resolved@) == face_texts(tables@),
{
    match tables.cmap {
        Some(cmap) => read_cmap(cmap),
        None => {
            let resolved: HashMap<u16, String> = HashMap::new();
            assert(texts_view(resolved@) == Map::<u16, Seq<char>>::empty());
            resolved
        },
    }
}

/// The glyph that the Unicode subtables of a character map have for a character.
fn find_unicode_glyph(cmap: &[u8], count: u16, ch: char) -> (gid: Option<u16>)
    requires
        forall|i: u16| i < count ==> #[trigger] cmap_has(cmap@, i),
    ensures
        gid == first_unicode_glyph(cmap@, count, ch as u32, 0),
{
    let mut index: u16 = 0;
    while index < count
        invariant
            index <= count,
            forall|i: u16| i < count ==> #[trigger] cmap_has(cmap@, i),
            first_unicode_glyph(cmap@, count, ch as u32, index) == first_unicode_glyph(
                cmap@,
                count,
                ch as u32,
                0,
            ),
        decreases count - index,
    {
        assert(cmap_has(cmap@, index));
        if cmap_is_unicode(cmap, index) {
            let gid = glyph_index(cmap, index, ch as u32);
            if gid.is_some() {
                return gid;
            }
        }
        index += 1;
    }
    None
}

/// The glyph that a face has for a character.
fn find_glyph(tables: &Tables<'_>, ch: char) -> (gid: Option<u16>)
    ensures
        gid == face_glyph(tables@, ch),
{
    match tables.cmap {
        Some(cmap) => find_unicode_glyph(cmap, count_mappings(cmap), ch),
        None => None,
    }
}

/// The compact outlines, where the box of a glyph is read out of them.
fn find_compact_outlines<'a>(tables: &Tables<'a>, gid: u16) -> (cff: Option<&'a [u8]>)
    requires
        accepted(tables@),
    ensures
        bytes(cff) == compact_outlines(tables@, gid),
{
    match tables.cff {
        Some(cff) => if !has_glyf(tables) && are_hints_in_reach(cff, gid) {
            Some(cff)
        } else {
            None
        },
        None => None,
    }
}

/// The advance and the bounding box of a glyph, where the face states both.
fn glyph_metrics(tables: &Tables<'_>, gid: u16) -> (metrics: Option<GlyphMetrics>)
    requires
        accepted(tables@),
    ensures
        metrics == face_metrics(tables@, gid),
{
    match glyph_hor_advance(tables, gid) {
        Some(advance) => {
            let cff = find_compact_outlines(tables, gid);
            match glyph_bounding_box(tables, cff, gid) {
                Some(rect) => Some((advance, rect)),
                None => None,
            }
        },
        None => None,
    }
}

/// The glyphs of a digit, without their metrics.
fn leave_unmeasured(latin: Option<u16>, devanagari: Option<u16>) -> (slots: DigitSlots)
    ensures
        slots == unmeasured(latin, devanagari),
{
    DigitSlots {
        latin: match latin {
            Some(gid) => Some(DigitGlyph { gid, metrics: None }),
            None => None,
        },
        devanagari: match devanagari {
            Some(gid) => Some(DigitGlyph { gid, metrics: None }),
            None => None,
        },
    }
}

/// The two glyphs that a face has for a digit.
fn read_digit(tables: &Tables<'_>, latin: char, devanagari: char) -> (slots: DigitSlots)
    requires
        accepted(tables@),
    ensures
        slots == face_digit(tables@, latin, devanagari),
{
    let left = find_glyph(tables, latin);
    let right = find_glyph(tables, devanagari);
    match (left, right) {
        (Some(left), Some(right)) => if left != right {
            DigitSlots {
                latin: Some(DigitGlyph { gid: left, metrics: glyph_metrics(tables, left) }),
                devanagari: Some(DigitGlyph { gid: right, metrics: glyph_metrics(tables, right) }),
            }
        } else {
            leave_unmeasured(Some(left), Some(right))
        },
        (left, right) => leave_unmeasured(left, right),
    }
}

/// The two glyphs that a face has for each digit.
fn read_digits(tables: &Tables<'_>) -> (digits: [DigitSlots; 10])
    requires
        accepted(tables@),
    ensures
        digits@ == face_digits(tables@),
{
    let mut digits: [DigitSlots; 10] = [DigitSlots { latin: None, devanagari: None };10];
    let mut i: usize = 0;
    while i < 10
        invariant
            i <= 10,
            accepted(tables@),
            forall|k: int| 0 <= k < i ==> digits@[k] == face_digits(tables@)[k],
        decreases 10 - i,
    {
        digits[i] = read_digit(tables, LATIN_DIGITS[i], DEVANAGARI_DIGITS[i]);
        i += 1;
    }
    assert(digits@ == face_digits(tables@));
    digits
}

/// Read the substitution lookups.
fn read_lookups(tables: &Tables<'_>) -> (lookups: Vec<Option<Vec<Substitution>>>)
    requires
        substitutes(tables@),
    ensures
        lookups_view(lookups@) == gsub_lookups(tables@.gsub->0),
{
    let count: u16 = lookup_count(tables);
    let mut lookups: Vec<Option<Vec<Substitution>>> = Vec::new();
    let mut index: u16 = 0;
    while index < count
        invariant
            index <= count,
            count == gsub_count(tables@.gsub->0),
            substitutes(tables@),
            lookups_view(lookups@) == gsub_lookups(tables@.gsub->0).take(index as int),
        decreases count - index,
    {
        let ghost before = lookups@;
        let lookup = read_lookup(tables, index);
        lookups.push(lookup);
        assert(lookups_view(lookups@) == lookups_view(before).push(lookup_view(lookup)));
        index += 1;
    }
    assert(gsub_lookups(tables@.gsub->0).take(count as int) == gsub_lookups(tables@.gsub->0));
    lookups
}

/// Read the substitution lookups of a face.
fn read_face_lookups(tables: &Tables<'_>) -> (lookups: Vec<Option<Vec<Substitution>>>)
    requires
        accepted(tables@),
    ensures
        lookups_view(lookups@) == face_lookups(tables@),
{
    if tables.gsub.is_some() {
        read_lookups(tables)
    } else {
        let lookups: Vec<Option<Vec<Substitution>>> = Vec::new();
        assert(lookups_view(lookups@) == face_lookups(tables@));
        lookups
    }
}

/// Count the subtables of a lookup, up to the first that cannot be read.
fn count_subtables(tables: &Tables<'_>, lookup: u16, length: u16) -> (count: u16)
    requires
        substitutes(tables@),
        lookup < gsub_count(tables@.gsub->0),
        gsub_length(tables@.gsub->0, lookup) == Some(length),
    ensures
        count == gsub_reached(tables@.gsub->0, lookup, 0),
        forall|i: u16| i < count ==> #[trigger] gsub_has(tables@.gsub->0, lookup, i),
{
    let gsub = tables.gsub.unwrap();
    let mut index: u16 = 0;
    while index < length
        invariant
            index <= length,
            substitutes(tables@),
            gsub@ == tables@.gsub->0,
            lookup < gsub_count(tables@.gsub->0),
            gsub_length(tables@.gsub->0, lookup) == Some(length),
            gsub_reached(gsub@, lookup, index) == gsub_reached(gsub@, lookup, 0),
            forall|i: u16| i < index ==> #[trigger] gsub_has(tables@.gsub->0, lookup, i),
        decreases length - index,
    {
        if !is_subtable_ending(gsub, lookup, index) {
            return index;
        }
        if !has_subtable(tables, lookup, index) {
            return index;
        }
        assert(gsub_has(tables@.gsub->0, lookup, index));
        index += 1;
    }
    index
}

/// Read the coverage of one substitution subtable.
fn read_coverage(tables: &Tables<'_>, lookup: u16, index: u16) -> (coverage: Coverage)
    requires
        substitutes(tables@),
        gsub_has(tables@.gsub->0, lookup, index),
    ensures
        coverage@ == gsub_coverage(tables@.gsub->0, lookup, index),
{
    match covered_glyphs(tables, lookup, index) {
        Some(glyphs) => Coverage::Format1 { glyphs },
        None => Coverage::Format2 { records: covered_ranges(tables, lookup, index) },
    }
}

/// Read one substitution lookup.
fn read_lookup(tables: &Tables<'_>, lookup: u16) -> (subtables: Option<Vec<Substitution>>)
    requires
        substitutes(tables@),
        lookup < gsub_count(tables@.gsub->0),
    ensures
        lookup_view(subtables) == gsub_lookup(tables@.gsub->0, lookup),
{
    let count: u16 = match lookup_length(tables, lookup) {
        Some(length) => count_subtables(tables, lookup, length),
        None => return None,
    };
    let ghost expected = gsub_lookup(tables@.gsub->0, lookup)->0;
    let mut subtables: Vec<Substitution> = Vec::new();
    let mut index: u16 = 0;
    while index < count
        invariant
            index <= count,
            substitutes(tables@),
            lookup < gsub_count(tables@.gsub->0),
            forall|i: u16| i < count ==> #[trigger] gsub_has(tables@.gsub->0, lookup, i),
            count == gsub_reached(tables@.gsub->0, lookup, 0),
            gsub_length(tables@.gsub->0, lookup) is Some,
            expected == gsub_lookup(tables@.gsub->0, lookup)->0,
            subtables@.map_values(|subtable: Substitution| subtable@) == expected.take(
                index as int,
            ),
        decreases count - index,
    {
        let ghost before = subtables@;
        let covered = read_coverage(tables, lookup, index);
        let subtable = match kind(tables, lookup, index) {
            Kind::Ligature => Substitution::Ligature {
                coverage: covered,
                ligature_sets: read_ligature_sets(tables, lookup, index),
            },
            Kind::SingleDelta { delta } => Substitution::SingleDelta { coverage: covered, delta },
            Kind::SingleList { substitutes } => Substitution::SingleList {
                coverage: covered,
                substitutes,
            },
            Kind::Other => Substitution::Other,
        };
        assert(subtable@ == expected[index as int]);
        subtables.push(subtable);
        assert(subtables@.map_values(|subtable: Substitution| subtable@) == before.map_values(
            |subtable: Substitution| subtable@,
        ).push(subtable@));
        index += 1;
    }
    assert(expected.take(count as int) == expected);
    Some(subtables)
}

/// Read the ligature sets of one ligature subtable.
fn read_ligature_sets(tables: &Tables<'_>, lookup: u16, index: u16) -> (sets: Vec<
    Option<LigatureSet>,
>)
    requires
        substitutes(tables@),
        gsub_has(tables@.gsub->0, lookup, index),
        gsub_kind(tables@.gsub->0, lookup, index) is Ligature,
    ensures
        sets@.map_values(|set: Option<LigatureSet>| ligature_set_view(set)) == gsub_ligature_sets(
            tables@.gsub->0,
            lookup,
            index,
        ),
{
    let count: u16 = ligature_set_count(tables, lookup, index);
    let ghost expected = gsub_ligature_sets(tables@.gsub->0, lookup, index);
    let mut sets: Vec<Option<LigatureSet>> = Vec::new();
    let mut i: u16 = 0;
    while i < count
        invariant
            i <= count,
            substitutes(tables@),
            gsub_has(tables@.gsub->0, lookup, index),
            gsub_kind(tables@.gsub->0, lookup, index) is Ligature,
            count == gsub_set_count(tables@.gsub->0, lookup, index),
            expected == gsub_ligature_sets(tables@.gsub->0, lookup, index),
            sets@.map_values(|set: Option<LigatureSet>| ligature_set_view(set)) == expected.take(
                i as int,
            ),
        decreases count - i,
    {
        let ghost before = sets@;
        let set = ligature_set(tables, lookup, index, i);
        sets.push(set);
        assert(sets@.map_values(|set: Option<LigatureSet>| ligature_set_view(set))
            == before.map_values(|set: Option<LigatureSet>| ligature_set_view(set)).push(
            ligature_set_view(set),
        ));
        i += 1;
    }
    assert(expected.take(count as int) == expected);
    sets
}

/// Correct and complete what a character map says of a Devanagari font.
pub fn complete_glyph_map(
    resolved: HashMap<u16, String>,
    units_per_em: u16,
    digits: &[DigitSlots; 10],
    lookups: &[Option<Vec<Substitution>>],
    glyph_count: u16,
) -> (map: HashMap<u16, String>)
    ensures
        texts_view(map@) == completed(
            texts_view(resolved@),
            units_per_em,
            digits@,
            lookups_view(lookups@),
            glyph_count,
        ),
{
    let mut map = resolved;
    remap_disguised_latin_digits(units_per_em, digits, &mut map);
    let (ligatures, single_sources) = collect_gsub_reversals(lookups);
    add_derived_glyphs(&mut map, &ligatures, &single_sources, glyph_count);
    map
}

/// Build a glyph-id → Unicode map for an embedded Devanagari font.
///
/// Devanagari CID fonts produced by common Office and DTP pipelines routinely
/// carry a `/ToUnicode` generated from glyph *indices* rather than from the
/// font's character map. The result still decodes to Devanagari, so nothing
/// downstream flags it, but individual letters land on their neighbours — an
/// i-matra that reports itself as `क्त`, say. The font's own cmap is the direct
/// statement of what each glyph is, so it is the better authority.
///
/// The cmap alone only reaches glyphs that have a codepoint. Conjuncts are
/// reachable only through GSUB, so ligature substitutions are walked in reverse
/// to decompose a conjunct glyph back into its components, and single
/// substitutions are reversed to find the glyph a variant was derived from.
///
/// Returns `None` unless the font really is Devanagari — this must never
/// second-guess the `/ToUnicode` of a font in any other script.
pub fn devanagari_glyph_map(font_data: &[u8]) -> (map: Option<HashMap<u16, String>>)
    ensures
        map is Some <==> font_glyph_map(font_data@) is Some,
        map matches Some(map) ==> font_glyph_map(font_data@) == Some(texts_view(map@)),
{
    let tables = match find_tables(font_data) {
        Some(tables) => tables,
        None => return None,
    };
    if !parses(&tables) {
        return None;
    }
    let resolved = read_texts(&tables);
    if !is_devanagari_font(&resolved) {
        return None;
    }
    let digits = read_digits(&tables);
    let lookups = read_face_lookups(&tables);
    let glyph_count: u16 = number_of_glyphs(&tables);
    let map = complete_glyph_map(
        resolved,
        units_per_em(&tables),
        &digits,
        &lookups,
        glyph_count,
    );
    Some(map)
}

/// A font of another script is never given a map, and a Devanagari font always
/// is: whether a font that can be read is given one is decided by its own
/// character map, which must name enough Devanagari glyphs, and no fewer of them
/// than of others.
pub proof fn only_devanagari_fonts_are_mapped(font: Seq<u8>)
    ensures
        font_glyph_map(font) is Some ==> readable(font),
        readable(font) ==> (font_glyph_map(font) is None <==> {
            ||| devanagari_glyphs(font_texts(font)).len() < 8
            ||| devanagari_glyphs(font_texts(font)).len() * 2 < font_texts(font).len()
        }),
{
}

/// A font that can be read is given a map exactly where eight or more of the
/// glyphs that its character map names are written in Devanagari alone, and they
/// are half of them or more.
pub proof fn a_font_is_mapped_by_its_devanagari_glyphs(font: Seq<u8>, named: Set<u16>)
    requires
        readable(font),
        forall|gid: u16| #[trigger]
            named.contains(gid) <==> font_texts(font).contains_key(gid) && forall|i: int|
                0 <= i < font_texts(font)[gid].len() ==> (0x900 <= (#[trigger] font_texts(
                    font,
                )[gid][i]) as u32 <= 0x97F || 0xA8E0 <= font_texts(font)[gid][i] as u32 <= 0xA8FF),
    ensures
        font_glyph_map(font) is Some <==> named.len() >= 8 && 2 * named.len() >= font_texts(
            font,
        ).len(),
{
    a_devanagari_font_is_told_by_its_glyphs(font_texts(font), named);
}

/// The character map is the authority on the glyphs that it names: in the map
/// of a font they keep its text, the disguised digits apart.
pub proof fn the_character_map_is_kept(font: Seq<u8>, gid: u16)
    requires
        font_glyph_map(font) is Some,
        font_texts(font).contains_key(gid),
        forall|i: int|
            0 <= i < 10 && disguised(
                #[trigger] face_digits(font_tables(font)->0)[i],
                face_units_per_em(font_tables(font)->0.head),
            ) ==> face_digits(font_tables(font)->0)[i].latin->0.gid != gid,
    ensures
        font_glyph_map(font)->0.contains_key(gid),
        font_glyph_map(font)->0[gid] == font_texts(font)[gid],
{
    let tables = font_tables(font)->0;
    let texts = face_texts(tables);
    let digits = face_digits(tables);
    let units = face_units_per_em(tables.head);
    other_glyphs_are_untouched(texts, digits, units, gid);
    named_glyphs_keep_their_text(
        with_true_digits(texts, digits, units),
        reversed_ligatures(face_lookups(tables)),
        reversed_singles(face_lookups(tables)),
        face_glyph_count(tables.maxp),
        gid,
    );
}

/// A character map is read up to the first subtable that cannot be: all before
/// it can.
pub proof fn readable_mappings_are_reached(cmap: Seq<u8>, index: u16)
    ensures
        cmap_length(cmap) > 0 ==> cmap_reached(cmap, 0) <= cmap_length(cmap),
        index < cmap_reached(cmap, 0) ==> cmap_has(cmap, index),
        !cmap_has(cmap, cmap_reached(cmap, 0)),
{
    lemma_cmap_reached(cmap, 0, index);
}

proof fn lemma_cmap_reached(cmap: Seq<u8>, from: u16, index: u16)
    requires
        from <= cmap_length(cmap),
    ensures
        from <= cmap_reached(cmap, from) <= cmap_length(cmap),
        from <= index < cmap_reached(cmap, from) ==> cmap_has(cmap, index),
        !cmap_has(cmap, cmap_reached(cmap, from)),
    decreases u16::MAX - from,
{
    if cmap_has(cmap, from) && from < u16::MAX {
        lemma_cmap_reached(cmap, (from + 1) as u16, index);
    }
}

/// A lookup is read up to the first subtable that cannot be: all before it can.
pub proof fn readable_subtables_are_reached(gsub: Seq<u8>, lookup: u16, index: u16)
    ensures
        index < gsub_reached(gsub, lookup, 0) ==> gsub_has(gsub, lookup, index),
        !gsub_has(gsub, lookup, gsub_reached(gsub, lookup, 0)),
{
    lemma_gsub_reached(gsub, lookup, 0, index);
}

proof fn lemma_gsub_reached(gsub: Seq<u8>, lookup: u16, from: u16, index: u16)
    ensures
        from <= index < gsub_reached(gsub, lookup, from) ==> gsub_has(gsub, lookup, index),
        !gsub_has(gsub, lookup, gsub_reached(gsub, lookup, from)),
    decreases u16::MAX - from,
{
    if gsub_has(gsub, lookup, from) && from < u16::MAX {
        lemma_gsub_reached(gsub, lookup, (from + 1) as u16, index);
    }
}

/// The glyph of a character is the one that the first Unicode subtable to know
/// the character gives it, out of those that are reached; there is none where
/// no such subtable knows it.
pub proof fn the_first_unicode_subtable_gives_the_glyph(
    tables: TablesView,
    ch: char,
    index: u16,
)
    requires
        tables.cmap is Some,
    ensures
        ({
            let cmap = tables.cmap->0;
            let count = cmap_reached(cmap, 0);
            let code = ch as u32;
            &&& index < count && cmap_unicode(cmap, index) && cmap_glyph(cmap, index, code) is Some
                && (forall|j: u16|
                j < index && #[trigger] cmap_unicode(cmap, j) ==> cmap_glyph(cmap, j, code) is None)
                ==> face_glyph(tables, ch) == cmap_glyph(cmap, index, code)
            &&& (forall|j: u16|
                j < count && #[trigger] cmap_unicode(cmap, j) ==> cmap_glyph(cmap, j, code) is None)
                ==> face_glyph(tables, ch) is None
        }),
{
    let cmap = tables.cmap->0;
    lemma_first_unicode_glyph(cmap, cmap_reached(cmap, 0), ch as u32, 0, index);
}

proof fn lemma_first_unicode_glyph(cmap: Seq<u8>, count: u16, code: u32, from: u16, index: u16)
    ensures
        from <= index < count && cmap_unicode(cmap, index) && cmap_glyph(
            cmap,
            index,
            code,
        ) is Some && (forall|j: u16|
            from <= j < index && #[trigger] cmap_unicode(cmap, j) ==> cmap_glyph(cmap, j, code)
                is None) ==> first_unicode_glyph(cmap, count, code, from) == cmap_glyph(
            cmap,
            index,
            code,
        ),
        (forall|j: u16|
            from <= j < count && #[trigger] cmap_unicode(cmap, j) ==> cmap_glyph(cmap, j, code)
                is None) ==> first_unicode_glyph(cmap, count, code, from) is None,
    decreases count - from,
{
    if from < count {
        lemma_first_unicode_glyph(cmap, count, code, (from + 1) as u16, index);
    }
}

/// A face without a character map has a glyph for no character, and names none.
pub proof fn without_a_character_map_nothing_is_named(tables: TablesView, ch: char)
    requires
        tables.cmap is None,
    ensures
        face_glyph(tables, ch) is None,
        face_texts(tables).dom() == Set::<u16>::empty(),
{
}

/// The mappings of all Unicode subtables that are reached, one after another,
/// name the glyphs: no such subtable is passed over, and no other is read.
pub proof fn every_unicode_subtable_names_its_glyphs(tables: TablesView)
    requires
        tables.cmap is Some,
    ensures
        ({
            let cmap = tables.cmap->0;
            face_texts(tables) == with_mappings(
                Map::empty(),
                Seq::new(
                    cmap_reached(cmap, 0) as nat,
                    |i: int|
                        if cmap_unicode(cmap, i as u16) {
                            cmap_codepoints(cmap, i as u16).map_values(
                                |code: u32| (code, cmap_glyph(cmap, i as u16, code)),
                            )
                        } else {
                            Seq::empty()
                        },
                ).flatten(),
            )
        }),
{
    lemma_cmap_texts(tables.cmap->0, cmap_reached(tables.cmap->0, 0) as int);
}

proof fn lemma_cmap_texts(cmap: Seq<u8>, count: int)
    requires
        0 <= count <= u16::MAX,
    ensures
        cmap_texts(cmap, count) == with_mappings(
            Map::empty(),
            Seq::new(
                count as nat,
                |i: int|
                    if cmap_unicode(cmap, i as u16) {
                        cmap_codepoints(cmap, i as u16).map_values(
                            |code: u32| (code, cmap_glyph(cmap, i as u16, code)),
                        )
                    } else {
                        Seq::empty()
                    },
            ).flatten(),
        ),
    decreases count,
{
    let bring = |i: int|
        if cmap_unicode(cmap, i as u16) {
            cmap_codepoints(cmap, i as u16).map_values(
                |code: u32| (code, cmap_glyph(cmap, i as u16, code)),
            )
        } else {
            Seq::<(u32, Option<u16>)>::empty()
        };
    let lists = Seq::new(count as nat, bring);
    if count > 0 {
        lemma_cmap_texts(cmap, count - 1);
        let before = Seq::new((count - 1) as nat, bring);
        assert(lists == before.push(bring(count - 1)));
        before.lemma_flatten_push(bring(count - 1));
        lemma_mappings_concat(Map::empty(), before.flatten(), bring(count - 1));
        if cmap_unicode(cmap, (count - 1) as u16) {
            assert(bring(count - 1) == cmap_mappings(cmap, (count - 1) as u16));
        }
    } else {
        assert(lists == Seq::<Seq<(u32, Option<u16>)>>::empty());
    }
}

proof fn lemma_mappings_concat(
    texts: Map<u16, Seq<char>>,
    first: Seq<(u32, Option<u16>)>,
    second: Seq<(u32, Option<u16>)>,
)
    ensures
        with_mappings(texts, first + second) == with_mappings(
            with_mappings(texts, first),
            second,
        ),
    decreases second.len(),
{
    if second.len() == 0 {
        assert(first + second == first);
    } else {
        lemma_mappings_concat(texts, first, second.drop_last());
        assert((first + second).drop_last() == first + second.drop_last());
        assert((first + second).last() == second.last());
    }
}

/// A glyph is measured where the face states its advance and has a box for it.
/// Compact outlines count where there are no others and the program of the glyph
/// can be followed.
pub proof fn a_glyph_is_measured_by_its_face(tables: TablesView, gid: u16)
    ensures
        ({
            let advance = face_advance(tables.hhea, tables.maxp, tables.hmtx, gid);
            let others = face_has_glyf(tables.head, tables.maxp, tables.loca, tables.glyf);
            let cff = if others || tables.cff is None || !hints_in_reach(tables.cff->0, gid) {
                None
            } else {
                tables.cff
            };
            let rect = face_bounding_box(
                tables.head,
                tables.maxp,
                tables.loca,
                tables.glyf,
                cff,
                gid,
            );
            &&& advance is Some && rect is Some ==> face_metrics(tables, gid) == Some(
                (advance->0, rect->0),
            )
            &&& advance is None || rect is None ==> face_metrics(tables, gid) is None
        }),
{
}

/// Every one of the ten digits is read: the slots of digit `i` hold the glyphs
/// that the face has for the Latin and for the Devanagari digit of that value,
/// with their metrics where there are two different ones.
pub proof fn every_digit_is_read(tables: TablesView, i: int)
    requires
        0 <= i < 10,
    ensures
        ({
            let left = face_glyph(tables, (0x30 + i) as char);
            let right = face_glyph(tables, (0x966 + i) as char);
            let slots = face_digits(tables)[i];
            &&& face_digits(tables).len() == 10
            &&& slots.latin is Some == left is Some
            &&& slots.devanagari is Some == right is Some
            &&& left is Some ==> slots.latin->0.gid == left->0
            &&& right is Some ==> slots.devanagari->0.gid == right->0
            &&& left is Some && right is Some && left != right ==> slots.latin->0.metrics
                == face_metrics(tables, left->0) && slots.devanagari->0.metrics == face_metrics(
                tables,
                right->0,
            )
        }),
{
    digits_in_order(i);
    assert(LATIN_DIGITS[i] == (0x30 + i) as char);
    assert(DEVANAGARI_DIGITS[i] == (0x966 + i) as char);
}

/// The face has two different glyphs for the digit of value `i`, both of them
/// measured, and they are the same drawing.
pub open spec fn digit_in_disguise(tables: TablesView, i: int) -> bool {
    &&& 0 <= i < 10
    &&& face_glyph(tables, (0x30 + i) as char) matches Some(left)
    &&& face_glyph(tables, (0x966 + i) as char) matches Some(right)
    &&& left != right
    &&& face_metrics(tables, left) matches Some(drawn)
    &&& face_metrics(tables, right) matches Some(model)
    &&& same_drawing(drawn, model, face_units_per_em(tables.head))
}

proof fn lemma_digit_in_disguise(tables: TablesView, i: int)
    requires
        0 <= i < 10,
    ensures
        disguised(face_digits(tables)[i], face_units_per_em(tables.head)) == digit_in_disguise(
            tables,
            i,
        ),
        digit_in_disguise(tables, i) ==> face_digits(tables)[i].latin->0.gid == face_glyph(
            tables,
            (0x30 + i) as char,
        )->0,
{
    every_digit_is_read(tables, i);
    what_a_disguise_is(face_digits(tables)[i], face_units_per_em(tables.head));
}

/// In the map of a font in which seven or more of the ten digits are disguised,
/// the glyph of every disguised Latin digit, from zero to nine, has the
/// Devanagari digit of the same value as its text. (Where a later disguised digit
/// has the same glyph, that one tells.)
pub proof fn disguised_digits_read_as_they_look(font: Seq<u8>, slots: Set<int>, i: int)
    requires
        font_glyph_map(font) is Some,
        face_units_per_em(font_tables(font)->0.head) > 0,
        slots.finite(),
        slots.len() >= 7,
        forall|k: int| #[trigger]
            slots.contains(k) ==> digit_in_disguise(font_tables(font)->0, k),
        digit_in_disguise(font_tables(font)->0, i),
        forall|j: int|
            i < j && #[trigger] digit_in_disguise(font_tables(font)->0, j) ==> face_glyph(
                font_tables(font)->0,
                (0x30 + j) as char,
            ) != face_glyph(font_tables(font)->0, (0x30 + i) as char),
    ensures
        ({
            let gid = face_glyph(font_tables(font)->0, (0x30 + i) as char)->0;
            let map = font_glyph_map(font)->0;
            &&& map.contains_key(gid)
            &&& map[gid] == seq![(0x966 + i) as char]
        }),
{
    let tables = font_tables(font)->0;
    let units = face_units_per_em(tables.head);
    let digits = face_digits(tables);
    let texts = face_texts(tables);
    assert forall|k: int| #[trigger] slots.contains(k) implies 0 <= k < 10 && disguised(
        digits[k],
        units,
    ) by {
        lemma_digit_in_disguise(tables, k);
    }
    lemma_digit_in_disguise(tables, i);
    assert forall|j: int| i < j < 10 && disguised(#[trigger] digits[j], units) implies digits[
        j].latin->0.gid != digits[i].latin->0.gid by {
        lemma_digit_in_disguise(tables, j);
    }
    seven_disguises_are_seen_through(texts, digits, units, slots, i);
    let gid = digits[i].latin->0.gid;
    let corrected = with_true_digits(texts, digits, units);
    named_glyphs_keep_their_text(
        corrected,
        reversed_ligatures(face_lookups(tables)),
        reversed_singles(face_lookups(tables)),
        face_glyph_count(tables.maxp),
        gid,
    );
    assert(corrected[gid] == seq![(0x966 + i) as char]);
}

/// In the map of a font in which six or fewer of the ten digits are disguised,
/// every glyph that the character map names keeps its text.
pub proof fn a_few_lookalikes_change_nothing(font: Seq<u8>, slots: Set<int>, gid: u16)
    requires
        font_glyph_map(font) is Some,
        slots.finite(),
        slots.len() <= 6,
        forall|k: int| #[trigger]
            digit_in_disguise(font_tables(font)->0, k) ==> slots.contains(k),
        font_texts(font).contains_key(gid),
    ensures
        font_glyph_map(font)->0.contains_key(gid),
        font_glyph_map(font)->0[gid] == font_texts(font)[gid],
{
    let tables = font_tables(font)->0;
    let units = face_units_per_em(tables.head);
    let digits = face_digits(tables);
    let texts = face_texts(tables);
    assert forall|k: int|
        0 <= k < 10 && disguised(#[trigger] digits[k], units) implies slots.contains(k) by {
        lemma_digit_in_disguise(tables, k);
    }
    six_disguises_are_left_alone(texts, digits, units, slots);
    named_glyphs_keep_their_text(
        texts,
        reversed_ligatures(face_lookups(tables)),
        reversed_singles(face_lookups(tables)),
        face_glyph_count(tables.maxp),
        gid,
    );
}

/// In the map of a font, a glyph that neither the character map nor a disguise
/// names has the text that it spells through the reversed substitutions, digits
/// corrected; what spells nothing, or is no glyph of the face, is not in the map.
pub proof fn glyphs_without_a_codepoint_are_spelled(font: Seq<u8>, gid: u16)
    requires
        font_glyph_map(font) is Some,
        !font_texts(font).contains_key(gid),
        forall|k: int| #[trigger]
            digit_in_disguise(font_tables(font)->0, k) ==> face_glyph(
                font_tables(font)->0,
                (0x30 + k) as char,
            ) != Some(gid),
    ensures
        ({
            let tables = font_tables(font)->0;
            let map = font_glyph_map(font)->0;
            let text = glyph_text(
                gid,
                with_true_digits(
                    font_texts(font),
                    face_digits(tables),
                    face_units_per_em(tables.head),
                ),
                reversed_ligatures(face_lookups(tables)),
                reversed_singles(face_lookups(tables)),
                0,
            );
            &&& gid < face_glyph_count(tables.maxp) && text is Some ==> map.contains_key(gid)
                && map[gid] == text->0
            &&& gid >= face_glyph_count(tables.maxp) || text is None ==> !map.contains_key(gid)
        }),
{
    let tables = font_tables(font)->0;
    let units = face_units_per_em(tables.head);
    let digits = face_digits(tables);
    let texts = face_texts(tables);
    assert forall|k: int| 0 <= k < 10 && disguised(#[trigger] digits[k], units) implies digits[
        k].latin->0.gid != gid by {
        lemma_digit_in_disguise(tables, k);
    }
    other_glyphs_are_untouched(texts, digits, units, gid);
    the_glyphs_of_a_face_are_named(
        with_true_digits(texts, digits, units),
        reversed_ligatures(face_lookups(tables)),
        reversed_singles(face_lookups(tables)),
        face_glyph_count(tables.maxp),
        gid,
    );
}

/// Every lookup of the substitution table is read, in order, and every subtable
/// of it that is reached; a lookup that cannot be read stays in its place.
pub proof fn every_lookup_is_read(tables: TablesView, lookup: u16, index: u16)
    requires
        tables.gsub is Some,
        lookup < gsub_count(tables.gsub->0),
    ensures
        ({
            let gsub = tables.gsub->0;
            let lookups = face_lookups(tables);
            &&& lookups.len() == gsub_count(gsub)
            &&& lookups[lookup as int] is Some <==> gsub_length(gsub, lookup) is Some
            &&& lookups[lookup as int] matches Some(subtables) ==> subtables.len() == gsub_reached(
                gsub,
                lookup,
                0,
            )
        }),
{
}

/// A subtable that is reached is read as what it is: its coverage, and its
/// ligature sets, its shift or its list.
pub proof fn a_subtable_is_read_as_what_it_is(tables: TablesView, lookup: u16, index: u16)
    requires
        tables.gsub is Some,
        lookup < gsub_count(tables.gsub->0),
        gsub_length(tables.gsub->0, lookup) is Some,
        index < gsub_reached(tables.gsub->0, lookup, 0),
    ensures
        ({
            let gsub = tables.gsub->0;
            let subtable = face_lookups(tables)[lookup as int]->0[index as int];
            let covered = gsub_coverage(gsub, lookup, index);
            match gsub_kind(gsub, lookup, index) {
                KindView::Ligature => subtable matches SubstitutionView::Ligature {
                    coverage,
                    ligature_sets,
                } && coverage == covered && ligature_sets.len() == gsub_set_count(
                    gsub,
                    lookup,
                    index,
                ) && forall|i: u16|
                    i < gsub_set_count(gsub, lookup, index) ==> ligature_sets[i as int]
                        == #[trigger] gsub_ligature_set(gsub, lookup, index, i),
                KindView::SingleDelta { delta } => subtable == (SubstitutionView::SingleDelta {
                    coverage: covered,
                    delta,
                }),
                KindView::SingleList { substitutes } => subtable == (SubstitutionView::SingleList {
                    coverage: covered,
                    substitutes,
                }),
                KindView::Other => subtable is Other,
            }
        }),
{
}

/// A face without a substitution table has no lookups.
pub proof fn without_substitutions_there_are_no_lookups(tables: TablesView)
    requires
        tables.gsub is None,
    ensures
        face_lookups(tables).len() == 0,
{
}

/// A font can be read where its directory can be, and the parser accepts the
/// three tables that every face has.
pub proof fn what_a_readable_font_is(font: Seq<u8>)
    ensures
        readable(font) <==> directory_in_reach(font) && face_records(font) is Some && face_parses(
            font_tables(font)->0.head,
            font_tables(font)->0.hhea,
            font_tables(font)->0.maxp,
        ),
{
}

/// A listed subtable can be read where the parser reads it, and is handed to the
/// parser where it is within reach.
pub proof fn what_a_readable_subtable_is(table: Seq<u8>, lookup: u16, index: u16)
    ensures
        cmap_has(table, index) <==> index < cmap_length(table) && subtable_in_reach(table, index)
            && cmap_subtable(table, index),
        gsub_has(table, lookup, index) <==> lookup < gsub_count(table) && (gsub_length(
            table,
            lookup,
        ) matches Some(length) && index < length) && subtable_ends(table, lookup, index)
            && gsub_subtable(table, lookup, index),
{
}

} // verus!
