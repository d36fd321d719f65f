//! What the font parser reads out of the tables of a font.
//!
//! Each function here is one reading. It takes the tables and gives plain
//! values; the names beside them stand for what the parser makes of the bytes
//! that they are given, which is a function of those bytes alone. Parsing is
//! documented as free, so every reading parses its own. What is handed to the
//! parser has been looked at by [`crate::preflight`] and [`crate::cff`].
//!
//! The parser is built without its support for variation tables, so a variable
//! font is read as the font its other tables describe.

use vstd::prelude::*;
use std::collections::HashMap;
use ttf_parser::gsub::{SingleSubstitution, SubstitutionSubtable};
use ttf_parser::opentype_layout::Coverage as Covered;
use ttf_parser::{Face, GlyphId, RawFaceTables};
use crate::cff::hints_in_reach;
use crate::cmap::{record_mapping, with_mappings};
use crate::digits::Rect;
use crate::font_tables::{bytes, Tables, TablesView};
use crate::glyphs::texts_view;
use crate::gsub::{
    ligature_set_view, CoverageView, Ligature, LigatureSet, LigatureSetView, RangeRecord,
};
use crate::preflight::{subtable_ends, subtable_in_reach};

verus! {

/// The three tables that every face has can be read.
pub uninterp spec fn face_parses(head: Seq<u8>, hhea: Seq<u8>, maxp: Seq<u8>) -> bool;

/// How many subtables a character map lists.
pub uninterp spec fn cmap_length(cmap: Seq<u8>) -> u16;

/// Whether a character map subtable can be read.
pub uninterp spec fn cmap_subtable(cmap: Seq<u8>, index: u16) -> bool;

/// Whether a character map subtable is keyed by Unicode.
pub uninterp spec fn cmap_unicode(cmap: Seq<u8>, index: u16) -> bool;

/// The codepoints that a character map subtable defines, in order.
pub uninterp spec fn cmap_codepoints(cmap: Seq<u8>, index: u16) -> Seq<u32>;

/// The glyph that a character map subtable gives a codepoint.
pub uninterp spec fn cmap_glyph(cmap: Seq<u8>, index: u16, code: u32) -> Option<u16>;

/// The size of the em square, in font units.
pub uninterp spec fn face_units_per_em(head: Seq<u8>) -> u16;

/// How many glyphs the face has.
pub uninterp spec fn face_glyph_count(maxp: Seq<u8>) -> u16;

/// The horizontal advance of a glyph, where the face states one.
pub uninterp spec fn face_advance(
    hhea: Seq<u8>,
    maxp: Seq<u8>,
    hmtx: Option<Seq<u8>>,
    gid: u16,
) -> Option<u16>;

/// The face has outlines that are not compact.
pub uninterp spec fn face_has_glyf(
    head: Seq<u8>,
    maxp: Seq<u8>,
    loca: Option<Seq<u8>>,
    glyf: Option<Seq<u8>>,
) -> bool;

/// The box around the outline of a glyph, where the face has one.
pub uninterp spec fn face_bounding_box(
    head: Seq<u8>,
    maxp: Seq<u8>,
    loca: Option<Seq<u8>>,
    glyf: Option<Seq<u8>>,
    cff: Option<Seq<u8>>,
    gid: u16,
) -> Option<Rect>;

/// How many lookups the substitution table lists.
pub uninterp spec fn gsub_count(gsub: Seq<u8>) -> u16;

/// How many subtables a substitution lookup lists; `None` where the lookup
/// cannot be read.
pub uninterp spec fn gsub_length(gsub: Seq<u8>, lookup: u16) -> Option<u16>;

/// Whether a substitution subtable can be read.
pub uninterp spec fn gsub_subtable(gsub: Seq<u8>, lookup: u16, index: u16) -> bool;

/// The coverage of a substitution subtable.
pub uninterp spec fn gsub_coverage(gsub: Seq<u8>, lookup: u16, index: u16) -> CoverageView;

/// The kind of a substitution subtable.
pub uninterp spec fn gsub_kind(gsub: Seq<u8>, lookup: u16, index: u16) -> KindView;

/// How many ligature sets a ligature subtable lists.
pub uninterp spec fn gsub_set_count(gsub: Seq<u8>, lookup: u16, index: u16) -> u16;

/// A ligature set of a ligature subtable; `None` where it cannot be read.
pub uninterp spec fn gsub_ligature_set(gsub: Seq<u8>, lookup: u16, index: u16, set: u16) -> Option<
    LigatureSetView,
>;

/// What a substitution subtable does, apart from the glyphs it covers and the
/// ligatures it makes.
pub enum Kind {
    Ligature,
    SingleDelta { delta: i16 },
    SingleList { substitutes: Vec<u16> },
    Other,
}

/// The mathematical form of a [`Kind`].
pub enum KindView {
    Ligature,
    SingleDelta { delta: i16 },
    SingleList { substitutes: Seq<u16> },
    Other,
}

impl View for Kind {
    type V = KindView;

    open spec fn view(&self) -> KindView {
        match self {
            Kind::Ligature => KindView::Ligature,
            Kind::SingleDelta { delta } => KindView::SingleDelta { delta: *delta },
            Kind::SingleList { substitutes } => KindView::SingleList { substitutes: substitutes@ },
            Kind::Other => KindView::Other,
        }
    }
}

/// The parser accepts the face.
pub open spec fn accepted(tables: TablesView) -> bool {
    face_parses(tables.head, tables.hhea, tables.maxp)
}

/// A subtable that can be read stands at `index` of a character map. One that
/// reaches past what 32 bits can address cannot.
pub open spec fn cmap_has(cmap: Seq<u8>, index: u16) -> bool {
    &&& index < cmap_length(cmap)
    &&& subtable_in_reach(cmap, index)
    &&& cmap_subtable(cmap, index)
}

/// The first subtable of a character map, from `index` on, that cannot be read,
/// or how many there are. The parser does not look past it.
pub open spec fn cmap_reached(cmap: Seq<u8>, index: u16) -> u16
    decreases u16::MAX - index,
{
    if cmap_has(cmap, index) && index < u16::MAX {
        cmap_reached(cmap, (index + 1) as u16)
    } else {
        index
    }
}

/// The mappings of a character map subtable: each codepoint that it defines,
/// with the glyph that it gives it.
pub open spec fn cmap_mappings(cmap: Seq<u8>, index: u16) -> Seq<(u32, Option<u16>)> {
    cmap_codepoints(cmap, index).map_values(|code: u32| (code, cmap_glyph(cmap, index, code)))
}

/// The glyph that the first Unicode subtable out of `count`, from `index` on, to
/// know the codepoint gives it.
pub open spec fn first_unicode_glyph(cmap: Seq<u8>, count: u16, code: u32, index: u16) -> Option<
    u16,
>
    decreases count - index,
{
    if index >= count {
        None
    } else if cmap_unicode(cmap, index) && cmap_glyph(cmap, index, code) is Some {
        cmap_glyph(cmap, index, code)
    } else {
        first_unicode_glyph(cmap, count, code, (index + 1) as u16)
    }
}

/// A subtable that can be read stands at `index` of the lookup at `lookup`. An
/// extension that leads nowhere, or on and on, cannot.
pub open spec fn gsub_has(gsub: Seq<u8>, lookup: u16, index: u16) -> bool {
    &&& lookup < gsub_count(gsub)
    &&& gsub_length(gsub, lookup) matches Some(length)
    &&& index < length
    &&& subtable_ends(gsub, lookup, index)
    &&& gsub_subtable(gsub, lookup, index)
}

/// The first subtable of a lookup, from `index` on, that cannot be read, or how
/// many there are. The parser does not look past it.
pub open spec fn gsub_reached(gsub: Seq<u8>, lookup: u16, index: u16) -> u16
    decreases u16::MAX - index,
{
    if gsub_has(gsub, lookup, index) && index < u16::MAX {
        gsub_reached(gsub, lookup, (index + 1) as u16)
    } else {
        index
    }
}

/// Trusted: `ttf_parser::Face::from_raw_tables` of the three tables that every
/// face has succeeds or fails by their bytes alone. A table that a face may do
/// without never makes it fail.
#[verifier::external_body]
pub(crate) fn parses(tables: &Tables<'_>) -> (ok: bool)
    ensures
        ok == face_parses(tables@.head, tables@.hhea, tables@.maxp),
{
    let Tables { head, hhea, maxp, .. } = *tables;
    Face::from_raw_tables(RawFaceTables { head, hhea, maxp, ..Default::default() }).is_ok()
}

/// Trusted: `ttf_parser::cmap::Table::parse` reads a character map or not, and
/// `ttf_parser::cmap::Subtables::len` of it is fixed by the bytes; it is zero
/// here where the map cannot be read.
#[verifier::external_body]
pub(crate) fn cmap_subtable_count(cmap: &[u8]) -> (count: u16)
    ensures
        count == cmap_length(cmap@),
{
    ttf_parser::cmap::Table::parse(cmap).map_or(0, |cmap| cmap.subtables.len())
}

/// Trusted: `ttf_parser::cmap::Subtables::get` reads a listed subtable or not,
/// by the bytes alone.
#[verifier::external_body]
pub(crate) fn has_cmap_subtable(cmap: &[u8], index: u16) -> (found: bool)
    requires
        index < cmap_length(cmap@),
        subtable_in_reach(cmap@, index),
    ensures
        found == cmap_subtable(cmap@, index),
{
    ttf_parser::cmap::Table::parse(cmap).unwrap().subtables.get(index).is_some()
}

/// Trusted: `ttf_parser::cmap::Subtable::is_unicode` of a subtable that can be
/// read is fixed by the bytes.
#[verifier::external_body]
pub(crate) fn cmap_is_unicode(cmap: &[u8], index: u16) -> (unicode: bool)
    requires
        cmap_has(cmap@, index),
    ensures
        unicode == cmap_unicode(cmap@, index),
{
    ttf_parser::cmap::Table::parse(cmap).unwrap().subtables.get(index).unwrap().is_unicode()
}

/// Trusted: `ttf_parser::cmap::Subtable::codepoints` calls back once for each
/// codepoint that the subtable defines, in an order that the bytes fix, and
/// `ttf_parser::cmap::Subtable::glyph_index` gives each codepoint a glyph or
/// none, by the bytes alone.
#[verifier::external_body]
pub(crate) fn record_cmap(cmap: &[u8], index: u16, resolved: &mut HashMap<u16, String>)
    requires
        cmap_has(cmap@, index),
    ensures
        texts_view(final(resolved)@) == with_mappings(
            texts_view(old(resolved)@),
            cmap_codepoints(cmap@, index).map_values(
                |code: u32| (code, cmap_glyph(cmap@, index, code)),
            ),
        ),
{
    let cmap = ttf_parser::cmap::Table::parse(cmap).unwrap();
    let subtable = cmap.subtables.get(index).unwrap();
    subtable.codepoints(|code| {
        record_mapping(resolved, code, subtable.glyph_index(code).map(|gid| gid.0))
    })
}

/// Trusted: `ttf_parser::cmap::Subtable::glyph_index` of a subtable that can be
/// read gives a codepoint a glyph or none, by the bytes alone.
#[verifier::external_body]
pub(crate) fn glyph_index(cmap: &[u8], index: u16, code: u32) -> (gid: Option<u16>)
    requires
        cmap_has(cmap@, index),
    ensures
        gid == cmap_glyph(cmap@, index, code),
{
    let cmap = ttf_parser::cmap::Table::parse(cmap).unwrap();
    cmap.subtables.get(index).unwrap().glyph_index(code).map(|gid| gid.0)
}

/// Trusted: `ttf_parser::Face::units_per_em` is fixed by the font header.
#[verifier::external_body]
pub(crate) fn units_per_em(tables: &Tables<'_>) -> (units: u16)
    requires
        accepted(tables@),
    ensures
        units == face_units_per_em(tables@.head),
{
    let Tables { head, hhea, maxp, .. } = *tables;
    let raw = RawFaceTables { head, hhea, maxp, ..Default::default() };
    Face::from_raw_tables(raw).unwrap().units_per_em()
}

/// Trusted: `ttf_parser::Face::number_of_glyphs` is fixed by the profile.
#[verifier::external_body]
pub(crate) fn number_of_glyphs(tables: &Tables<'_>) -> (count: u16)
    requires
        accepted(tables@),
    ensures
        count == face_glyph_count(tables@.maxp),
{
    let Tables { head, hhea, maxp, .. } = *tables;
    let raw = RawFaceTables { head, hhea, maxp, ..Default::default() };
    Face::from_raw_tables(raw).unwrap().number_of_glyphs()
}

/// Trusted: `ttf_parser::Face::glyph_hor_advance` of a glyph is fixed by the
/// horizontal metrics, their header, and the profile.
#[verifier::external_body]
pub(crate) fn glyph_hor_advance(tables: &Tables<'_>, gid: u16) -> (advance: Option<u16>)
    requires
        accepted(tables@),
    ensures
        advance == face_advance(tables@.hhea, tables@.maxp, tables@.hmtx, gid),
{
    let Tables { head, hhea, maxp, hmtx, .. } = *tables;
    let raw = RawFaceTables { head, hhea, maxp, hmtx, ..Default::default() };
    Face::from_raw_tables(raw).unwrap().glyph_hor_advance(GlyphId(gid))
}

/// Trusted: whether `ttf_parser::FaceTables::glyf` is there is fixed by the
/// outlines and their places, the font header and the profile.
#[verifier::external_body]
pub(crate) fn has_glyf(tables: &Tables<'_>) -> (yes: bool)
    requires
        accepted(tables@),
    ensures
        yes == face_has_glyf(tables@.head, tables@.maxp, tables@.loca, tables@.glyf),
{
    let Tables { head, hhea, maxp, loca, glyf, .. } = *tables;
    let raw = RawFaceTables { head, hhea, maxp, loca, glyf, ..Default::default() };
    Face::from_raw_tables(raw).unwrap().tables().glyf.is_some()
}

/// Trusted: `ttf_parser::Face::glyph_bounding_box` of a glyph is fixed by the
/// outlines and their places, the compact outlines, the font header and the
/// profile. It runs the program of a compact outline, which ends on every font
/// but may take long; the hints that the program declares must be such that 32
/// bits can count them.
#[verifier::external_body]
pub(crate) fn glyph_bounding_box(tables: &Tables<'_>, cff: Option<&[u8]>, gid: u16) -> (rect:
    Option<Rect>)
    requires
        accepted(tables@),
        cff matches Some(cff) ==> hints_in_reach(cff@, gid),
    ensures
        rect == face_bounding_box(
            tables@.head,
            tables@.maxp,
            tables@.loca,
            tables@.glyf,
            bytes(cff),
            gid,
        ),
{
    let Tables { head, hhea, maxp, loca, glyf, .. } = *tables;
    let raw = RawFaceTables { head, hhea, maxp, loca, glyf, cff, ..Default::default() };
    let rect = Face::from_raw_tables(raw).unwrap().glyph_bounding_box(GlyphId(gid));
    rect.map(|r| Rect { x_min: r.x_min, y_min: r.y_min, x_max: r.x_max, y_max: r.y_max })
}

/// The parser accepts the face, and the face has a substitution table.
pub open spec fn substitutes(tables: TablesView) -> bool {
    accepted(tables) && tables.gsub is Some
}

/// Trusted: the length of the `lookups` of the face's GSUB table
/// (`ttf_parser::opentype_layout::LayoutTable`) is fixed by the bytes of the
/// table; it is zero here where the table cannot be read.
#[verifier::external_body]
pub(crate) fn lookup_count(tables: &Tables<'_>) -> (count: u16)
    requires
        substitutes(tables@),
    ensures
        count == gsub_count(tables@.gsub->0),
{
    let Tables { head, hhea, maxp, gsub, .. } = *tables;
    let raw = RawFaceTables { head, hhea, maxp, gsub, ..Default::default() };
    Face::from_raw_tables(raw).unwrap().tables().gsub.map_or(0, |gsub| gsub.lookups.len())
}

/// Trusted: a lookup can be read or not, and the length of its subtables
/// (`ttf_parser::opentype_layout::LookupSubtables::len`) is fixed by the bytes
/// of the GSUB table.
#[verifier::external_body]
pub(crate) fn lookup_length(tables: &Tables<'_>, lookup: u16) -> (length: Option<u16>)
    requires
        substitutes(tables@),
        lookup < gsub_count(tables@.gsub->0),
    ensures
        length == gsub_length(tables@.gsub->0, lookup),
{
    let Tables { head, hhea, maxp, gsub, .. } = *tables;
    let raw = RawFaceTables { head, hhea, maxp, gsub, ..Default::default() };
    let gsub = Face::from_raw_tables(raw).unwrap().tables().gsub.unwrap();
    gsub.lookups.get(lookup).map(|l| l.subtables.len())
}

/// Trusted: `ttf_parser::opentype_layout::LookupSubtables::get` finds a
/// subtable that can be read or not, by the bytes of the GSUB table alone. It
/// follows an extension to what it stands for, for as long as that is another
/// extension.
#[verifier::external_body]
pub(crate) fn has_subtable(tables: &Tables<'_>, lookup: u16, index: u16) -> (found: bool)
    requires
        substitutes(tables@),
        lookup < gsub_count(tables@.gsub->0),
        gsub_length(tables@.gsub->0, lookup) matches Some(length) && index < length,
        subtable_ends(tables@.gsub->0, lookup, index),
    ensures
        found == gsub_subtable(tables@.gsub->0, lookup, index),
{
    let Tables { head, hhea, maxp, gsub, .. } = *tables;
    let raw = RawFaceTables { head, hhea, maxp, gsub, ..Default::default() };
    let lookups = Face::from_raw_tables(raw).unwrap().tables().gsub.unwrap().lookups;
    let subtables = lookups.get(lookup).unwrap().subtables;
    subtables.get::<SubstitutionSubtable>(index).is_some()
}

/// Trusted: `ttf_parser::gsub::SubstitutionSubtable::coverage` of a subtable
/// that can be read is fixed by the bytes of the GSUB table. This gives the
/// glyphs of a coverage that lists them one by one, in order.
#[verifier::external_body]
pub(crate) fn covered_glyphs(tables: &Tables<'_>, lookup: u16, index: u16) -> (covered: Option<
    Vec<u16>,
>)
    requires
        substitutes(tables@),
        gsub_has(tables@.gsub->0, lookup, index),
    ensures
        match covered {
            Some(covered) => gsub_coverage(tables@.gsub->0, lookup, index)
                == (CoverageView::Format1 { glyphs: covered@ }),
            None => gsub_coverage(tables@.gsub->0, lookup, index) is Format2,
        },
{
    let Tables { head, hhea, maxp, gsub, .. } = *tables;
    let raw = RawFaceTables { head, hhea, maxp, gsub, ..Default::default() };
    let lookups = Face::from_raw_tables(raw).unwrap().tables().gsub.unwrap().lookups;
    let subtables = lookups.get(lookup).unwrap().subtables;
    match subtables.get::<SubstitutionSubtable>(index).unwrap().coverage() {
        Covered::Format1 { glyphs } => Some(
            (0..glyphs.len()).map_while(|i| glyphs.get(i)).map(|gid| gid.0).collect(),
        ),
        Covered::Format2 { .. } => None,
    }
}

/// Trusted: `ttf_parser::gsub::SubstitutionSubtable::coverage` again, of a
/// subtable whose coverage lists its glyphs in ranges. This gives the ranges, in
/// order, which the bytes of the GSUB table fix too.
#[verifier::external_body]
pub(crate) fn covered_ranges(tables: &Tables<'_>, lookup: u16, index: u16) -> (covered: Vec<
    RangeRecord,
>)
    requires
        substitutes(tables@),
        gsub_has(tables@.gsub->0, lookup, index),
        gsub_coverage(tables@.gsub->0, lookup, index) is Format2,
    ensures
        gsub_coverage(tables@.gsub->0, lookup, index) == (CoverageView::Format2 {
            records: covered@,
        }),
{
    let Tables { head, hhea, maxp, gsub, .. } = *tables;
    let raw = RawFaceTables { head, hhea, maxp, gsub, ..Default::default() };
    let lookups = Face::from_raw_tables(raw).unwrap().tables().gsub.unwrap().lookups;
    let subtables = lookups.get(lookup).unwrap().subtables;
    match subtables.get::<SubstitutionSubtable>(index).unwrap().coverage() {
        Covered::Format1 { .. } => Vec::new(),
        Covered::Format2 { records } => (0..records.len()).map_while(|i| records.get(i)).map(
            |r| RangeRecord { start: r.start.0, end: r.end.0, value: r.value },
        ).collect(),
    }
}

/// Trusted: which `ttf_parser::gsub::SubstitutionSubtable` a subtable that can
/// be read is, with the delta or the list of a single substitution, is fixed by
/// the bytes of the GSUB table.
#[verifier::external_body]
pub(crate) fn kind(tables: &Tables<'_>, lookup: u16, index: u16) -> (kind: Kind)
    requires
        substitutes(tables@),
        gsub_has(tables@.gsub->0, lookup, index),
    ensures
        kind@ == gsub_kind(tables@.gsub->0, lookup, index),
{
    let Tables { head, hhea, maxp, gsub, .. } = *tables;
    let raw = RawFaceTables { head, hhea, maxp, gsub, ..Default::default() };
    let lookups = Face::from_raw_tables(raw).unwrap().tables().gsub.unwrap().lookups;
    let subtables = lookups.get(lookup).unwrap().subtables;
    match subtables.get::<SubstitutionSubtable>(index).unwrap() {
        SubstitutionSubtable::Ligature(_) => Kind::Ligature,
        SubstitutionSubtable::Single(SingleSubstitution::Format1 { delta, .. }) => {
            Kind::SingleDelta { delta }
        },
        SubstitutionSubtable::Single(SingleSubstitution::Format2 { substitutes: s, .. }) => {
            let substitutes = (0..s.len()).map_while(|i| Some(s.get(i)?.0)).collect();
            Kind::SingleList { substitutes }
        },
        _ => Kind::Other,
    }
}

/// Trusted: the length of the `ligature_sets` of a
/// `ttf_parser::gsub::LigatureSubstitution` is fixed by the bytes of the GSUB
/// table.
#[verifier::external_body]
pub(crate) fn ligature_set_count(tables: &Tables<'_>, lookup: u16, index: u16) -> (count: u16)
    requires
        substitutes(tables@),
        gsub_has(tables@.gsub->0, lookup, index),
        gsub_kind(tables@.gsub->0, lookup, index) is Ligature,
    ensures
        count == gsub_set_count(tables@.gsub->0, lookup, index),
{
    let Tables { head, hhea, maxp, gsub, .. } = *tables;
    let raw = RawFaceTables { head, hhea, maxp, gsub, ..Default::default() };
    let lookups = Face::from_raw_tables(raw).unwrap().tables().gsub.unwrap().lookups;
    let subtables = lookups.get(lookup).unwrap().subtables;
    match subtables.get(index).unwrap() {
        SubstitutionSubtable::Ligature(table) => table.ligature_sets.len(),
        _ => 0,
    }
}

/// Trusted: one of the `ligature_sets` of a
/// `ttf_parser::gsub::LigatureSubstitution` can be read or not, as can each of
/// the ligatures that it lists, and the glyph and the components of each are
/// fixed by the bytes of the GSUB table.
#[verifier::external_body]
pub(crate) fn ligature_set(tables: &Tables<'_>, lookup: u16, index: u16, set: u16) -> (ligatures:
    Option<LigatureSet>)
    requires
        substitutes(tables@),
        gsub_has(tables@.gsub->0, lookup, index),
        gsub_kind(tables@.gsub->0, lookup, index) is Ligature,
        set < gsub_set_count(tables@.gsub->0, lookup, index),
    ensures
        ligature_set_view(ligatures) == gsub_ligature_set(tables@.gsub->0, lookup, index, set),
{
    let Tables { head, hhea, maxp, gsub, .. } = *tables;
    let raw = RawFaceTables { head, hhea, maxp, gsub, ..Default::default() };
    let lookups = Face::from_raw_tables(raw).unwrap().tables().gsub.unwrap().lookups;
    let subtables = lookups.get(lookup).unwrap().subtables;
    let set = match subtables.get(index).unwrap() {
        SubstitutionSubtable::Ligature(table) => table.ligature_sets.get(set)?,
        _ => return None,
    };
    Some((0..set.len()).map(|i| set.get(i).map(|l| Ligature {
        glyph: l.glyph.0,
        components: l.components.into_iter().map(|g| g.0).collect(),
    })).collect())
}

} // verus!
