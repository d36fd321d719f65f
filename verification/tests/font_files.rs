//! Whole font files, built table by table.

use std::collections::HashMap;

use nepali::cff::are_hints_in_reach;
use nepali::dict::{find_last_place, find_last_span};
use nepali::font_tables::find_table;
use nepali::glyph_map::devanagari_glyph_map;
use nepali::outlines::find_outlines;
use nepali::preflight::{is_directory_in_reach, is_subtable_ending, is_subtable_in_reach};

fn be16(out: &mut Vec<u8>, value: u16) {
    out.extend(value.to_be_bytes());
}

fn be32(out: &mut Vec<u8>, value: u32) {
    out.extend(value.to_be_bytes());
}

fn shorts(values: &[u16]) -> Vec<u8> {
    let mut out: Vec<u8> = Vec::new();
    for value in values {
        be16(&mut out, *value);
    }
    out
}

fn head(units_per_em: u16) -> Vec<u8> {
    let mut table = vec![0u8; 54];
    table[18..20].copy_from_slice(&units_per_em.to_be_bytes());
    // Long offsets into the outlines.
    table[51] = 1;
    table
}

fn hhea(metrics: u16) -> Vec<u8> {
    let mut table = vec![0u8; 36];
    table[34..36].copy_from_slice(&metrics.to_be_bytes());
    table
}

fn maxp(glyphs: u16) -> Vec<u8> {
    let mut table: Vec<u8> = Vec::new();
    be32(&mut table, 0x0000_5000);
    be16(&mut table, glyphs);
    table
}

fn hmtx(advances: &[u16]) -> Vec<u8> {
    let mut table: Vec<u8> = Vec::new();
    for advance in advances {
        be16(&mut table, *advance);
        be16(&mut table, 0);
    }
    table
}

/// A character map with one subtable per encoding.
fn cmap(subtables: &[(u16, u16, Vec<(u32, u16)>)]) -> Vec<u8> {
    let mut table: Vec<u8> = Vec::new();
    be16(&mut table, 0);
    be16(&mut table, subtables.len() as u16);
    let mut offset: u32 = 4 + 8 * subtables.len() as u32;
    for (platform, encoding, groups) in subtables {
        be16(&mut table, *platform);
        be16(&mut table, *encoding);
        be32(&mut table, offset);
        offset += 16 + 12 * groups.len() as u32;
    }
    for (_, _, groups) in subtables {
        be16(&mut table, 12);
        be16(&mut table, 0);
        be32(&mut table, 16 + 12 * groups.len() as u32);
        be32(&mut table, 0);
        be32(&mut table, groups.len() as u32);
        for (code, gid) in groups {
            be32(&mut table, *code);
            be32(&mut table, *code);
            be32(&mut table, u32::from(*gid));
        }
    }
    table
}

/// Outlines that are rectangles, and the offsets to them.
fn outlines(boxes: &[Option<[i16; 4]>]) -> (Vec<u8>, Vec<u8>) {
    let mut glyf: Vec<u8> = Vec::new();
    let mut loca: Vec<u8> = Vec::new();
    for corners in boxes {
        be32(&mut loca, glyf.len() as u32);
        if let Some([x_min, y_min, x_max, y_max]) = corners {
            be16(&mut glyf, 1);
            for edge in [x_min, y_min, x_max, y_max] {
                glyf.extend(edge.to_be_bytes());
            }
            // Four points, no instructions, every coordinate a long delta.
            be16(&mut glyf, 3);
            be16(&mut glyf, 0);
            glyf.extend([1u8; 4]);
            for delta in [*x_min, 0, x_max - x_min, 0] {
                glyf.extend(delta.to_be_bytes());
            }
            for delta in [*y_min, y_max - y_min, 0, y_min - y_max] {
                glyf.extend(delta.to_be_bytes());
            }
        }
    }
    be32(&mut loca, glyf.len() as u32);
    (glyf, loca)
}

/// Substitution lookups, each given by its type and its subtables.
fn gsub(lookups: &[(u16, Vec<Vec<u8>>)]) -> Vec<u8> {
    // Version, three offsets, an empty script list and an empty feature list.
    let mut table = shorts(&[1, 0, 10, 12, 14, 0, 0]);
    be16(&mut table, lookups.len() as u16);
    let mut bodies: Vec<u8> = Vec::new();
    for (kind, subtables) in lookups {
        be16(&mut table, 2 + 2 * lookups.len() as u16 + bodies.len() as u16);
        bodies.extend(shorts(&[*kind, 0, subtables.len() as u16]));
        let mut offset: u16 = 6 + 2 * subtables.len() as u16;
        for subtable in subtables {
            be16(&mut bodies, offset);
            offset += subtable.len() as u16;
        }
        for subtable in subtables {
            bodies.extend(subtable);
        }
    }
    table.extend(bodies);
    table
}

fn font(tables: &[([u8; 4], Vec<u8>)]) -> Vec<u8> {
    let mut file: Vec<u8> = Vec::new();
    be32(&mut file, 0x0001_0000);
    be16(&mut file, tables.len() as u16);
    file.extend([0u8; 6]);
    let mut offset: u32 = 12 + 16 * tables.len() as u32;
    for (tag, table) in tables {
        file.extend(tag);
        be32(&mut file, 0);
        be32(&mut file, offset);
        be32(&mut file, table.len() as u32);
        offset += table.len() as u32;
    }
    for (_, table) in tables {
        file.extend(table);
    }
    file
}

/// A face with a character map and nothing else to say.
fn plain_font(glyphs: u16, subtables: &[(u16, u16, Vec<(u32, u16)>)]) -> Vec<u8> {
    font(&[
        (*b"cmap", cmap(subtables)),
        (*b"head", head(1000)),
        (*b"hhea", hhea(1)),
        (*b"maxp", maxp(glyphs)),
    ])
}

/// The first `count` letters from क on, in slots 1 and up.
fn letters(count: u16) -> Vec<(u32, u16)> {
    (0..count).map(|i| (0x915 + u32::from(i), i + 1)).collect()
}

const LATIN_ZERO: u16 = 20;
const DEVANAGARI_ZERO: u16 = 30;
const RA: u16 = 10;
const VIRAMA: u16 = 11;
const AI_MATRA: u16 = 12;

/// The advance and the box of a slot in the full font: `disguised` Latin digits
/// are drawn as the Devanagari ones are, thirty units further right.
fn slot_metrics(gid: u16, disguised: u16) -> (u16, Option<[i16; 4]>) {
    if (LATIN_ZERO..LATIN_ZERO + disguised).contains(&gid) {
        (700, Some([30, 0, 530, 800]))
    } else if (LATIN_ZERO..LATIN_ZERO + 10).contains(&gid) {
        (500, Some([30, 0, 330, 700]))
    } else if (DEVANAGARI_ZERO..DEVANAGARI_ZERO + 10).contains(&gid) {
        (700, Some([0, 0, 500, 800]))
    } else {
        (600, None)
    }
}

/// The codes of the full font: letters and both rows of digits.
fn full_codes() -> Vec<(u32, u16)> {
    let mut codes: Vec<(u32, u16)> = Vec::new();
    for i in 0..10u16 {
        codes.push((0x30 + u32::from(i), LATIN_ZERO + i));
    }
    codes.extend(letters(9));
    codes.push((0x930, RA));
    codes.push((0x948, AI_MATRA));
    codes.push((0x94D, VIRAMA));
    for i in 0..10u16 {
        codes.push((0x966 + u32::from(i), DEVANAGARI_ZERO + i));
    }
    codes
}

/// Letters, both rows of digits, and glyphs that only substitutions reach.
fn full_font(disguised: u16) -> Vec<u8> {
    let codes = full_codes();
    let glyphs: u16 = 60;
    let metrics: Vec<(u16, Option<[i16; 4]>)> =
        (0..glyphs).map(|gid| slot_metrics(gid, disguised)).collect();
    let advances: Vec<u16> = metrics.iter().map(|slot| slot.0).collect();
    let boxes: Vec<Option<[i16; 4]>> = metrics.iter().map(|slot| slot.1).collect();
    let (glyf, loca) = outlines(&boxes);

    // Ligatures: क and र and virama make 40, क and ै and 42 make 41, and र and
    // virama make 42. The second of the covered glyphs has no ligatures.
    let ligatures = shorts(&[
        1, 12, 3, 22, 0, 44, // format, coverage, three sets
        1, 3, 1, 2, RA, // coverage: three glyphs, in slots 1, 2 and 10
        2, 6, 14, // the set of क: two ligatures
        40, 3, RA, VIRAMA, // the first
        41, 3, AI_MATRA, 42, // the second
        1, 4, 42, 2, VIRAMA, // the set of र: one ligature
    ]);
    // Slots 3 to 5 shifted by forty, by a range coverage.
    let shifted = shorts(&[1, 6, 40, 2, 1, 3, 5, 0]);
    // 20 becomes 50 and 40 becomes 51.
    let listed = shorts(&[2, 10, 2, 50, 51, 1, 2, LATIN_ZERO, 40]);
    // A multiple substitution, which cannot be run backwards: 6 becomes 52, 53.
    let multiple = shorts(&[1, 8, 1, 14, 1, 1, 6, 2, 52, 53]);

    font(&[
        (*b"GSUB", gsub(&[(4, vec![ligatures]), (1, vec![shifted, listed]), (2, vec![multiple])])),
        (*b"cmap", cmap(&[(3, 10, codes)])),
        (*b"glyf", glyf),
        (*b"head", head(1000)),
        (*b"hhea", hhea(glyphs)),
        (*b"hmtx", hmtx(&advances)),
        (*b"loca", loca),
        (*b"maxp", maxp(glyphs)),
    ])
}

#[test]
fn what_is_no_font_has_no_map() {
    assert!(devanagari_glyph_map(&[]).is_none());
    assert!(devanagari_glyph_map(b"%PDF-1.7").is_none());
    let mut cut = plain_font(12, &[(3, 10, letters(8))]);
    cut.truncate(60);
    assert!(devanagari_glyph_map(&cut).is_none());
}

#[test]
fn a_devanagari_font_is_mapped_by_its_character_map() {
    let map = devanagari_glyph_map(&plain_font(12, &[(3, 10, letters(8))])).unwrap();
    let expected: HashMap<u16, String> =
        letters(8).iter().map(|(code, gid)| (*gid, char::from_u32(*code).unwrap().to_string())).collect();
    assert_eq!(map, expected);
}

#[test]
fn a_face_without_a_character_map_is_no_devanagari_font() {
    let bare = font(&[(*b"head", head(1000)), (*b"hhea", hhea(1)), (*b"maxp", maxp(12))]);
    assert!(devanagari_glyph_map(&bare).is_none());
}

#[test]
fn too_few_devanagari_glyphs_are_no_devanagari_font() {
    assert!(devanagari_glyph_map(&plain_font(12, &[(3, 10, letters(7))])).is_none());
}

#[test]
fn a_latin_font_with_some_devanagari_is_left_alone() {
    let latin: Vec<(u32, u16)> = (0..9u16).map(|i| (0x41 + u32::from(i), 20 + i)).collect();
    let mut codes = latin.clone();
    codes.extend(letters(8));
    assert!(devanagari_glyph_map(&plain_font(40, &[(3, 10, codes)])).is_none());
    // One letter more makes half of it.
    let mut codes = latin;
    codes.extend(letters(9));
    assert_eq!(devanagari_glyph_map(&plain_font(40, &[(3, 10, codes)])).unwrap().len(), 18);
}

#[test]
fn only_unicode_subtables_are_read_and_the_first_wins() {
    // The Macintosh subtable is no Unicode one; the last gives slot 1 a second
    // codepoint and slot 9 its first.
    let macintosh: Vec<(u32, u16)> = vec![(0x41, 1), (0x42, 30)];
    let later: Vec<(u32, u16)> = vec![(0x936, 1), (0x937, 9)];
    let map = devanagari_glyph_map(&plain_font(
        40,
        &[(1, 0, macintosh), (0, 4, letters(8)), (3, 10, later)],
    ))
    .unwrap();
    assert_eq!(map[&1], "क");
    assert_eq!(map[&9], "ष");
    assert!(!map.contains_key(&30));
    assert_eq!(map.len(), 9);
}

#[test]
fn conjuncts_are_named_through_their_substitutions() {
    let map = devanagari_glyph_map(&full_font(0)).unwrap();
    // क + र + virama is a rakar.
    assert_eq!(map[&40], "क\u{094D}र");
    // After a matra the same pair is a reph.
    assert_eq!(map[&41], "र\u{094D}क\u{0948}");
    assert_eq!(map[&42], "र\u{094D}");
    // 3 to 5 are shifted onto 43 to 45.
    assert_eq!(map[&43], "ग");
    assert_eq!(map[&44], "घ");
    assert_eq!(map[&45], "ङ");
    // 51 is a variant of the conjunct 40.
    assert_eq!(map[&51], map[&40]);
    // No substitution that can be reversed reaches these.
    for gid in [0, 46, 52, 53, 59] {
        assert!(!map.contains_key(&gid), "{gid}");
    }
    assert_eq!(map.len(), 32 + 8);
}

#[test]
fn honest_latin_digits_stay_latin() {
    let map = devanagari_glyph_map(&full_font(6)).unwrap();
    assert_eq!(map[&LATIN_ZERO], "0");
    assert_eq!(map[&50], "0");
    assert_eq!(map[&DEVANAGARI_ZERO], "०");
}

#[test]
fn disguised_latin_digits_read_as_what_they_show() {
    let map = devanagari_glyph_map(&full_font(7)).unwrap();
    assert_eq!(map[&LATIN_ZERO], "०");
    assert_eq!(map[&(LATIN_ZERO + 6)], "६");
    // Three of the row are real Latin digits and stay so.
    assert_eq!(map[&(LATIN_ZERO + 7)], "7");
    // A variant of a disguised digit follows it.
    assert_eq!(map[&50], "०");
}

#[test]
fn an_unreadable_lookup_is_passed_over() {
    let mut table = shorts(&[1, 0, 10, 12, 14, 0, 0]);
    // Two lookups: the first lies past the end, the second shifts 3 onto 43.
    table.extend(shorts(&[2, 9000, 6]));
    table.extend(shorts(&[1, 0, 1, 8]));
    table.extend(shorts(&[1, 6, 40, 1, 1, 3]));
    let file = font(&[
        (*b"GSUB", table),
        (*b"cmap", cmap(&[(3, 10, letters(8))])),
        (*b"head", head(1000)),
        (*b"hhea", hhea(1)),
        (*b"maxp", maxp(60)),
    ]);
    let map = devanagari_glyph_map(&file).unwrap();
    assert_eq!(map[&43], "ग");
    assert_eq!(map.len(), 9);
}

/// A compact number: a mark and sixteen bits.
fn compact(out: &mut Vec<u8>, value: i16) {
    out.push(28);
    out.extend(value.to_be_bytes());
}

/// A list of compact outlines with entries of four bytes.
fn compact_list(items: &[Vec<u8>]) -> Vec<u8> {
    let mut out = shorts(&[items.len() as u16]);
    if items.is_empty() {
        return out;
    }
    out.push(4);
    let mut offset: u32 = 1;
    be32(&mut out, offset);
    for item in items {
        offset += item.len() as u32;
        be32(&mut out, offset);
    }
    for item in items {
        out.extend(item);
    }
    out
}

/// A whole number of a dictionary, in five bytes.
fn whole(value: usize) -> Vec<u8> {
    let mut out = vec![29u8];
    be32(&mut out, value as u32);
    out
}

/// The digits of a decimal and what follows them, half a byte each.
fn halves(values: &[u8]) -> Vec<u8> {
    let mut out = vec![30u8];
    for pair in values.chunks(2) {
        out.push(pair[0] * 16 + pair.get(1).copied().unwrap_or(15));
    }
    out
}

/// A decimal of a dictionary with eight digits before the point.
fn decimal(value: usize, fraction: &[u8]) -> Vec<u8> {
    let mut values: Vec<u8> = format!("{value:08}").bytes().map(|digit| digit - b'0').collect();
    values.push(10);
    values.extend(fraction);
    values.push(15);
    halves(&values)
}

/// A decimal half way to the next whole number.
fn and_a_half(value: usize) -> Vec<u8> {
    decimal(value, &[5])
}

/// A decimal just below a whole number.
fn just_below(value: usize) -> Vec<u8> {
    decimal(value.max(1) - 1, &[9; 19])
}

/// A program that draws a rectangle.
fn rectangle(corners: Option<[i16; 4]>) -> Vec<u8> {
    let mut program: Vec<u8> = Vec::new();
    if let Some([x_min, y_min, x_max, y_max]) = corners {
        compact(&mut program, x_min);
        compact(&mut program, y_min);
        program.push(21);
        for (dx, dy) in [(x_max - x_min, 0), (0, y_max - y_min), (x_min - x_max, 0)] {
            compact(&mut program, dx);
            compact(&mut program, dy);
            program.push(5);
        }
    }
    program.push(14);
    program
}

/// A program that calls the first of few routines, by the given operator.
fn calling(operator: u8) -> Vec<u8> {
    let mut program: Vec<u8> = Vec::new();
    compact(&mut program, -107);
    program.push(operator);
    program
}

/// The programs of the full font.
fn full_programs(disguised: u16) -> Vec<Vec<u8>> {
    (0..60u16).map(|gid| rectangle(slot_metrics(gid, disguised).1)).collect()
}

/// Compact outlines of one font, with its routines at the end. `number` writes
/// the numbers of the dictionaries.
fn compact_outlines(
    programs: &[Vec<u8>],
    globals: &[Vec<u8>],
    routines: &[u8],
    number: fn(usize) -> Vec<u8>,
) -> Vec<u8> {
    let width: usize = number(0).len();
    let programs = compact_list(programs);
    let globals = compact_list(globals);
    // The routines follow the private dictionary.
    let mut private: Vec<u8> = number(width + 1);
    private.push(19);

    let header: Vec<u8> = vec![1, 0, 4, 4];
    let names = compact_list(&[vec![b'A']]);
    let tops_len: usize = 2 + 1 + 8 + 3 * width + 2;
    let programs_start: usize = header.len() + names.len() + tops_len + 2 + globals.len();
    let mut top: Vec<u8> = number(programs_start);
    top.push(17);
    top.extend(number(private.len()));
    top.extend(number(programs_start + programs.len()));
    top.push(18);

    let mut table = header;
    table.extend(names);
    table.extend(compact_list(&[top]));
    table.extend(compact_list(&[]));
    table.extend(globals);
    table.extend(programs);
    table.extend(private);
    table.extend(routines);
    table
}

/// Compact outlines of several fonts, of which all glyphs are of the only one,
/// with its routines at the end.
fn compact_fonts(programs: &[Vec<u8>], routines: &[u8], ranges: bool) -> Vec<u8> {
    let glyphs: usize = programs.len();
    let programs = compact_list(programs);
    let mut charset: Vec<u8> = vec![0];
    for name in 1..glyphs as u16 {
        be16(&mut charset, name);
    }
    let select: Vec<u8> = if ranges {
        let mut select: Vec<u8> = vec![3];
        select.extend(shorts(&[1, 0]));
        select.push(0);
        be16(&mut select, glyphs as u16);
        select
    } else {
        vec![0u8; 1 + glyphs]
    };
    let mut private: Vec<u8> = whole(6);
    private.push(19);
    let fonts_len: usize = 2 + 1 + 8 + 11;

    let header: Vec<u8> = vec![1, 0, 4, 4];
    let names = compact_list(&[vec![b'A']]);
    let tops_len: usize = 2 + 1 + 8 + 4 * 5 + 1 + 1 + 2 + 2 + 2;
    let charset_start: usize = header.len() + names.len() + tops_len + 4;
    let select_start: usize = charset_start + charset.len();
    let fonts_start: usize = select_start + select.len();
    let programs_start: usize = fonts_start + fonts_len;
    let private_start: usize = programs_start + programs.len();
    let mut top: Vec<u8> = vec![12, 30];
    for (value, operator) in [
        (charset_start, vec![15u8]),
        (programs_start, vec![17]),
        (fonts_start, vec![12, 36]),
        (select_start, vec![12, 37]),
    ] {
        top.extend(whole(value));
        top.extend(operator);
    }
    let mut dict: Vec<u8> = whole(private.len());
    dict.extend(whole(private_start));
    dict.push(18);

    let mut table = header;
    table.extend(names);
    table.extend(compact_list(&[top]));
    table.extend(compact_list(&[]));
    table.extend(compact_list(&[]));
    assert_eq!(table.len(), charset_start);
    table.extend(charset);
    table.extend(select);
    table.extend(compact_list(&[dict]));
    assert_eq!(table.len(), programs_start);
    table.extend(programs);
    table.extend(private);
    table.extend(routines);
    table
}

/// The full font with compact outlines and without substitutions.
fn compact_font(outlines: Vec<u8>, disguised: u16) -> Vec<u8> {
    let glyphs: u16 = 60;
    let advances: Vec<u16> = (0..glyphs).map(|gid| slot_metrics(gid, disguised).0).collect();
    font(&[
        (*b"CFF ", outlines),
        (*b"cmap", cmap(&[(3, 10, full_codes())])),
        (*b"head", head(1000)),
        (*b"hhea", hhea(glyphs)),
        (*b"hmtx", hmtx(&advances)),
        (*b"maxp", maxp(glyphs)),
    ])
}

/// What the map of a font with these outlines says of the Latin zero.
fn latin_zero(outlines: Vec<u8>, disguised: u16) -> String {
    devanagari_glyph_map(&compact_font(outlines, disguised)).unwrap()[&LATIN_ZERO].clone()
}

/// No routines.
const NO_ROUTINES: [u8; 2] = [0, 0];

/// One routine, four-byte entries, the last of them far too large.
const ENDLESS_ROUTINES: [u8; 11] = [0, 1, 4, 0, 0, 0, 1, 0xFF, 0xFF, 0xFF, 0xFF];

/// The same, but only too large for the table.
const LONG_ROUTINES: [u8; 11] = [0, 1, 4, 0, 0, 0, 1, 0x7F, 0xFF, 0xFF, 0xFF];

#[test]
fn compact_outlines_are_measured_too() {
    let outlines = compact_outlines(&full_programs(7), &[], &NO_ROUTINES, whole);
    assert!(find_outlines(&outlines).is_some());
    let map = devanagari_glyph_map(&compact_font(outlines, 7)).unwrap();
    assert_eq!(map[&LATIN_ZERO], "०");
    assert_eq!(map[&(LATIN_ZERO + 7)], "7");
    let outlines = compact_outlines(&full_programs(6), &[], &NO_ROUTINES, whole);
    assert_eq!(latin_zero(outlines, 6), "0");
}

#[test]
fn places_may_be_written_as_decimals() {
    let outlines = compact_outlines(&full_programs(7), &[], &NO_ROUTINES, and_a_half);
    let found = find_outlines(&outlines).unwrap();
    assert!(found.programs > 0 && found.routines.is_some() && found.fonts.is_none());
    assert_eq!(latin_zero(outlines, 7), "०");
}

#[test]
fn a_decimal_just_below_a_whole_number_is_that_number() {
    let outlines = compact_outlines(&full_programs(7), &[], &NO_ROUTINES, just_below);
    let plain = compact_outlines(&full_programs(7), &[], &NO_ROUTINES, |value| {
        decimal(value, &[0; 19])
    });
    assert_eq!(outlines.len(), plain.len());
    let found = find_outlines(&outlines).unwrap();
    assert_eq!(found.programs, find_outlines(&plain).unwrap().programs);
    assert_eq!(found.routines, find_outlines(&plain).unwrap().routines);
    assert_eq!(latin_zero(outlines, 7), "०");
}

/// The place that a dictionary of one decimal and one operator gives.
fn decimal_place(text: &str) -> Option<u64> {
    let mut values: Vec<u8> = Vec::new();
    let mut rest = text.bytes().peekable();
    while let Some(byte) = rest.next() {
        values.push(match byte {
            b'.' => 10,
            b'E' if rest.peek() == Some(&b'-') => {
                rest.next();
                12
            }
            b'E' => 11,
            b'-' => 14,
            b'?' => 13,
            digit => digit - b'0',
        });
    }
    values.push(15);
    let mut dict = halves(&values);
    dict.push(17);
    find_last_place(&dict, 17)
}

#[test]
fn decimals_are_read_as_the_machine_reads_them() {
    for text in [
        "125",
        "1.25E2",
        "12500E-2",
        "0.0125E4",
        "125.",
        "125.999999",
        "1.E2",
        "-.5E1",
        "-0.5",
        ".5",
        "00000000000000000000000000000000000000000000000000000000000000.7",
        "1E9999",
        "1E-9999",
        "0E9999",
        "2147483646.9999995",
        "2147483646.9999999",
        "2147483647.5",
        "4294967296",
        "0.99999999999999994",
        "0.99999999999999995",
        "1.9999999999999998",
        "1.9999999999999999",
        "1999999999999999999999E-21",
        "0.19999999999999999E1",
        "1023.99999999999994315658113919198513031005859375",
        "1023.99999999999994315658113919198513031005859374",
        "4095.9999999999997",
        "4095.9999999999998",
        "999999999999999999999999999999999999999999999999999999999999E-58",
        "-1",
        "-0.99999999999999999",
        "-5E9",
    ] {
        let value = text.parse::<f64>().unwrap() as i32;
        assert_eq!(decimal_place(text), u64::try_from(value).ok(), "{text}");
    }
    assert_eq!(decimal_place("1.25E2"), Some(125));
    assert_eq!(decimal_place("1E9999"), Some(0x7FFF_FFFF));
    assert_eq!(decimal_place("1.9999999999999999"), Some(2));
    assert_eq!(decimal_place("-1"), None);
    // Two points, a lone point, a lone sign, no exponent, a sign in the middle,
    // a half that spells nothing, nothing at all.
    for text in ["1.2.", ".", "-", "1E", "1E-", "E5", "1-2", "1E2.5", "1?2", ""] {
        assert_eq!(decimal_place(text), None, "{text}");
    }
    // Sixty-four characters are read, sixty-five are not.
    let long = format!("{:063}7", 0);
    assert_eq!(decimal_place(&long), Some(7));
    assert_eq!(decimal_place(&format!("0{long}")), None);
    // A decimal without an end swallows the operator.
    assert_eq!(find_last_place(&[30, 0x12, 17], 17), None);
}

#[test]
fn the_last_entry_of_a_dictionary_tells() {
    let mut dict: Vec<u8> = whole(5);
    dict.push(17);
    dict.extend([139 + 7, 17]);
    assert_eq!(find_last_place(&dict, 17), Some(7));
    assert_eq!(find_last_place(&dict, 15), None);
    // Two numbers are no place, but a size and a place.
    dict.extend([28, 1, 0, 247, 1, 18]);
    assert_eq!(find_last_span(&dict, 18), Some((109, 256)));
    assert_eq!(find_last_place(&dict, 18), None);
    assert_eq!(find_last_span(&dict, 17), None);
    // A negative place is none.
    dict.extend([251, 0, 17]);
    assert_eq!(find_last_place(&dict, 17), None);
}

#[test]
fn programs_may_call_routines() {
    let drawing = rectangle(slot_metrics(LATIN_ZERO, 7).1);
    let mut programs = full_programs(7);
    programs[usize::from(LATIN_ZERO)] = calling(29);
    let outlines =
        compact_outlines(&programs, &[drawing.clone()], &NO_ROUTINES, whole);
    assert!(are_hints_in_reach(&outlines, LATIN_ZERO));
    assert_eq!(latin_zero(outlines, 7), "०");
    programs[usize::from(LATIN_ZERO)] = calling(10);
    let outlines =
        compact_outlines(&programs, &[], &compact_list(&[drawing]), whole);
    assert!(are_hints_in_reach(&outlines, LATIN_ZERO));
    assert_eq!(latin_zero(outlines, 7), "०");
    // A routine that is not there makes the program fail, and no digit is judged
    // to be disguised by six of them.
    let outlines = compact_outlines(&programs, &[], &NO_ROUTINES, whole);
    assert!(are_hints_in_reach(&outlines, LATIN_ZERO));
    assert_eq!(latin_zero(outlines, 7), "0");
}

#[test]
fn a_routine_that_calls_itself_is_refused() {
    let mut programs = full_programs(7);
    programs[usize::from(LATIN_ZERO)] = calling(29);
    let outlines = compact_outlines(&programs, &[calling(29)], &NO_ROUTINES, whole);
    assert!(are_hints_in_reach(&outlines, LATIN_ZERO));
    assert_eq!(latin_zero(outlines, 7), "0");
}

#[test]
fn hints_are_passed_over() {
    // Two pairs of stems, then two masks whose byte looks like the end of the
    // program, the second with one more pair.
    let mut program: Vec<u8> = vec![139, 149, 159, 169, 18, 19, 14, 139, 149, 20, 14];
    program.extend(rectangle(slot_metrics(LATIN_ZERO, 7).1));
    let mut programs = full_programs(7);
    programs[usize::from(LATIN_ZERO)] = program;
    let outlines = compact_outlines(&programs, &[], &NO_ROUTINES, whole);
    assert!(are_hints_in_reach(&outlines, LATIN_ZERO));
    assert_eq!(latin_zero(outlines, 7), "०");
}

#[test]
fn a_glyph_may_be_made_of_two_others() {
    // The letter A has the thirty-fourth name of the standard set, so its glyph
    // is the Devanagari four; the space has the first.
    let mut program: Vec<u8> = Vec::new();
    for value in [0, 0, 65, 32] {
        compact(&mut program, value);
    }
    program.push(14);
    let mut programs = full_programs(7);
    programs[usize::from(LATIN_ZERO)] = program;
    let outlines = compact_outlines(&programs, &[], &NO_ROUTINES, whole);
    assert!(are_hints_in_reach(&outlines, LATIN_ZERO));
    assert_eq!(latin_zero(outlines, 7), "०");
}

#[test]
fn outlines_of_several_fonts_are_measured_too() {
    let drawing = rectangle(slot_metrics(LATIN_ZERO, 7).1);
    let mut programs = full_programs(7);
    programs[usize::from(LATIN_ZERO)] = calling(10);
    for ranges in [false, true] {
        let routines = compact_list(&[drawing.clone()]);
        let outlines = compact_fonts(&programs, &routines, ranges);
        assert!(find_outlines(&outlines).unwrap().fonts.is_some());
        assert!(are_hints_in_reach(&outlines, LATIN_ZERO));
        assert_eq!(latin_zero(outlines, 7), "०");
    }
}

#[test]
fn routines_that_end_past_all_reach_are_not_called() {
    let mut programs = full_programs(8);
    programs[usize::from(LATIN_ZERO)] = calling(10);
    let outlines = compact_fonts(&programs, &ENDLESS_ROUTINES, true);
    assert!(!are_hints_in_reach(&outlines, LATIN_ZERO));
    assert!(are_hints_in_reach(&outlines, LATIN_ZERO + 1));
    // The other seven disguised digits are still seen through.
    let map = devanagari_glyph_map(&compact_font(outlines, 8)).unwrap();
    assert_eq!(map[&LATIN_ZERO], "0");
    assert_eq!(map[&(LATIN_ZERO + 1)], "१");
    // Merely too long is for the parser to refuse.
    let outlines = compact_fonts(&programs, &LONG_ROUTINES, true);
    assert!(are_hints_in_reach(&outlines, LATIN_ZERO));
    let map = devanagari_glyph_map(&compact_font(outlines, 8)).unwrap();
    assert_eq!(map[&LATIN_ZERO], "0");
    assert_eq!(map[&(LATIN_ZERO + 1)], "१");
}

#[test]
fn a_list_that_ends_past_the_table_costs_no_more_than_the_boxes() {
    for routines in [ENDLESS_ROUTINES, LONG_ROUTINES] {
        let outlines = compact_outlines(&full_programs(7), &[], &routines, whole);
        assert!(find_outlines(&outlines).is_none());
        assert_eq!(latin_zero(outlines, 7), "0");
    }
    for outlines in [vec![], vec![1u8, 0, 4], vec![2u8; 40], vec![1u8; 40]] {
        assert!(find_outlines(&outlines).is_none());
        assert_eq!(latin_zero(outlines, 7), "0");
    }
}

#[test]
fn compact_outlines_beside_others_are_not_read() {
    let mut file = full_font(7);
    // The substitutions give way to a table that says nothing.
    file[12..16].copy_from_slice(b"CFF ");
    let map = devanagari_glyph_map(&file).unwrap();
    assert_eq!(map[&LATIN_ZERO], "०");
}

/// A collection that says to have `count` faces, the first of them at `face`.
fn collection(count: u32, face: u32) -> Vec<u8> {
    let mut file: Vec<u8> = Vec::new();
    be32(&mut file, 0x7474_6366);
    be32(&mut file, 0x0001_0000);
    be32(&mut file, count);
    be32(&mut file, face);
    file
}

#[test]
fn a_collection_of_too_many_faces_is_not_parsed() {
    let file = collection(0xFFFF_FFFF, 16);
    assert!(!is_directory_in_reach(&file));
    assert!(devanagari_glyph_map(&file).is_none());
    // A face outside the file is for the parser to refuse.
    let file = collection(1, 0xFFFF_FFFF);
    assert!(is_directory_in_reach(&file));
    assert!(devanagari_glyph_map(&file).is_none());
}

#[test]
fn the_first_face_of_a_collection_is_read() {
    let face = plain_font(12, &[(3, 10, letters(8))]);
    let mut file = collection(1, 16);
    let mut moved = face.clone();
    // The tables have moved sixteen bytes on.
    for record in 0..4usize {
        let at: usize = 12 + 16 * record + 8;
        let offset: u32 = u32::from_be_bytes(face[at..at + 4].try_into().unwrap()) + 16;
        moved[at..at + 4].copy_from_slice(&offset.to_be_bytes());
    }
    file.extend(moved);
    assert!(is_directory_in_reach(&file));
    assert_eq!(devanagari_glyph_map(&file), devanagari_glyph_map(&face));
    assert!(devanagari_glyph_map(&file).is_some());
}

#[test]
fn a_directory_filled_to_the_last_record_is_read() {
    let face = plain_font(12, &[(3, 10, letters(8))]);
    let unused: usize = 65535 - 4;
    let mut file: Vec<u8> = face[..4].to_vec();
    be16(&mut file, 65535);
    file.extend([0u8; 6]);
    file.extend(vec![0u8; 16 * unused]);
    let start: usize = file.len();
    file.extend(&face[12..]);
    // The tables have moved on by the records that nothing stands for.
    for record in 0..4usize {
        let at: usize = start + 16 * record + 8;
        let offset: u32 = u32::from_be_bytes(file[at..at + 4].try_into().unwrap());
        let moved: u32 = offset + 16 * unused as u32;
        file[at..at + 4].copy_from_slice(&moved.to_be_bytes());
    }
    assert_eq!(devanagari_glyph_map(&file), devanagari_glyph_map(&face));
    assert!(devanagari_glyph_map(&file).is_some());
}

#[test]
fn tables_that_are_not_read_cost_nothing() {
    let mut sbix = shorts(&[1, 0]);
    be32(&mut sbix, 0xFFFF_FFFF);
    let mut colr = vec![0u8; 14];
    colr[1] = 1;
    be32(&mut colr, 30);
    colr.extend([0u8; 12]);
    colr.extend([0xFF; 5]);
    let mut file = font(&[
        (*b"kern", vec![]),
        (*b"COLR", colr),
        (*b"CPAL", vec![0u8; 12]),
        (*b"sbix", sbix),
        (*b"cmap", cmap(&[(3, 10, letters(8))])),
        (*b"head", head(1000)),
        (*b"hhea", hhea(1)),
        (*b"maxp", maxp(12)),
    ]);
    // The first record ends past all reach.
    file[20..28].copy_from_slice(&[0xFF; 8]);
    let expected = devanagari_glyph_map(&plain_font(12, &[(3, 10, letters(8))]));
    assert!(expected.is_some());
    assert_eq!(devanagari_glyph_map(&file), expected);
}

#[test]
fn a_table_outside_the_file_is_none() {
    let file: Vec<u8> = (0..20).collect();
    let tag = u32::from_be_bytes(*b"cmap");
    let other = u32::from_be_bytes(*b"head");
    assert_eq!(find_table(&file, &[(tag, 4, 3)], tag), Some(&[4u8, 5, 6][..]));
    assert_eq!(find_table(&file, &[(tag, 20, 0)], tag), Some(&[][..]));
    assert_eq!(find_table(&file, &[(tag, 18, 3)], tag), None);
    assert_eq!(find_table(&file, &[(tag, 0xFFFF_FFFF, 0xFFFF_FFFF)], tag), None);
    assert_eq!(find_table(&file, &[(other, 4, 3)], tag), None);
    // The last record of a tag tells, readable or not.
    let records = [(tag, 4, 3), (other, 0, 1), (tag, 8, 2)];
    assert_eq!(find_table(&file, &records, tag), Some(&[8u8, 9][..]));
    assert_eq!(find_table(&file, &[(tag, 4, 3), (tag, 8, 20)], tag), None);
    let mut file = plain_font(12, &[(3, 10, letters(8))]);
    file[20..28].copy_from_slice(&[0xFF; 8]);
    assert!(devanagari_glyph_map(&file).is_none());
}

/// A character map whose only subtable has the given format and claims more
/// items than can be addressed, the count standing at `at`.
fn endless_cmap(format: u16, at: usize) -> Vec<u8> {
    let mut table = shorts(&[0, 1, 3, 10, 0, 12]);
    let mut subtable = vec![0u8; 24];
    subtable[..2].copy_from_slice(&format.to_be_bytes());
    subtable[at..at + 4].copy_from_slice(&[0xFF; 4]);
    table.extend(subtable);
    table
}

#[test]
fn an_endless_character_map_is_not_parsed() {
    for (format, at) in [(10u16, 16usize), (12, 12), (13, 12), (14, 6)] {
        let table = endless_cmap(format, at);
        assert!(!is_subtable_in_reach(&table, 0), "{format}");
        let file = font(&[
            (*b"cmap", table),
            (*b"head", head(1000)),
            (*b"hhea", hhea(1)),
            (*b"maxp", maxp(12)),
        ]);
        assert!(devanagari_glyph_map(&file).is_none());
    }
    assert!(is_subtable_in_reach(&endless_cmap(4, 12), 0));
    assert!(is_subtable_in_reach(&endless_cmap(12, 12), 1));
}

#[test]
fn a_character_map_is_read_up_to_what_cannot_be() {
    let mut table = cmap(&[(3, 10, letters(8)), (3, 10, vec![(0x920, 9)]), (3, 10, vec![(0x921, 10)])]);
    let read = |table: &Vec<u8>| {
        let file = font(&[
            (*b"cmap", table.clone()),
            (*b"head", head(1000)),
            (*b"hhea", hhea(1)),
            (*b"maxp", maxp(12)),
        ]);
        devanagari_glyph_map(&file).unwrap().len()
    };
    assert_eq!(read(&table), 10);
    // The second subtable claims more items than can be addressed.
    let second: usize = 4 + 3 * 8 + 16 + 12 * 8;
    table[second + 12..second + 16].copy_from_slice(&[0xFF; 4]);
    assert!(!is_subtable_in_reach(&table, 1));
    assert_eq!(read(&table), 8);
    // Or merely more than there are.
    table[second + 12..second + 16].copy_from_slice(&[0, 0, 1, 0]);
    assert!(is_subtable_in_reach(&table, 1));
    assert_eq!(read(&table), 8);
}

#[test]
fn the_last_record_of_a_tag_tells() {
    let good = cmap(&[(3, 10, letters(8))]);
    let rest = [
        (*b"head", head(1000)),
        (*b"hhea", hhea(1)),
        (*b"maxp", maxp(12)),
    ];
    let mut tables = vec![(*b"cmap", endless_cmap(12, 12)), (*b"cmap", good.clone())];
    tables.extend(rest.clone());
    assert_eq!(devanagari_glyph_map(&font(&tables)).unwrap().len(), 8);
    let mut tables = vec![(*b"cmap", good), (*b"cmap", endless_cmap(12, 12))];
    tables.extend(rest);
    assert!(devanagari_glyph_map(&font(&tables)).is_none());
}

/// A substitution table whose one lookup is of the extension kind, and leads to
/// a subtable of another through `more` extensions.
fn extensions(more: usize) -> Vec<u8> {
    let mut extension: Vec<u8> = Vec::new();
    for _ in 0..more {
        extension.extend(shorts(&[1, 7, 0, 8]));
    }
    extension.extend(shorts(&[1, 1, 0, 8]));
    // Slot 3 shifted by forty.
    extension.extend(shorts(&[1, 6, 40, 1, 1, 3]));
    gsub(&[(7, vec![extension])])
}

/// The map of a font with a substitution table.
fn substituted(table: Vec<u8>) -> HashMap<u16, String> {
    devanagari_glyph_map(&font(&[
        (*b"GSUB", table),
        (*b"cmap", cmap(&[(3, 10, letters(8))])),
        (*b"head", head(1000)),
        (*b"hhea", hhea(1)),
        (*b"maxp", maxp(60)),
    ]))
    .unwrap()
}

#[test]
fn an_extension_is_followed_to_its_end() {
    for more in [0, 1, 3, 256] {
        assert!(is_subtable_ending(&extensions(more), 0, 0), "{more}");
        assert_eq!(substituted(extensions(more))[&43], "ग", "{more}");
    }
}

#[test]
fn an_extension_without_end_is_unreadable() {
    assert!(!is_subtable_ending(&extensions(257), 0, 0));
    assert_eq!(substituted(extensions(257)).len(), 8);
    // An extension that stands for itself.
    let table = gsub(&[(7, vec![shorts(&[1, 7, 0, 0])])]);
    assert!(!is_subtable_ending(&table, 0, 0));
    assert!(is_subtable_ending(&table, 0, 1));
    assert!(is_subtable_ending(&table, 1, 0));
    assert_eq!(substituted(table).len(), 8);
    // One that leads out of the table ends there.
    let table = gsub(&[(7, vec![shorts(&[1, 7, 1, 0])])]);
    assert!(is_subtable_ending(&table, 0, 0));
    assert_eq!(substituted(table).len(), 8);
}
