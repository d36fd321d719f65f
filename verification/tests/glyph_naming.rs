//! Naming glyphs from what a font states about them.

use std::collections::HashMap;

use nepali::cmap::{is_devanagari_font, record_mapping};
use nepali::digits::{metrics_match, remap_disguised_latin_digits, DigitGlyph, DigitSlots, Rect};
use nepali::glyph_map::complete_glyph_map;
use nepali::glyphs::{add_derived_glyphs, resolve_glyph};
use nepali::gsub::{
    collect_gsub_reversals, coverage_glyphs, record_substitution, Coverage, Ligature, RangeRecord,
    Substitution,
};

fn rect(x_min: i16, y_min: i16, x_max: i16, y_max: i16) -> Rect {
    Rect { x_min, y_min, x_max, y_max }
}

fn texts(entries: &[(u16, &str)]) -> HashMap<u16, String> {
    entries.iter().map(|entry| (entry.0, entry.1.to_string())).collect()
}

/// The digit-disguise test has to accept a slot that is the same drawing
/// and reject one that merely sits nearby. A real Latin digit in a
/// Devanagari font is markedly narrower and has no headline bar.
#[test]
fn metrics_match_separates_a_disguise_from_a_real_latin_digit() {
    let units_per_em: u16 = 2048;
    // Kalimati's uni0968 and its `two` slot: same drawing, shifted 30 units
    // by a different side bearing, one unit apart in advance.
    let devanagari = (1486, rect(173, -143, 1190, 1577));
    let disguise = (1485, rect(203, -143, 1220, 1577));
    assert!(metrics_match(disguise, devanagari, units_per_em));
    // The same font's `eight`, shifted 110 units — still the same drawing.
    assert!(metrics_match(
        (1485, rect(203, 82, 1489, 1372)),
        (1485, rect(93, 82, 1379, 1372)),
        units_per_em
    ));
    // A genuine Latin digit: narrower advance, narrower box, and no
    // headline bar, so it fails on every axis that matters.
    let latin = (1000, rect(60, 0, 900, 950));
    assert!(!metrics_match(latin, devanagari, units_per_em));
}

#[test]
fn a_fiftieth_of_the_em_is_still_a_match() {
    let base = (500, rect(0, 0, 400, 700));
    assert!(metrics_match(base, (520, rect(0, 0, 400, 700)), 1000));
    assert!(!metrics_match(base, (521, rect(0, 0, 400, 700)), 1000));
    assert!(metrics_match(base, (500, rect(0, 0, 420, 700)), 1000));
    assert!(!metrics_match(base, (500, rect(0, 0, 421, 700)), 1000));
    assert!(metrics_match(base, (500, rect(0, -20, 400, 700)), 1000));
    assert!(!metrics_match(base, (500, rect(0, -21, 400, 700)), 1000));
    assert!(metrics_match(base, (500, rect(0, 0, 400, 680)), 1000));
    assert!(!metrics_match(base, (500, rect(0, 0, 400, 679)), 1000));
    // The extremes of the coordinates are no trouble.
    let wide = (65535, rect(-32768, -32768, 32767, 32767));
    assert!(metrics_match(wide, wide, 16));
    assert!(!metrics_match(wide, (0, rect(32767, 32767, -32768, -32768)), 16384));
}

#[test]
fn the_tolerance_is_the_em_over_fifty() {
    for units_per_em in 16u16..=16384 {
        let tolerance = f32::from(units_per_em) / 50.0;
        let edge: i16 = (units_per_em / 50) as i16;
        for difference in [edge - 1, edge, edge + 1] {
            let moved = (0, rect(0, difference, 0, 0));
            assert_eq!(
                metrics_match((0, rect(0, 0, 0, 0)), moved, units_per_em),
                f32::from(difference).abs() <= tolerance
            );
        }
    }
}

#[test]
fn a_match_goes_both_ways_and_ignores_the_side_bearing() {
    let left = (1486, rect(173, -143, 1190, 1577));
    let right = (1470, rect(203, -140, 1230, 1570));
    assert_eq!(metrics_match(left, right, 1000), metrics_match(right, left, 1000));
    let moved = (1470, rect(-797, -140, 230, 1570));
    assert_eq!(metrics_match(left, right, 1000), metrics_match(left, moved, 1000));
}

/// Ten digits in slots 10 to 19 and 20 to 29, the first `disguised` of which
/// are drawn alike.
fn digit_row(disguised: usize) -> [DigitSlots; 10] {
    let mut digits = [DigitSlots { latin: None, devanagari: None }; 10];
    for i in 0..10usize {
        let width: i16 = if i < disguised { 900 } else { 400 };
        digits[i] = DigitSlots {
            latin: Some(DigitGlyph {
                gid: 10 + i as u16,
                metrics: Some((1000, rect(30, 0, 30 + width, 800))),
            }),
            devanagari: Some(DigitGlyph {
                gid: 20 + i as u16,
                metrics: Some((1000, rect(0, 0, 900, 800))),
            }),
        };
    }
    digits
}

#[test]
fn a_row_of_disguised_digits_is_repointed() {
    let mut resolved = texts(&[(10, "0"), (16, "6"), (17, "7"), (40, "क")]);
    remap_disguised_latin_digits(1000, &digit_row(7), &mut resolved);
    assert_eq!(resolved[&10], "०");
    assert_eq!(resolved[&16], "६");
    // Slots that are no disguise, and other glyphs, keep their text.
    assert_eq!(resolved[&17], "7");
    assert_eq!(resolved[&40], "क");
    // A disguised slot is named even if the map did not have it.
    assert_eq!(resolved[&11], "१");
    assert_eq!(resolved.len(), 9);
}

#[test]
fn a_few_lookalikes_change_nothing() {
    let before = texts(&[(10, "0"), (16, "6")]);
    let mut resolved = before.clone();
    remap_disguised_latin_digits(1000, &digit_row(6), &mut resolved);
    assert_eq!(resolved, before);
}

#[test]
fn a_font_without_an_em_is_left_alone() {
    let before = texts(&[(10, "0")]);
    let mut resolved = before.clone();
    remap_disguised_latin_digits(0, &digit_row(10), &mut resolved);
    assert_eq!(resolved, before);
}

#[test]
fn missing_and_shared_slots_do_not_count() {
    let mut digits = digit_row(8);
    digits[0].latin = None;
    let mut resolved = texts(&[]);
    remap_disguised_latin_digits(1000, &digits, &mut resolved);
    assert_eq!(resolved.len(), 7);
    assert!(!resolved.contains_key(&10));

    // One slot for both digits is nothing to repoint.
    digits[1].latin = digits[1].devanagari;
    let mut resolved = texts(&[]);
    remap_disguised_latin_digits(1000, &digits, &mut resolved);
    assert_eq!(resolved.len(), 0);

    let mut digits = digit_row(7);
    digits[3].devanagari = Some(DigitGlyph { gid: 23, metrics: None });
    let mut resolved = texts(&[]);
    remap_disguised_latin_digits(1000, &digits, &mut resolved);
    assert_eq!(resolved.len(), 0);
}

#[test]
fn a_glyph_keeps_the_first_codepoint_it_was_given() {
    let mut resolved = texts(&[]);
    record_mapping(&mut resolved, 0x915, Some(7));
    record_mapping(&mut resolved, 0x916, Some(7));
    record_mapping(&mut resolved, 0x917, None);
    // Surrogates and what lies past the last plane are no characters.
    record_mapping(&mut resolved, 0xD800, Some(8));
    record_mapping(&mut resolved, 0x110000, Some(9));
    record_mapping(&mut resolved, 0x10FFFF, Some(10));
    assert_eq!(resolved, texts(&[(7, "क"), (10, "\u{10FFFF}")]));
}

#[test]
fn a_font_is_devanagari_by_number_and_share() {
    let mut resolved: HashMap<u16, String> = HashMap::new();
    for i in 0..7u16 {
        resolved.insert(i, "क".to_string());
    }
    assert!(!is_devanagari_font(&resolved));
    resolved.insert(7, "ख".to_string());
    assert!(is_devanagari_font(&resolved));
    for i in 8..16u16 {
        resolved.insert(i, "a".to_string());
    }
    assert!(is_devanagari_font(&resolved));
    resolved.insert(16, "b".to_string());
    assert!(!is_devanagari_font(&resolved));
}

#[test]
fn coverage_lists_its_glyphs_by_index() {
    let listed = Coverage::Format1 { glyphs: vec![5, 3, 9] };
    assert_eq!(coverage_glyphs(&listed), vec![(0, 5), (1, 3), (2, 9)]);
    let ranges = Coverage::Format2 {
        records: vec![
            RangeRecord { start: 4, end: 6, value: 10 },
            // Turned round, a range is empty.
            RangeRecord { start: 9, end: 8, value: 20 },
            // The index stops at the largest that there is.
            RangeRecord { start: 65534, end: 65535, value: 65535 },
        ],
    };
    assert_eq!(
        coverage_glyphs(&ranges),
        vec![(10, 4), (11, 5), (12, 6), (65535, 65534), (65535, 65535)]
    );
}

#[test]
fn a_coverage_of_every_glyph_is_listed() {
    let all = Coverage::Format2 { records: vec![RangeRecord { start: 0, end: 65535, value: 0 }] };
    let pairs = coverage_glyphs(&all);
    assert_eq!(pairs.len(), 65536);
    assert_eq!(pairs[65535], (65535, 65535));
}

fn ligature(glyph: u16, components: &[u16]) -> Option<Ligature> {
    Some(Ligature { glyph, components: components.to_vec() })
}

#[test]
fn ligatures_are_reversed_into_their_parts() {
    let mut ligatures: HashMap<u16, Vec<u16>> = HashMap::new();
    let mut single_sources: HashMap<u16, u16> = HashMap::new();
    record_substitution(
        &mut ligatures,
        &mut single_sources,
        &Substitution::Ligature {
            coverage: Coverage::Format1 { glyphs: vec![1, 2, 3, 4] },
            ligature_sets: vec![
                Some(vec![ligature(50, &[2, 3]), None, ligature(51, &[])]),
                None,
                // A glyph that has its parts keeps them.
                Some(vec![ligature(50, &[9]), ligature(52, &[1])]),
            ],
        },
    );
    assert_eq!(ligatures.len(), 3);
    assert_eq!(ligatures[&50], vec![1, 2, 3]);
    assert_eq!(ligatures[&51], vec![1]);
    assert_eq!(ligatures[&52], vec![3, 1]);
    assert!(single_sources.is_empty());
}

#[test]
fn single_substitutions_are_reversed_to_their_source() {
    let lookups = vec![
        None,
        Some(vec![
            // Modular: 3 - 5 is 65534.
            Substitution::SingleDelta {
                coverage: Coverage::Format1 { glyphs: vec![3, 10] },
                delta: -5,
            },
            Substitution::Other,
            Substitution::SingleList {
                coverage: Coverage::Format1 { glyphs: vec![20, 21, 22] },
                substitutes: vec![5, 31],
            },
        ]),
        Some(vec![Substitution::SingleDelta {
            coverage: Coverage::Format1 { glyphs: vec![65535] },
            delta: 32767,
        }]),
    ];
    let (ligatures, single_sources) = collect_gsub_reversals(&lookups);
    assert!(ligatures.is_empty());
    // 20 also becomes 5, but 10 came first; 22 has no substitute.
    assert_eq!(
        single_sources,
        HashMap::from([(65534, 3), (5, 10), (31, 21), (32766, 65535)])
    );
}

#[test]
fn a_glyph_is_walked_back_to_named_ones() {
    let resolved = texts(&[(1, "प"), (2, "र"), (3, "\u{094D}"), (4, "क")]);
    let ligatures = HashMap::from([
        (10, vec![2, 3]),
        (11, vec![1, 10]),
        (12, vec![4, 99]),
        (1, vec![4]),
        (13, vec![]),
    ]);
    let single_sources = HashMap::from([(20, 11), (21, 20), (11, 4), (12, 4)]);
    let walk = |gid: u16| resolve_glyph(gid, &resolved, &ligatures, &single_sources, 0);
    // A named glyph is what its name says, whatever produced it.
    assert_eq!(walk(1), Some("प".to_string()));
    assert_eq!(walk(10), Some("र\u{094D}".to_string()));
    // A rakar, put where it is spelled.
    assert_eq!(walk(11), Some("प\u{094D}र".to_string()));
    // One part that no name reaches leaves the whole without one.
    assert_eq!(walk(12), None);
    assert_eq!(walk(13), Some(String::new()));
    assert_eq!(walk(20), walk(11));
    assert_eq!(walk(21), walk(11));
    assert_eq!(walk(98), None);
}

#[test]
fn a_long_chain_is_given_up() {
    let resolved = texts(&[(0, "क")]);
    let ligatures: HashMap<u16, Vec<u16>> = HashMap::new();
    let single_sources: HashMap<u16, u16> = (1..=20u16).map(|gid| (gid, gid - 1)).collect();
    let walk = |gid: u16| resolve_glyph(gid, &resolved, &ligatures, &single_sources, 0);
    assert_eq!(walk(8), Some("क".to_string()));
    assert_eq!(walk(9), None);
    assert_eq!(resolve_glyph(0, &resolved, &ligatures, &single_sources, 8), walk(0));
    assert_eq!(resolve_glyph(0, &resolved, &ligatures, &single_sources, 9), None);
}

#[test]
fn fewer_substitutions_spell_the_same() {
    let resolved = texts(&[(1, "क"), (2, "ष")]);
    let ligatures = HashMap::from([(3, vec![1, 2]), (4, vec![3, 1])]);
    let single_sources = HashMap::from([(5, 4)]);
    let walk = |depth: u8| resolve_glyph(5, &resolved, &ligatures, &single_sources, depth);
    for depth in 0..=5u8 {
        assert_eq!(walk(depth), Some("कषक".to_string()), "{depth}");
    }
    assert_eq!(walk(6), None);
}

#[test]
fn a_circle_of_substitutions_ends() {
    let resolved = texts(&[]);
    let ligatures = HashMap::from([(1, vec![1]), (4, vec![5]), (5, vec![4])]);
    let single_sources = HashMap::from([(2, 3), (3, 2)]);
    for gid in 1..=5u16 {
        assert_eq!(resolve_glyph(gid, &resolved, &ligatures, &single_sources, 0), None);
    }
}

#[test]
fn derived_glyphs_are_named_from_the_map_as_it_stood() {
    let mut resolved = texts(&[(9, "क")]);
    // Glyph 0 is nine substitutions away from the one that has a name, and only
    // eight are followed; the names of the others are not built upon.
    let single_sources: HashMap<u16, u16> = (0..9u16).map(|gid| (gid, gid + 1)).collect();
    add_derived_glyphs(&mut resolved, &HashMap::new(), &single_sources, 12);
    let mut named: Vec<u16> = resolved.keys().copied().collect();
    named.sort();
    assert_eq!(named, vec![1, 2, 3, 4, 5, 6, 7, 8, 9]);
}

#[test]
fn glyphs_past_the_count_are_not_derived() {
    let mut resolved = texts(&[(1, "क")]);
    let single_sources = HashMap::from([(5, 1), (6, 1)]);
    add_derived_glyphs(&mut resolved, &HashMap::new(), &single_sources, 6);
    assert_eq!(resolved, texts(&[(1, "क"), (5, "क")]));
}

#[test]
fn a_map_is_completed_in_order() {
    // The digits are repointed first, so a variant of a disguised digit is
    // named by the digit that it shows.
    let resolved = texts(&[(10, "0"), (40, "क"), (41, "\u{094D}"), (42, "ष")]);
    let lookups = vec![Some(vec![
        Substitution::Ligature {
            coverage: Coverage::Format1 { glyphs: vec![40] },
            ligature_sets: vec![Some(vec![ligature(50, &[41, 42])])],
        },
        Substitution::SingleDelta {
            coverage: Coverage::Format1 { glyphs: vec![10] },
            delta: 41,
        },
    ])];
    let map = complete_glyph_map(resolved, 1000, &digit_row(7), &lookups, 60);
    assert_eq!(map[&50], "क\u{094D}ष");
    assert_eq!(map[&51], "०");
    assert_eq!(map[&40], "क");
}
