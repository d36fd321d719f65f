//! Glyph order to logical order, and the characters the rules pivot on.

use nepali::glyphs::fix_rakar;
use nepali::reorder::{cluster_start, reorder_devanagari, take_cluster};
use nepali::script::{
    is_combining_mark, is_consonant, is_decimal_digit, is_devanagari_char, is_white_space, I_MATRA,
    RA, VIRAMA,
};

fn sorted(text: &str) -> Vec<char> {
    let mut chars: Vec<char> = text.chars().collect();
    chars.sort();
    chars
}

#[test]
fn reorder_moves_reph_before_its_cluster() {
    // "गद" + reph, as drawn, is "गर्द" in logical order.
    let visual = format!("ग\u{0926}{RA}{VIRAMA}");
    assert_eq!(reorder_devanagari(&visual), "ग\u{0930}\u{094D}\u{0926}");
}

#[test]
fn reorder_moves_i_matra_after_one_cluster() {
    // ि म ल → म ि ल, and the matra must not jump past ल.
    let visual = format!("{I_MATRA}मल");
    assert_eq!(reorder_devanagari(&visual), format!("म{I_MATRA}ल"));
}

#[test]
fn reorder_keeps_conjunct_clusters_together() {
    // ि + क्त is one cluster: the matra lands after the whole conjunct.
    let visual = format!("{I_MATRA}क{VIRAMA}त");
    assert_eq!(reorder_devanagari(&visual), format!("क{VIRAMA}त{I_MATRA}"));
}

#[test]
fn reorder_leaves_text_without_reph_or_i_matra_untouched() {
    let text = "नेपाल सरकार";
    assert_eq!(reorder_devanagari(text), text);
}

/// It is a glyph-order fixer, not an idempotent normalizer. Running it on
/// logical text moves the matra off its syllable, which is why the caller must
/// gate on provenance.
#[test]
fn reorder_is_not_idempotent_on_logical_text() {
    let logical = "मिलेर";
    assert_ne!(reorder_devanagari(logical), logical);
}

/// The glyph-level path keys on the Devanagari block, not on Nepali, so the
/// same reordering has to hold for Hindi, Marathi and Sanskrit. Only the
/// legacy keyboard tables are Nepali-specific.
#[test]
fn reorder_handles_devanagari_beyond_nepali() {
    // Hindi हिन्दी: the i-matra is drawn before ह and must land after it.
    let visual = format!("{I_MATRA}ह\u{0928}{VIRAMA}\u{0926}\u{0940}");
    assert_eq!(reorder_devanagari(&visual), "हिन्दी");

    // Hindi कार्य: the reph is drawn after the cluster it crowns.
    let visual = format!("का\u{092F}{RA}{VIRAMA}");
    assert_eq!(reorder_devanagari(&visual), "कार्य");

    // Marathi ळ (U+0933) counts as a consonant, so a rakar subjoins to it
    // rather than being read as a reph.
    assert_eq!(
        fix_rakar(&format!("\u{0933}{RA}{VIRAMA}")),
        format!("\u{0933}{VIRAMA}{RA}")
    );
}

#[test]
fn reorder_of_nothing_is_nothing() {
    assert_eq!(reorder_devanagari(""), "");
}

#[test]
fn a_reph_with_nothing_ahead_of_it_stays() {
    let visual = format!("{RA}{VIRAMA}क");
    assert_eq!(reorder_devanagari(&visual), visual);
}

#[test]
fn a_last_i_matra_stays() {
    let visual = format!("क{I_MATRA}");
    assert_eq!(reorder_devanagari(&visual), visual);
}

#[test]
fn a_reph_goes_before_a_whole_conjunct_and_its_marks() {
    // च + virama + छ + ा, crowned by a reph.
    let visual = format!("गच{VIRAMA}छा{RA}{VIRAMA}");
    assert_eq!(reorder_devanagari(&visual), format!("ग{RA}{VIRAMA}च{VIRAMA}छा"));
}

#[test]
fn an_i_matra_takes_the_reph_that_follows_it_literally() {
    // The cluster after an i-matra is र + virama + क: no reph is looked for.
    let visual = format!("{I_MATRA}{RA}{VIRAMA}क");
    assert_eq!(reorder_devanagari(&visual), format!("{RA}{VIRAMA}क{I_MATRA}"));
}

#[test]
fn each_move_stays_within_its_word() {
    let visual = format!("नगर {I_MATRA}क{VIRAMA}त {I_MATRA}न");
    assert_eq!(reorder_devanagari(&visual), format!("नगर क{VIRAMA}त{I_MATRA} न{I_MATRA}"));
    let visual = format!("गद{RA}{VIRAMA} {I_MATRA}न");
    assert_eq!(reorder_devanagari(&visual), format!("ग{RA}{VIRAMA}द न{I_MATRA}"));
}

#[test]
fn reordering_loses_and_invents_no_character() {
    let rounds = [
        format!("{I_MATRA}क{VIRAMA}तगद{RA}{VIRAMA} abc {I_MATRA}"),
        format!("{RA}{VIRAMA}{RA}{VIRAMA}{I_MATRA}{I_MATRA}{VIRAMA}"),
        String::from("मिलेर"),
    ];
    for visual in rounds {
        assert_eq!(sorted(&reorder_devanagari(&visual)), sorted(&visual));
    }
}

#[test]
fn one_cluster_is_taken() {
    let chars: Vec<char> = format!("क{VIRAMA}ष{VIRAMA}मल").chars().collect();
    assert_eq!(take_cluster(&chars, 0), (5, chars[..5].to_vec()));
    assert_eq!(take_cluster(&chars, 5), (6, vec!['ल']));
    assert_eq!(take_cluster(&chars, 6), (6, vec![]));
    assert_eq!(take_cluster(&chars, 60), (60, vec![]));
}

#[test]
fn a_last_virama_joins_nothing() {
    let chars: Vec<char> = format!("क{VIRAMA}").chars().collect();
    assert_eq!(take_cluster(&chars, 0), (1, vec!['क']));
}

#[test]
fn the_last_cluster_is_found() {
    assert_eq!(cluster_start(&[]), 0);
    let chars: Vec<char> = format!("गच{VIRAMA}छा").chars().collect();
    assert_eq!(cluster_start(&chars), 1);
    // Marks alone run back to the start.
    assert_eq!(cluster_start(&['ा', 'ा']), 0);
}

#[test]
fn fix_rakar_distinguishes_subjoined_ra_from_reph() {
    // प + र + virama inside a ligature is "pra": the ra subjoins.
    assert_eq!(
        fix_rakar(&format!("प{RA}{VIRAMA}")),
        format!("प{VIRAMA}{RA}")
    );
    // After a matra the same pair is a reph and belongs at the front.
    assert_eq!(
        fix_rakar(&format!("द\u{0948}{RA}{VIRAMA}")),
        format!("{RA}{VIRAMA}द\u{0948}")
    );
}

#[test]
fn a_bare_ra_and_virama_is_left_alone() {
    let bare = format!("{RA}{VIRAMA}");
    assert_eq!(fix_rakar(&bare), bare);
    assert_eq!(fix_rakar(""), "");
    assert_eq!(fix_rakar("कर"), "कर");
}

#[test]
fn white_space_is_what_unicode_says() {
    for c in '\u{0}'..=char::MAX {
        assert_eq!(is_white_space(c), c.is_whitespace(), "{c:?}");
    }
}

#[test]
fn characters_are_classed_by_their_ranges() {
    for c in '\u{0}'..='\u{FFFF}' {
        assert_eq!(
            is_consonant(c),
            matches!(c, '\u{0915}'..='\u{0939}' | '\u{0958}'..='\u{095F}' | '\u{0979}' | '\u{097A}')
        );
        assert_eq!(
            is_combining_mark(c),
            matches!(c, '\u{0900}'..='\u{0903}' | '\u{093A}'..='\u{094F}' | '\u{0951}'..='\u{0957}')
        );
        assert_eq!(
            is_devanagari_char(c),
            matches!(c, '\u{0900}'..='\u{097F}' | '\u{A8E0}'..='\u{A8FF}')
        );
        assert_eq!(
            is_decimal_digit(c),
            c.is_ascii_digit() || matches!(c, '\u{0966}'..='\u{096F}')
        );
    }
}
