//! Legacy fonts: their names, their layouts, and the rewrites that follow.

use nepali::font_name::{decode_name_escapes, legacy_table, normalize_font_name};
use nepali::legacy::{cp1252_char, decode_legacy};
use nepali::post_rules::{
    apply_post_rules, compile_post_rules, compile_rules, restore_decimal_points, rewrite_word,
    split_words,
};
use nepali::tables::{
    FONTASY_HIMALI, KANTIPUR, PCS_NEPALI, POST_RULES, PREETI, SAGARMATHA,
};

/// Every shipped post-rule has to compile, or the first Nepali page fails
/// rather than this.
#[test]
fn post_rules_compile() {
    assert_eq!(compile_post_rules().unwrap().len(), POST_RULES.len());
}

#[test]
fn tables_are_sorted_for_binary_search() {
    for table in [
        PREETI.as_slice(),
        FONTASY_HIMALI.as_slice(),
        KANTIPUR.as_slice(),
        PCS_NEPALI.as_slice(),
        SAGARMATHA.as_slice(),
    ] {
        assert!(table.windows(2).all(|w| w[0].0 < w[1].0));
    }
}

#[test]
fn font_names_normalize_onto_tables() {
    assert!(legacy_table("CICEGE+Preeti").is_some());
    assert!(legacy_table("EDZXFL+Ganesh").is_some());
    assert!(legacy_table("PCS NEPALI").is_some());
    // `#XX` escapes must resolve, or the name misses its table.
    assert!(legacy_table("Fontasy#20Himali").is_some());
    // Relabelled Preeti clones, each confirmed by decoding a sample.
    for clone in ["NTKZBT+ARAP002", "Himalli", "JVKBXB+Himalb", "DEKRRN+Aakar"] {
        assert_eq!(legacy_table(clone).unwrap(), PREETI.as_slice(), "{clone}");
    }
    // Fontasy Himali is the one observed name that wants the other layout.
    assert_eq!(
        legacy_table("CICECD+FONTASYHIMALITTNORMAL").unwrap(),
        FONTASY_HIMALI.as_slice()
    );
    // Unicode Devanagari fonts must not be routed through a keyboard table.
    assert!(legacy_table("Mangal").is_none());
    assert!(legacy_table("BCDHEE+Kokila").is_none());
    assert!(legacy_table("Kalimati").is_none());
    assert!(legacy_table("TimesNewRomanPSMT").is_none());
}

/// Hindi's legacy 8-bit fonts (Kruti Dev, DevLys, Chanakya, …) use different
/// keyboard layouts from the Nepali ones and have no table here, so they must
/// fall through rather than be decoded with a Nepali layout.
#[test]
fn hindi_legacy_fonts_are_not_claimed_by_nepali_tables() {
    for font in ["Kruti Dev 010", "DevLys 010", "Chanakya", "Shusha", "AGRA"] {
        assert!(legacy_table(font).is_none(), "{font}");
    }
}

/// `decode_legacy` + `apply_post_rules` is the full legacy pipeline; the
/// split exists only so words can be reassembled in between.
fn preeti(bytes: &[u8]) -> String {
    rewritten(&decode_legacy(bytes, legacy_table("Preeti").unwrap()))
}

fn rewritten(text: &str) -> String {
    apply_post_rules(text, &compile_post_rules().unwrap())
}

#[test]
fn preeti_decodes_words() {
    // "g]kfn" is how Preeti stores नेपाल.
    assert_eq!(preeti(b"g]kfn"), "नेपाल");
    // Composed vowel: "cf" is the आ ligature, not अ + ा.
    assert_eq!(preeti(b"cf"), "आ");
    // Digits map to Devanagari numerals.
    assert_eq!(preeti(b"@)^$"), "२०६४");
}

#[test]
fn preeti_reorders_i_matra_within_a_word() {
    // The i-matra byte 'l' precedes its consonant in the keyboard layout;
    // in Unicode it has to follow it.
    assert_eq!(preeti(b"gLlt"), "नीति");
    // 'Q' is the त्त conjunct, so the matra hops the whole cluster.
    assert_eq!(preeti(b"ljQ"), "वित्त");
}

#[test]
fn danda_between_digits_is_a_decimal_point() {
    // "19.78" typed on the Himali layout: the digits become Devanagari and
    // the period key would otherwise land as a sentence-ending danda.
    let table = legacy_table("FontasyHimali").unwrap();
    assert_eq!(rewritten(&decode_legacy(b"19.78", table)), "१९.७८");
    // A danda that actually ends a sentence is left alone.
    assert_eq!(restore_decimal_points("यो हो ।"), "यो हो ।");
    assert_eq!(restore_decimal_points("१९।७८ र २४।३० ।"), "१९.७८ र २४.३० ।");
}

#[test]
fn post_rules_do_not_reach_across_words() {
    assert_eq!(preeti(b"g]kfn g]kfn"), "नेपाल नेपाल");
    // Whitespace is preserved verbatim, including runs and the trailing one.
    assert_eq!(preeti(b"g]kfn  g]kfn "), "नेपाल  नेपाल ");
}

#[test]
fn word_split_across_operands_needs_both_fragments() {
    let table = legacy_table("Preeti").unwrap();
    // राष्ट्रिय arrives as three separate text-show operands. Substituting
    // each is fine; rewriting each in isolation is not.
    let joined: String = [&b"/fli6"[..], b"\xab", b"o"]
        .iter()
        .map(|part| decode_legacy(part, table))
        .collect();
    assert_eq!(rewritten(&joined), "राष्ट्रिय");
}

#[test]
fn every_listed_name_has_its_layout() {
    for name in ["preeti", "ganesh", "ganess", "aakar", "arap002", "himalb", "himalli"] {
        assert_eq!(legacy_table(name).unwrap(), PREETI.as_slice(), "{name}");
    }
    assert_eq!(legacy_table("fontasyhimali").unwrap(), FONTASY_HIMALI.as_slice());
    assert_eq!(legacy_table("kantipur").unwrap(), KANTIPUR.as_slice());
    assert_eq!(legacy_table("pcsnepali").unwrap(), PCS_NEPALI.as_slice());
    assert_eq!(legacy_table("sagarmatha").unwrap(), SAGARMATHA.as_slice());
    assert!(legacy_table("").is_none());
    assert!(legacy_table("preetix").is_none());
}

#[test]
fn a_name_loses_its_subset_prefix() {
    assert_eq!(normalize_font_name("CICEGE+Preeti"), "preeti");
    // Everything up to the last plus sign goes.
    assert_eq!(normalize_font_name("A+B+Preeti"), "preeti");
    assert_eq!(normalize_font_name("Preeti+"), "");
}

#[test]
fn a_name_loses_its_case_and_separators() {
    assert_eq!(normalize_font_name("PCS NEPALI"), "pcsnepali");
    assert_eq!(normalize_font_name("Fontasy-Himali,_"), "fontasyhimali");
    assert_eq!(normalize_font_name("Fontasy#20Himali"), "fontasyhimali");
    // Letters outside ASCII are no part of a name.
    assert_eq!(normalize_font_name("Prééti"), "prti");
}

#[test]
fn a_name_loses_its_weight_suffixes() {
    assert_eq!(normalize_font_name("FONTASYHIMALITTNORMAL"), "fontasyhimali");
    assert_eq!(normalize_font_name("PreetiBoldBold"), "preeti");
    assert_eq!(normalize_font_name("Preeti-BoldItalicMT"), "preeti");
    // A suffix that is the whole name stays.
    assert_eq!(normalize_font_name("Bold"), "bold");
    assert_eq!(normalize_font_name("BoldBold"), "bold");
    assert_eq!(normalize_font_name("BoldItalic"), "bold");
    // The order they come in does not matter.
    assert_eq!(normalize_font_name("xnormalbold"), "x");
    assert_eq!(normalize_font_name("xboldnormal"), "x");
}

#[test]
fn weight_suffixes_do_not_change_the_layout() {
    for suffix in ["", "-Bold", "-BoldItalic", "-ItalicBold", " Normal MT", "PSMT-RegularTT"] {
        let name = format!("ABCDEF+Preeti{suffix}");
        assert_eq!(legacy_table(&name).unwrap(), PREETI.as_slice(), "{name}");
        let name = format!("Fontasy Himali{suffix}");
        assert_eq!(legacy_table(&name).unwrap(), FONTASY_HIMALI.as_slice(), "{name}");
    }
}

#[test]
fn a_separator_inside_an_escape_is_no_separator() {
    assert_eq!(normalize_font_name("Fontasy#2 0Himali"), "fontasy20himali");
    // Nor is a suffix that ends an escape a suffix.
    assert_eq!(normalize_font_name("x#4bold"), "xkold");
    assert_eq!(normalize_font_name("x#4 bold"), "x4");
}

#[test]
fn names_without_escapes_are_kept() {
    assert_eq!(decode_name_escapes("Prééti"), "Prééti");
    assert_eq!(decode_name_escapes(""), "");
}

#[test]
fn escapes_are_resolved_byte_by_byte() {
    assert_eq!(decode_name_escapes("a#20b"), "a b");
    assert_eq!(decode_name_escapes("#4a#4A"), "JJ");
    assert_eq!(decode_name_escapes("#e9"), "\u{e9}");
    assert_eq!(decode_name_escapes("#23#"), "##");
    assert_eq!(decode_name_escapes("#zz"), "#zz");
    assert_eq!(decode_name_escapes("#2"), "#2");
    // A sign is no digit.
    assert_eq!(decode_name_escapes("#+5"), "#+5");
    assert_eq!(decode_name_escapes("#-5"), "#-5");
    // In a name with an escape each byte is one character.
    assert_eq!(decode_name_escapes("é#20"), "\u{c3}\u{a9} ");
    assert_eq!(decode_name_escapes("#é"), "#\u{c3}\u{a9}");
}

#[test]
fn every_ascii_pair_is_read_in_base_sixteen() {
    for first in 0u8..128 {
        for second in 0u8..128 {
            let pair = format!("{}{}", first as char, second as char);
            let name = format!("#{pair}");
            let expected = match u8::from_str_radix(&pair, 16) {
                Ok(byte) if first != b'+' => (byte as char).to_string(),
                // A `#` inside the pair has no room for an escape of its own.
                _ => name.clone(),
            };
            assert_eq!(decode_name_escapes(&name), expected);
        }
    }
}

#[test]
fn unlisted_bytes_are_read_as_cp1252() {
    assert_eq!(cp1252_char(0x41), 'A');
    assert_eq!(cp1252_char(0x80), '\u{20AC}');
    assert_eq!(cp1252_char(0x81), '\u{81}');
    assert_eq!(cp1252_char(0x8D), '\u{8D}');
    assert_eq!(cp1252_char(0x8F), '\u{8F}');
    assert_eq!(cp1252_char(0x90), '\u{90}');
    assert_eq!(cp1252_char(0x9D), '\u{9D}');
    assert_eq!(cp1252_char(0x9F), '\u{0178}');
    assert_eq!(cp1252_char(0xA0), '\u{A0}');
    assert_eq!(cp1252_char(0xFF), '\u{FF}');
    let named: Vec<char> = (0x80u8..=0x9F).map(cp1252_char).collect();
    let expected: Vec<char> = high_codes();
    assert_eq!(named, expected);
}

fn high_codes() -> Vec<char> {
    vec![
        '\u{20AC}', '\u{81}', '\u{201A}', '\u{0192}', '\u{201E}', '\u{2026}', '\u{2020}',
        '\u{2021}', '\u{02C6}', '\u{2030}', '\u{0160}', '\u{2039}', '\u{0152}', '\u{8D}',
        '\u{017D}', '\u{8F}', '\u{90}', '\u{2018}', '\u{2019}', '\u{201C}', '\u{201D}',
        '\u{2022}', '\u{2013}', '\u{2014}', '\u{02DC}', '\u{2122}', '\u{0161}', '\u{203A}',
        '\u{0153}', '\u{9D}', '\u{017E}', '\u{0178}',
    ]
}

const SMALL: [(u8, &str); 3] = [(0x41, "अ"), (0x61, "का"), (0x80, "")];

#[test]
fn listed_bytes_are_printed_and_the_rest_pass() {
    assert_eq!(decode_legacy(b"", &SMALL), "");
    assert_eq!(decode_legacy(b"Aa%7\x80\x85", &SMALL), "अका%7\u{2026}");
    assert_eq!(decode_legacy(b"A 9", &[]), "A 9");
}

#[test]
fn decoding_pieces_is_decoding_the_whole() {
    for table in [PREETI.as_slice(), KANTIPUR.as_slice()] {
        let whole = decode_legacy(b"g]kfn /fli6\xab", table);
        let pieces = decode_legacy(b"g]kf", table) + &decode_legacy(b"n /fli6\xab", table);
        assert_eq!(whole, pieces);
    }
}

#[test]
fn every_byte_is_found_where_a_scan_finds_it() {
    for table in [PREETI.as_slice(), FONTASY_HIMALI.as_slice(), SAGARMATHA.as_slice()] {
        for byte in 0u8..=255 {
            let expected = match table.iter().find(|entry| entry.0 == byte) {
                Some(entry) => entry.1.to_string(),
                None => cp1252_char(byte).to_string(),
            };
            assert_eq!(decode_legacy(&[byte], table), expected);
        }
    }
}

#[test]
fn a_pattern_that_does_not_compile_is_named() {
    match compile_rules(&[("a", "b"), ("(", "c"), ("[", "d")]) {
        Ok(_) => panic!("an open bracket compiled"),
        Err(error) => assert_eq!(error.pattern, "("),
    }
    assert_eq!(compile_rules(&[]).unwrap().len(), 0);
}

#[test]
fn rules_run_in_order_and_replace_every_match() {
    let rules = compile_rules(&[("a+", "b"), ("b(c)", "${1}d"), ("^b", "x")]).unwrap();
    assert_eq!(rewrite_word("aacaab", &rules), "cdbb");
    assert_eq!(rewrite_word("baa", &rules), "xb");
    assert_eq!(rewrite_word("zzz", &rules), "zzz");
}

#[test]
fn anchored_rules_see_each_word_apart() {
    let rules = compile_rules(&[("^a", "x"), ("b$", "y")]).unwrap();
    assert_eq!(apply_post_rules("ab ab\tab", &rules), "xy xy\txy");
    assert_eq!(apply_post_rules("", &rules), "");
    assert_eq!(apply_post_rules(" \u{3000}\n", &rules), " \u{3000}\n");
}

#[test]
fn a_word_is_rewritten_as_it_is_alone() {
    let rules = compile_post_rules().unwrap();
    let words = ["नेपाल", "ज्ञान{", "१९।७८"];
    let text = words.join(" ");
    let apart: Vec<String> = words.iter().map(|word| apply_post_rules(word, &rules)).collect();
    assert_eq!(apply_post_rules(&text, &rules), apart.join(" "));
}

#[test]
fn points_are_restored_after_the_rules() {
    let rules = compile_rules(&[("d", "।")]).unwrap();
    assert_eq!(apply_post_rules("1d2 d", &rules), "1.2 ।");
}

#[test]
fn text_is_cut_after_each_white_space() {
    let words: Vec<(String, Option<char>)> = split_words("ab  c\nd")
        .into_iter()
        .map(|word| (word.text, word.trailing))
        .collect();
    assert_eq!(
        words,
        vec![
            (String::from("ab"), Some(' ')),
            (String::new(), Some(' ')),
            (String::from("c"), Some('\n')),
            (String::from("d"), None),
        ]
    );
    assert_eq!(split_words("").len(), 0);
}

#[test]
fn only_a_danda_between_digits_is_a_point() {
    assert_eq!(restore_decimal_points(""), "");
    assert_eq!(restore_decimal_points("1।2"), "1.2");
    assert_eq!(restore_decimal_points("1।२।3"), "1.२.3");
    assert_eq!(restore_decimal_points("।1"), "।1");
    assert_eq!(restore_decimal_points("1।"), "1।");
    assert_eq!(restore_decimal_points("1।।2"), "1।।2");
    assert_eq!(restore_decimal_points("क।2"), "क।2");
    // Done twice it changes nothing more.
    let once = restore_decimal_points("१९।७८।");
    assert_eq!(restore_decimal_points(&once), once);
}
