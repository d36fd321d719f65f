//! Nepali (Devanagari) text recovery.
//!
//! Two independent problems, both common in Nepali PDFs and both invisible to
//! a generic decode path:
//!
//! 1. **Legacy 8-bit fonts** (Preeti, Fontasy Himali, Kantipur, PCS Nepali,
//!    Sagarmatha and their clones) ship no `/ToUnicode` and declare
//!    `/WinAnsiEncoding`, so the raw keyboard bytes survive extraction as Latin
//!    mojibake — `g]kfn` for `नेपाल`. Recovery is a byte table plus an ordered
//!    set of rewrites that reassemble the composed forms the keyboard layout
//!    splits apart. See [`font_name::legacy_table`], [`legacy::decode_legacy`]
//!    and [`post_rules::apply_post_rules`].
//!
//! 2. **Visual glyph order.** Devanagari PDFs routinely emit glyphs in the
//!    order they are drawn, not the order Unicode stores them: the reph sits
//!    after its cluster and the i-matra before its consonant. Fixing that is
//!    [`reorder::reorder_devanagari`], for glyph runs that
//!    [`glyph_map::devanagari_glyph_map`] has resolved to codepoints.
//!
//! Only the first half is actually Nepali — the keyboard layouts are a Nepali
//! typesetting convention. From [`glyph_map`] down, everything keys on the
//! Devanagari block alone and serves Hindi, Marathi and Sanskrit just as well.
//! Adding another Devanagari language means adding its keyboard tables to
//! [`tables`]; the script half already covers it.

pub mod cff;
pub mod cmap;
pub mod dict;
pub mod digits;
pub mod font_file;
pub mod font_name;
pub mod font_name_laws;
pub mod font_tables;
pub mod glyph_map;
pub mod glyphs;
pub mod gsub;
pub mod legacy;
pub mod outlines;
pub mod pattern;
pub mod post_rules;
pub mod preflight;
pub mod reorder;
pub mod script;
pub mod tables;
pub mod text;
