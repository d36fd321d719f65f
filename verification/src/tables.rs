//! The keyboard layouts of the legacy fonts, and the rewrites that finish what
//! they type.
//!
//! A layout lists, by cp1252 code, what each key prints. The keys `m` and `{`
//! print nothing of their own: they alter what stands before them, so no layout
//! lists them and they wait for the rewrites.

use vstd::prelude::*;

verus! {

/// What the keys of a layout print, by rising cp1252 code.
pub type LegacyTable = &'static [(u8, &'static str)];

/// The codes of a table rise strictly, so a key is listed once and can be found
/// by bisection.
pub open spec fn strictly_increasing(table: Seq<(u8, &'static str)>) -> bool {
    forall|i: int, j: int|
        0 <= i < j < table.len() ==> (#[trigger] table[i]).0 < (#[trigger] table[j]).0
}

/// Preeti: digits on the shifted number row.
pub const PREETI: [(u8, &'static str); 135] = [
    (0x21, "१"),
    (0x22, "ू"),
    (0x23, "३"),
    (0x24, "४"),
    (0x25, "५"),
    (0x26, "७"),
    (0x27, "ु"),
    (0x28, "९"),
    (0x29, "०"),
    (0x2A, "८"),
    (0x2B, "ं"),
    (0x2C, ","),
    (0x2D, "("),
    (0x2E, "।"),
    (0x2F, "र"),
    (0x30, "ण्"),
    (0x31, "ज्ञ"),
    (0x32, "द्द"),
    (0x33, "घ"),
    (0x34, "द्ध"),
    (0x35, "छ"),
    (0x36, "ट"),
    (0x37, "ठ"),
    (0x38, "ड"),
    (0x39, "ढ"),
    (0x3A, "स्"),
    (0x3B, "स"),
    (0x3C, "?"),
    (0x3D, "."),
    (0x3E, "श्र"),
    (0x3F, "रु"),
    (0x40, "२"),
    (0x41, "ब्"),
    (0x42, "द्य"),
    (0x43, "ऋ"),
    (0x44, "म्"),
    (0x45, "भ्"),
    (0x46, "ँ"),
    (0x47, "न्"),
    (0x48, "ज्"),
    (0x49, "क्ष्"),
    (0x4A, "व्"),
    (0x4B, "प्"),
    (0x4C, "ी"),
    (0x4D, "ः"),
    (0x4E, "ल्"),
    (0x4F, "इ"),
    (0x50, "ए"),
    (0x51, "त्त"),
    (0x52, "च्"),
    (0x53, "क्"),
    (0x54, "त्"),
    (0x55, "ग्"),
    (0x56, "ख्"),
    (0x57, "ध्"),
    (0x58, "ह्"),
    (0x59, "थ्"),
    (0x5A, "श्"),
    (0x5B, "ृ"),
    (0x5C, "्"),
    (0x5D, "े"),
    (0x5E, "६"),
    (0x5F, ")"),
    (0x60, "ञ"),
    (0x61, "ब"),
    (0x62, "द"),
    (0x63, "अ"),
    (0x64, "म"),
    (0x65, "भ"),
    (0x66, "ा"),
    (0x67, "न"),
    (0x68, "ज"),
    (0x69, "ष्"),
    (0x6A, "व"),
    (0x6B, "प"),
    (0x6C, "ि"),
    (0x6E, "ल"),
    (0x6F, "य"),
    (0x70, "उ"),
    (0x71, "त्र"),
    (0x72, "च"),
    (0x73, "क"),
    (0x74, "त"),
    (0x75, "ग"),
    (0x76, "ख"),
    (0x77, "ध"),
    (0x78, "ह"),
    (0x79, "थ"),
    (0x7A, "श"),
    (0x7C, "्र"),
    (0x7D, "ै"),
    (0x7E, "ञ्"),
    (0x84, "ध्र"),
    (0x85, "‘"),
    (0x88, "फ्"),
    (0x89, "झ्"),
    (0x8B, "ङ्घ"),
    (0x91, "ॅ"),
    (0x95, "ड्ड"),
    (0x98, "ऽ"),
    (0x9B, "द्र"),
    (0xA1, "ज्ञ्"),
    (0xA2, "द्घ"),
    (0xA3, "घ्"),
    (0xA4, "झ्"),
    (0xA5, "र्\u{200D}"),
    (0xA7, "ट्ट"),
    (0xA9, "र"),
    (0xAA, "ङ"),
    (0xAB, "्र"),
    (0xB0, "ङ्ढ"),
    (0xB1, "+"),
    (0xB4, "झ"),
    (0xB6, "ठ्ठ"),
    (0xBF, "रू"),
    (0xC5, "हृ"),
    (0xC6, "”"),
    (0xCB, "ङ्ग"),
    (0xCC, "न्न"),
    (0xCD, "ङ्क"),
    (0xCE, "ङ्ख"),
    (0xD2, "¨"),
    (0xD6, "="),
    (0xD7, "×"),
    (0xD8, "्य"),
    (0xD9, ";"),
    (0xDA, "’"),
    (0xDB, "!"),
    (0xDC, "%"),
    (0xDD, "ट्ठ"),
    (0xDF, "द्म"),
    (0xE5, "द्व"),
    (0xE6, "“"),
    (0xE7, "ॐ"),
    (0xF7, "/"),
];

/// Fontasy Himali: digits on the plain number row, consonants on the shifted one.
pub const FONTASY_HIMALI: [(u8, &'static str); 92] = [
    (0x21, "ज्ञ"),
    (0x22, "ू"),
    (0x23, "घ"),
    (0x24, "द्ध"),
    (0x25, "छ"),
    (0x26, "ठ"),
    (0x27, "ु"),
    (0x28, "ढ"),
    (0x29, "ण्"),
    (0x2A, "ड"),
    (0x2B, "ं"),
    (0x2C, ","),
    (0x2D, "("),
    (0x2E, "।"),
    (0x2F, "र"),
    (0x30, "०"),
    (0x31, "१"),
    (0x32, "२"),
    (0x33, "३"),
    (0x34, "४"),
    (0x35, "५"),
    (0x36, "६"),
    (0x37, "७"),
    (0x38, "८"),
    (0x39, "९"),
    (0x3A, "स्"),
    (0x3B, "स"),
    (0x3C, "?"),
    (0x3D, "."),
    (0x3E, "श्र"),
    (0x3F, "रु"),
    (0x40, "द्द"),
    (0x41, "ब्"),
    (0x42, "द्य"),
    (0x43, "ऋ"),
    (0x44, "म्"),
    (0x45, "भ्"),
    (0x46, "ँ"),
    (0x47, "न्"),
    (0x48, "ज्"),
    (0x49, "क्ष्"),
    (0x4A, "व्"),
    (0x4B, "प्"),
    (0x4C, "ी"),
    (0x4D, "ः"),
    (0x4E, "ल्"),
    (0x4F, "इ"),
    (0x50, "ए"),
    (0x51, "त्त"),
    (0x52, "च्"),
    (0x53, "क्"),
    (0x54, "त्"),
    (0x55, "ग्"),
    (0x56, "ख्"),
    (0x57, "ध्"),
    (0x58, "ह्"),
    (0x59, "थ्"),
    (0x5A, "श्"),
    (0x5B, "ृ"),
    (0x5C, "्"),
    (0x5D, "े"),
    (0x5E, "ट"),
    (0x5F, ")"),
    (0x60, "ञ"),
    (0x61, "ब"),
    (0x62, "द"),
    (0x63, "अ"),
    (0x64, "म"),
    (0x65, "भ"),
    (0x66, "ा"),
    (0x67, "न"),
    (0x68, "ज"),
    (0x69, "ष्"),
    (0x6A, "व"),
    (0x6B, "प"),
    (0x6C, "ि"),
    (0x6E, "ल"),
    (0x6F, "य"),
    (0x70, "उ"),
    (0x71, "त्र"),
    (0x72, "च"),
    (0x73, "क"),
    (0x74, "त"),
    (0x75, "ग"),
    (0x76, "ख"),
    (0x77, "ध"),
    (0x78, "ह"),
    (0x79, "थ"),
    (0x7A, "श"),
    (0x7C, "्र"),
    (0x7D, "ै"),
    (0x7E, "ञ्"),
];

/// The keys known to print the same on the layouts below. What else those
/// layouts print, their number rows among it, is not known and not listed, so
/// it stays as typed.
pub const SHARED_KEYS: [(u8, &'static str); 72] = [
    (0x22, "ू"),
    (0x27, "ु"),
    (0x2B, "ं"),
    (0x2C, ","),
    (0x2D, "("),
    (0x2E, "।"),
    (0x2F, "र"),
    (0x3A, "स्"),
    (0x3B, "स"),
    (0x3C, "?"),
    (0x3D, "."),
    (0x3E, "श्र"),
    (0x3F, "रु"),
    (0x41, "ब्"),
    (0x42, "द्य"),
    (0x43, "ऋ"),
    (0x44, "म्"),
    (0x45, "भ्"),
    (0x46, "ँ"),
    (0x47, "न्"),
    (0x48, "ज्"),
    (0x49, "क्ष्"),
    (0x4A, "व्"),
    (0x4B, "प्"),
    (0x4C, "ी"),
    (0x4D, "ः"),
    (0x4E, "ल्"),
    (0x4F, "इ"),
    (0x50, "ए"),
    (0x51, "त्त"),
    (0x52, "च्"),
    (0x53, "क्"),
    (0x54, "त्"),
    (0x55, "ग्"),
    (0x56, "ख्"),
    (0x57, "ध्"),
    (0x58, "ह्"),
    (0x59, "थ्"),
    (0x5A, "श्"),
    (0x5B, "ृ"),
    (0x5C, "्"),
    (0x5D, "े"),
    (0x5F, ")"),
    (0x60, "ञ"),
    (0x61, "ब"),
    (0x62, "द"),
    (0x63, "अ"),
    (0x64, "म"),
    (0x65, "भ"),
    (0x66, "ा"),
    (0x67, "न"),
    (0x68, "ज"),
    (0x69, "ष्"),
    (0x6A, "व"),
    (0x6B, "प"),
    (0x6C, "ि"),
    (0x6E, "ल"),
    (0x6F, "य"),
    (0x70, "उ"),
    (0x71, "त्र"),
    (0x72, "च"),
    (0x73, "क"),
    (0x74, "त"),
    (0x75, "ग"),
    (0x76, "ख"),
    (0x77, "ध"),
    (0x78, "ह"),
    (0x79, "थ"),
    (0x7A, "श"),
    (0x7C, "्र"),
    (0x7D, "ै"),
    (0x7E, "ञ्"),
];

/// Kantipur: the shared keys only.
pub const KANTIPUR: [(u8, &'static str); 72] = SHARED_KEYS;

/// PCS Nepali: the shared keys only.
pub const PCS_NEPALI: [(u8, &'static str); 72] = SHARED_KEYS;

/// Sagarmatha: the shared keys only.
pub const SAGARMATHA: [(u8, &'static str); 72] = SHARED_KEYS;

/// The ordered rewrites that turn typed text into well-formed Devanagari: a
/// pattern each, and what replaces what it matches.
pub const POST_RULES: [(&'static str, &'static str); 32] = [
    ("्ा", ""),
    ("(त्र|त्त)([^उभप]+?)m", "${1}m$2"),
    ("त्रm", "क्र"),
    ("त्तm", "क्त"),
    ("([^उभप]+?)m", "m$1"),
    ("उm", "ऊ"),
    ("भm", "झ"),
    ("पm", "फ"),
    ("इ\\{", "ई"),
    ("ि((.्)*[^्])", "$1ि"),
    ("(.[ािीुूृेैोौंःँ]*?)\\{", "{$1"),
    ("((.्)*)\\{", "{$1"),
    ("\\{", "र्"),
    ("([ाीुूृेैोौंःँ]+?)(्(.्)*[^्])", "$2$1"),
    ("्([ाीुूृेैोौंःँ]+?)((.्)*[^्])", "्$2$1"),
    ("([ंँ])([ािीुूृेैोौः]*)", "$2$1"),
    ("ँँ", "ँ"),
    ("ंं", "ं"),
    ("ेे", "े"),
    ("ैै", "ै"),
    ("ुु", "ु"),
    ("ूू", "ू"),
    ("^ः", ":"),
    ("टृ", "ट्ट"),
    ("ेा", "ाे"),
    ("ैा", "ाै"),
    ("अाे", "ओ"),
    ("अाै", "औ"),
    ("अा", "आ"),
    ("एे", "ऐ"),
    ("ाे", "ो"),
    ("ाै", "ौ"),
];

proof fn lemma_preeti_sorted()
    ensures
        strictly_increasing(PREETI@),
{
}

proof fn lemma_fontasy_himali_sorted()
    ensures
        strictly_increasing(FONTASY_HIMALI@),
{
}

proof fn lemma_shared_keys_sorted()
    ensures
        strictly_increasing(SHARED_KEYS@),
{
}

/// Every layout can be searched by bisection.
pub proof fn tables_are_sorted()
    ensures
        strictly_increasing(PREETI@),
        strictly_increasing(FONTASY_HIMALI@),
        strictly_increasing(KANTIPUR@),
        strictly_increasing(PCS_NEPALI@),
        strictly_increasing(SAGARMATHA@),
{
    lemma_preeti_sorted();
    lemma_fontasy_himali_sorted();
    lemma_shared_keys_sorted();
}

} // verus!
