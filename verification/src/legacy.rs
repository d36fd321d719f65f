//! Decoding the bytes of a legacy 8-bit font.

use vstd::prelude::*;
use crate::script::DANDA;
use crate::tables::{
    strictly_increasing, LegacyTable, FONTASY_HIMALI, KANTIPUR, PCS_NEPALI, PREETI, SAGARMATHA,
};

verus! {

/// The characters of the cp1252 codes `0x80` to `0x9F`; the five codes that
/// cp1252 leaves unassigned stand for themselves.
pub const CP1252_HIGH: [char; 32] = [
    '\u{20AC}', '\u{0081}', '\u{201A}', '\u{0192}', '\u{201E}', '\u{2026}', '\u{2020}', '\u{2021}',
    '\u{02C6}', '\u{2030}', '\u{0160}', '\u{2039}', '\u{0152}', '\u{008D}', '\u{017D}', '\u{008F}',
    '\u{0090}', '\u{2018}', '\u{2019}', '\u{201C}', '\u{201D}', '\u{2022}', '\u{2013}', '\u{2014}',
    '\u{02DC}', '\u{2122}', '\u{0161}', '\u{203A}', '\u{0153}', '\u{009D}', '\u{017E}', '\u{0178}',
];

/// The cp1252 reading of a byte.
pub open spec fn cp1252(byte: u8) -> char {
    if 0x80 <= byte <= 0x9F {
        CP1252_HIGH[byte - 0x80]
    } else {
        byte as char
    }
}

/// cp1252 reading of a byte, for the codes the tables leave unmapped.
pub fn cp1252_char(byte: u8) -> (ch: char)
    ensures
        ch == cp1252(byte),
{
    if byte >= 0x80 && byte <= 0x9F {
        CP1252_HIGH[(byte - 0x80) as usize]
    } else {
        byte as char
    }
}

/// The table lists `byte` at index `i`.
pub open spec fn listed_at(table: Seq<(u8, &'static str)>, byte: u8, i: int) -> bool {
    0 <= i < table.len() && table[i].0 == byte
}

/// What a byte prints: what the table lists for it, or its cp1252 reading.
pub open spec fn byte_text(table: Seq<(u8, &'static str)>, byte: u8) -> Seq<char> {
    if exists|i: int| listed_at(table, byte, i) {
        table[choose|i: int| listed_at(table, byte, i)].1@
    } else {
        seq![cp1252(byte)]
    }
}

/// What a run of bytes prints, one after another.
pub open spec fn decoded(table: Seq<(u8, &'static str)>, bytes: Seq<u8>) -> Seq<char>
    decreases bytes.len(),
{
    if bytes.len() == 0 {
        Seq::empty()
    } else {
        decoded(table, bytes.drop_last()) + byte_text(table, bytes.last())
    }
}

/// Where the table lists `byte`, by bisection.
fn find_code(table: LegacyTable, byte: u8) -> (found: Option<usize>)
    requires
        strictly_increasing(table@),
    ensures
        match found {
            Some(i) => listed_at(table@, byte, i as int),
            None => forall|i: int| !listed_at(table@, byte, i),
        },
{
    let mut low: usize = 0;
    let mut high: usize = table.len();
    while low < high
        invariant
            low <= high <= table.len(),
            strictly_increasing(table@),
            forall|i: int| #[trigger] listed_at(table@, byte, i) ==> low <= i < high,
        decreases high - low,
    {
        let mid: usize = low + (high - low) / 2;
        let code: u8 = table[mid].0;
        if code == byte {
            return Some(mid);
        } else if code < byte {
            low = mid + 1;
        } else {
            high = mid;
        }
    }
    None
}

/// Substitute a legacy-font string operand byte-for-byte.
///
/// `bytes` are the raw content-stream bytes; the tables are keyed by cp1252
/// code unit, which is what `/WinAnsiEncoding` makes them. Bytes with no table
/// entry pass through unchanged so embedded ASCII (digits, `%`, Latin
/// abbreviations) survives.
///
/// The output is *not* yet well-formed Devanagari: matras still sit on the
/// side the keyboard put them and the composition markers (`{`, `m`) are still
/// loose. [`apply_post_rules`](crate::post_rules::apply_post_rules) finishes
/// the job — but only once whole words are assembled, since a Nepali word is
/// routinely split across several text-show operators and rewriting a fragment
/// strands its matra on the wrong syllable.
pub fn decode_legacy(bytes: &[u8], table: LegacyTable) -> (text: String)
    requires
        strictly_increasing(table@),
    ensures
        text@ == decoded(table@, bytes@),
{
    let mut out = String::new();
    let mut i: usize = 0;
    while i < bytes.len()
        invariant
            i <= bytes.len(),
            strictly_increasing(table@),
            out@ == decoded(table@, bytes@.take(i as int)),
        decreases bytes.len() - i,
    {
        let byte: u8 = bytes[i];
        assert(bytes@.take(i + 1).drop_last() == bytes@.take(i as int));
        match find_code(table, byte) {
            Some(index) => {
                proof {
                    listed_text_is_printed(table@, index as int);
                }
                out.push_str(table[index].1);
            },
            // Unmapped: keep the cp1252 reading so Latin runs stay legible.
            None => out.push(cp1252_char(byte)),
        }
        i += 1;
    }
    assert(bytes@.take(bytes@.len() as int) == bytes@);
    out
}

/// A listed byte prints what its one entry lists.
pub proof fn listed_text_is_printed(table: Seq<(u8, &'static str)>, i: int)
    requires
        strictly_increasing(table),
        0 <= i < table.len(),
    ensures
        byte_text(table, table[i].0) == table[i].1@,
{
    let byte = table[i].0;
    assert(listed_at(table, byte, i));
    let k = choose|k: int| listed_at(table, byte, k);
    if k < i {
        assert(table[k].0 < table[i].0);
    } else if i < k {
        assert(table[i].0 < table[k].0);
    }
}

/// Decoding goes byte by byte: a string split across operands decodes to the
/// same text as the whole.
pub proof fn decoding_joins(table: Seq<(u8, &'static str)>, first: Seq<u8>, second: Seq<u8>)
    ensures
        decoded(table, first + second) == decoded(table, first) + decoded(table, second),
    decreases second.len(),
{
    if second.len() == 0 {
        assert(first + second == first);
        assert(decoded(table, first) + decoded(table, second) == decoded(table, first));
    } else {
        decoding_joins(table, first, second.drop_last());
        assert((first + second).drop_last() == first + second.drop_last());
        assert((first + second).last() == second.last());
        assert(decoded(table, first + second) == decoded(table, first) + decoded(table, second));
    }
}

/// ASCII that the table does not list survives as it is.
pub proof fn unlisted_ascii_survives(table: Seq<(u8, &'static str)>, bytes: Seq<u8>)
    requires
        forall|k: int| 0 <= k < bytes.len() ==> #[trigger] bytes[k] < 0x80,
        forall|k: int, i: int| 0 <= k < bytes.len() ==> !#[trigger] listed_at(table, bytes[k], i),
    ensures
        decoded(table, bytes) == bytes.map_values(|byte: u8| byte as char),
    decreases bytes.len(),
{
    if bytes.len() > 0 {
        let head = bytes.drop_last();
        assert forall|k: int, i: int| 0 <= k < head.len() implies !#[trigger] listed_at(
            table,
            head[k],
            i,
        ) by {
            assert(!listed_at(table, bytes[k], i));
        }
        unlisted_ascii_survives(table, head);
        assert forall|i: int| !#[trigger] listed_at(table, bytes.last(), i) by {
            assert(!listed_at(table, bytes[bytes.len() - 1], i));
        }
        assert(bytes[bytes.len() - 1] < 0x80);
        assert(decoded(table, bytes) == bytes.map_values(|byte: u8| byte as char));
    } else {
        assert(decoded(table, bytes) == bytes.map_values(|byte: u8| byte as char));
    }
}

/// The codes that cp1252 gives a character of another number.
pub proof fn cp1252_by_number()
    ensures
        cp1252(0x80) as u32 == 0x20AC,
        cp1252(0x82) as u32 == 0x201A,
        cp1252(0x83) as u32 == 0x192,
        cp1252(0x84) as u32 == 0x201E,
        cp1252(0x85) as u32 == 0x2026,
        cp1252(0x86) as u32 == 0x2020,
        cp1252(0x87) as u32 == 0x2021,
        cp1252(0x88) as u32 == 0x2C6,
        cp1252(0x89) as u32 == 0x2030,
        cp1252(0x8A) as u32 == 0x160,
        cp1252(0x8B) as u32 == 0x2039,
        cp1252(0x8C) as u32 == 0x152,
        cp1252(0x8E) as u32 == 0x17D,
        cp1252(0x91) as u32 == 0x2018,
        cp1252(0x92) as u32 == 0x2019,
        cp1252(0x93) as u32 == 0x201C,
        cp1252(0x94) as u32 == 0x201D,
        cp1252(0x95) as u32 == 0x2022,
        cp1252(0x96) as u32 == 0x2013,
        cp1252(0x97) as u32 == 0x2014,
        cp1252(0x98) as u32 == 0x2DC,
        cp1252(0x99) as u32 == 0x2122,
        cp1252(0x9A) as u32 == 0x161,
        cp1252(0x9B) as u32 == 0x203A,
        cp1252(0x9C) as u32 == 0x153,
        cp1252(0x9E) as u32 == 0x17E,
        cp1252(0x9F) as u32 == 0x178,
{
}

/// Every other code is the character of its own number.
pub proof fn other_codes_stand_for_themselves(byte: u8)
    requires
        byte < 0x80 || 0xA0 <= byte || byte == 0x81 || byte == 0x8D || byte == 0x8F || byte == 0x90
            || byte == 0x9D,
    ensures
        cp1252(byte) as u32 == byte as u32,
{
}

/// A byte that the table lists decodes to the text of its entry, wherever the
/// entry stands.
pub proof fn a_listed_byte_decodes_to_its_text(table: Seq<(u8, &'static str)>, i: int)
    requires
        strictly_increasing(table),
        0 <= i < table.len(),
    ensures
        decoded(table, seq![table[i].0]) == table[i].1@,
{
    let bytes = seq![table[i].0];
    listed_text_is_printed(table, i);
    assert(bytes.drop_last() == Seq::<u8>::empty());
    assert(decoded(table, bytes.drop_last()) == Seq::<char>::empty());
    assert(Seq::<char>::empty() + table[i].1@ == table[i].1@);
}

/// A byte that the table does not list decodes to its cp1252 character alone.
pub proof fn an_unlisted_byte_decodes_to_its_character(
    table: Seq<(u8, &'static str)>,
    byte: u8,
)
    requires
        forall|i: int| 0 <= i < table.len() ==> (#[trigger] table[i]).0 != byte,
    ensures
        decoded(table, seq![byte]) == seq![cp1252(byte)],
{
    let bytes = seq![byte];
    assert(!(exists|i: int| listed_at(table, byte, i)));
    assert(bytes.drop_last() == Seq::<u8>::empty());
    assert(decoded(table, bytes.drop_last()) == Seq::<char>::empty());
    assert(Seq::<char>::empty() + seq![cp1252(byte)] == seq![cp1252(byte)]);
}

/// A byte that one entry alone lists prints the text of that entry.
proof fn lemma_only_entry(table: Seq<(u8, &'static str)>, byte: u8, i: int)
    requires
        listed_at(table, byte, i),
        forall|k: int| #[trigger] listed_at(table, byte, k) ==> k == i,
    ensures
        byte_text(table, byte) == table[i].1@,
{
}

/// On every layout the period key types a danda.
pub proof fn the_period_key_types_a_danda()
    ensures
        byte_text(PREETI@, 0x2E) == seq![DANDA],
        byte_text(FONTASY_HIMALI@, 0x2E) == seq![DANDA],
        byte_text(KANTIPUR@, 0x2E) == seq![DANDA],
        byte_text(PCS_NEPALI@, 0x2E) == seq![DANDA],
        byte_text(SAGARMATHA@, 0x2E) == seq![DANDA],
{
    reveal_strlit("।");
    assert(forall|k: int| #[trigger] listed_at(PREETI@, 0x2E, k) ==> k == 13);
    lemma_only_entry(PREETI@, 0x2E, 13);
    assert(forall|k: int| #[trigger] listed_at(FONTASY_HIMALI@, 0x2E, k) ==> k == 13);
    lemma_only_entry(FONTASY_HIMALI@, 0x2E, 13);
    assert(forall|k: int| #[trigger] listed_at(KANTIPUR@, 0x2E, k) ==> k == 5);
    lemma_only_entry(KANTIPUR@, 0x2E, 5);
    assert(forall|k: int| #[trigger] listed_at(PCS_NEPALI@, 0x2E, k) ==> k == 5);
    lemma_only_entry(PCS_NEPALI@, 0x2E, 5);
    assert(forall|k: int| #[trigger] listed_at(SAGARMATHA@, 0x2E, k) ==> k == 5);
    lemma_only_entry(SAGARMATHA@, 0x2E, 5);
    assert("।"@ == seq![DANDA]);
}

/// On every layout the two keys that alter what stands before them, `m` and `{`,
/// are left for the rewrites.
pub proof fn the_composition_keys_stay_loose()
    ensures
        byte_text(PREETI@, 0x6D) == seq!['m'] && byte_text(PREETI@, 0x7B) == seq!['{'],
        byte_text(FONTASY_HIMALI@, 0x6D) == seq!['m'] && byte_text(FONTASY_HIMALI@, 0x7B) == seq![
            '{',
        ],
        byte_text(KANTIPUR@, 0x6D) == seq!['m'] && byte_text(KANTIPUR@, 0x7B) == seq!['{'],
        byte_text(PCS_NEPALI@, 0x6D) == seq!['m'] && byte_text(PCS_NEPALI@, 0x7B) == seq!['{'],
        byte_text(SAGARMATHA@, 0x6D) == seq!['m'] && byte_text(SAGARMATHA@, 0x7B) == seq!['{'],
{
    assert(forall|i: int| !#[trigger] listed_at(PREETI@, 0x6D, i));
    assert(forall|i: int| !#[trigger] listed_at(PREETI@, 0x7B, i));
    assert(forall|i: int| !#[trigger] listed_at(FONTASY_HIMALI@, 0x6D, i));
    assert(forall|i: int| !#[trigger] listed_at(FONTASY_HIMALI@, 0x7B, i));
    assert(forall|i: int| !#[trigger] listed_at(KANTIPUR@, 0x6D, i));
    assert(forall|i: int| !#[trigger] listed_at(KANTIPUR@, 0x7B, i));
}

/// Himali types its digits on the number row.
pub proof fn himali_types_digits_on_the_number_row(i: int)
    requires
        0 <= i < 10,
    ensures
        byte_text(FONTASY_HIMALI@, (0x30 + i) as u8) == seq![(0x966 + i) as char],
{
    reveal_strlit("०");
    reveal_strlit("१");
    reveal_strlit("२");
    reveal_strlit("३");
    reveal_strlit("४");
    reveal_strlit("५");
    reveal_strlit("६");
    reveal_strlit("७");
    reveal_strlit("८");
    reveal_strlit("९");
    assert(forall|k: int| #[trigger]
        listed_at(FONTASY_HIMALI@, (0x30 + i) as u8, k) ==> k == 15 + i);
    lemma_only_entry(FONTASY_HIMALI@, (0x30 + i) as u8, 15 + i);
    assert(FONTASY_HIMALI@[15 + i].0 == 0x30 + i);
    assert(FONTASY_HIMALI@[15 + i].1@ == seq![(0x966 + i) as char]);
}

/// Preeti types its digits on the shifted number row.
pub proof fn preeti_types_digits_on_the_shifted_row()
    ensures
        byte_text(PREETI@, 0x29) == seq!['\u{0966}'],
        byte_text(PREETI@, 0x21) == seq!['\u{0967}'],
        byte_text(PREETI@, 0x40) == seq!['\u{0968}'],
        byte_text(PREETI@, 0x23) == seq!['\u{0969}'],
        byte_text(PREETI@, 0x24) == seq!['\u{096A}'],
        byte_text(PREETI@, 0x25) == seq!['\u{096B}'],
        byte_text(PREETI@, 0x5E) == seq!['\u{096C}'],
        byte_text(PREETI@, 0x26) == seq!['\u{096D}'],
        byte_text(PREETI@, 0x2A) == seq!['\u{096E}'],
        byte_text(PREETI@, 0x28) == seq!['\u{096F}'],
{
    reveal_strlit("०");
    reveal_strlit("१");
    reveal_strlit("२");
    reveal_strlit("३");
    reveal_strlit("४");
    reveal_strlit("५");
    reveal_strlit("६");
    reveal_strlit("७");
    reveal_strlit("८");
    reveal_strlit("९");
    assert(forall|k: int| #[trigger] listed_at(PREETI@, 0x29, k) ==> k == 8);
    lemma_only_entry(PREETI@, 0x29, 8);
    assert(forall|k: int| #[trigger] listed_at(PREETI@, 0x21, k) ==> k == 0);
    lemma_only_entry(PREETI@, 0x21, 0);
    assert(forall|k: int| #[trigger] listed_at(PREETI@, 0x40, k) ==> k == 31);
    lemma_only_entry(PREETI@, 0x40, 31);
    assert(forall|k: int| #[trigger] listed_at(PREETI@, 0x23, k) ==> k == 2);
    lemma_only_entry(PREETI@, 0x23, 2);
    assert(forall|k: int| #[trigger] listed_at(PREETI@, 0x24, k) ==> k == 3);
    lemma_only_entry(PREETI@, 0x24, 3);
    assert(forall|k: int| #[trigger] listed_at(PREETI@, 0x25, k) ==> k == 4);
    lemma_only_entry(PREETI@, 0x25, 4);
    assert(forall|k: int| #[trigger] listed_at(PREETI@, 0x5E, k) ==> k == 61);
    lemma_only_entry(PREETI@, 0x5E, 61);
    assert(forall|k: int| #[trigger] listed_at(PREETI@, 0x26, k) ==> k == 5);
    lemma_only_entry(PREETI@, 0x26, 5);
    assert(forall|k: int| #[trigger] listed_at(PREETI@, 0x2A, k) ==> k == 9);
    lemma_only_entry(PREETI@, 0x2A, 9);
    assert(forall|k: int| #[trigger] listed_at(PREETI@, 0x28, k) ==> k == 7);
    lemma_only_entry(PREETI@, 0x28, 7);
    assert("०"@ == seq!['\u{0966}']);
    assert("१"@ == seq!['\u{0967}']);
    assert("२"@ == seq!['\u{0968}']);
    assert("३"@ == seq!['\u{0969}']);
    assert("४"@ == seq!['\u{096A}']);
    assert("५"@ == seq!['\u{096B}']);
    assert("६"@ == seq!['\u{096C}']);
    assert("७"@ == seq!['\u{096D}']);
    assert("८"@ == seq!['\u{096E}']);
    assert("९"@ == seq!['\u{096F}']);
}

} // verus!
