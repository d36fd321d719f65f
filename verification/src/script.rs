//! The Devanagari characters and character classes the rest of the crate
//! pivots on.

use vstd::prelude::*;

verus! {

/// The sign that strips a consonant of its vowel and joins it to the next one.
pub const VIRAMA: char = '\u{094D}';

/// The letter `र`; followed by a virama it is drawn as a reph.
pub const RA: char = '\u{0930}';

/// The vowel sign `ि`, drawn to the left of the cluster it follows.
pub const I_MATRA: char = '\u{093F}';

/// The sentence-ending mark `।`.
pub const DANDA: char = '\u{0964}';

/// The consonants of the Devanagari block.
pub open spec fn consonant(c: char) -> bool {
    ||| '\u{0915}' <= c <= '\u{0939}'
    ||| '\u{0958}' <= c <= '\u{095F}'
    ||| c == '\u{0979}'
    ||| c == '\u{097A}'
}

/// The marks that attach to the letter before them.
pub open spec fn combining_mark(c: char) -> bool {
    ||| '\u{0900}' <= c <= '\u{0903}'
    ||| '\u{093A}' <= c <= '\u{094F}'
    ||| '\u{0951}' <= c <= '\u{0957}'
}

/// The Devanagari block and its extension.
pub open spec fn devanagari(c: char) -> bool {
    ||| '\u{0900}' <= c <= '\u{097F}'
    ||| '\u{A8E0}' <= c <= '\u{A8FF}'
}

/// The Latin and the Devanagari decimal digits.
pub open spec fn decimal_digit(c: char) -> bool {
    ||| '0' <= c <= '9'
    ||| '\u{0966}' <= c <= '\u{096F}'
}

/// True when `c` is a Devanagari consonant.
pub fn is_consonant(c: char) -> (b: bool)
    ensures
        b == consonant(c),
{
    matches!(c, '\u{0915}'..='\u{0939}' | '\u{0958}'..='\u{095F}' | '\u{0979}' | '\u{097A}')
}

/// True when `c` is a Devanagari sign that attaches to the letter before it.
pub fn is_combining_mark(c: char) -> (b: bool)
    ensures
        b == combining_mark(c),
{
    matches!(c, '\u{0900}'..='\u{0903}' | '\u{093A}'..='\u{094F}' | '\u{0951}'..='\u{0957}')
}

/// True when `c` is a Devanagari letter, matra, or sign.
pub fn is_devanagari_char(c: char) -> (b: bool)
    ensures
        b == devanagari(c),
{
    matches!(c, '\u{0900}'..='\u{097F}' | '\u{A8E0}'..='\u{A8FF}')
}

/// True when `c` is a decimal digit, Latin or Devanagari.
pub fn is_decimal_digit(c: char) -> (b: bool)
    ensures
        b == decimal_digit(c),
{
    matches!(c, '0'..='9' | '\u{0966}'..='\u{096F}')
}

/// The characters with the Unicode property White_Space.
pub open spec fn white_space(c: char) -> bool {
    ||| '\u{0009}' <= c <= '\u{000D}'
    ||| c == '\u{0020}'
    ||| c == '\u{0085}'
    ||| c == '\u{00A0}'
    ||| c == '\u{1680}'
    ||| '\u{2000}' <= c <= '\u{200A}'
    ||| c == '\u{2028}'
    ||| c == '\u{2029}'
    ||| c == '\u{202F}'
    ||| c == '\u{205F}'
    ||| c == '\u{3000}'
}

/// True when `c` separates words.
pub fn is_white_space(c: char) -> (b: bool)
    ensures
        b == white_space(c),
{
    matches!(
        c,
        '\u{0009}'..='\u{000D}' | '\u{0020}' | '\u{0085}' | '\u{00A0}' | '\u{1680}' | '\u{2000}'
            ..='\u{200A}' | '\u{2028}' | '\u{2029}' | '\u{202F}' | '\u{205F}' | '\u{3000}'
    )
}

/// The characters the rest pivots on, by their numbers, and the classes they are
/// of: the virama and the i-matra are marks, and `र` is a consonant.
pub proof fn pivotal_characters()
    ensures
        RA as u32 == 0x930,
        VIRAMA as u32 == 0x94D,
        I_MATRA as u32 == 0x93F,
        DANDA as u32 == 0x964,
        consonant(RA) && !combining_mark(RA) && devanagari(RA),
        combining_mark(VIRAMA) && !consonant(VIRAMA) && devanagari(VIRAMA),
        combining_mark(I_MATRA) && !consonant(I_MATRA) && devanagari(I_MATRA),
        devanagari(DANDA) && !combining_mark(DANDA) && !decimal_digit(DANDA),
        !decimal_digit('.'),
{
}

/// The consonants run from ka to ha and from qa to yya, with zha and the heavy
/// ya; none of them is a mark or a digit.
pub proof fn consonants_by_number(c: char)
    ensures
        consonant(c) <==> {
            let n = c as u32;
            (0x915 <= n && n < 0x93A) || (0x957 < n && n < 0x960) || (0x978 < n && n < 0x97B)
        },
        consonant(c) ==> !combining_mark(c) && !decimal_digit(c) && devanagari(c),
{
}

/// The marks are the signs at the head of the block, the matras with the virama,
/// and the accents; all of them are Devanagari, and none is a letter.
pub proof fn marks_by_number(c: char)
    ensures
        combining_mark(c) <==> {
            let n = c as u32;
            (0x8FF < n && n < 0x904) || (0x939 < n && n < 0x950) || (0x950 < n && n < 0x958)
        },
        combining_mark(c) ==> devanagari(c) && !consonant(c) && !decimal_digit(c),
{
}

/// Devanagari is a block of 128 characters and an extension of 32.
pub proof fn devanagari_by_number(c: char)
    ensures
        devanagari(c) <==> (c as u32) / 0x80 == 0x12 || (c as u32) / 0x20 == 0x547,
{
}

/// There are ten digits of either script, in a row each.
pub proof fn digits_by_number(c: char)
    ensures
        decimal_digit(c) <==> {
            let n = c as u32;
            (0x2F < n && n < 0x3A) || (0x965 < n && n < 0x970)
        },
{
}

/// White space by number; no Devanagari character is any.
pub proof fn white_space_by_number(c: char)
    ensures
        white_space(c) <==> {
            let n = c as u32;
            ||| 9 <= n < 14
            ||| n == 0x20
            ||| n == 0x85
            ||| n == 0xA0
            ||| n == 0x1680
            ||| 0x2000 <= n < 0x200B
            ||| n == 0x2028
            ||| n == 0x2029
            ||| n == 0x202F
            ||| n == 0x205F
            ||| n == 0x3000
        },
        white_space(c) ==> !devanagari(c) && !decimal_digit(c),
{
}

} // verus!
