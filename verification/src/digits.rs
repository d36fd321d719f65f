//! Latin digit slots that hold Devanagari digits.

use vstd::prelude::*;
use std::collections::HashMap;
use crate::glyphs::texts_view;

verus! {

broadcast use vstd::std_specs::hash::group_hash_axioms;

/// The box around a glyph's outline, in font units.
#[derive(Clone, Copy, Debug)]
pub struct Rect {
    pub x_min: i16,
    pub y_min: i16,
    pub x_max: i16,
    pub y_max: i16,
}

/// Outline metrics used to tell whether two glyph slots hold the same drawing:
/// the horizontal advance and the bounding box.
pub type GlyphMetrics = (u16, Rect);

/// A glyph and its metrics, where the font states them.
#[derive(Clone, Copy, Debug)]
pub struct DigitGlyph {
    pub gid: u16,
    pub metrics: Option<GlyphMetrics>,
}

/// The two glyphs a font has for one digit.
#[derive(Clone, Copy, Debug)]
pub struct DigitSlots {
    pub latin: Option<DigitGlyph>,
    pub devanagari: Option<DigitGlyph>,
}

/// How many of the ten digit slots must match before the Latin row is judged a
/// disguise. A font could coincidentally match one or two; matching most of the
/// row only happens when the slots really do hold the same drawings.
pub const DISGUISED_DIGIT_QUORUM: usize = 7;

/// The Latin digits, by value.
pub const LATIN_DIGITS: [char; 10] = ['0', '1', '2', '3', '4', '5', '6', '7', '8', '9'];

/// The Devanagari digits, by value.
pub const DEVANAGARI_DIGITS: [char; 10] = [
    '\u{0966}',
    '\u{0967}',
    '\u{0968}',
    '\u{0969}',
    '\u{096A}',
    '\u{096B}',
    '\u{096C}',
    '\u{096D}',
    '\u{096E}',
    '\u{096F}',
];

/// `a` and `b` differ by at most a fiftieth of an em.
pub open spec fn close(a: int, b: int, units_per_em: u16) -> bool {
    &&& 50 * (a - b) <= units_per_em
    &&& 50 * (b - a) <= units_per_em
}

/// Two glyphs advance the same, are as wide as each other, and stand at the
/// same height, all within a fiftieth of an em.
pub open spec fn same_drawing(left: GlyphMetrics, right: GlyphMetrics, units_per_em: u16) -> bool {
    &&& close(left.0 as int, right.0 as int, units_per_em)
    &&& close(left.1.x_max - left.1.x_min, right.1.x_max - right.1.x_min, units_per_em)
    &&& close(left.1.y_min as int, right.1.y_min as int, units_per_em)
    &&& close(left.1.y_max as int, right.1.y_max as int, units_per_em)
}

/// The Latin slot of a digit is another slot than the Devanagari one, and holds
/// the same drawing.
pub open spec fn disguised(slots: DigitSlots, units_per_em: u16) -> bool {
    match (slots.latin, slots.devanagari) {
        (Some(latin), Some(devanagari)) => {
            &&& latin.gid != devanagari.gid
            &&& latin.metrics is Some
            &&& devanagari.metrics is Some
            &&& same_drawing(latin.metrics->0, devanagari.metrics->0, units_per_em)
        },
        _ => false,
    }
}

/// The disguised slots among the first `n` digits, each with the digit that it
/// really holds.
pub open spec fn disguises(digits: Seq<DigitSlots>, units_per_em: u16, n: int) -> Seq<(u16, char)>
    decreases n,
{
    if n <= 0 {
        Seq::empty()
    } else {
        let before = disguises(digits, units_per_em, n - 1);
        if disguised(digits[n - 1], units_per_em) {
            before.push((digits[n - 1].latin->0.gid, DEVANAGARI_DIGITS[n - 1]))
        } else {
            before
        }
    }
}

/// `texts` with each of `slots` repointed, in order, at a single character.
pub open spec fn repointed(texts: Map<u16, Seq<char>>, slots: Seq<(u16, char)>) -> Map<
    u16,
    Seq<char>,
>
    decreases slots.len(),
{
    if slots.len() == 0 {
        texts
    } else {
        repointed(texts, slots.drop_last()).insert(slots.last().0, seq![slots.last().1])
    }
}

/// `texts` with the Latin digit row repointed at the Devanagari digits where
/// enough of it is disguised, and left alone where it is not.
pub open spec fn with_true_digits(
    texts: Map<u16, Seq<char>>,
    digits: Seq<DigitSlots>,
    units_per_em: u16,
) -> Map<u16, Seq<char>> {
    let slots = disguises(digits, units_per_em, 10);
    if units_per_em > 0 && slots.len() >= DISGUISED_DIGIT_QUORUM {
        repointed(texts, slots)
    } else {
        texts
    }
}

fn is_close(a: i32, b: i32, units_per_em: u16) -> (near: bool)
    requires
        -0x2_0000 <= a <= 0x2_0000,
        -0x2_0000 <= b <= 0x2_0000,
    ensures
        near == close(a as int, b as int, units_per_em),
{
    50 * (a - b) <= units_per_em as i32 && 50 * (b - a) <= units_per_em as i32
}

/// Whether two glyphs advance the same and draw the same shape, within a
/// fiftieth of an em. Fifty times a difference is held against the em, so whole
/// numbers decide.
///
/// Compares the size of the bounding box and its vertical placement, but not
/// its horizontal position: a disguised slot is routinely the same drawing
/// sitting on a different left side bearing, which shifts `x_min` and `x_max`
/// together while the shape is untouched. Vertical extent is the discriminating
/// axis anyway — Devanagari digits hang from a headline bar that Latin ones
/// have no equivalent of.
pub fn metrics_match(left: GlyphMetrics, right: GlyphMetrics, units_per_em: u16) -> (same: bool)
    ensures
        same == same_drawing(left, right, units_per_em),
{
    let left_width: i32 = left.1.x_max as i32 - left.1.x_min as i32;
    let right_width: i32 = right.1.x_max as i32 - right.1.x_min as i32;
    is_close(left.0 as i32, right.0 as i32, units_per_em)
        && is_close(left_width, right_width, units_per_em)
        && is_close(left.1.y_min as i32, right.1.y_min as i32, units_per_em)
        && is_close(left.1.y_max as i32, right.1.y_max as i32, units_per_em)
}

/// Repoint Latin digit slots that actually contain Devanagari digits.
///
/// Some Devanagari fonts fill their `zero`–`nine` slots with Devanagari
/// outlines, so a PDF that asks for the `two` glyph prints `२` while the cmap
/// still reports U+0032. Extraction that trusts the cmap emits `८2` for a page
/// that plainly reads `८२` — right value, wrong script.
///
/// A slot is a disguise when its advance and bounding box match its Devanagari
/// counterpart: a genuine Latin digit is far narrower than a Devanagari one and
/// lacks the headline bar, so the boxes disagree well beyond the tolerance.
/// The whole row has to agree before any of it is rewritten.
pub fn remap_disguised_latin_digits(
    units_per_em: u16,
    digits: &[DigitSlots; 10],
    resolved: &mut HashMap<u16, String>,
)
    ensures
        texts_view(final(resolved)@) == with_true_digits(
            texts_view(old(resolved)@),
            digits@,
            units_per_em,
        ),
{
    if units_per_em == 0 {
        return;
    }
    let mut candidates: Vec<(u16, char)> = Vec::new();
    let mut offset: usize = 0;
    while offset < 10
        invariant
            offset <= 10,
            candidates@ == disguises(digits@, units_per_em, offset as int),
        decreases 10 - offset,
    {
        let slots = digits[offset];
        if let (Some(latin), Some(devanagari)) = (slots.latin, slots.devanagari) {
            if latin.gid != devanagari.gid {
                if let (Some(latin_metrics), Some(devanagari_metrics)) = (
                    latin.metrics,
                    devanagari.metrics,
                ) {
                    if metrics_match(latin_metrics, devanagari_metrics, units_per_em) {
                        candidates.push((latin.gid, DEVANAGARI_DIGITS[offset]));
                    }
                }
            }
        }
        offset += 1;
    }
    if candidates.len() >= DISGUISED_DIGIT_QUORUM {
        let ghost texts = texts_view(resolved@);
        let mut i: usize = 0;
        while i < candidates.len()
            invariant
                i <= candidates.len(),
                texts_view(resolved@) == repointed(texts, candidates@.take(i as int)),
            decreases candidates.len() - i,
        {
            let (gid, devanagari) = candidates[i];
            let ghost before = resolved@;
            let mut text = String::new();
            text.push(devanagari);
            assert(text@ == seq![devanagari]);
            resolved.insert(gid, text);
            assert(texts_view(resolved@) == texts_view(before).insert(gid, seq![devanagari]));
            assert(candidates@.take(i + 1).drop_last() == candidates@.take(i as int));
            i += 1;
        }
        assert(candidates@.take(candidates@.len() as int) == candidates@);
    }
}

/// A few lookalikes do not make a disguise: short of the quorum no glyph is
/// touched.
pub proof fn row_short_of_quorum_is_untouched(
    texts: Map<u16, Seq<char>>,
    digits: Seq<DigitSlots>,
    units_per_em: u16,
)
    requires
        disguises(digits, units_per_em, 10).len() < DISGUISED_DIGIT_QUORUM,
    ensures
        with_true_digits(texts, digits, units_per_em) == texts,
{
}

/// A glyph that is no disguised Latin slot keeps its text, and stays unnamed if
/// it was.
pub proof fn other_glyphs_are_untouched(
    texts: Map<u16, Seq<char>>,
    digits: Seq<DigitSlots>,
    units_per_em: u16,
    gid: u16,
)
    requires
        forall|i: int|
            0 <= i < 10 && disguised(#[trigger] digits[i], units_per_em) ==> digits[i].latin->0.gid
                != gid,
    ensures
        with_true_digits(texts, digits, units_per_em).contains_key(gid) == texts.contains_key(gid),
        with_true_digits(texts, digits, units_per_em)[gid] == texts[gid],
{
    lemma_disguised_slots(digits, units_per_em, 10, gid);
    lemma_repointed_elsewhere(texts, disguises(digits, units_per_em, 10), gid);
}

/// Where enough of the row is disguised, a disguised slot is read as the digit
/// that it shows, unless a later digit shares the slot.
pub proof fn disguised_slot_is_repointed(
    texts: Map<u16, Seq<char>>,
    digits: Seq<DigitSlots>,
    units_per_em: u16,
    i: int,
)
    requires
        units_per_em > 0,
        disguises(digits, units_per_em, 10).len() >= DISGUISED_DIGIT_QUORUM,
        0 <= i < 10,
        disguised(digits[i], units_per_em),
        forall|j: int|
            i < j < 10 && disguised(#[trigger] digits[j], units_per_em) ==> digits[j].latin->0.gid
                != digits[i].latin->0.gid,
    ensures
        ({
            let gid = digits[i].latin->0.gid;
            let corrected = with_true_digits(texts, digits, units_per_em);
            &&& corrected.contains_key(gid)
            &&& corrected[gid] == seq![DEVANAGARI_DIGITS[i]]
        }),
{
    lemma_repointed_slot(texts, digits, units_per_em, 10, i);
}

proof fn lemma_repointed_slot(
    texts: Map<u16, Seq<char>>,
    digits: Seq<DigitSlots>,
    units_per_em: u16,
    n: int,
    i: int,
)
    requires
        0 <= i < n <= 10,
        disguised(digits[i], units_per_em),
        forall|j: int|
            i < j < n && disguised(#[trigger] digits[j], units_per_em) ==> digits[j].latin->0.gid
                != digits[i].latin->0.gid,
    ensures
        ({
            let gid = digits[i].latin->0.gid;
            let corrected = repointed(texts, disguises(digits, units_per_em, n));
            &&& corrected.contains_key(gid)
            &&& corrected[gid] == seq![DEVANAGARI_DIGITS[i]]
        }),
    decreases n,
{
    let before = disguises(digits, units_per_em, n - 1);
    if i < n - 1 {
        lemma_repointed_slot(texts, digits, units_per_em, n - 1, i);
    }
    if disguised(digits[n - 1], units_per_em) {
        assert(disguises(digits, units_per_em, n).drop_last() == before);
    }
}

proof fn lemma_disguised_slots(digits: Seq<DigitSlots>, units_per_em: u16, n: int, gid: u16)
    requires
        0 <= n <= 10,
        forall|i: int|
            0 <= i < 10 && disguised(#[trigger] digits[i], units_per_em) ==> digits[i].latin->0.gid
                != gid,
    ensures
        forall|k: int|
            0 <= k < disguises(digits, units_per_em, n).len() ==> (#[trigger] disguises(
                digits,
                units_per_em,
                n,
            )[k]).0 != gid,
    decreases n,
{
    if n > 0 {
        lemma_disguised_slots(digits, units_per_em, n - 1, gid);
        let before = disguises(digits, units_per_em, n - 1);
        let all = disguises(digits, units_per_em, n);
        assert forall|k: int| 0 <= k < all.len() implies (#[trigger] all[k]).0 != gid by {
            if k < before.len() {
                assert(all[k] == before[k]);
            } else {
                assert(disguised(digits[n - 1], units_per_em));
            }
        }
    }
}

proof fn lemma_repointed_elsewhere(
    texts: Map<u16, Seq<char>>,
    slots: Seq<(u16, char)>,
    gid: u16,
)
    requires
        forall|k: int| 0 <= k < slots.len() ==> (#[trigger] slots[k]).0 != gid,
    ensures
        repointed(texts, slots).contains_key(gid) == texts.contains_key(gid),
        repointed(texts, slots)[gid] == texts[gid],
    decreases slots.len(),
{
    if slots.len() > 0 {
        assert forall|k: int| 0 <= k < slots.drop_last().len() implies (
        #[trigger] slots.drop_last()[k]).0 != gid by {
            assert(slots[k].0 != gid);
        }
        lemma_repointed_elsewhere(texts, slots.drop_last(), gid);
        assert(slots[slots.len() - 1].0 != gid);
    }
}

/// A different side bearing does not matter: a drawing moved sideways is the
/// same drawing.
pub proof fn side_bearing_is_ignored(
    left: GlyphMetrics,
    right: GlyphMetrics,
    moved: Rect,
    units_per_em: u16,
)
    requires
        moved.x_max - moved.x_min == left.1.x_max - left.1.x_min,
        moved.y_min == left.1.y_min,
        moved.y_max == left.1.y_max,
    ensures
        same_drawing((left.0, moved), right, units_per_em) == same_drawing(
            left,
            right,
            units_per_em,
        ),
{
}

/// Which of two glyphs is held against the other does not matter.
pub proof fn matching_is_symmetric(left: GlyphMetrics, right: GlyphMetrics, units_per_em: u16)
    ensures
        same_drawing(left, right, units_per_em) == same_drawing(right, left, units_per_em),
{
}

/// The ten digits of either script, by number.
pub proof fn digits_in_order(i: int)
    requires
        0 <= i < 10,
    ensures
        LATIN_DIGITS[i] as u32 == 0x30 + i,
        DEVANAGARI_DIGITS[i] as u32 == 0x966 + i,
{
}

/// Two drawings are the same where neither the advances, nor the widths of the
/// boxes, nor their lower edges, nor their upper edges differ by more than a
/// fiftieth of an em. Where the boxes stand sideways does not matter.
pub proof fn the_same_drawing(left: GlyphMetrics, right: GlyphMetrics, units_per_em: u16)
    ensures
        same_drawing(left, right, units_per_em) <==> {
            let wider = (left.1.x_max - left.1.x_min) - (right.1.x_max - right.1.x_min);
            &&& -units_per_em <= 50 * (left.0 - right.0) <= units_per_em
            &&& -units_per_em <= 50 * wider <= units_per_em
            &&& -units_per_em <= 50 * (left.1.y_min - right.1.y_min) <= units_per_em
            &&& -units_per_em <= 50 * (left.1.y_max - right.1.y_max) <= units_per_em
        },
{
}

/// A slot is a disguise where there are two glyphs, both are measured, and they
/// are the same drawing.
pub proof fn what_a_disguise_is(slots: DigitSlots, units_per_em: u16)
    ensures
        slots.latin is None || slots.devanagari is None ==> !disguised(slots, units_per_em),
        slots.latin matches Some(latin) ==> (slots.devanagari matches Some(devanagari) ==> {
            &&& latin.gid == devanagari.gid ==> !disguised(slots, units_per_em)
            &&& latin.metrics is None || devanagari.metrics is None ==> !disguised(
                slots,
                units_per_em,
            )
            &&& latin.gid != devanagari.gid && latin.metrics is Some && devanagari.metrics is Some
                ==> (disguised(slots, units_per_em) <==> same_drawing(
                latin.metrics->0,
                devanagari.metrics->0,
                units_per_em,
            ))
        }),
{
}

proof fn lemma_disguises_counted(
    digits: Seq<DigitSlots>,
    units_per_em: u16,
    n: int,
    slots: Set<int>,
)
    requires
        0 <= n <= 10,
        slots.finite(),
    ensures
        (forall|k: int| #[trigger]
            slots.contains(k) ==> 0 <= k < n && disguised(digits[k], units_per_em))
            ==> slots.len() <= disguises(digits, units_per_em, n).len(),
        (forall|k: int| 0 <= k < n && disguised(#[trigger] digits[k], units_per_em)
            ==> slots.contains(k)) ==> disguises(digits, units_per_em, n).len() <= slots.len(),
    decreases n,
{
    let fewer = slots.remove(n - 1);
    if n > 0 {
        lemma_disguises_counted(digits, units_per_em, n - 1, fewer);
        if forall|k: int| #[trigger]
            slots.contains(k) ==> 0 <= k < n && disguised(digits[k], units_per_em) {
            assert forall|k: int| #[trigger] fewer.contains(k) implies 0 <= k < n - 1 && disguised(
                digits[k],
                units_per_em,
            ) by {
                assert(slots.contains(k));
            }
            if slots.contains(n - 1) {
                assert(disguised(digits[n - 1], units_per_em));
            }
        }
        if forall|k: int|
            0 <= k < n && disguised(#[trigger] digits[k], units_per_em) ==> slots.contains(k) {
            assert forall|k: int|
                0 <= k < n - 1 && disguised(
                    #[trigger] digits[k],
                    units_per_em,
                ) implies fewer.contains(k) by {
                assert(slots.contains(k));
            }
            if disguised(digits[n - 1], units_per_em) {
                assert(slots.contains(n - 1));
            }
        }
    } else {
        if forall|k: int| #[trigger]
            slots.contains(k) ==> 0 <= k < n && disguised(digits[k], units_per_em) {
            assert(slots =~= Set::empty());
        }
    }
}

/// Where seven or more of the ten digits are disguised, every disguised Latin
/// slot is read as the Devanagari digit of its value, whichever that is.
pub proof fn seven_disguises_are_seen_through(
    texts: Map<u16, Seq<char>>,
    digits: Seq<DigitSlots>,
    units_per_em: u16,
    slots: Set<int>,
    i: int,
)
    requires
        units_per_em > 0,
        slots.finite(),
        slots.len() >= 7,
        forall|k: int| #[trigger]
            slots.contains(k) ==> 0 <= k < 10 && disguised(digits[k], units_per_em),
        0 <= i < 10,
        disguised(digits[i], units_per_em),
        forall|j: int|
            i < j < 10 && disguised(#[trigger] digits[j], units_per_em) ==> digits[j].latin->0.gid
                != digits[i].latin->0.gid,
    ensures
        ({
            let gid = digits[i].latin->0.gid;
            let corrected = with_true_digits(texts, digits, units_per_em);
            &&& corrected.contains_key(gid)
            &&& corrected[gid] == seq![(0x966 + i) as char]
        }),
{
    lemma_disguises_counted(digits, units_per_em, 10, slots);
    lemma_repointed_slot(texts, digits, units_per_em, 10, i);
    assert(DEVANAGARI_DIGITS[i] == (0x966 + i) as char);
}

/// Where six or fewer of the ten digits are disguised, nothing is changed, nor
/// where the em has no size.
pub proof fn six_disguises_are_left_alone(
    texts: Map<u16, Seq<char>>,
    digits: Seq<DigitSlots>,
    units_per_em: u16,
    slots: Set<int>,
)
    requires
        slots.finite(),
        forall|k: int|
            0 <= k < 10 && disguised(#[trigger] digits[k], units_per_em) ==> slots.contains(k),
        slots.len() <= 6 || units_per_em == 0,
    ensures
        with_true_digits(texts, digits, units_per_em) == texts,
{
    lemma_disguises_counted(digits, units_per_em, 10, slots);
}

} // verus!
