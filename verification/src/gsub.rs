//! Glyph substitutions, run backwards.
//!
//! A font's GSUB table says which glyph replaces which. Read the other way it
//! says what a glyph stands for, which is the only way to name the conjunct
//! glyphs that no codepoint reaches.

use vstd::prelude::*;
use std::collections::HashMap;

verus! {

broadcast use vstd::std_specs::hash::group_hash_axioms;

/// A run of covered glyphs, `start` to `end` inclusive, whose coverage indices
/// count up from `value`.
#[derive(Clone, Copy, Debug)]
pub struct RangeRecord {
    pub start: u16,
    pub end: u16,
    pub value: u16,
}

/// The glyphs a substitution applies to, in the order of their coverage index.
#[derive(Debug)]
pub enum Coverage {
    Format1 { glyphs: Vec<u16> },
    Format2 { records: Vec<RangeRecord> },
}

/// A ligature glyph and its components after the first, which is the covered
/// glyph.
#[derive(Debug)]
pub struct Ligature {
    pub glyph: u16,
    pub components: Vec<u16>,
}

/// The ligatures that begin with one covered glyph; `None` where the font holds
/// one that cannot be read.
pub type LigatureSet = Vec<Option<Ligature>>;

/// One substitution subtable, by what can be reversed in it.
#[derive(Debug)]
pub enum Substitution {
    /// Several glyphs become one. The sets go by coverage index.
    Ligature { coverage: Coverage, ligature_sets: Vec<Option<LigatureSet>> },
    /// Every covered glyph is shifted by `delta`.
    SingleDelta { coverage: Coverage, delta: i16 },
    /// The covered glyphs become `substitutes`, by coverage index.
    SingleList { coverage: Coverage, substitutes: Vec<u16> },
    /// A substitution that does not run backwards.
    Other,
}

/// What each ligature glyph is made of, and which glyph each single
/// substitute was derived from.
pub type GsubReversals = (HashMap<u16, Vec<u16>>, HashMap<u16, u16>);

/// The mathematical form of a [`Coverage`].
pub enum CoverageView {
    Format1 { glyphs: Seq<u16> },
    Format2 { records: Seq<RangeRecord> },
}

/// The mathematical form of a [`Ligature`].
pub struct LigatureView {
    pub glyph: u16,
    pub components: Seq<u16>,
}

/// The mathematical form of a [`LigatureSet`].
pub type LigatureSetView = Seq<Option<LigatureView>>;

/// The mathematical form of a [`Substitution`].
pub enum SubstitutionView {
    Ligature { coverage: CoverageView, ligature_sets: Seq<Option<LigatureSetView>> },
    SingleDelta { coverage: CoverageView, delta: i16 },
    SingleList { coverage: CoverageView, substitutes: Seq<u16> },
    Other,
}

impl View for Coverage {
    type V = CoverageView;

    open spec fn view(&self) -> CoverageView {
        match self {
            Coverage::Format1 { glyphs } => CoverageView::Format1 { glyphs: glyphs@ },
            Coverage::Format2 { records } => CoverageView::Format2 { records: records@ },
        }
    }
}

impl View for Ligature {
    type V = LigatureView;

    open spec fn view(&self) -> LigatureView {
        LigatureView { glyph: self.glyph, components: self.components@ }
    }
}

/// The mathematical form of one ligature that may be unreadable.
pub open spec fn ligature_view(ligature: Option<Ligature>) -> Option<LigatureView> {
    match ligature {
        Some(ligature) => Some(ligature@),
        None => None,
    }
}

/// The mathematical form of one ligature set that may be unreadable.
pub open spec fn ligature_set_view(set: Option<LigatureSet>) -> Option<LigatureSetView> {
    match set {
        Some(set) => Some(set@.map_values(|ligature: Option<Ligature>| ligature_view(ligature))),
        None => None,
    }
}

impl View for Substitution {
    type V = SubstitutionView;

    open spec fn view(&self) -> SubstitutionView {
        match self {
            Substitution::Ligature { coverage, ligature_sets } => SubstitutionView::Ligature {
                coverage: coverage@,
                ligature_sets: ligature_sets@.map_values(
                    |set: Option<LigatureSet>| ligature_set_view(set),
                ),
            },
            Substitution::SingleDelta { coverage, delta } => SubstitutionView::SingleDelta {
                coverage: coverage@,
                delta: *delta,
            },
            Substitution::SingleList { coverage, substitutes } => SubstitutionView::SingleList {
                coverage: coverage@,
                substitutes: substitutes@,
            },
            Substitution::Other => SubstitutionView::Other,
        }
    }
}

/// The mathematical form of one lookup that may be unreadable.
pub open spec fn lookup_view(lookup: Option<Vec<Substitution>>) -> Option<Seq<SubstitutionView>> {
    match lookup {
        Some(subtables) => Some(subtables@.map_values(|subtable: Substitution| subtable@)),
        None => None,
    }
}

/// The mathematical form of a lookup list.
pub open spec fn lookups_view(lookups: Seq<Option<Vec<Substitution>>>) -> Seq<
    Option<Seq<SubstitutionView>>,
> {
    lookups.map_values(|lookup: Option<Vec<Substitution>>| lookup_view(lookup))
}

/// The `(coverage index, glyph)` pairs of one range: glyphs count up from
/// `start`, indices from `value` until they reach the largest there is.
pub open spec fn record_pairs(record: RangeRecord) -> Seq<(u16, u16)> {
    let count: nat = if record.start <= record.end {
        (record.end - record.start + 1) as nat
    } else {
        0
    };
    Seq::new(
        count,
        |k: int|
            (
                if record.value + k <= u16::MAX {
                    (record.value + k) as u16
                } else {
                    u16::MAX
                },
                (record.start + k) as u16,
            ),
    )
}

/// The `(coverage index, glyph)` pairs of a list of ranges, one after another.
pub open spec fn records_pairs(records: Seq<RangeRecord>) -> Seq<(u16, u16)>
    decreases records.len(),
{
    if records.len() == 0 {
        Seq::empty()
    } else {
        records_pairs(records.drop_last()) + record_pairs(records.last())
    }
}

/// The `(coverage index, glyph)` pairs that a coverage table lists. Positions in
/// a plain list are coverage indices, which wrap at sixteen bits.
pub open spec fn coverage_pairs(coverage: CoverageView) -> Seq<(u16, u16)> {
    match coverage {
        CoverageView::Format1 { glyphs } => Seq::new(
            glyphs.len(),
            |i: int| ((i % 0x1_0000) as u16, glyphs[i]),
        ),
        CoverageView::Format2 { records } => records_pairs(records),
    }
}

/// The `(coverage index, glyph id)` pairs a coverage table lists.
pub fn coverage_glyphs(coverage: &Coverage) -> (pairs: Vec<(u16, u16)>)
    ensures
        pairs@ == coverage_pairs(coverage@),
{
    let mut pairs: Vec<(u16, u16)> = Vec::new();
    match coverage {
        Coverage::Format1 { glyphs } => {
            let mut i: usize = 0;
            while i < glyphs.len()
                invariant
                    i <= glyphs.len(),
                    pairs@ == Seq::new(i as nat, |k: int| ((k % 0x1_0000) as u16, glyphs@[k])),
                decreases glyphs.len() - i,
            {
                assert(i as u16 == (i % 0x1_0000) as u16) by (bit_vector);
                pairs.push((#[verifier::truncate] (i as u16), glyphs[i]));
                i += 1;
            }
        },
        Coverage::Format2 { records } => {
            let mut i: usize = 0;
            while i < records.len()
                invariant
                    i <= records.len(),
                    pairs@ == records_pairs(records@.take(i as int)),
                decreases records.len() - i,
            {
                let record = records[i];
                let ghost before = pairs@;
                let mut glyph: u32 = record.start as u32;
                let mut offset: u16 = 0;
                assert(before + record_pairs(record).take(0) == before);
                while glyph <= record.end as u32
                    invariant
                        record.start <= glyph,
                        record.start <= record.end ==> glyph <= record.end + 1,
                        record.start > record.end ==> glyph == record.start,
                        glyph <= record.end ==> offset == glyph - record.start,
                        pairs@ == before + record_pairs(record).take(glyph - record.start),
                    decreases record.end + 1 - glyph,
                {
                    let ghost k = glyph - record.start;
                    let pair: (u16, u16) = (record.value.saturating_add(offset), glyph as u16);
                    pairs.push(pair);
                    assert(pair == record_pairs(record)[k]);
                    assert(record_pairs(record).take(k + 1) == record_pairs(record).take(k).push(
                        pair,
                    ));
                    glyph += 1;
                    if glyph <= record.end as u32 {
                        offset += 1;
                    }
                }
                assert(record_pairs(record).take(glyph - record.start) == record_pairs(record));
                assert(records@.take(i + 1).drop_last() == records@.take(i as int));
                i += 1;
            }
            assert(records@.take(records@.len() as int) == records@);
        },
    }
    pairs
}

/// `rules` entered into `map` in order, where the first to claim a key keeps it.
pub open spec fn with_rules<V>(map: Map<u16, V>, rules: Seq<(u16, V)>) -> Map<u16, V>
    decreases rules.len(),
{
    if rules.len() == 0 {
        map
    } else {
        let before = with_rules(map, rules.drop_last());
        let (key, value) = rules.last();
        if before.contains_key(key) {
            before
        } else {
            before.insert(key, value)
        }
    }
}

/// The ligatures of one set, each with all its components.
pub open spec fn set_rules(first: u16, set: LigatureSetView) -> Seq<(u16, Seq<u16>)>
    decreases set.len(),
{
    if set.len() == 0 {
        Seq::empty()
    } else {
        let before = set_rules(first, set.drop_last());
        match set.last() {
            Some(ligature) => before.push((ligature.glyph, seq![first] + ligature.components)),
            None => before,
        }
    }
}

/// The ligatures of the sets that the covered glyphs select.
pub open spec fn covered_ligatures(
    pairs: Seq<(u16, u16)>,
    sets: Seq<Option<LigatureSetView>>,
) -> Seq<(u16, Seq<u16>)>
    decreases pairs.len(),
{
    if pairs.len() == 0 {
        Seq::empty()
    } else {
        let before = covered_ligatures(pairs.drop_last(), sets);
        let (index, first) = pairs.last();
        if index < sets.len() && sets[index as int] is Some {
            before + set_rules(first, sets[index as int]->0)
        } else {
            before
        }
    }
}

/// `glyph` shifted by `delta`, modulo the number of glyph ids.
pub open spec fn shifted(glyph: u16, delta: i16) -> u16 {
    ((glyph + delta) % 0x1_0000) as u16
}

/// What the covered glyphs become when each is shifted, with the glyph behind it.
pub open spec fn shifted_rules(pairs: Seq<(u16, u16)>, delta: i16) -> Seq<(u16, u16)> {
    pairs.map_values(|pair: (u16, u16)| (shifted(pair.1, delta), pair.1))
}

/// What the covered glyphs become by list, with the glyph behind it; a glyph
/// whose coverage index is past the list becomes nothing.
pub open spec fn listed_rules(pairs: Seq<(u16, u16)>, substitutes: Seq<u16>) -> Seq<(u16, u16)>
    decreases pairs.len(),
{
    if pairs.len() == 0 {
        Seq::empty()
    } else {
        let before = listed_rules(pairs.drop_last(), substitutes);
        let (index, glyph) = pairs.last();
        if index < substitutes.len() {
            before.push((substitutes[index as int], glyph))
        } else {
            before
        }
    }
}

/// The ligatures that one subtable makes, each with its components.
pub open spec fn ligature_rules(subtable: SubstitutionView) -> Seq<(u16, Seq<u16>)> {
    match subtable {
        SubstitutionView::Ligature { coverage, ligature_sets } => covered_ligatures(
            coverage_pairs(coverage),
            ligature_sets,
        ),
        _ => Seq::empty(),
    }
}

/// The single substitutes that one subtable makes, each with its source.
pub open spec fn single_rules(subtable: SubstitutionView) -> Seq<(u16, u16)> {
    match subtable {
        SubstitutionView::SingleDelta { coverage, delta } => shifted_rules(
            coverage_pairs(coverage),
            delta,
        ),
        SubstitutionView::SingleList { coverage, substitutes } => listed_rules(
            coverage_pairs(coverage),
            substitutes,
        ),
        _ => Seq::empty(),
    }
}

/// The ligatures of a list of subtables, in order.
pub open spec fn lookup_ligatures(subtables: Seq<SubstitutionView>) -> Seq<(u16, Seq<u16>)>
    decreases subtables.len(),
{
    if subtables.len() == 0 {
        Seq::empty()
    } else {
        lookup_ligatures(subtables.drop_last()) + ligature_rules(subtables.last())
    }
}

/// The single substitutes of a list of subtables, in order.
pub open spec fn lookup_singles(subtables: Seq<SubstitutionView>) -> Seq<(u16, u16)>
    decreases subtables.len(),
{
    if subtables.len() == 0 {
        Seq::empty()
    } else {
        lookup_singles(subtables.drop_last()) + single_rules(subtables.last())
    }
}

/// The subtables of all the lookups that can be read, in order.
pub open spec fn all_subtables(lookups: Seq<Option<Seq<SubstitutionView>>>) -> Seq<SubstitutionView>
    decreases lookups.len(),
{
    if lookups.len() == 0 {
        Seq::empty()
    } else {
        let before = all_subtables(lookups.drop_last());
        match lookups.last() {
            Some(subtables) => before + subtables,
            None => before,
        }
    }
}

/// What each ligature glyph is made of: the first ligature to make it decides.
pub open spec fn reversed_ligatures(lookups: Seq<Option<Seq<SubstitutionView>>>) -> Map<
    u16,
    Seq<u16>,
> {
    with_rules(Map::empty(), lookup_ligatures(all_subtables(lookups)))
}

/// The glyph behind each single substitute: the first substitution to make it
/// decides.
pub open spec fn reversed_singles(lookups: Seq<Option<Seq<SubstitutionView>>>) -> Map<u16, u16> {
    with_rules(Map::empty(), lookup_singles(all_subtables(lookups)))
}

/// The components that a map of ligatures holds, as sequences.
pub open spec fn parts_view(ligatures: Map<u16, Vec<u16>>) -> Map<u16, Seq<u16>> {
    ligatures.map_values(|parts: Vec<u16>| parts@)
}

/// Entering two lists of rules one after the other is entering both at once.
proof fn lemma_with_rules_concat<V>(map: Map<u16, V>, first: Seq<(u16, V)>, second: Seq<(u16, V)>)
    ensures
        with_rules(map, first + second) == with_rules(with_rules(map, first), second),
    decreases second.len(),
{
    if second.len() == 0 {
        assert(first + second == first);
    } else {
        lemma_with_rules_concat(map, first, second.drop_last());
        assert((first + second).drop_last() == first + second.drop_last());
        assert((first + second).last() == second.last());
    }
}

/// Enter the ligatures of one set, unless their glyphs are already spoken for.
fn record_ligatures(ligatures: &mut HashMap<u16, Vec<u16>>, first: u16, set: &LigatureSet)
    ensures
        parts_view(final(ligatures)@) == with_rules(
            parts_view(old(ligatures)@),
            set_rules(first, set@.map_values(|ligature: Option<Ligature>| ligature_view(ligature))),
        ),
{
    let ghost views = set@.map_values(|ligature: Option<Ligature>| ligature_view(ligature));
    let mut i: usize = 0;
    while i < set.len()
        invariant
            i <= set.len(),
            views == set@.map_values(|ligature: Option<Ligature>| ligature_view(ligature)),
            parts_view(ligatures@) == with_rules(
                parts_view(old(ligatures)@),
                set_rules(first, views.take(i as int)),
            ),
        decreases set.len() - i,
    {
        let ghost before = ligatures@;
        let ghost rules = set_rules(first, views.take(i as int));
        assert(views.take(i + 1).drop_last() == views.take(i as int));
        if let Some(ligature) = &set[i] {
            // The covered glyph is the ligature's first component;
            // `components` holds only the rest.
            let mut parts: Vec<u16> = vec![first];
            let mut k: usize = 0;
            while k < ligature.components.len()
                invariant
                    k <= ligature.components.len(),
                    parts@ == seq![first] + ligature.components@.take(k as int),
                decreases ligature.components.len() - k,
            {
                parts.push(ligature.components[k]);
                k += 1;
            }
            assert(parts@ == seq![first] + ligature.components@);
            proof {
                let rule = (ligature.glyph, parts@);
                assert(set_rules(first, views.take(i + 1)) == rules.push(rule));
                assert(rules.push(rule).drop_last() == rules);
            }
            if !ligatures.contains_key(&ligature.glyph) {
                ligatures.insert(ligature.glyph, parts);
                assert(parts_view(ligatures@) == parts_view(before).insert(
                    ligature.glyph,
                    parts@,
                ));
            }
        }
        i += 1;
    }
    assert(views.take(views.len() as int) == views);
}

/// Enter the reversals of one subtable, unless their glyphs are already spoken
/// for.
pub fn record_substitution(
    ligatures: &mut HashMap<u16, Vec<u16>>,
    single_sources: &mut HashMap<u16, u16>,
    subtable: &Substitution,
)
    ensures
        parts_view(final(ligatures)@) == with_rules(
            parts_view(old(ligatures)@),
            ligature_rules(subtable@),
        ),
        final(single_sources)@ == with_rules(old(single_sources)@, single_rules(subtable@)),
{
    match subtable {
        Substitution::Ligature { coverage, ligature_sets } => {
            let pairs = coverage_glyphs(coverage);
            let ghost sets = ligature_sets@.map_values(
                |set: Option<LigatureSet>| ligature_set_view(set),
            );
            let mut i: usize = 0;
            while i < pairs.len()
                invariant
                    i <= pairs.len(),
                    sets == ligature_sets@.map_values(
                        |set: Option<LigatureSet>| ligature_set_view(set),
                    ),
                    parts_view(ligatures@) == with_rules(
                        parts_view(old(ligatures)@),
                        covered_ligatures(pairs@.take(i as int), sets),
                    ),
                decreases pairs.len() - i,
            {
                let (coverage_index, first) = pairs[i];
                assert(pairs@.take(i + 1).drop_last() == pairs@.take(i as int));
                if (coverage_index as usize) < ligature_sets.len() {
                    if let Some(set) = &ligature_sets[coverage_index as usize] {
                        assert(sets[coverage_index as int] == ligature_set_view(Some(*set)));
                        proof {
                            lemma_with_rules_concat(
                                parts_view(old(ligatures)@),
                                covered_ligatures(pairs@.take(i as int), sets),
                                set_rules(first, sets[coverage_index as int]->0),
                            );
                        }
                        record_ligatures(ligatures, first, set);
                    }
                }
                i += 1;
            }
            assert(pairs@.take(pairs@.len() as int) == pairs@);
        },
        Substitution::SingleDelta { coverage, delta } => {
            let pairs = coverage_glyphs(coverage);
            let mut i: usize = 0;
            while i < pairs.len()
                invariant
                    i <= pairs.len(),
                    single_sources@ == with_rules(
                        old(single_sources)@,
                        shifted_rules(pairs@.take(i as int), *delta),
                    ),
                decreases pairs.len() - i,
            {
                let glyph: u16 = pairs[i].1;
                // Glyph ids wrap: the shift is modular by definition.
                let substitute: u16 = glyph.wrapping_add_signed(*delta);
                proof {
                    assert(substitute == shifted(glyph, *delta));
                    assert(shifted_rules(pairs@.take(i + 1), *delta).drop_last() == shifted_rules(
                        pairs@.take(i as int),
                        *delta,
                    ));
                }
                if !single_sources.contains_key(&substitute) {
                    single_sources.insert(substitute, glyph);
                }
                i += 1;
            }
            assert(pairs@.take(pairs@.len() as int) == pairs@);
        },
        Substitution::SingleList { coverage, substitutes } => {
            let pairs = coverage_glyphs(coverage);
            let mut i: usize = 0;
            while i < pairs.len()
                invariant
                    i <= pairs.len(),
                    single_sources@ == with_rules(
                        old(single_sources)@,
                        listed_rules(pairs@.take(i as int), substitutes@),
                    ),
                decreases pairs.len() - i,
            {
                let (coverage_index, glyph) = pairs[i];
                let ghost rules = listed_rules(pairs@.take(i as int), substitutes@);
                assert(pairs@.take(i + 1).drop_last() == pairs@.take(i as int));
                if (coverage_index as usize) < substitutes.len() {
                    let substitute: u16 = substitutes[coverage_index as usize];
                    assert(rules.push((substitute, glyph)).drop_last() == rules);
                    if !single_sources.contains_key(&substitute) {
                        single_sources.insert(substitute, glyph);
                    }
                }
                i += 1;
            }
            assert(pairs@.take(pairs@.len() as int) == pairs@);
        },
        Substitution::Other => {},
    }
}

/// Invert the GSUB substitutions that can be run backwards: ligatures (one
/// glyph ← several) and single substitutions (one glyph ← one).
pub fn collect_gsub_reversals(lookups: &[Option<Vec<Substitution>>]) -> (reversals: GsubReversals)
    ensures
        parts_view(reversals.0@) == reversed_ligatures(lookups_view(lookups@)),
        reversals.1@ == reversed_singles(lookups_view(lookups@)),
{
    let mut ligatures: HashMap<u16, Vec<u16>> = HashMap::new();
    let mut single_sources: HashMap<u16, u16> = HashMap::new();
    let ghost views = lookups_view(lookups@);
    assert(parts_view(ligatures@) == Map::<u16, Seq<u16>>::empty());
    let mut index: usize = 0;
    while index < lookups.len()
        invariant
            index <= lookups.len(),
            views == lookups_view(lookups@),
            parts_view(ligatures@) == reversed_ligatures(views.take(index as int)),
            single_sources@ == reversed_singles(views.take(index as int)),
        decreases lookups.len() - index,
    {
        let ghost seen = all_subtables(views.take(index as int));
        assert(views.take(index + 1).drop_last() == views.take(index as int));
        if let Some(subtables) = &lookups[index] {
            let ghost read = lookup_view(Some(*subtables))->0;
            assert(views[index as int] == Some(read));
            let mut i: usize = 0;
            assert(seen + read.take(0) == seen);
            while i < subtables.len()
                invariant
                    i <= subtables.len(),
                    read == lookup_view(Some(*subtables))->0,
                    parts_view(ligatures@) == with_rules(
                        Map::empty(),
                        lookup_ligatures(seen + read.take(i as int)),
                    ),
                    single_sources@ == with_rules(
                        Map::empty(),
                        lookup_singles(seen + read.take(i as int)),
                    ),
                decreases subtables.len() - i,
            {
                proof {
                    let so_far = seen + read.take(i as int);
                    let next = seen + read.take(i + 1);
                    assert(next.drop_last() == so_far);
                    assert(next.last() == subtables[i as int]@);
                    lemma_with_rules_concat(
                        Map::empty(),
                        lookup_ligatures(so_far),
                        ligature_rules(next.last()),
                    );
                    lemma_with_rules_concat(
                        Map::empty(),
                        lookup_singles(so_far),
                        single_rules(next.last()),
                    );
                }
                record_substitution(&mut ligatures, &mut single_sources, &subtables[i]);
                i += 1;
            }
            assert(read.take(read.len() as int) == read);
        }
        index += 1;
    }
    assert(views.take(views.len() as int) == views);
    (ligatures, single_sources)
}

/// The first rule to claim a glyph decides what it stands for; a glyph that no
/// rule claims stands for nothing.
pub proof fn first_rule_wins<V>(rules: Seq<(u16, V)>, i: int)
    requires
        0 <= i < rules.len(),
        forall|j: int| 0 <= j < i ==> (#[trigger] rules[j]).0 != rules[i].0,
    ensures
        with_rules(Map::empty(), rules).contains_key(rules[i].0),
        with_rules(Map::empty(), rules)[rules[i].0] == rules[i].1,
{
    let key = rules[i].0;
    let head = rules.take(i + 1);
    assert(head.drop_last() == rules.take(i));
    lemma_unclaimed(rules.take(i), key);
    lemma_with_rules_concat(Map::empty(), head, rules.skip(i + 1));
    assert(head + rules.skip(i + 1) == rules);
    lemma_claims_are_kept(with_rules(Map::empty(), head), rules.skip(i + 1), key);
}

/// A glyph that no rule claims is not in the reversed map.
pub proof fn unclaimed_glyph_is_absent<V>(rules: Seq<(u16, V)>, key: u16)
    requires
        forall|j: int| 0 <= j < rules.len() ==> (#[trigger] rules[j]).0 != key,
    ensures
        !with_rules(Map::empty(), rules).contains_key(key),
{
    lemma_unclaimed(rules, key);
}

proof fn lemma_unclaimed<V>(rules: Seq<(u16, V)>, key: u16)
    requires
        forall|j: int| 0 <= j < rules.len() ==> (#[trigger] rules[j]).0 != key,
    ensures
        !with_rules(Map::empty(), rules).contains_key(key),
    decreases rules.len(),
{
    if rules.len() > 0 {
        assert forall|j: int| 0 <= j < rules.drop_last().len() implies (
        #[trigger] rules.drop_last()[j]).0 != key by {
            assert(rules[j].0 != key);
        }
        lemma_unclaimed(rules.drop_last(), key);
        assert(rules[rules.len() - 1].0 != key);
    }
}

proof fn lemma_claims_are_kept<V>(map: Map<u16, V>, rules: Seq<(u16, V)>, key: u16)
    requires
        map.contains_key(key),
    ensures
        with_rules(map, rules).contains_key(key),
        with_rules(map, rules)[key] == map[key],
    decreases rules.len(),
{
    if rules.len() > 0 {
        lemma_claims_are_kept(map, rules.drop_last(), key);
    }
}

/// A list that grows by what each item brings is all of that one after another.
proof fn lemma_flat<A, B>(items: Seq<A>, bring: spec_fn(A) -> Seq<B>)
    requires
        items.len() > 0,
    ensures
        items.map_values(bring).flatten() == items.drop_last().map_values(bring).flatten() + bring(
            items.last(),
        ),
{
    let before = items.drop_last().map_values(bring);
    assert(items.map_values(bring) == before.push(bring(items.last())));
    before.lemma_flatten_push(bring(items.last()));
}

proof fn lemma_flat_nothing<A, B>(items: Seq<A>, bring: spec_fn(A) -> Seq<B>)
    requires
        items.len() == 0,
    ensures
        items.map_values(bring).flatten() == Seq::<B>::empty(),
{
    assert(items.map_values(bring) == Seq::<Seq<B>>::empty());
}

/// A plain coverage lists its glyphs in order, each with its position.
pub proof fn a_plain_coverage_counts_its_glyphs(glyphs: Seq<u16>, i: int)
    requires
        glyphs.len() <= 0x1_0000,
        0 <= i < glyphs.len(),
    ensures
        coverage_pairs(CoverageView::Format1 { glyphs }).len() == glyphs.len(),
        coverage_pairs(CoverageView::Format1 { glyphs })[i].0 == i,
        coverage_pairs(CoverageView::Format1 { glyphs })[i].1 == glyphs[i],
{
}

/// A range counts up from its start to its end, both of them covered, with an
/// index that counts up from its value as far as sixteen bits go.
pub proof fn a_range_counts_up(record: RangeRecord, glyph: u16)
    requires
        record.start <= glyph <= record.end,
    ensures
        ({
            let pairs = coverage_pairs(CoverageView::Format2 { records: seq![record] });
            let k = glyph - record.start;
            &&& pairs.len() == record.end - record.start + 1
            &&& pairs[k].1 == glyph
            &&& record.value + k <= 0xFFFF ==> pairs[k].0 == record.value + k
            &&& record.value + k > 0xFFFF ==> pairs[k].0 == 0xFFFF
        }),
{
    let records = seq![record];
    assert(records.drop_last() == Seq::<RangeRecord>::empty());
    assert(records_pairs(records.drop_last()) == Seq::<(u16, u16)>::empty());
    assert(records_pairs(records) == record_pairs(record));
}

/// A range that ends before it starts covers nothing.
pub proof fn a_range_that_runs_backwards_is_empty(record: RangeRecord)
    requires
        record.end < record.start,
    ensures
        coverage_pairs(CoverageView::Format2 { records: seq![record] }).len() == 0,
{
    let records = seq![record];
    assert(records.drop_last() == Seq::<RangeRecord>::empty());
    assert(records_pairs(records.drop_last()) == Seq::<(u16, u16)>::empty());
}

/// Ranges are taken one after another.
pub proof fn ranges_follow_each_other(first: Seq<RangeRecord>, second: Seq<RangeRecord>)
    ensures
        coverage_pairs(CoverageView::Format2 { records: first + second }) == coverage_pairs(
            CoverageView::Format2 { records: first },
        ) + coverage_pairs(CoverageView::Format2 { records: second }),
    decreases second.len(),
{
    if second.len() == 0 {
        assert(first + second == first);
        assert(records_pairs(first) + records_pairs(second) == records_pairs(first));
    } else {
        ranges_follow_each_other(first, second.drop_last());
        assert((first + second).drop_last() == first + second.drop_last());
        assert((first + second).last() == second.last());
        assert(records_pairs(first + second) == records_pairs(first) + records_pairs(second));
    }
}

/// Every readable ligature of a set is a rule: the covered glyph is its first
/// component, and the listed components follow. Unreadable ones are passed over.
pub proof fn every_ligature_of_a_set_is_a_rule(first: u16, set: LigatureSetView)
    ensures
        set_rules(first, set) == set.map_values(
            |ligature: Option<LigatureView>|
                match ligature {
                    Some(ligature) => seq![(ligature.glyph, seq![first] + ligature.components)],
                    None => Seq::empty(),
                },
        ).flatten(),
    decreases set.len(),
{
    let bring = |ligature: Option<LigatureView>|
        match ligature {
            Some(ligature) => seq![(ligature.glyph, seq![first] + ligature.components)],
            None => Seq::<(u16, Seq<u16>)>::empty(),
        };
    if set.len() > 0 {
        every_ligature_of_a_set_is_a_rule(first, set.drop_last());
        lemma_flat(set, bring);
        assert(set_rules(first, set) == set_rules(first, set.drop_last()) + bring(set.last()));
    } else {
        lemma_flat_nothing(set, bring);
    }
}

/// The ligatures of a subtable go by coverage: every covered glyph, in order,
/// brings the set at its coverage index, if there is one that can be read.
pub proof fn every_covered_glyph_brings_its_ligatures(
    coverage: CoverageView,
    sets: Seq<Option<LigatureSetView>>,
)
    ensures
        ligature_rules(SubstitutionView::Ligature { coverage, ligature_sets: sets })
            == coverage_pairs(coverage).map_values(
            |pair: (u16, u16)|
                if pair.0 < sets.len() && sets[pair.0 as int] is Some {
                    set_rules(pair.1, sets[pair.0 as int]->0)
                } else {
                    Seq::empty()
                },
        ).flatten(),
        single_rules(SubstitutionView::Ligature { coverage, ligature_sets: sets }).len() == 0,
{
    lemma_covered_ligatures(coverage_pairs(coverage), sets);
}

proof fn lemma_covered_ligatures(pairs: Seq<(u16, u16)>, sets: Seq<Option<LigatureSetView>>)
    ensures
        covered_ligatures(pairs, sets) == pairs.map_values(
            |pair: (u16, u16)|
                if pair.0 < sets.len() && sets[pair.0 as int] is Some {
                    set_rules(pair.1, sets[pair.0 as int]->0)
                } else {
                    Seq::empty()
                },
        ).flatten(),
    decreases pairs.len(),
{
    let bring = |pair: (u16, u16)|
        if pair.0 < sets.len() && sets[pair.0 as int] is Some {
            set_rules(pair.1, sets[pair.0 as int]->0)
        } else {
            Seq::<(u16, Seq<u16>)>::empty()
        };
    if pairs.len() > 0 {
        lemma_covered_ligatures(pairs.drop_last(), sets);
        lemma_flat(pairs, bring);
        assert(covered_ligatures(pairs, sets) == covered_ligatures(pairs.drop_last(), sets) + bring(
            pairs.last(),
        ));
    } else {
        lemma_flat_nothing(pairs, bring);
    }
}

/// A shift makes of every covered glyph, in order, the glyph that is `delta`
/// further on, round the end of the glyph ids.
pub proof fn a_shift_moves_every_covered_glyph(coverage: CoverageView, delta: i16, k: int)
    requires
        0 <= k < coverage_pairs(coverage).len(),
    ensures
        ({
            let rules = single_rules(SubstitutionView::SingleDelta { coverage, delta });
            let glyph = coverage_pairs(coverage)[k].1;
            &&& rules.len() == coverage_pairs(coverage).len()
            &&& rules[k].1 == glyph
            &&& 0 <= glyph + delta <= 0xFFFF ==> rules[k].0 == glyph + delta
            &&& glyph + delta < 0 ==> rules[k].0 == glyph + delta + 0x1_0000
            &&& glyph + delta > 0xFFFF ==> rules[k].0 == glyph + delta - 0x1_0000
        }),
        ligature_rules(SubstitutionView::SingleDelta { coverage, delta }).len() == 0,
{
}

/// A list makes of every covered glyph, in order, the substitute at its coverage
/// index, if the list is that long.
pub proof fn a_list_replaces_every_covered_glyph(coverage: CoverageView, substitutes: Seq<u16>)
    ensures
        single_rules(SubstitutionView::SingleList { coverage, substitutes }) == coverage_pairs(
            coverage,
        ).map_values(
            |pair: (u16, u16)|
                if pair.0 < substitutes.len() {
                    seq![(substitutes[pair.0 as int], pair.1)]
                } else {
                    Seq::empty()
                },
        ).flatten(),
        ligature_rules(SubstitutionView::SingleList { coverage, substitutes }).len() == 0,
{
    lemma_listed_rules(coverage_pairs(coverage), substitutes);
}

proof fn lemma_listed_rules(pairs: Seq<(u16, u16)>, substitutes: Seq<u16>)
    ensures
        listed_rules(pairs, substitutes) == pairs.map_values(
            |pair: (u16, u16)|
                if pair.0 < substitutes.len() {
                    seq![(substitutes[pair.0 as int], pair.1)]
                } else {
                    Seq::empty()
                },
        ).flatten(),
    decreases pairs.len(),
{
    let bring = |pair: (u16, u16)|
        if pair.0 < substitutes.len() {
            seq![(substitutes[pair.0 as int], pair.1)]
        } else {
            Seq::<(u16, u16)>::empty()
        };
    if pairs.len() > 0 {
        lemma_listed_rules(pairs.drop_last(), substitutes);
        lemma_flat(pairs, bring);
        assert(listed_rules(pairs, substitutes) == listed_rules(pairs.drop_last(), substitutes)
            + bring(pairs.last()));
    } else {
        lemma_flat_nothing(pairs, bring);
    }
}

/// The rules of all lookups that can be read, and of all their subtables, stand
/// one after another: no lookup and no subtable is passed over.
pub proof fn every_subtable_brings_its_rules(lookups: Seq<Option<Seq<SubstitutionView>>>)
    ensures
        ({
            let subtables = lookups.map_values(
                |lookup: Option<Seq<SubstitutionView>>|
                    match lookup {
                        Some(subtables) => subtables,
                        None => Seq::empty(),
                    },
            ).flatten();
            &&& lookup_ligatures(all_subtables(lookups)) == subtables.map_values(
                |subtable: SubstitutionView| ligature_rules(subtable),
            ).flatten()
            &&& lookup_singles(all_subtables(lookups)) == subtables.map_values(
                |subtable: SubstitutionView| single_rules(subtable),
            ).flatten()
        }),
{
    lemma_all_subtables(lookups);
    lemma_lookup_rules(all_subtables(lookups));
}

proof fn lemma_all_subtables(lookups: Seq<Option<Seq<SubstitutionView>>>)
    ensures
        all_subtables(lookups) == lookups.map_values(
            |lookup: Option<Seq<SubstitutionView>>|
                match lookup {
                    Some(subtables) => subtables,
                    None => Seq::empty(),
                },
        ).flatten(),
    decreases lookups.len(),
{
    let bring = |lookup: Option<Seq<SubstitutionView>>|
        match lookup {
            Some(subtables) => subtables,
            None => Seq::<SubstitutionView>::empty(),
        };
    if lookups.len() > 0 {
        lemma_all_subtables(lookups.drop_last());
        lemma_flat(lookups, bring);
        assert(all_subtables(lookups) == all_subtables(lookups.drop_last()) + bring(
            lookups.last(),
        ));
    } else {
        lemma_flat_nothing(lookups, bring);
    }
}

proof fn lemma_lookup_rules(subtables: Seq<SubstitutionView>)
    ensures
        lookup_ligatures(subtables) == subtables.map_values(
            |subtable: SubstitutionView| ligature_rules(subtable),
        ).flatten(),
        lookup_singles(subtables) == subtables.map_values(
            |subtable: SubstitutionView| single_rules(subtable),
        ).flatten(),
    decreases subtables.len(),
{
    let ligatures = |subtable: SubstitutionView| ligature_rules(subtable);
    let singles = |subtable: SubstitutionView| single_rules(subtable);
    if subtables.len() > 0 {
        lemma_lookup_rules(subtables.drop_last());
        lemma_flat(subtables, ligatures);
        lemma_flat(subtables, singles);
    } else {
        lemma_flat_nothing(subtables, ligatures);
        lemma_flat_nothing(subtables, singles);
    }
}

/// What a ligature glyph is made of is what the first rule that makes it says;
/// a glyph that no rule makes is no ligature.
pub proof fn the_first_ligature_decides(
    lookups: Seq<Option<Seq<SubstitutionView>>>,
    i: int,
    gid: u16,
)
    ensures
        ({
            let rules = lookup_ligatures(all_subtables(lookups));
            let map = reversed_ligatures(lookups);
            &&& 0 <= i < rules.len() && rules[i].0 == gid && (forall|j: int|
                0 <= j < i ==> (#[trigger] rules[j]).0 != gid) ==> map.contains_key(gid)
                && map[gid] == rules[i].1
            &&& (forall|j: int| 0 <= j < rules.len() ==> (#[trigger] rules[j]).0 != gid)
                ==> !map.contains_key(gid)
        }),
{
    let rules = lookup_ligatures(all_subtables(lookups));
    if 0 <= i < rules.len() && rules[i].0 == gid && (forall|j: int|
        0 <= j < i ==> (#[trigger] rules[j]).0 != gid) {
        first_rule_wins(rules, i);
    }
    if forall|j: int| 0 <= j < rules.len() ==> (#[trigger] rules[j]).0 != gid {
        unclaimed_glyph_is_absent(rules, gid);
    }
}

/// The glyph behind a single substitute is the one that the first rule that
/// makes it says; a glyph that no rule makes has none behind it.
pub proof fn the_first_substitution_decides(
    lookups: Seq<Option<Seq<SubstitutionView>>>,
    i: int,
    gid: u16,
)
    ensures
        ({
            let rules = lookup_singles(all_subtables(lookups));
            let map = reversed_singles(lookups);
            &&& 0 <= i < rules.len() && rules[i].0 == gid && (forall|j: int|
                0 <= j < i ==> (#[trigger] rules[j]).0 != gid) ==> map.contains_key(gid)
                && map[gid] == rules[i].1
            &&& (forall|j: int| 0 <= j < rules.len() ==> (#[trigger] rules[j]).0 != gid)
                ==> !map.contains_key(gid)
        }),
{
    let rules = lookup_singles(all_subtables(lookups));
    if 0 <= i < rules.len() && rules[i].0 == gid && (forall|j: int|
        0 <= j < i ==> (#[trigger] rules[j]).0 != gid) {
        first_rule_wins(rules, i);
    }
    if forall|j: int| 0 <= j < rules.len() ==> (#[trigger] rules[j]).0 != gid {
        unclaimed_glyph_is_absent(rules, gid);
    }
}

} // verus!
