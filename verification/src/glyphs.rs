//! Naming glyphs by the substitutions that produced them.

use vstd::prelude::*;
use std::collections::HashMap;
use crate::gsub::parts_view;
use crate::script::{consonant, is_consonant, RA, VIRAMA};
use crate::text::{chars_of, text_of};

verus! {

broadcast use vstd::std_specs::hash::group_hash_axioms;

/// How many substitutions a glyph is followed back through.
pub const MAX_DEPTH: u8 = 8;

/// The texts that a glyph map holds, as sequences of characters.
pub open spec fn texts_view(texts: Map<u16, String>) -> Map<u16, Seq<char>> {
    texts.map_values(|text: String| text@)
}

/// `text` ends in `र` and virama, with something ahead of them.
pub open spec fn ra_virama_tail(text: Seq<char>) -> bool {
    &&& text.len() > 2
    &&& text[text.len() - 2] == RA
    &&& text[text.len() - 1] == VIRAMA
}

/// `text` with a trailing `र` and virama put where it belongs: subjoined to a
/// consonant, or as a reph in front of everything.
pub open spec fn rakar_fixed(text: Seq<char>) -> Seq<char> {
    if ra_virama_tail(text) {
        let head = text.take(text.len() - 2);
        if consonant(head.last()) {
            head + seq![VIRAMA, RA]
        } else {
            seq![RA, VIRAMA] + head
        }
    } else {
        text
    }
}

/// Tell a rakar (subjoined `र`) apart from a reph (the hook drawn above).
///
/// A font stores both as the same `र` + virama pair, but they mean opposite
/// things and sit on opposite sides of their consonant. Inside a ligature the
/// pair is a rakar when it hangs off a consonant — `प` + `र` + virama is `प्र`,
/// not `पर्` — and a reph when it follows a matra, in which case it belongs at
/// the front of the whole cluster.
pub fn fix_rakar(text: &str) -> (fixed: String)
    ensures
        fixed@ == rakar_fixed(text@),
{
    let chars = chars_of(text);
    let n: usize = chars.len();
    if !(n > 2 && chars[n - 2] == RA && chars[n - 1] == VIRAMA) {
        return text.to_string();
    }
    let mut fixed = String::new();
    let subjoined = is_consonant(chars[n - 3]);
    if !subjoined {
        fixed.push(RA);
        fixed.push(VIRAMA);
    }
    let mut head = chars;
    head.truncate(n - 2);
    fixed.push_str(text_of(&head).as_str());
    if subjoined {
        fixed.push(VIRAMA);
        fixed.push(RA);
    }
    assert(head@ == text@.take(n - 2));
    assert(fixed@ == rakar_fixed(text@));
    fixed
}

/// What glyph `gid` spells: its own text where it has one, else the texts of
/// the components of the ligature it is, else the text of the glyph it was
/// substituted for. `depth` substitutions have been followed to reach it.
pub open spec fn glyph_text(
    gid: u16,
    texts: Map<u16, Seq<char>>,
    ligatures: Map<u16, Seq<u16>>,
    single_sources: Map<u16, u16>,
    depth: nat,
) -> Option<Seq<char>>
    decreases MAX_DEPTH + 1 - depth, 0nat,
{
    if depth > MAX_DEPTH {
        None
    } else if texts.contains_key(gid) {
        Some(texts[gid])
    } else if ligatures.contains_key(gid) {
        match glyph_texts(ligatures[gid], texts, ligatures, single_sources, depth + 1) {
            Some(text) => Some(rakar_fixed(text)),
            None => None,
        }
    } else if single_sources.contains_key(gid) {
        glyph_text(single_sources[gid], texts, ligatures, single_sources, depth + 1)
    } else {
        None
    }
}

/// What `parts` spell one after another, if each of them spells something.
pub open spec fn glyph_texts(
    parts: Seq<u16>,
    texts: Map<u16, Seq<char>>,
    ligatures: Map<u16, Seq<u16>>,
    single_sources: Map<u16, u16>,
    depth: nat,
) -> Option<Seq<char>>
    decreases MAX_DEPTH + 1 - depth, parts.len(),
{
    if parts.len() == 0 {
        Some(Seq::empty())
    } else {
        let before = glyph_texts(parts.drop_last(), texts, ligatures, single_sources, depth);
        let last = glyph_text(parts.last(), texts, ligatures, single_sources, depth);
        match (before, last) {
            (Some(before), Some(last)) => Some(before + last),
            _ => None,
        }
    }
}

/// Where the first few parts spell nothing, neither do all of them.
proof fn lemma_unnamed_part(
    parts: Seq<u16>,
    n: int,
    texts: Map<u16, Seq<char>>,
    ligatures: Map<u16, Seq<u16>>,
    single_sources: Map<u16, u16>,
    depth: nat,
)
    requires
        0 <= n <= parts.len(),
        glyph_texts(parts.take(n), texts, ligatures, single_sources, depth) is None,
    ensures
        glyph_texts(parts, texts, ligatures, single_sources, depth) is None,
    decreases parts.len() - n,
{
    if n < parts.len() {
        assert(parts.take(n + 1).drop_last() == parts.take(n));
        lemma_unnamed_part(parts, n + 1, texts, ligatures, single_sources, depth);
    } else {
        assert(parts.take(n) == parts);
    }
}

/// Walk a glyph back through the substitutions that produced it until it lands
/// on glyphs the cmap can name. The depth cap both bounds the work and breaks
/// the reference cycles a hand-edited GSUB table can contain.
pub fn resolve_glyph(
    gid: u16,
    resolved: &HashMap<u16, String>,
    ligatures: &HashMap<u16, Vec<u16>>,
    single_sources: &HashMap<u16, u16>,
    depth: u8,
) -> (text: Option<String>)
    ensures
        text is Some <==> glyph_text(
            gid,
            texts_view(resolved@),
            parts_view(ligatures@),
            single_sources@,
            depth as nat,
        ) is Some,
        text matches Some(text) ==> Some(text@) == glyph_text(
            gid,
            texts_view(resolved@),
            parts_view(ligatures@),
            single_sources@,
            depth as nat,
        ),
    decreases MAX_DEPTH + 1 - depth,
{
    if depth > MAX_DEPTH {
        return None;
    }
    if let Some(text) = resolved.get(&gid) {
        return Some(text.clone());
    }
    if let Some(parts) = ligatures.get(&gid) {
        let mut out = String::new();
        let mut i: usize = 0;
        while i < parts.len()
            invariant
                i <= parts.len(),
                depth <= MAX_DEPTH,
                !texts_view(resolved@).contains_key(gid),
                parts_view(ligatures@).contains_key(gid),
                parts_view(ligatures@)[gid] == parts@,
                Some(out@) == glyph_texts(
                    parts@.take(i as int),
                    texts_view(resolved@),
                    parts_view(ligatures@),
                    single_sources@,
                    (depth + 1) as nat,
                ),
            decreases parts.len() - i,
        {
            assert(parts@.take(i + 1).drop_last() == parts@.take(i as int));
            match resolve_glyph(parts[i], resolved, ligatures, single_sources, depth + 1) {
                Some(text) => out.push_str(text.as_str()),
                None => {
                    proof {
                        lemma_unnamed_part(
                            parts@,
                            i + 1,
                            texts_view(resolved@),
                            parts_view(ligatures@),
                            single_sources@,
                            (depth + 1) as nat,
                        );
                    }
                    return None;
                },
            }
            i += 1;
        }
        assert(parts@.take(parts@.len() as int) == parts@);
        return Some(fix_rakar(out.as_str()));
    }
    if let Some(source) = single_sources.get(&gid) {
        return resolve_glyph(*source, resolved, ligatures, single_sources, depth + 1);
    }
    None
}

/// `texts` with every glyph below `glyph_count` that has no text of its own
/// given what the substitutions make of it.
pub open spec fn with_derived(
    texts: Map<u16, Seq<char>>,
    ligatures: Map<u16, Seq<u16>>,
    single_sources: Map<u16, u16>,
    glyph_count: u16,
) -> Map<u16, Seq<char>> {
    Map::new(
        |gid: u16|
            texts.contains_key(gid) || (gid < glyph_count && glyph_text(
                gid,
                texts,
                ligatures,
                single_sources,
                0,
            ) is Some),
        |gid: u16| glyph_text(gid, texts, ligatures, single_sources, 0)->0,
    )
}

/// Name the glyphs below `glyph_count` that have no text of their own.
///
/// Conjunct glyphs carry no codepoint, so no character map names them and they
/// have to be reached through the substitutions that built them.
pub fn add_derived_glyphs(
    resolved: &mut HashMap<u16, String>,
    ligatures: &HashMap<u16, Vec<u16>>,
    single_sources: &HashMap<u16, u16>,
    glyph_count: u16,
)
    ensures
        texts_view(final(resolved)@) == with_derived(
            texts_view(old(resolved)@),
            parts_view(ligatures@),
            single_sources@,
            glyph_count,
        ),
{
    let ghost texts = texts_view(resolved@);
    let ghost parts = parts_view(ligatures@);
    let ghost sources = single_sources@;
    let mut derived: Vec<(u16, String)> = Vec::new();
    let mut gid: u16 = 0;
    while gid < glyph_count
        invariant
            gid <= glyph_count,
            texts == texts_view(resolved@),
            parts == parts_view(ligatures@),
            sources == single_sources@,
            resolved@ == old(resolved)@,
            forall|k: int|
                0 <= k < derived.len() ==> {
                    let (g, text) = #[trigger] derived@[k];
                    &&& g < gid
                    &&& !texts.contains_key(g)
                    &&& glyph_text(g, texts, parts, sources, 0) == Some(text@)
                },
            forall|g: u16|
                g < gid && !texts.contains_key(g) && #[trigger] glyph_text(
                    g,
                    texts,
                    parts,
                    sources,
                    0,
                ) is Some ==> exists|k: int|
                    0 <= k < derived.len() && #[trigger] derived@[k].0 == g,
        decreases glyph_count - gid,
    {
        let ghost before = derived@;
        if !resolved.contains_key(&gid) {
            if let Some(text) = resolve_glyph(gid, resolved, ligatures, single_sources, 0) {
                derived.push((gid, text));
                assert(derived@[before.len() as int].0 == gid);
            }
        }
        proof {
            assert forall|g: u16|
                g < gid + 1 && !texts.contains_key(g) && #[trigger] glyph_text(
                    g,
                    texts,
                    parts,
                    sources,
                    0,
                ) is Some implies exists|k: int|
                0 <= k < derived.len() && #[trigger] derived@[k].0 == g by {
                if g < gid {
                    let k = choose|k: int| 0 <= k < before.len() && #[trigger] before[k].0 == g;
                    assert(derived@[k] == before[k]);
                }
            }
        }
        gid += 1;
    }
    let ghost all = derived@;
    let mut i: usize = 0;
    while i < derived.len()
        invariant
            i <= derived.len(),
            derived@ == all,
            forall|k: int|
                0 <= k < all.len() ==> {
                    let (g, text) = #[trigger] all[k];
                    &&& g < glyph_count
                    &&& !texts.contains_key(g)
                    &&& glyph_text(g, texts, parts, sources, 0) == Some(text@)
                },
            forall|g: u16| #[trigger]
                texts_view(resolved@).contains_key(g) <==> texts.contains_key(g) || exists|k: int|
                    0 <= k < i && #[trigger] all[k].0 == g,
            forall|g: u16| #[trigger]
                texts_view(resolved@).contains_key(g) ==> glyph_text(g, texts, parts, sources, 0)
                    == Some(texts_view(resolved@)[g]),
        decreases derived.len() - i,
    {
        let ghost before = resolved@;
        let gid: u16 = derived[i].0;
        let text = derived[i].1.clone();
        resolved.insert(gid, text);
        proof {
            assert(all[i as int].0 == gid);
            assert(texts_view(resolved@) == texts_view(before).insert(gid, text@));
            assert forall|g: u16| #[trigger]
                texts_view(resolved@).contains_key(g) implies texts.contains_key(g) || exists|
                k: int,
            | 0 <= k < i + 1 && #[trigger] all[k].0 == g by {
                if g != gid {
                    assert(texts_view(before).contains_key(g));
                }
            }
        }
        i += 1;
    }
    proof {
        let expected = with_derived(texts, parts, sources, glyph_count);
        assert forall|g: u16| #[trigger]
            texts_view(resolved@).contains_key(g) <==> expected.contains_key(g) by {
            if expected.contains_key(g) && !texts.contains_key(g) {
                assert(glyph_text(g, texts, parts, sources, 0) is Some);
            }
        }
        assert(texts_view(resolved@) =~= expected);
    }
}

/// A glyph with a text of its own keeps it: substitutions only ever name glyphs
/// that nothing else names.
pub proof fn named_glyphs_keep_their_text(
    texts: Map<u16, Seq<char>>,
    ligatures: Map<u16, Seq<u16>>,
    single_sources: Map<u16, u16>,
    glyph_count: u16,
    gid: u16,
)
    requires
        texts.contains_key(gid),
    ensures
        with_derived(texts, ligatures, single_sources, glyph_count).contains_key(gid),
        with_derived(texts, ligatures, single_sources, glyph_count)[gid] == texts[gid],
{
}

/// The texts that `parts` have of their own, one after another.
pub open spec fn own_texts(parts: Seq<u16>, texts: Map<u16, Seq<char>>) -> Seq<char> {
    parts.map_values(|part: u16| texts[part]).flatten()
}

/// A ligature without a text of its own spells its components, a trailing `र`
/// and virama put where it belongs.
pub proof fn ligature_spells_its_components(
    gid: u16,
    texts: Map<u16, Seq<char>>,
    ligatures: Map<u16, Seq<u16>>,
    single_sources: Map<u16, u16>,
)
    requires
        !texts.contains_key(gid),
        ligatures.contains_key(gid),
        forall|i: int|
            0 <= i < ligatures[gid].len() ==> texts.contains_key(#[trigger] ligatures[gid][i]),
    ensures
        glyph_text(gid, texts, ligatures, single_sources, 0) == Some(
            rakar_fixed(own_texts(ligatures[gid], texts)),
        ),
{
    lemma_named_parts(ligatures[gid], texts, ligatures, single_sources, 1);
}

proof fn lemma_named_parts(
    parts: Seq<u16>,
    texts: Map<u16, Seq<char>>,
    ligatures: Map<u16, Seq<u16>>,
    single_sources: Map<u16, u16>,
    depth: nat,
)
    requires
        depth <= MAX_DEPTH,
        forall|i: int| 0 <= i < parts.len() ==> texts.contains_key(#[trigger] parts[i]),
    ensures
        glyph_texts(parts, texts, ligatures, single_sources, depth) == Some(
            own_texts(parts, texts),
        ),
    decreases parts.len(),
{
    let spelled = parts.map_values(|part: u16| texts[part]);
    if parts.len() > 0 {
        assert forall|i: int| 0 <= i < parts.drop_last().len() implies texts.contains_key(
            #[trigger] parts.drop_last()[i],
        ) by {
            assert(texts.contains_key(parts[i]));
        }
        lemma_named_parts(parts.drop_last(), texts, ligatures, single_sources, depth);
        let before = parts.drop_last().map_values(|part: u16| texts[part]);
        assert(texts.contains_key(parts[parts.len() - 1]));
        assert(spelled == before.push(texts[parts.last()]));
        before.lemma_flatten_push(texts[parts.last()]);
        assert(own_texts(parts, texts) == own_texts(parts.drop_last(), texts)
            + texts[parts.last()]);
        assert(glyph_text(parts.last(), texts, ligatures, single_sources, depth) == Some(
            texts[parts.last()],
        ));
    } else {
        assert(own_texts(parts, texts) == Seq::<char>::empty());
    }
}

/// A variant without a text of its own, which is no ligature, spells what the
/// glyph it was substituted for spells, if that glyph has a text.
pub proof fn variant_spells_its_source(
    gid: u16,
    texts: Map<u16, Seq<char>>,
    ligatures: Map<u16, Seq<u16>>,
    single_sources: Map<u16, u16>,
)
    requires
        !texts.contains_key(gid),
        !ligatures.contains_key(gid),
        single_sources.contains_key(gid),
        texts.contains_key(single_sources[gid]),
    ensures
        glyph_text(gid, texts, ligatures, single_sources, 0) == Some(texts[single_sources[gid]]),
{
    reveal_with_fuel(glyph_text, 2);
}

/// The glyphs of `circle` have no text of their own, and following any of them
/// back leads to another of them.
pub open spec fn circular(
    circle: Set<u16>,
    texts: Map<u16, Seq<char>>,
    ligatures: Map<u16, Seq<u16>>,
    single_sources: Map<u16, u16>,
) -> bool {
    forall|gid: u16| #[trigger]
        circle.contains(gid) ==> {
            &&& !texts.contains_key(gid)
            &&& if ligatures.contains_key(gid) {
                exists|i: int|
                    0 <= i < ligatures[gid].len() && circle.contains(#[trigger] ligatures[gid][i])
            } else {
                single_sources.contains_key(gid) ==> circle.contains(single_sources[gid])
            }
        }
}

/// Glyphs that refer to one another in a circle spell nothing: the walk ends,
/// and invents no text for them.
pub proof fn circular_glyphs_spell_nothing(
    circle: Set<u16>,
    gid: u16,
    texts: Map<u16, Seq<char>>,
    ligatures: Map<u16, Seq<u16>>,
    single_sources: Map<u16, u16>,
    depth: nat,
)
    requires
        circular(circle, texts, ligatures, single_sources),
        circle.contains(gid),
    ensures
        glyph_text(gid, texts, ligatures, single_sources, depth) is None,
    decreases MAX_DEPTH + 1 - depth,
{
    if depth <= MAX_DEPTH {
        if ligatures.contains_key(gid) {
            let parts = ligatures[gid];
            let i = choose|i: int| 0 <= i < parts.len() && circle.contains(#[trigger] parts[i]);
            circular_glyphs_spell_nothing(
                circle,
                parts[i],
                texts,
                ligatures,
                single_sources,
                depth + 1,
            );
            assert(parts.take(i + 1).last() == parts[i]);
            lemma_unnamed_part(parts, i + 1, texts, ligatures, single_sources, depth + 1);
        } else if single_sources.contains_key(gid) {
            circular_glyphs_spell_nothing(
                circle,
                single_sources[gid],
                texts,
                ligatures,
                single_sources,
                depth + 1,
            );
        }
    }
}

/// What a glyph spells does not depend on how many substitutions led to it, as
/// long as it spells something: with fewer of them behind it, it spells the same.
pub proof fn fewer_substitutions_lose_nothing(
    gid: u16,
    texts: Map<u16, Seq<char>>,
    ligatures: Map<u16, Seq<u16>>,
    single_sources: Map<u16, u16>,
    fewer: nat,
    depth: nat,
)
    requires
        fewer <= depth,
        glyph_text(gid, texts, ligatures, single_sources, depth) is Some,
    ensures
        glyph_text(gid, texts, ligatures, single_sources, fewer) == glyph_text(
            gid,
            texts,
            ligatures,
            single_sources,
            depth,
        ),
    decreases MAX_DEPTH + 1 - depth, 0nat,
{
    if !texts.contains_key(gid) {
        if ligatures.contains_key(gid) {
            lemma_parts_lose_nothing(
                ligatures[gid],
                texts,
                ligatures,
                single_sources,
                fewer + 1,
                depth + 1,
            );
        } else if single_sources.contains_key(gid) {
            fewer_substitutions_lose_nothing(
                single_sources[gid],
                texts,
                ligatures,
                single_sources,
                fewer + 1,
                depth + 1,
            );
        }
    }
}

/// The same of several glyphs one after another.
proof fn lemma_parts_lose_nothing(
    parts: Seq<u16>,
    texts: Map<u16, Seq<char>>,
    ligatures: Map<u16, Seq<u16>>,
    single_sources: Map<u16, u16>,
    fewer: nat,
    depth: nat,
)
    requires
        fewer <= depth,
        glyph_texts(parts, texts, ligatures, single_sources, depth) is Some,
    ensures
        glyph_texts(parts, texts, ligatures, single_sources, fewer) == glyph_texts(
            parts,
            texts,
            ligatures,
            single_sources,
            depth,
        ),
    decreases MAX_DEPTH + 1 - depth, parts.len(),
{
    if parts.len() > 0 {
        lemma_parts_lose_nothing(
            parts.drop_last(),
            texts,
            ligatures,
            single_sources,
            fewer,
            depth,
        );
        fewer_substitutions_lose_nothing(
            parts.last(),
            texts,
            ligatures,
            single_sources,
            fewer,
            depth,
        );
    }
}

/// Putting a rakar or reph in its place only moves characters.
pub proof fn fixing_a_rakar_keeps_every_character(text: Seq<char>)
    ensures
        rakar_fixed(text).to_multiset() == text.to_multiset(),
{
    broadcast use vstd::seq_lib::group_to_multiset_ensures;

    if ra_virama_tail(text) {
        let head = text.take(text.len() - 2);
        assert(text == head.push(RA).push(VIRAMA));
        assert(head + seq![VIRAMA, RA] == head.push(VIRAMA).push(RA));
        assert(head.push(VIRAMA).push(RA).to_multiset() =~= head.push(RA).push(
            VIRAMA,
        ).to_multiset());
        vstd::seq_lib::lemma_multiset_commutative(seq![RA, VIRAMA], head);
        vstd::seq_lib::lemma_multiset_commutative(head, seq![RA, VIRAMA]);
        assert(head + seq![RA, VIRAMA] == text);
        assert((seq![RA, VIRAMA] + head).to_multiset() =~= text.to_multiset());
    }
}

/// The pair of `र` and virama behind a consonant is a rakar, however much stands
/// ahead of the consonant: it is subjoined to it.
pub proof fn a_pair_behind_a_consonant_is_subjoined(head: Seq<char>)
    requires
        head.len() > 0,
        consonant(head.last()),
    ensures
        rakar_fixed(head + seq![RA, VIRAMA]) == head + seq![VIRAMA, RA],
{
    let text = head + seq![RA, VIRAMA];
    assert(text.take(text.len() - 2) == head);
}

/// The pair behind anything else is a reph: it goes in front of all of it.
pub proof fn a_pair_behind_anything_else_goes_in_front(head: Seq<char>)
    requires
        head.len() > 0,
        !consonant(head.last()),
    ensures
        rakar_fixed(head + seq![RA, VIRAMA]) == seq![RA, VIRAMA] + head,
{
    let text = head + seq![RA, VIRAMA];
    assert(text.take(text.len() - 2) == head);
}

/// A text that does not end in the pair, or is no more than the pair, is left as
/// it is.
pub proof fn a_text_without_the_pair_is_left_alone(text: Seq<char>)
    requires
        text.len() <= 2 || text[text.len() - 1] != VIRAMA || text[text.len() - 2] != RA,
    ensures
        rakar_fixed(text) == text,
{
}

/// What the parts of a ligature spell, one after another.
proof fn lemma_spelled_parts(
    parts: Seq<u16>,
    spelled: Seq<Seq<char>>,
    texts: Map<u16, Seq<char>>,
    ligatures: Map<u16, Seq<u16>>,
    single_sources: Map<u16, u16>,
    depth: nat,
)
    requires
        spelled.len() == parts.len(),
        forall|i: int|
            0 <= i < parts.len() ==> glyph_text(
                #[trigger] parts[i],
                texts,
                ligatures,
                single_sources,
                depth,
            ) == Some(spelled[i]),
    ensures
        glyph_texts(parts, texts, ligatures, single_sources, depth) == Some(spelled.flatten()),
    decreases parts.len(),
{
    if parts.len() > 0 {
        let before = parts.drop_last();
        assert forall|i: int| 0 <= i < before.len() implies glyph_text(
            #[trigger] before[i],
            texts,
            ligatures,
            single_sources,
            depth,
        ) == Some(spelled.drop_last()[i]) by {
            assert(before[i] == parts[i]);
        }
        lemma_spelled_parts(
            before,
            spelled.drop_last(),
            texts,
            ligatures,
            single_sources,
            depth,
        );
        assert(parts[parts.len() - 1] == parts.last());
        spelled.drop_last().lemma_flatten_push(spelled.last());
        assert(spelled.drop_last().push(spelled.last()) == spelled);
    } else {
        assert(spelled == Seq::<Seq<char>>::empty());
        assert(spelled.flatten() == Seq::<char>::empty());
    }
}

/// A ligature spells what its parts spell, one after another, `र` and virama at
/// the end put where they belong: subjoined to a consonant, in front of anything
/// else. The parts may be ligatures and variants themselves.
pub proof fn a_ligature_spells_its_parts(
    gid: u16,
    spelled: Seq<Seq<char>>,
    texts: Map<u16, Seq<char>>,
    ligatures: Map<u16, Seq<u16>>,
    single_sources: Map<u16, u16>,
    depth: nat,
)
    requires
        depth <= 8,
        !texts.contains_key(gid),
        ligatures.contains_key(gid),
        spelled.len() == ligatures[gid].len(),
        forall|i: int|
            0 <= i < ligatures[gid].len() ==> glyph_text(
                #[trigger] ligatures[gid][i],
                texts,
                ligatures,
                single_sources,
                depth + 1,
            ) == Some(spelled[i]),
    ensures
        ({
            let all = spelled.flatten();
            let n = all.len() as int;
            let text = glyph_text(gid, texts, ligatures, single_sources, depth);
            if n > 2 && all[n - 2] == RA && all[n - 1] == VIRAMA {
                if consonant(all[n - 3]) {
                    text == Some(all.take(n - 2) + seq![VIRAMA, RA])
                } else {
                    text == Some(seq![RA, VIRAMA] + all.take(n - 2))
                }
            } else {
                text == Some(all)
            }
        }),
{
    lemma_spelled_parts(ligatures[gid], spelled, texts, ligatures, single_sources, depth + 1);
}

/// A ligature with a part that spells nothing spells nothing.
pub proof fn a_ligature_needs_all_its_parts(
    gid: u16,
    i: int,
    texts: Map<u16, Seq<char>>,
    ligatures: Map<u16, Seq<u16>>,
    single_sources: Map<u16, u16>,
    depth: nat,
)
    requires
        !texts.contains_key(gid),
        ligatures.contains_key(gid),
        0 <= i < ligatures[gid].len(),
        glyph_text(ligatures[gid][i], texts, ligatures, single_sources, depth + 1) is None,
    ensures
        glyph_text(gid, texts, ligatures, single_sources, depth) is None,
{
    let parts = ligatures[gid];
    assert(parts.take(i + 1).last() == parts[i]);
    lemma_unnamed_part(parts, i + 1, texts, ligatures, single_sources, depth + 1);
}

/// A glyph with a text of its own spells that text, wherever it is met within
/// eight substitutions; further back nothing is followed.
pub proof fn eight_substitutions_are_followed(
    gid: u16,
    texts: Map<u16, Seq<char>>,
    ligatures: Map<u16, Seq<u16>>,
    single_sources: Map<u16, u16>,
    depth: nat,
)
    ensures
        depth <= 8 && texts.contains_key(gid) ==> glyph_text(
            gid,
            texts,
            ligatures,
            single_sources,
            depth,
        ) == Some(texts[gid]),
        depth > 8 ==> glyph_text(gid, texts, ligatures, single_sources, depth) is None,
{
}

/// A glyph that is neither named nor a ligature spells what the glyph that it
/// was substituted for spells, one substitution further back; one that was
/// substituted for none spells nothing.
pub proof fn a_variant_spells_what_its_source_spells(
    gid: u16,
    texts: Map<u16, Seq<char>>,
    ligatures: Map<u16, Seq<u16>>,
    single_sources: Map<u16, u16>,
    depth: nat,
)
    requires
        depth <= 8,
        !texts.contains_key(gid),
        !ligatures.contains_key(gid),
    ensures
        single_sources.contains_key(gid) ==> glyph_text(
            gid,
            texts,
            ligatures,
            single_sources,
            depth,
        ) == glyph_text(single_sources[gid], texts, ligatures, single_sources, depth + 1),
        !single_sources.contains_key(gid) ==> glyph_text(
            gid,
            texts,
            ligatures,
            single_sources,
            depth,
        ) is None,
{
}

/// A chain of variants is followed to the glyph with a text at its end, if that
/// is at most eight substitutions away.
pub proof fn a_chain_of_variants_is_followed(
    chain: Seq<u16>,
    texts: Map<u16, Seq<char>>,
    ligatures: Map<u16, Seq<u16>>,
    single_sources: Map<u16, u16>,
    depth: nat,
)
    requires
        chain.len() > 0,
        texts.contains_key(chain.last()),
        forall|i: int|
            0 <= i < chain.len() - 1 ==> {
                &&& !texts.contains_key(#[trigger] chain[i])
                &&& !ligatures.contains_key(chain[i])
                &&& single_sources.contains_key(chain[i])
                &&& single_sources[chain[i]] == chain[i + 1]
            },
    ensures
        glyph_text(chain[0], texts, ligatures, single_sources, depth) == if depth + chain.len() - 1
            <= 8 {
            Some(texts[chain.last()])
        } else {
            None
        },
    decreases chain.len(),
{
    if chain.len() > 1 {
        let rest = chain.skip(1);
        assert forall|i: int| 0 <= i < rest.len() - 1 implies {
            &&& !texts.contains_key(#[trigger] rest[i])
            &&& !ligatures.contains_key(rest[i])
            &&& single_sources.contains_key(rest[i])
            &&& single_sources[rest[i]] == rest[i + 1]
        } by {
            assert(rest[i] == chain[i + 1]);
        }
        a_chain_of_variants_is_followed(rest, texts, ligatures, single_sources, depth + 1);
        assert(!texts.contains_key(chain[0]));
        assert(rest.last() == chain.last());
    }
}

/// The glyphs of a face, and only those, are given the text that they spell;
/// what spells nothing is given none.
pub proof fn the_glyphs_of_a_face_are_named(
    texts: Map<u16, Seq<char>>,
    ligatures: Map<u16, Seq<u16>>,
    single_sources: Map<u16, u16>,
    glyph_count: u16,
    gid: u16,
)
    requires
        !texts.contains_key(gid),
    ensures
        ({
            let named = with_derived(texts, ligatures, single_sources, glyph_count);
            let text = glyph_text(gid, texts, ligatures, single_sources, 0);
            &&& gid < glyph_count && text is Some ==> named.contains_key(gid) && named[gid]
                == text->0
            &&& gid >= glyph_count || text is None ==> !named.contains_key(gid)
        }),
{
}

} // verus!
