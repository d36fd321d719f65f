//! From visual glyph order to Unicode logical order.

use vstd::prelude::*;
use crate::script::{combining_mark, consonant, is_combining_mark, I_MATRA, RA, VIRAMA};
use crate::text::{chars_of, text_of};

verus! {

/// The index just past the virama-joined consonants that continue at `i`.
pub open spec fn joined_end(chars: Seq<char>, i: int) -> int
    decreases chars.len() - i,
{
    if 0 <= i && i + 1 < chars.len() && chars[i] == VIRAMA {
        joined_end(chars, i + 2)
    } else {
        i
    }
}

/// The index just past the one cluster that begins at `start`: one character
/// and whatever is joined to it.
pub open spec fn cluster_end(chars: Seq<char>, start: int) -> int {
    joined_end(chars, start + 1)
}

/// `chars[start..end]` is one whole cluster: viramas alternate with the
/// characters they join, and nothing further is joined to the last of them.
pub open spec fn one_cluster(chars: Seq<char>, start: int, end: int) -> bool {
    &&& 0 <= start < end <= chars.len()
    &&& (end - start) % 2 == 1
    &&& forall|j: int| start < j < end && (j - start) % 2 == 1 ==> chars[j] == VIRAMA
    &&& !(end + 1 < chars.len() && chars[end] == VIRAMA)
}

/// The last index up to `i` that holds no combining mark, or zero.
pub open spec fn base_index(out: Seq<char>, i: int) -> int
    decreases i,
{
    if i > 0 && combining_mark(out[i]) {
        base_index(out, i - 1)
    } else {
        i
    }
}

/// Where the virama-joined run that ends at `i` begins.
pub open spec fn joined_start(out: Seq<char>, i: int) -> int
    decreases i,
{
    if i >= 2 && out[i - 1] == VIRAMA {
        joined_start(out, i - 2)
    } else {
        i
    }
}

/// Where the trailing cluster of `out` begins.
pub open spec fn trailing_cluster(out: Seq<char>) -> int {
    if out.len() == 0 {
        0
    } else {
        joined_start(out, base_index(out, out.len() - 1))
    }
}

/// A reph, `र` and virama, stands at `i`.
pub open spec fn reph_at(chars: Seq<char>, i: int) -> bool {
    0 <= i && i + 1 < chars.len() && chars[i] == RA && chars[i + 1] == VIRAMA
}

/// `out` with a reph put in front of its trailing cluster.
pub open spec fn with_reph(out: Seq<char>) -> Seq<char> {
    let start = trailing_cluster(out);
    out.take(start) + seq![RA, VIRAMA] + out.skip(start)
}

/// What is written in all once `out` is written and `chars[i..]` is still to
/// come: a reph goes in front of the cluster written last, an i-matra goes
/// after the one cluster that follows it, anything else stays where it is.
pub open spec fn reordered_from(chars: Seq<char>, i: int, out: Seq<char>) -> Seq<char>
    decreases chars.len() - i,
{
    if i < 0 || i >= chars.len() {
        out
    } else if reph_at(chars, i) {
        reordered_from(chars, i + 2, with_reph(out))
    } else if chars[i] == I_MATRA && i + 1 < chars.len() {
        let end = cluster_end(chars, i + 1);
        proof {
            joined_end_in_bounds(chars, i + 2);
        }
        reordered_from(chars, end, out + chars.subrange(i + 1, end).push(I_MATRA))
    } else {
        reordered_from(chars, i + 1, out.push(chars[i]))
    }
}

/// `chars`, taken as drawn, in logical order.
pub open spec fn reordered(chars: Seq<char>) -> Seq<char> {
    reordered_from(chars, 0, Seq::empty())
}

/// A joined run never ends before it begins, nor past the text.
pub proof fn joined_end_in_bounds(chars: Seq<char>, i: int)
    requires
        0 <= i <= chars.len(),
    ensures
        i <= joined_end(chars, i) <= chars.len(),
    decreases chars.len() - i,
{
    if i + 1 < chars.len() && chars[i] == VIRAMA {
        joined_end_in_bounds(chars, i + 2);
    }
}

/// What `joined_end` steps over is viramas and the characters they join.
proof fn lemma_joined_end_shape(chars: Seq<char>, i: int)
    requires
        0 <= i <= chars.len(),
    ensures
        (joined_end(chars, i) - i) % 2 == 0,
        forall|j: int|
            i <= j < joined_end(chars, i) && (j - i) % 2 == 0 ==> chars[j] == VIRAMA,
        !(joined_end(chars, i) + 1 < chars.len() && chars[joined_end(chars, i)] == VIRAMA),
    decreases chars.len() - i,
{
    if i + 1 < chars.len() && chars[i] == VIRAMA {
        lemma_joined_end_shape(chars, i + 2);
    }
}

/// The cluster at `start` is one whole cluster.
pub proof fn cluster_is_whole(chars: Seq<char>, start: int)
    requires
        0 <= start < chars.len(),
    ensures
        one_cluster(chars, start, cluster_end(chars, start)),
{
    joined_end_in_bounds(chars, start + 1);
    lemma_joined_end_shape(chars, start + 1);
}

proof fn lemma_base_index(out: Seq<char>, i: int)
    requires
        0 <= i < out.len(),
    ensures
        0 <= base_index(out, i) <= i,
    decreases i,
{
    if i > 0 && combining_mark(out[i]) {
        lemma_base_index(out, i - 1);
    }
}

proof fn lemma_joined_start(out: Seq<char>, i: int)
    requires
        0 <= i,
    ensures
        0 <= joined_start(out, i) <= i,
    decreases i,
{
    if i >= 2 && out[i - 1] == VIRAMA {
        lemma_joined_start(out, i - 2);
    }
}

/// The trailing cluster begins inside the text.
pub proof fn trailing_cluster_in_bounds(out: Seq<char>)
    ensures
        0 <= trailing_cluster(out) <= out.len(),
        out.len() > 0 ==> trailing_cluster(out) < out.len(),
{
    if out.len() > 0 {
        lemma_base_index(out, out.len() - 1);
        lemma_joined_start(out, base_index(out, out.len() - 1));
    }
}

/// `out[start..]` is one whole cluster and the marks on it: viramas alternate
/// with the characters they join up to `base`, what follows it is combining
/// marks, and the cluster is not joined to anything ahead of it.
pub open spec fn marked_cluster(out: Seq<char>, start: int, base: int) -> bool {
    &&& 0 <= start <= base < out.len()
    &&& (base - start) % 2 == 0
    &&& forall|j: int| start < j < base && (j - start) % 2 == 1 ==> out[j] == VIRAMA
    &&& forall|j: int|
        base < j < out.len() ==> combining_mark(#[trigger] out[j])
    &&& !(start >= 2 && out[start - 1] == VIRAMA)
}

proof fn lemma_base_index_shape(out: Seq<char>, i: int)
    requires
        0 <= i < out.len(),
    ensures
        forall|j: int|
            base_index(out, i) < j <= i ==> combining_mark(#[trigger] out[j]),
    decreases i,
{
    if i > 0 && combining_mark(out[i]) {
        lemma_base_index_shape(out, i - 1);
    }
}

proof fn lemma_joined_start_shape(out: Seq<char>, i: int)
    requires
        0 <= i < out.len(),
    ensures
        ({
            let start = joined_start(out, i);
            &&& (i - start) % 2 == 0
            &&& forall|j: int| start < j < i && (j - start) % 2 == 1 ==> out[j] == VIRAMA
            &&& !(start >= 2 && out[start - 1] == VIRAMA)
        }),
    decreases i,
{
    if i >= 2 && out[i - 1] == VIRAMA {
        lemma_joined_start_shape(out, i - 2);
    }
}

/// What a reph is put in front of is one whole cluster with its marks.
pub proof fn trailing_cluster_is_whole(out: Seq<char>)
    requires
        out.len() > 0,
    ensures
        marked_cluster(out, trailing_cluster(out), base_index(out, out.len() - 1)),
{
    let base = base_index(out, out.len() - 1);
    lemma_base_index(out, out.len() - 1);
    lemma_base_index_shape(out, out.len() - 1);
    lemma_joined_start(out, base);
    lemma_joined_start_shape(out, base);
}

/// Rewrite a Devanagari run from visual glyph order into Unicode logical order.
///
/// Two moves, both driven by how a PDF emits glyphs rather than by the text:
///
/// * a reph (`र` + virama) is drawn above the cluster it belongs to and so is
///   emitted *after* it — it has to move to the front of that cluster;
/// * an i-matra is drawn to the left of its consonant and so is emitted
///   *before* it — it has to move after.
///
/// This is **not** safe to run on text that is already in logical order:
/// `मिलेर` legitimately spells an i-matra ahead of `ल`, and a second pass would
/// walk the matra off its syllable. Apply it only to text decoded straight from
/// glyph ids, never to a `/ToUnicode` result, which is logical by definition.
pub fn reorder_devanagari(text: &str) -> (logical: String)
    ensures
        logical@ == reordered(text@),
{
    let chars = chars_of(text);
    let mut out: Vec<char> = Vec::with_capacity(chars.len());
    let mut i: usize = 0;
    while i < chars.len()
        invariant
            i <= chars.len(),
            chars@ == text@,
            reordered_from(chars@, i as int, out@) == reordered(text@),
        decreases chars.len() - i,
    {
        let ghost before = out@;
        // Reph: emitted after the cluster it crowns.
        if chars[i] == RA && i + 1 < chars.len() && chars[i + 1] == VIRAMA {
            let start = cluster_start(&out);
            out.insert(start, VIRAMA);
            out.insert(start, RA);
            assert(out@ == with_reph(before));
            i += 2;
            continue;
        }
        // i-matra: emitted before the consonant it follows.
        if chars[i] == I_MATRA {
            let (next, mut cluster) = take_cluster(&chars, i + 1);
            if !cluster.is_empty() {
                out.append(&mut cluster);
                out.push(I_MATRA);
                assert(out@ == before + chars@.subrange(i + 1, next as int).push(I_MATRA));
                i = next;
                continue;
            }
        }
        out.push(chars[i]);
        i += 1;
    }
    text_of(&out)
}

/// Consume exactly one orthographic cluster at `start`: a consonant plus any
/// virama-joined consonants hanging off it.
///
/// Taking more than one is the classic i-matra bug — it walks the matra past
/// the syllable it belongs to and silently rewrites the word.
pub fn take_cluster(chars: &[char], start: usize) -> (taken: (usize, Vec<char>))
    ensures
        start >= chars.len() ==> taken.0 == start && taken.1@ == Seq::<char>::empty(),
        start < chars.len() ==> {
            &&& taken.0 == cluster_end(chars@, start as int)
            &&& taken.1@ == chars@.subrange(start as int, taken.0 as int)
            &&& one_cluster(chars@, start as int, taken.0 as int)
        },
{
    if start >= chars.len() {
        return (start, Vec::new());
    }
    proof {
        cluster_is_whole(chars@, start as int);
    }
    let mut cluster: Vec<char> = vec![chars[start]];
    let mut i: usize = start + 1;
    while i < chars.len() && i + 1 < chars.len() && chars[i] == VIRAMA
        invariant
            start < i <= chars.len(),
            cluster@ == chars@.subrange(start as int, i as int),
            joined_end(chars@, i as int) == cluster_end(chars@, start as int),
        decreases chars.len() - i,
    {
        cluster.push(chars[i]);
        cluster.push(chars[i + 1]);
        i += 2;
    }
    (i, cluster)
}

/// Index in `out` where the trailing consonant cluster begins.
pub fn cluster_start(out: &[char]) -> (start: usize)
    ensures
        start == trailing_cluster(out@),
        start <= out.len(),
        out.len() > 0 ==> start < out.len(),
{
    if out.is_empty() {
        return 0;
    }
    let mut i: usize = out.len() - 1;
    while i > 0 && is_combining_mark(out[i])
        invariant
            i < out.len(),
            base_index(out@, i as int) == base_index(out@, out.len() - 1),
        decreases i,
    {
        i -= 1;
    }
    while i >= 2 && out[i - 1] == VIRAMA
        invariant
            i < out.len(),
            joined_start(out@, i as int) == trailing_cluster(out@),
        decreases i,
    {
        i -= 2;
    }
    i
}

/// No reph stands anywhere in `chars`.
pub open spec fn without_reph(chars: Seq<char>) -> bool {
    forall|j: int| !#[trigger] reph_at(chars, j)
}

/// No reph and no i-matra stands anywhere in `chars`.
pub open spec fn plain(chars: Seq<char>) -> bool {
    &&& forall|j: int| 0 <= j < chars.len() ==> chars[j] != I_MATRA
    &&& without_reph(chars)
}

/// `chars[i..]` holds no reph and no i-matra, so it is written as it stands.
proof fn lemma_plain_tail(chars: Seq<char>, i: int, out: Seq<char>)
    requires
        0 <= i <= chars.len(),
        forall|j: int| i <= j < chars.len() ==> chars[j] != I_MATRA,
        forall|j: int| i <= j ==> !#[trigger] reph_at(chars, j),
    ensures
        reordered_from(chars, i, out) == out + chars.skip(i),
    decreases chars.len() - i,
{
    if i < chars.len() {
        assert(!reph_at(chars, i));
        lemma_plain_tail(chars, i + 1, out.push(chars[i]));
        assert(out.push(chars[i]) + chars.skip(i + 1) == out + chars.skip(i));
    } else {
        assert(out + chars.skip(i) == out);
    }
}

/// Text without a reph and without an i-matra is left untouched.
pub proof fn plain_text_is_untouched(chars: Seq<char>)
    requires
        plain(chars),
    ensures
        reordered(chars) == chars,
{
    lemma_plain_tail(chars, 0, Seq::empty());
    assert(Seq::<char>::empty() + chars.skip(0) == chars);
}

proof fn lemma_multiset_split(chars: Seq<char>, k: int)
    requires
        0 <= k <= chars.len(),
    ensures
        chars.to_multiset() == chars.take(k).to_multiset().add(chars.skip(k).to_multiset()),
{
    assert(chars.take(k) + chars.skip(k) == chars);
    vstd::seq_lib::lemma_multiset_commutative(chars.take(k), chars.skip(k));
}

proof fn lemma_reordered_from_multiset(chars: Seq<char>, i: int, out: Seq<char>)
    requires
        0 <= i <= chars.len(),
    ensures
        reordered_from(chars, i, out).to_multiset() == out.to_multiset().add(
            chars.skip(i).to_multiset(),
        ),
    decreases chars.len() - i,
{
    broadcast use vstd::seq_lib::group_to_multiset_ensures;

    if i >= chars.len() {
        assert(chars.skip(i) == Seq::<char>::empty());
        assert(out.to_multiset().add(chars.skip(i).to_multiset()) =~= out.to_multiset());
    } else if reph_at(chars, i) {
        let start = trailing_cluster(out);
        let reph = seq![RA, VIRAMA];
        trailing_cluster_in_bounds(out);
        lemma_reordered_from_multiset(chars, i + 2, with_reph(out));
        lemma_multiset_split(out, start);
        vstd::seq_lib::lemma_multiset_commutative(out.take(start), reph);
        vstd::seq_lib::lemma_multiset_commutative(out.take(start) + reph, out.skip(start));
        assert(chars.skip(i) == reph + chars.skip(i + 2));
        vstd::seq_lib::lemma_multiset_commutative(reph, chars.skip(i + 2));
        assert(reordered_from(chars, i, out).to_multiset() =~= out.to_multiset().add(
            chars.skip(i).to_multiset(),
        ));
    } else if chars[i] == I_MATRA && i + 1 < chars.len() {
        let end = cluster_end(chars, i + 1);
        joined_end_in_bounds(chars, i + 2);
        let cluster = chars.subrange(i + 1, end);
        lemma_reordered_from_multiset(chars, end, out + cluster.push(I_MATRA));
        vstd::seq_lib::lemma_multiset_commutative(out, cluster.push(I_MATRA));
        assert(chars.skip(i) == seq![I_MATRA] + cluster + chars.skip(end));
        vstd::seq_lib::lemma_multiset_commutative(seq![I_MATRA], cluster);
        vstd::seq_lib::lemma_multiset_commutative(seq![I_MATRA] + cluster, chars.skip(end));
        assert(cluster.push(I_MATRA) == cluster + seq![I_MATRA]);
        vstd::seq_lib::lemma_multiset_commutative(cluster, seq![I_MATRA]);
        assert(reordered_from(chars, i, out).to_multiset() =~= out.to_multiset().add(
            chars.skip(i).to_multiset(),
        ));
    } else {
        lemma_reordered_from_multiset(chars, i + 1, out.push(chars[i]));
        assert(chars.skip(i) == seq![chars[i]] + chars.skip(i + 1));
        vstd::seq_lib::lemma_multiset_commutative(seq![chars[i]], chars.skip(i + 1));
        assert(out.push(chars[i]) == out + seq![chars[i]]);
        vstd::seq_lib::lemma_multiset_commutative(out, seq![chars[i]]);
        assert(reordered_from(chars, i, out).to_multiset() =~= out.to_multiset().add(
            chars.skip(i).to_multiset(),
        ));
    }
}

/// Reordering only moves characters: none is lost, none is added.
pub proof fn reordering_keeps_every_character(chars: Seq<char>)
    ensures
        reordered(chars).to_multiset() == chars.to_multiset(),
        reordered(chars).len() == chars.len(),
{
    broadcast use vstd::seq_lib::group_to_multiset_ensures;

    lemma_reordered_from_multiset(chars, 0, Seq::empty());
    assert(chars.skip(0) == chars);
    assert(Seq::<char>::empty().to_multiset().add(chars.to_multiset()) =~= chars.to_multiset());
    assert(reordered(chars).to_multiset().len() == reordered(chars).len());
    assert(chars.to_multiset().len() == chars.len());
}

proof fn lemma_joined_end_is_unique(chars: Seq<char>, i: int, end: int)
    requires
        0 <= i <= end <= chars.len(),
        (end - i) % 2 == 0,
        forall|j: int| i <= j < end && (j - i) % 2 == 0 ==> chars[j] == VIRAMA,
        !(end + 1 < chars.len() && chars[end] == VIRAMA),
    ensures
        joined_end(chars, i) == end,
    decreases end - i,
{
    if i < end {
        assert(chars[i] == VIRAMA);
        lemma_joined_end_is_unique(chars, i + 2, end);
    }
}

proof fn lemma_joined_end_of_tail(chars: Seq<char>, from: int, i: int)
    requires
        0 <= from <= i <= chars.len(),
    ensures
        joined_end(chars, i) == from + joined_end(chars.skip(from), i - from),
    decreases chars.len() - i,
{
    if i + 1 < chars.len() && chars[i] == VIRAMA {
        lemma_joined_end_of_tail(chars, from, i + 2);
    }
}

/// What is still to come is written as it would be at the head of a text.
proof fn lemma_reordered_tail(chars: Seq<char>, from: int, i: int, out: Seq<char>)
    requires
        0 <= from <= i <= chars.len(),
    ensures
        reordered_from(chars, i, out) == reordered_from(chars.skip(from), i - from, out),
    decreases chars.len() - i,
{
    let tail = chars.skip(from);
    if i < chars.len() {
        assert(tail[i - from] == chars[i]);
        assert(reph_at(tail, i - from) == reph_at(chars, i));
        if reph_at(chars, i) {
            lemma_reordered_tail(chars, from, i + 2, with_reph(out));
        } else if chars[i] == I_MATRA && i + 1 < chars.len() {
            let end = cluster_end(chars, i + 1);
            joined_end_in_bounds(chars, i + 2);
            lemma_joined_end_of_tail(chars, from, i + 2);
            assert(tail.subrange(i - from + 1, end - from) == chars.subrange(i + 1, end));
            lemma_reordered_tail(
                chars,
                from,
                end,
                out + chars.subrange(i + 1, end).push(I_MATRA),
            );
        } else {
            lemma_reordered_tail(chars, from, i + 1, out.push(chars[i]));
        }
    }
}

/// Without a reph nothing goes back into what is already written.
proof fn lemma_written_stays(chars: Seq<char>, i: int, written: Seq<char>, out: Seq<char>)
    requires
        0 <= i <= chars.len(),
        forall|j: int| i <= j ==> !#[trigger] reph_at(chars, j),
    ensures
        reordered_from(chars, i, written + out) == written + reordered_from(chars, i, out),
    decreases chars.len() - i,
{
    if i < chars.len() {
        assert(!reph_at(chars, i));
        if chars[i] == I_MATRA && i + 1 < chars.len() {
            let end = cluster_end(chars, i + 1);
            joined_end_in_bounds(chars, i + 2);
            let moved = chars.subrange(i + 1, end).push(I_MATRA);
            lemma_written_stays(chars, end, written, out + moved);
            assert((written + out) + moved == written + (out + moved));
        } else {
            lemma_written_stays(chars, i + 1, written, out.push(chars[i]));
            assert((written + out).push(chars[i]) == written + out.push(chars[i]));
        }
    }
}

/// Once `out` is written, a rest without a reph follows it, reordered on its
/// own.
proof fn lemma_rest_on_its_own(chars: Seq<char>, i: int, out: Seq<char>)
    requires
        0 <= i <= chars.len(),
        without_reph(chars.skip(i)),
    ensures
        reordered_from(chars, i, out) == out + reordered(chars.skip(i)),
{
    let rest = chars.skip(i);
    lemma_reordered_tail(chars, i, i, out);
    assert forall|j: int| 0 <= j implies !#[trigger] reph_at(rest, j) by {}
    lemma_written_stays(rest, 0, out, Seq::empty());
    assert(out + Seq::<char>::empty() == out);
}

/// `chars[i..k]` holds no reph and no i-matra, so it is written as it stands.
proof fn lemma_plain_head(chars: Seq<char>, i: int, k: int, out: Seq<char>)
    requires
        0 <= i <= k <= chars.len(),
        forall|j: int| i <= j < k ==> chars[j] != I_MATRA,
        forall|j: int| i <= j < k ==> !#[trigger] reph_at(chars, j),
    ensures
        reordered_from(chars, i, out) == reordered_from(chars, k, out + chars.subrange(i, k)),
    decreases k - i,
{
    if i < k {
        assert(!reph_at(chars, i));
        lemma_plain_head(chars, i + 1, k, out.push(chars[i]));
        assert(out.push(chars[i]) + chars.subrange(i + 1, k) == out + chars.subrange(i, k));
    } else {
        assert(out + chars.subrange(i, k) == out);
    }
}

/// An i-matra drawn ahead of a cluster lands right after that cluster: it does
/// not walk past what follows, and nothing else is moved on its account.
pub proof fn i_matra_follows_its_cluster(head: Seq<char>, cluster: Seq<char>, rest: Seq<char>)
    requires
        plain(head),
        one_cluster(cluster + rest, 0, cluster.len() as int),
        without_reph(rest),
    ensures
        reordered(head + seq![I_MATRA] + cluster + rest) == head + cluster + seq![I_MATRA]
            + reordered(rest),
{
    let chars = head + seq![I_MATRA] + cluster + rest;
    let k = head.len() as int;
    let end = k + 1 + cluster.len();
    let joined = cluster + rest;
    assert forall|j: int| 0 <= j < joined.len() implies chars[k + 1 + j] == joined[j] by {}
    assert forall|j: int| k + 2 <= j < end && (j - k - 2) % 2 == 0 implies chars[j] == VIRAMA by {
        assert(joined[j - k - 1] == VIRAMA);
    }
    if end + 1 < chars.len() {
        assert(chars[end] == joined[end - k - 1]);
    }
    lemma_joined_end_is_unique(chars, k + 2, end);
    assert(chars.take(k) == head);
    assert(chars[k] == I_MATRA);
    lemma_plain_head_of(chars, head);
    assert(!reph_at(chars, k));
    assert(chars.subrange(k + 1, end) == cluster);
    let out = head + cluster.push(I_MATRA);
    assert(reordered(chars) == reordered_from(chars, end, out));
    assert(chars.skip(end) == rest);
    lemma_rest_on_its_own(chars, end, out);
    assert(out == head + cluster + seq![I_MATRA]);
}

/// A plain head is written as it stands, if what follows it does not begin with
/// a virama.
proof fn lemma_plain_head_of(chars: Seq<char>, head: Seq<char>)
    requires
        plain(head),
        head.len() < chars.len(),
        chars.take(head.len() as int) == head,
        chars[head.len() as int] != VIRAMA,
    ensures
        reordered(chars) == reordered_from(chars, head.len() as int, head),
{
    let k = head.len() as int;
    assert forall|j: int| 0 <= j < k implies chars[j] != I_MATRA by {
        assert(chars[j] == head[j]);
    }
    assert forall|j: int| 0 <= j < k implies !#[trigger] reph_at(chars, j) by {
        assert(!reph_at(head, j));
        assert(chars[j] == head[j]);
        if j + 1 < k {
            assert(chars[j + 1] == head[j + 1]);
        }
    }
    lemma_plain_head(chars, 0, k, Seq::empty());
    assert(chars.subrange(0, k) == head);
    assert(Seq::<char>::empty() + head == head);
}

/// A reph drawn after plain text moves in front of the cluster that ends it,
/// and what follows is not moved on its account.
pub proof fn reph_precedes_its_cluster(head: Seq<char>, rest: Seq<char>)
    requires
        plain(head),
        without_reph(rest),
    ensures
        ({
            let start = trailing_cluster(head);
            reordered(head + seq![RA, VIRAMA] + rest) == head.take(start) + seq![RA, VIRAMA]
                + head.skip(start) + reordered(rest)
        }),
{
    let visual = head + seq![RA, VIRAMA] + rest;
    let k = head.len() as int;
    assert(visual.take(k) == head);
    assert(visual[k] == RA);
    lemma_plain_head_of(visual, head);
    assert(reph_at(visual, k));
    assert(visual.skip(k + 2) == rest);
    lemma_rest_on_its_own(visual, k + 2, with_reph(head));
}

/// No i-matra is left open at the end of `drawn`: neither is one its last
/// character, nor does it end in a virama that may join more to the cluster of
/// one. What is drawn next does not alter how `drawn` is read, unless it begins
/// with a virama.
pub open spec fn settled(drawn: Seq<char>) -> bool {
    forall|j: int|
        0 <= j < drawn.len() && #[trigger] drawn[j] == I_MATRA && (drawn.len() - 1 - j) % 2 == 0
            ==> exists|m: int|
            j < m < drawn.len() && (m - j) % 2 == 0 && #[trigger] drawn[m] != VIRAMA
}

/// A run that stops before the end of `drawn` is no longer with more behind it.
proof fn lemma_joined_end_of_head(drawn: Seq<char>, more: Seq<char>, from: int, i: int)
    requires
        settled(drawn),
        0 <= from,
        from + 2 <= i <= drawn.len(),
        drawn[from] == I_MATRA,
        (i - from) % 2 == 0,
        forall|m: int| from < m < i && (m - from) % 2 == 0 ==> #[trigger] drawn[m] == VIRAMA,
        more.len() > 1 ==> more[0] != VIRAMA,
    ensures
        joined_end(drawn + more, i) == joined_end(drawn, i),
    decreases drawn.len() - i,
{
    let chars = drawn + more;
    if i == drawn.len() {
        if i + 1 < chars.len() {
            assert(chars[i] == more[0]);
        }
    } else {
        assert(chars[i] == drawn[i]);
        if drawn[i] == VIRAMA {
            if i + 1 < drawn.len() {
                lemma_joined_end_of_head(drawn, more, from, i + 2);
            } else {
                assert((drawn.len() - 1 - from) % 2 == 0);
                let m = choose|m: int|
                    from < m < drawn.len() && (m - from) % 2 == 0 && #[trigger] drawn[m] != VIRAMA;
                assert(m <= i);
                assert(false);
            }
        }
    }
}

/// What is drawn first is written as if nothing came behind it.
proof fn lemma_settled_head(drawn: Seq<char>, more: Seq<char>, i: int, out: Seq<char>)
    requires
        settled(drawn),
        more.len() > 1 ==> more[0] != VIRAMA,
        drawn.len() > 0 && drawn.last() == RA && more.len() > 0 ==> more[0] != VIRAMA,
        0 <= i <= drawn.len(),
    ensures
        reordered_from(drawn + more, i, out) == reordered_from(
            drawn + more,
            drawn.len() as int,
            reordered_from(drawn, i, out),
        ),
    decreases drawn.len() - i,
{
    let chars = drawn + more;
    if i < drawn.len() {
        assert(chars[i] == drawn[i]);
        if i + 1 < drawn.len() {
            assert(chars[i + 1] == drawn[i + 1]);
        } else if i + 1 < chars.len() {
            assert(chars[i + 1] == more[0]);
        }
        assert(reph_at(chars, i) == reph_at(drawn, i));
        if reph_at(drawn, i) {
            lemma_settled_head(drawn, more, i + 2, with_reph(out));
        } else if drawn[i] == I_MATRA {
            if i + 1 == drawn.len() {
                assert((drawn.len() - 1 - i) % 2 == 0);
                assert(false);
            }
            let end = cluster_end(drawn, i + 1);
            joined_end_in_bounds(drawn, i + 2);
            lemma_joined_end_of_head(drawn, more, i, i + 2);
            assert(chars.subrange(i + 1, end) == drawn.subrange(i + 1, end));
            lemma_settled_head(
                drawn,
                more,
                end,
                out + drawn.subrange(i + 1, end).push(I_MATRA),
            );
        } else {
            lemma_settled_head(drawn, more, i + 1, out.push(drawn[i]));
        }
    }
}

/// Nothing drawn is nothing written.
pub proof fn nothing_is_written_of_nothing()
    ensures
        reordered(Seq::empty()) == Seq::<char>::empty(),
{
}

/// What follows a text is written behind it, in its own order: without a reph
/// nothing reaches back.
pub proof fn what_follows_stands_behind(drawn: Seq<char>, rest: Seq<char>)
    requires
        settled(drawn),
        rest.len() > 0 ==> rest[0] != VIRAMA,
        forall|j: int|
            0 <= j && j + 1 < rest.len() && #[trigger] rest[j] == RA ==> rest[j + 1] != VIRAMA,
    ensures
        reordered(drawn + rest) == reordered(drawn) + reordered(rest),
{
    let chars = drawn + rest;
    lemma_settled_head(drawn, rest, 0, Seq::empty());
    assert(chars.skip(drawn.len() as int) == rest);
    assert(without_reph(rest));
    lemma_rest_on_its_own(chars, drawn.len() as int, reordered(drawn));
}

/// A single character that is no virama, a lone i-matra at the end included, is
/// written where it is drawn.
pub proof fn a_character_stays_where_it_is(drawn: Seq<char>, c: char)
    requires
        settled(drawn),
        c != VIRAMA,
    ensures
        reordered(drawn.push(c)) == reordered(drawn).push(c),
{
    let rest = seq![c];
    what_follows_stands_behind(drawn, rest);
    assert(drawn + rest == drawn.push(c));
    assert(!reph_at(rest, 0));
    assert(reordered(rest) == rest) by {
        reveal_with_fuel(reordered_from, 3);
        assert(Seq::<char>::empty().push(c) == rest);
    }
    assert(reordered(drawn) + rest == reordered(drawn).push(c));
}

/// A virama at the end is written where it is drawn, unless it makes a reph of
/// the letter before it.
pub proof fn a_last_virama_stays_where_it_is(drawn: Seq<char>)
    requires
        settled(drawn),
        drawn.len() > 0 ==> drawn.last() != RA,
    ensures
        reordered(drawn.push(VIRAMA)) == reordered(drawn).push(VIRAMA),
{
    let rest = seq![VIRAMA];
    let chars = drawn + rest;
    let k = drawn.len() as int;
    lemma_settled_head(drawn, rest, 0, Seq::empty());
    assert(chars == drawn.push(VIRAMA));
    assert(chars[k] == VIRAMA);
    assert(!reph_at(chars, k));
    assert(reordered_from(chars, k + 1, reordered(drawn).push(VIRAMA)) == reordered(drawn).push(
        VIRAMA,
    ));
}

/// Whatever has been drawn before, an i-matra is written right behind the one
/// cluster that it is drawn in front of: a character, and the characters that
/// viramas join to it, as many as there are.
pub proof fn an_i_matra_is_written_behind_one_cluster(
    drawn: Seq<char>,
    cluster: Seq<char>,
    rest: Seq<char>,
)
    requires
        settled(drawn),
        cluster.len() % 2 == 1,
        forall|j: int| 0 <= j < cluster.len() && j % 2 == 1 ==> #[trigger] cluster[j] == VIRAMA,
        rest.len() >= 2 ==> rest[0] != VIRAMA,
        forall|j: int|
            0 <= j && j + 1 < rest.len() && #[trigger] rest[j] == RA ==> rest[j + 1] != VIRAMA,
    ensures
        reordered(drawn + seq![I_MATRA] + cluster + rest) == reordered(drawn) + cluster
            + seq![I_MATRA] + reordered(rest),
{
    let more = seq![I_MATRA] + cluster + rest;
    let chars = drawn + more;
    let k = drawn.len() as int;
    let end = k + 1 + cluster.len();
    assert(drawn + seq![I_MATRA] + cluster + rest == chars);
    assert(more[0] == I_MATRA);
    lemma_settled_head(drawn, more, 0, Seq::empty());
    let out = reordered(drawn);
    assert(chars[k] == I_MATRA);
    assert(!reph_at(chars, k));
    assert forall|j: int| k + 2 <= j < end && (j - k - 2) % 2 == 0 implies chars[j] == VIRAMA by {
        assert(cluster[j - k - 1] == VIRAMA);
    }
    if end + 1 < chars.len() {
        assert(chars[end] == rest[0]);
    }
    lemma_joined_end_is_unique(chars, k + 2, end);
    assert(chars.subrange(k + 1, end) == cluster);
    assert(chars.skip(end) == rest);
    assert(without_reph(rest));
    let after = out + cluster.push(I_MATRA);
    lemma_rest_on_its_own(chars, end, after);
    assert(after == out + cluster + seq![I_MATRA]);
}

/// The cluster that a text ends in is told by its shape.
proof fn lemma_trailing_cluster_is_unique(out: Seq<char>, start: int, base: int)
    requires
        0 <= start <= base < out.len(),
        forall|j: int| base < j < out.len() ==> combining_mark(#[trigger] out[j]),
        base == 0 || !combining_mark(out[base]),
        (base - start) % 2 == 0,
        forall|j: int| start < j < base && (j - start) % 2 == 1 ==> #[trigger] out[j] == VIRAMA,
        start < 2 || out[start - 1] != VIRAMA,
    ensures
        trailing_cluster(out) == start,
{
    lemma_base_index_is_unique(out, out.len() - 1, base);
    lemma_joined_start_is_unique(out, base, start);
}

proof fn lemma_base_index_is_unique(out: Seq<char>, i: int, base: int)
    requires
        0 <= base <= i < out.len(),
        forall|j: int| base < j <= i ==> combining_mark(#[trigger] out[j]),
        base == 0 || !combining_mark(out[base]),
    ensures
        base_index(out, i) == base,
    decreases i,
{
    if base < i {
        assert(combining_mark(out[i]));
        lemma_base_index_is_unique(out, i - 1, base);
    }
}

proof fn lemma_joined_start_is_unique(out: Seq<char>, i: int, start: int)
    requires
        0 <= start <= i < out.len(),
        (i - start) % 2 == 0,
        forall|j: int| start < j < i && (j - start) % 2 == 1 ==> #[trigger] out[j] == VIRAMA,
        start < 2 || out[start - 1] != VIRAMA,
    ensures
        joined_start(out, i) == start,
    decreases i,
{
    if start < i {
        assert(out[i - 1] == VIRAMA);
        lemma_joined_start_is_unique(out, i - 2, start);
    }
}

/// A reph that nothing is drawn before stays where it is.
pub proof fn a_leading_reph_stays_where_it_is(rest: Seq<char>)
    requires
        forall|j: int|
            0 <= j && j + 1 < rest.len() && #[trigger] rest[j] == RA ==> rest[j + 1] != VIRAMA,
    ensures
        reordered(seq![RA, VIRAMA] + rest) == seq![RA, VIRAMA] + reordered(rest),
{
    let chars = seq![RA, VIRAMA] + rest;
    let empty = Seq::<char>::empty();
    assert(reph_at(chars, 0));
    assert(with_reph(empty) == seq![RA, VIRAMA]);
    assert(chars.skip(2) == rest);
    assert(without_reph(rest));
    lemma_rest_on_its_own(chars, 2, with_reph(empty));
}

/// Whatever has been drawn before, rephs and i-matras included, a reph is
/// written in front of the cluster that is written last. That cluster begins at
/// `start`: from there viramas alternate with the characters they join up to
/// `base`, behind `base` only marks follow, and nothing in front is joined on.
pub proof fn a_reph_is_written_ahead_of_the_last_cluster(
    drawn: Seq<char>,
    rest: Seq<char>,
    start: int,
    base: int,
)
    requires
        settled(drawn),
        forall|j: int|
            0 <= j && j + 1 < rest.len() && #[trigger] rest[j] == RA ==> rest[j + 1] != VIRAMA,
        0 <= start <= base < reordered(drawn).len(),
        forall|j: int|
            base < j < reordered(drawn).len() ==> combining_mark(#[trigger] reordered(drawn)[j]),
        base == 0 || !combining_mark(reordered(drawn)[base]),
        (base - start) % 2 == 0,
        forall|j: int|
            start < j < base && (j - start) % 2 == 1 ==> #[trigger] reordered(drawn)[j] == VIRAMA,
        start < 2 || reordered(drawn)[start - 1] != VIRAMA,
    ensures
        reordered(drawn + seq![RA, VIRAMA] + rest) == reordered(drawn).take(start) + seq![
            RA,
            VIRAMA,
        ] + reordered(drawn).skip(start) + reordered(rest),
{
    let more = seq![RA, VIRAMA] + rest;
    let chars = drawn + more;
    let k = drawn.len() as int;
    assert(drawn + seq![RA, VIRAMA] + rest == chars);
    assert(more[0] == RA);
    lemma_settled_head(drawn, more, 0, Seq::empty());
    assert(chars[k] == RA && chars[k + 1] == VIRAMA);
    assert(reph_at(chars, k));
    lemma_trailing_cluster_is_unique(reordered(drawn), start, base);
    assert(chars.skip(k + 2) == rest);
    assert(without_reph(rest));
    lemma_rest_on_its_own(chars, k + 2, with_reph(reordered(drawn)));
}

/// The last cluster of `out` begins at `start`, and behind `base` stand only the
/// marks on it.
pub open spec fn last_cluster(out: Seq<char>, start: int, base: int) -> bool {
    &&& 0 <= start <= base < out.len()
    &&& forall|j: int| base < j < out.len() ==> combining_mark(#[trigger] out[j])
    &&& base == 0 || !combining_mark(out[base])
    &&& (base - start) % 2 == 0
    &&& forall|j: int| start < j < base && (j - start) % 2 == 1 ==> #[trigger] out[j] == VIRAMA
    &&& start < 2 || out[start - 1] != VIRAMA
}

/// A text that is not empty ends in a cluster, and in one only.
pub proof fn every_text_ends_in_one_cluster(out: Seq<char>)
    requires
        out.len() > 0,
    ensures
        last_cluster(out, trailing_cluster(out), base_index(out, out.len() - 1)),
        exists|start: int, base: int| #[trigger] last_cluster(out, start, base),
        forall|start: int, base: int, other: int, last: int| #[trigger]
            last_cluster(out, start, base) && #[trigger] last_cluster(out, other, last) ==> start
                == other && base == last,
{
    let base = base_index(out, out.len() - 1);
    let start = trailing_cluster(out);
    trailing_cluster_is_whole(out);
    lemma_base_index_stops(out, out.len() - 1);
    assert(last_cluster(out, start, base));
    assert forall|start: int, base: int, other: int, last: int| #[trigger]
        last_cluster(out, start, base) && #[trigger] last_cluster(
            out,
            other,
            last,
        ) implies start == other && base == last by {
        lemma_base_index_is_unique(out, out.len() - 1, base);
        lemma_base_index_is_unique(out, out.len() - 1, last);
        lemma_trailing_cluster_is_unique(out, start, base);
        lemma_trailing_cluster_is_unique(out, other, last);
    }
}

proof fn lemma_base_index_stops(out: Seq<char>, i: int)
    requires
        0 <= i < out.len(),
    ensures
        base_index(out, i) == 0 || !combining_mark(out[base_index(out, i)]),
    decreases i,
{
    if i > 0 && combining_mark(out[i]) {
        lemma_base_index_stops(out, i - 1);
    }
}

/// A reph drawn behind a cluster that has an i-matra in front of it crowns that
/// cluster: it is written ahead of the cluster, and the i-matra behind it.
pub proof fn a_reph_crowns_the_cluster_of_an_i_matra(
    head: Seq<char>,
    cluster: Seq<char>,
    rest: Seq<char>,
)
    requires
        plain(head),
        head.len() > 0 ==> head.last() != VIRAMA,
        cluster.len() % 2 == 1,
        forall|j: int| 0 <= j < cluster.len() && j % 2 == 1 ==> #[trigger] cluster[j] == VIRAMA,
        forall|j: int|
            0 <= j < cluster.len() && j % 2 == 0 ==> consonant(#[trigger] cluster[j]),
        forall|j: int|
            0 <= j && j + 1 < rest.len() && #[trigger] rest[j] == RA ==> rest[j + 1] != VIRAMA,
    ensures
        reordered(head + seq![I_MATRA] + cluster + seq![RA, VIRAMA] + rest) == head + seq![
            RA,
            VIRAMA,
        ] + cluster + seq![I_MATRA] + reordered(rest),
{
    let nothing = Seq::<char>::empty();
    let drawn = head + seq![I_MATRA] + cluster;
    let k = head.len() as int;
    let last = drawn.len() - 1;
    assert(settled(head)) by {
        assert forall|j: int| 0 <= j < head.len() implies head[j] != I_MATRA by {}
    }
    an_i_matra_is_written_behind_one_cluster(head, cluster, nothing);
    plain_text_is_untouched(head);
    assert(drawn + nothing == drawn);
    let out = head + cluster + seq![I_MATRA];
    assert(reordered(drawn) == out) by {
        assert(out + nothing == out);
    }
    assert(consonant(cluster[cluster.len() - 1]));
    assert(drawn[last] == cluster[cluster.len() - 1]);
    assert(settled(drawn)) by {
        assert forall|j: int|
            0 <= j < drawn.len() && #[trigger] drawn[j] == I_MATRA && (drawn.len() - 1 - j) % 2
                == 0 implies exists|m: int|
            j < m < drawn.len() && (m - j) % 2 == 0 && #[trigger] drawn[m] != VIRAMA by {
            assert(j != last);
            assert(drawn[last] != VIRAMA);
        }
    }
    let base = k + cluster.len() - 1;
    assert(out[base] == cluster[cluster.len() - 1]);
    assert forall|j: int| base < j < out.len() implies combining_mark(#[trigger] out[j]) by {
        assert(out[j] == I_MATRA);
    }
    assert forall|j: int| k < j < base && (j - k) % 2 == 1 implies #[trigger] out[j] == VIRAMA by {
        assert(out[j] == cluster[j - k]);
    }
    if k >= 1 {
        assert(out[k - 1] == head.last());
    }
    a_reph_is_written_ahead_of_the_last_cluster(drawn, rest, k, base);
    assert(out.take(k) == head);
    assert(out.skip(k) == cluster + seq![I_MATRA]);
    assert(head + seq![RA, VIRAMA] + (cluster + seq![I_MATRA]) == head + seq![RA, VIRAMA] + cluster
        + seq![I_MATRA]);
}

} // verus!
