//! Reassembling legacy-decoded text into well-formed Devanagari.

use vstd::prelude::*;
use regex::Regex;
use crate::pattern::{compile, pattern_compiles, regex_pattern, replace_all, replaced};
use crate::script::{decimal_digit, is_decimal_digit, is_white_space, white_space, DANDA};
use crate::tables::POST_RULES;
use crate::text::{chars_of, text_of};

verus! {

/// A rewrite, ready to be applied.
pub struct PostRule {
    regex: Regex,
    replacement: &'static str,
}

impl View for PostRule {
    type V = (Seq<char>, Seq<char>);

    closed spec fn view(&self) -> (Seq<char>, Seq<char>) {
        (regex_pattern(self.regex), self.replacement@)
    }
}

/// A rewrite whose pattern is not a valid regular expression.
#[derive(Debug)]
pub struct InvalidRule {
    pub pattern: String,
}

/// A word and the white space that ends it, if any does.
pub struct Word {
    pub text: String,
    pub trailing: Option<char>,
}

impl View for Word {
    type V = (Seq<char>, Option<char>);

    open spec fn view(&self) -> (Seq<char>, Option<char>) {
        (self.text@, self.trailing)
    }
}

/// The patterns and replacements of a list of compiled rewrites.
pub open spec fn rules_view(rules: Seq<PostRule>) -> Seq<(Seq<char>, Seq<char>)> {
    rules.map_values(|rule: PostRule| rule@)
}

/// The patterns and replacements of a list of rewrites as written.
pub open spec fn sources_view(rules: Seq<(&'static str, &'static str)>) -> Seq<
    (Seq<char>, Seq<char>),
> {
    rules.map_values(|rule: (&'static str, &'static str)| (rule.0@, rule.1@))
}

/// Compile a list of rewrites, or tell which is the first that cannot be.
pub fn compile_rules(rules: &[(&'static str, &'static str)]) -> (compiled: Result<
    Vec<PostRule>,
    InvalidRule,
>)
    ensures
        compiled is Ok <==> forall|i: int|
            0 <= i < rules.len() ==> pattern_compiles((#[trigger] rules@[i]).0@),
        compiled matches Ok(compiled) ==> rules_view(compiled@) == sources_view(rules@),
        compiled matches Ok(compiled) ==> compiled.len() == rules.len() && forall|i: int|
            0 <= i < rules.len() ==> (#[trigger] compiled@[i])@.0 == rules@[i].0@
                && compiled@[i]@.1 == rules@[i].1@,
        compiled matches Err(invalid) ==> exists|i: int|
            {
                &&& 0 <= i < rules.len()
                &&& invalid.pattern@ == (#[trigger] rules@[i]).0@
                &&& !pattern_compiles(rules@[i].0@)
                &&& forall|j: int| 0 <= j < i ==> pattern_compiles((#[trigger] rules@[j]).0@)
            },
{
    let mut compiled: Vec<PostRule> = Vec::new();
    let mut i: usize = 0;
    while i < rules.len()
        invariant
            i <= rules.len(),
            forall|j: int| 0 <= j < i ==> pattern_compiles((#[trigger] rules@[j]).0@),
            rules_view(compiled@) == sources_view(rules@.take(i as int)),
        decreases rules.len() - i,
    {
        let (pattern, replacement) = rules[i];
        match compile(pattern) {
            Ok(regex) => {
                let ghost before = compiled@;
                let rule = PostRule { regex, replacement };
                compiled.push(rule);
                assert(rules_view(compiled@) == rules_view(before).push(rule@));
                assert(sources_view(rules@.take(i + 1)) == sources_view(rules@.take(i as int)).push(
                    (pattern@, replacement@),
                ));
            },
            Err(_) => {
                assert(rules@[i as int].0@ == pattern@);
                return Err(InvalidRule { pattern: pattern.to_string() });
            },
        }
        i += 1;
    }
    assert(rules@.take(rules@.len() as int) == rules@);
    proof {
        assert(rules_view(compiled@).len() == sources_view(rules@).len());
        assert forall|i: int| 0 <= i < rules.len() implies (#[trigger] compiled@[i])@.0
            == rules@[i].0@ && compiled@[i]@.1 == rules@[i].1@ by {
            assert(rules_view(compiled@)[i] == sources_view(rules@)[i]);
        }
    }
    Ok(compiled)
}

/// Compile the rewrites that finish what the keyboard layouts type.
pub fn compile_post_rules() -> (compiled: Result<Vec<PostRule>, InvalidRule>)
    ensures
        compiled is Ok <==> forall|i: int|
            0 <= i < POST_RULES@.len() ==> pattern_compiles((#[trigger] POST_RULES@[i]).0@),
        compiled matches Ok(compiled) ==> rules_view(compiled@) == sources_view(POST_RULES@),
        compiled matches Ok(compiled) ==> compiled.len() == POST_RULES@.len() && forall|i: int|
            0 <= i < POST_RULES@.len() ==> (#[trigger] compiled@[i])@.0 == POST_RULES@[i].0@
                && compiled@[i]@.1 == POST_RULES@[i].1@,
        compiled matches Err(invalid) ==> exists|i: int|
            {
                &&& 0 <= i < POST_RULES@.len()
                &&& invalid.pattern@ == (#[trigger] POST_RULES@[i]).0@
                &&& !pattern_compiles(POST_RULES@[i].0@)
                &&& forall|j: int| 0 <= j < i ==> pattern_compiles((#[trigger] POST_RULES@[j]).0@)
            },
{
    compile_rules(POST_RULES.as_slice())
}

/// Where the first white space of `text` stands, or how long it is.
pub open spec fn first_space(text: Seq<char>) -> int
    decreases text.len(),
{
    if text.len() == 0 || white_space(text[0]) {
        0
    } else {
        1 + first_space(text.skip(1))
    }
}

/// The words of `text`: every white space ends one, if only an empty one, and
/// what follows the last white space is one unless it is empty.
pub open spec fn words(text: Seq<char>) -> Seq<(Seq<char>, Option<char>)>
    decreases text.len(),
{
    if text.len() == 0 {
        Seq::empty()
    } else {
        let k = first_space(text);
        if 0 <= k < text.len() {
            seq![(text.take(k), Some(text[k]))] + words(text.skip(k + 1))
        } else {
            seq![(text, None)]
        }
    }
}

/// `text` after the rewrites, each applied to what the one before it made.
pub open spec fn with_post_rules(text: Seq<char>, rules: Seq<(Seq<char>, Seq<char>)>) -> Seq<char>
    decreases rules.len(),
{
    if rules.len() == 0 {
        text
    } else {
        let (pattern, replacement) = rules.last();
        replaced(pattern, with_post_rules(text, rules.drop_last()), replacement)
    }
}

/// A danda with a digit on each side stands at `i`.
pub open spec fn mistyped_point(text: Seq<char>, i: int) -> bool {
    &&& 0 < i && i + 1 < text.len()
    &&& text[i] == DANDA
    &&& decimal_digit(text[i - 1])
    &&& decimal_digit(text[i + 1])
}

/// `text` with a point in place of each danda between two digits.
pub open spec fn with_points(text: Seq<char>) -> Seq<char> {
    Seq::new(
        text.len(),
        |i: int|
            if mistyped_point(text, i) {
                '.'
            } else {
                text[i]
            },
    )
}

/// What becomes of one word.
pub open spec fn rewritten_word(word: Seq<char>, rules: Seq<(Seq<char>, Seq<char>)>) -> Seq<char> {
    if word.len() == 0 {
        Seq::empty()
    } else {
        with_points(with_post_rules(word, rules))
    }
}

/// A word's white space as text.
pub open spec fn trailing_text(trailing: Option<char>) -> Seq<char> {
    match trailing {
        Some(space) => seq![space],
        None => Seq::empty(),
    }
}

/// What becomes of a list of words, each followed by its white space.
pub open spec fn rewritten_words(
    words: Seq<(Seq<char>, Option<char>)>,
    rules: Seq<(Seq<char>, Seq<char>)>,
) -> Seq<char>
    decreases words.len(),
{
    if words.len() == 0 {
        Seq::empty()
    } else {
        let (word, trailing) = words.last();
        rewritten_words(words.drop_last(), rules) + rewritten_word(word, rules) + trailing_text(
            trailing,
        )
    }
}

/// What becomes of a text.
pub open spec fn rewritten(text: Seq<char>, rules: Seq<(Seq<char>, Seq<char>)>) -> Seq<char> {
    rewritten_words(words(text), rules)
}

/// A run without white space that ends at one, or at the end of the text, tells
/// where the first white space is.
proof fn lemma_first_space(text: Seq<char>, k: int)
    requires
        0 <= k <= text.len(),
        forall|j: int| 0 <= j < k ==> !white_space(#[trigger] text[j]),
        k < text.len() ==> white_space(text[k]),
    ensures
        first_space(text) == k,
    decreases k,
{
    if k > 0 {
        assert(!white_space(text[0]));
        let rest = text.skip(1);
        assert forall|j: int| 0 <= j < k - 1 implies !white_space(#[trigger] rest[j]) by {
            assert(!white_space(text[j + 1]));
        }
        lemma_first_space(rest, k - 1);
    }
}

/// Split a text into words, each with the white space that ends it.
pub fn split_words(text: &str) -> (list: Vec<Word>)
    ensures
        list@.map_values(|word: Word| word@) == words(text@),
{
    let chars = chars_of(text);
    let mut list: Vec<Word> = Vec::new();
    let mut start: usize = 0;
    assert(list@.map_values(|word: Word| word@) + words(chars@.skip(0)) == words(text@)) by {
        assert(chars@.skip(0) == text@);
    }
    while start < chars.len()
        invariant
            start <= chars.len(),
            list@.map_values(|word: Word| word@) + words(chars@.skip(start as int)) == words(text@),
        decreases chars.len() - start,
    {
        let ghost rest = chars@.skip(start as int);
        let ghost before = list@;
        let mut end: usize = start;
        let mut word: Vec<char> = Vec::new();
        while end < chars.len() && !is_white_space(chars[end])
            invariant
                start <= end <= chars.len(),
                rest == chars@.skip(start as int),
                word@ == chars@.subrange(start as int, end as int),
                forall|j: int| 0 <= j < end - start ==> !white_space(#[trigger] rest[j]),
            decreases chars.len() - end,
        {
            word.push(chars[end]);
            end += 1;
        }
        proof {
            lemma_first_space(rest, end - start);
        }
        let trailing = if end < chars.len() {
            Some(chars[end])
        } else {
            None
        };
        let word = Word { text: text_of(&word), trailing };
        list.push(word);
        let next: usize = if end < chars.len() {
            end + 1
        } else {
            end
        };
        proof {
            let tail = words(chars@.skip(next as int));
            if end < chars.len() {
                assert(rest.skip(end - start + 1) == chars@.skip(next as int));
                assert(rest.take(end - start) == chars@.subrange(start as int, end as int));
            } else {
                assert(chars@.skip(next as int) == Seq::<char>::empty());
                assert(rest == chars@.subrange(start as int, end as int));
            }
            assert(words(rest) == seq![word@] + tail);
            assert(list@.map_values(|word: Word| word@) == before.map_values(
                |word: Word| word@,
            ).push(word@));
            assert(before.map_values(|word: Word| word@) + words(rest) == list@.map_values(
                |word: Word| word@,
            ) + tail);
        }
        start = next;
    }
    assert(chars@.skip(start as int) == Seq::<char>::empty());
    assert(list@.map_values(|word: Word| word@) + words(chars@.skip(start as int))
        == list@.map_values(|word: Word| word@));
    list
}

/// Run the ordered rewrites on one word.
pub fn rewrite_word(word: &str, rules: &[PostRule]) -> (mapped: String)
    ensures
        mapped@ == with_post_rules(word@, rules_view(rules@)),
{
    let mut mapped = word.to_string();
    let ghost views = rules_view(rules@);
    let mut i: usize = 0;
    while i < rules.len()
        invariant
            i <= rules.len(),
            views == rules_view(rules@),
            mapped@ == with_post_rules(word@, views.take(i as int)),
        decreases rules.len() - i,
    {
        let rule = &rules[i];
        assert(views.take(i + 1).drop_last() == views.take(i as int));
        assert(views.take(i + 1).last() == rule@);
        mapped = replace_all(&rule.regex, mapped.as_str(), rule.replacement);
        i += 1;
    }
    assert(views.take(views.len() as int) == views);
    mapped
}

/// Reassemble legacy-decoded text into well-formed Devanagari.
///
/// Runs the layout's ordered rewrites per whitespace-delimited word: several
/// are anchored, and unbounded they would reach across a word boundary and
/// pull a matra onto the wrong syllable. Call this on merged items, never on
/// individual operands.
pub fn apply_post_rules(text: &str, rules: &[PostRule]) -> (out: String)
    ensures
        out@ == rewritten(text@, rules_view(rules@)),
{
    let list = split_words(text);
    let ghost views = list@.map_values(|word: Word| word@);
    let ghost patterns = rules_view(rules@);
    let mut out = String::new();
    let mut i: usize = 0;
    while i < list.len()
        invariant
            i <= list.len(),
            views == list@.map_values(|word: Word| word@),
            patterns == rules_view(rules@),
            out@ == rewritten_words(views.take(i as int), patterns),
        decreases list.len() - i,
    {
        let ghost before = out@;
        let word = &list[i];
        assert(views.take(i + 1).drop_last() == views.take(i as int));
        assert(views.take(i + 1).last() == word@);
        if !word.text.as_str().is_empty() {
            let mapped = rewrite_word(word.text.as_str(), rules);
            out.push_str(restore_decimal_points(mapped.as_str()).as_str());
        }
        assert(out@ == before + rewritten_word(word.text@, patterns));
        let ghost with_word = out@;
        if let Some(space) = word.trailing {
            out.push(space);
        }
        assert(out@ == with_word + trailing_text(word.trailing));
        i += 1;
    }
    assert(views.take(views.len() as int) == views);
    out
}

/// Put back the decimal points the keyboard tables turn into dandas.
///
/// On these layouts the period key types `।`, which is right for ending a
/// sentence and wrong inside a number: the tariff's rates are typed `19.78`
/// and print `१९.७८`, but decode to `१९।७८`. A danda is sentence-final
/// punctuation and never separates two digits, so a danda with a digit on each
/// side is always a decimal point that was mapped through the wrong key.
pub fn restore_decimal_points(text: &str) -> (restored: String)
    ensures
        restored@ == with_points(text@),
{
    let chars = chars_of(text);
    let mut restored = String::new();
    let mut i: usize = 0;
    while i < chars.len()
        invariant
            i <= chars.len(),
            chars@ == text@,
            restored@ == with_points(text@).take(i as int),
        decreases chars.len() - i,
    {
        let flanked = i > 0 && is_decimal_digit(chars[i - 1]) && i + 1 < chars.len()
            && is_decimal_digit(chars[i + 1]);
        if chars[i] == DANDA && flanked {
            restored.push('.');
        } else {
            restored.push(chars[i]);
        }
        i += 1;
    }
    assert(with_points(text@).take(text@.len() as int) == with_points(text@));
    restored
}

proof fn lemma_rewritten_words_concat(
    first: Seq<(Seq<char>, Option<char>)>,
    second: Seq<(Seq<char>, Option<char>)>,
    rules: Seq<(Seq<char>, Seq<char>)>,
)
    ensures
        rewritten_words(first + second, rules) == rewritten_words(first, rules) + rewritten_words(
            second,
            rules,
        ),
    decreases second.len(),
{
    if second.len() == 0 {
        assert(first + second == first);
        assert(rewritten_words(first, rules) + rewritten_words(second, rules) == rewritten_words(
            first,
            rules,
        ));
    } else {
        lemma_rewritten_words_concat(first, second.drop_last(), rules);
        assert((first + second).drop_last() == first + second.drop_last());
        assert((first + second).last() == second.last());
        assert(rewritten_words(first + second, rules) == rewritten_words(first, rules)
            + rewritten_words(second, rules));
    }
}

proof fn lemma_one_word(word: Seq<char>, trailing: Option<char>, rules: Seq<(Seq<char>, Seq<char>)>)
    ensures
        rewritten_words(seq![(word, trailing)], rules) == rewritten_word(word, rules)
            + trailing_text(trailing),
{
    let list = seq![(word, trailing)];
    assert(list.drop_last() == Seq::<(Seq<char>, Option<char>)>::empty());
    assert(rewritten_words(list.drop_last(), rules) == Seq::<char>::empty());
    assert(Seq::<char>::empty() + rewritten_word(word, rules) == rewritten_word(word, rules));
}

/// The first white space is the one that ends the leading run without any.
proof fn lemma_first_space_shape(text: Seq<char>)
    ensures
        0 <= first_space(text) <= text.len(),
        forall|j: int| 0 <= j < first_space(text) ==> !white_space(#[trigger] text[j]),
        first_space(text) < text.len() ==> white_space(text[first_space(text)]),
    decreases text.len(),
{
    if text.len() > 0 && !white_space(text[0]) {
        let rest = text.skip(1);
        lemma_first_space_shape(rest);
        assert forall|j: int| 0 <= j < first_space(text) implies !white_space(
            #[trigger] text[j],
        ) by {
            if j > 0 {
                assert(!white_space(rest[j - 1]));
            }
        }
        if first_space(text) < text.len() {
            assert(text[first_space(text)] == rest[first_space(rest)]);
        }
    }
}

/// The rewrites never reach across white space: what stands on either side of
/// it is rewritten as if it stood alone, and the white space stays.
pub proof fn words_are_rewritten_apart(
    first: Seq<char>,
    space: char,
    second: Seq<char>,
    rules: Seq<(Seq<char>, Seq<char>)>,
)
    requires
        white_space(space),
    ensures
        rewritten(first + seq![space] + second, rules) == rewritten(first, rules) + seq![space]
            + rewritten(second, rules),
    decreases first.len(),
{
    let text = first + seq![space] + second;
    let k = first_space(first);
    lemma_first_space_shape(first);
    assert forall|j: int| 0 <= j < first.len() implies text[j] == first[j] by {}
    assert(text[first.len() as int] == space);
    assert forall|j: int| 0 <= j < k implies !white_space(#[trigger] text[j]) by {
        assert(!white_space(first[j]));
    }
    lemma_first_space(text, k);
    assert(text.take(k) == first.take(k));
    let rest = text.skip(k + 1);
    let head = seq![(text.take(k), Some(text[k]))];
    assert(words(text) == head + words(rest));
    lemma_rewritten_words_concat(head, words(rest), rules);
    lemma_one_word(text.take(k), Some(text[k]), rules);
    let word = rewritten_word(text.take(k), rules);
    assert(rewritten(text, rules) == word + seq![text[k]] + rewritten(rest, rules));
    if k < first.len() {
        let tail = first.skip(k + 1);
        words_are_rewritten_apart(tail, space, second, rules);
        assert(rest == tail + seq![space] + second);
        assert(words(first) == head + words(tail));
        lemma_rewritten_words_concat(head, words(tail), rules);
        assert(rewritten(first, rules) == word + seq![text[k]] + rewritten(tail, rules));
        assert(rewritten(text, rules) == rewritten(first, rules) + seq![space] + rewritten(
            second,
            rules,
        ));
    } else {
        assert(rest == second);
        assert(first.take(k) == first);
        assert(rewritten(first, rules) == word) by {
            if first.len() > 0 {
                assert(words(first) == seq![(first, None::<char>)]);
                lemma_one_word(first, None, rules);
                assert(word + Seq::<char>::empty() == word);
            }
        }
    }
}

/// White space alone comes out as it went in.
pub proof fn white_space_is_kept(text: Seq<char>, rules: Seq<(Seq<char>, Seq<char>)>)
    requires
        forall|i: int| 0 <= i < text.len() ==> white_space(#[trigger] text[i]),
    ensures
        rewritten(text, rules) == text,
    decreases text.len(),
{
    if text.len() > 0 {
        let empty = Seq::<char>::empty();
        let rest = text.skip(1);
        assert(white_space(text[0]));
        assert forall|i: int| 0 <= i < rest.len() implies white_space(#[trigger] rest[i]) by {
            assert(white_space(text[i + 1]));
        }
        white_space_is_kept(rest, rules);
        words_are_rewritten_apart(empty, text[0], rest, rules);
        assert(empty + seq![text[0]] + rest == text);
        assert(rewritten(empty, rules) == empty);
    }
}

/// Restoring points changes a character only where a danda stands between two
/// digits, and never how many characters there are.
pub proof fn only_mistyped_points_change(text: Seq<char>, i: int)
    requires
        0 <= i < text.len(),
    ensures
        with_points(text).len() == text.len(),
        with_points(text)[i] != text[i] <==> mistyped_point(text, i),
        mistyped_point(text, i) ==> with_points(text)[i] == '.',
{
}

/// Once points are restored no danda stands between two digits, so restoring
/// them again changes nothing.
pub proof fn no_mistyped_point_is_left(text: Seq<char>)
    ensures
        forall|i: int| !#[trigger] mistyped_point(with_points(text), i),
        with_points(with_points(text)) == with_points(text),
{
    let restored = with_points(text);
    assert forall|i: int| !#[trigger] mistyped_point(restored, i) by {
        if mistyped_point(restored, i) {
            assert(restored[i] == text[i]);
            assert(restored[i - 1] == '.' || restored[i - 1] == text[i - 1]);
            assert(restored[i + 1] == '.' || restored[i + 1] == text[i + 1]);
        }
    }
    assert(with_points(restored) == restored);
}

proof fn lemma_chain(
    text: Seq<char>,
    rules: Seq<(Seq<char>, Seq<char>)>,
    chain: Seq<Seq<char>>,
    n: int,
)
    requires
        0 <= n <= rules.len(),
        chain.len() == rules.len() + 1,
        chain[0] == text,
        forall|k: int|
            0 <= k < rules.len() ==> chain[k + 1] == replaced(
                (#[trigger] rules[k]).0,
                chain[k],
                rules[k].1,
            ),
    ensures
        with_post_rules(text, rules.take(n)) == chain[n],
    decreases n,
{
    if n > 0 {
        lemma_chain(text, rules, chain, n - 1);
        assert(rules.take(n).drop_last() == rules.take(n - 1));
        assert(rules.take(n).last() == rules[n - 1]);
    }
}

/// Every word, whatever it holds or ends in, goes through every rewrite in
/// order: the engine makes `chain[k + 1]` of `chain[k]` by rewrite `k`, and of
/// the last text only the dandas between two digits are turned into points.
pub proof fn every_word_goes_through_every_rewrite(
    word: Seq<char>,
    rules: Seq<(Seq<char>, Seq<char>)>,
    chain: Seq<Seq<char>>,
)
    requires
        word.len() > 0,
        forall|i: int| 0 <= i < word.len() ==> !white_space(#[trigger] word[i]),
        chain.len() == rules.len() + 1,
        chain[0] == word,
        forall|k: int|
            0 <= k < rules.len() ==> chain[k + 1] == replaced(
                (#[trigger] rules[k]).0,
                chain[k],
                rules[k].1,
            ),
    ensures
        rewritten(word, rules).len() == chain.last().len(),
        forall|i: int|
            0 <= i < chain.last().len() ==> #[trigger] rewritten(word, rules)[i] == if 0 < i && i
                + 1 < chain.last().len() && chain.last()[i] == DANDA && decimal_digit(
                chain.last()[i - 1],
            ) && decimal_digit(chain.last()[i + 1]) {
                '.'
            } else {
                chain.last()[i]
            },
{
    lemma_chain(word, rules, chain, rules.len() as int);
    assert(rules.take(rules.len() as int) == rules);
    lemma_first_space(word, word.len() as int);
    assert(words(word) == seq![(word, None::<char>)]);
    lemma_one_word(word, None, rules);
    assert(rewritten(word, rules) == rewritten_word(word, rules) + Seq::<char>::empty());
    assert(rewritten(word, rules) == rewritten_word(word, rules));
}

/// Such a chain of texts can be made for any word and any rewrites, and its last
/// text is what the rewrites make of the word.
pub proof fn rewrites_make_a_chain(word: Seq<char>, rules: Seq<(Seq<char>, Seq<char>)>) -> (chain:
    Seq<Seq<char>>)
    ensures
        chain.len() == rules.len() + 1,
        chain[0] == word,
        forall|k: int|
            0 <= k < rules.len() ==> chain[k + 1] == replaced(
                (#[trigger] rules[k]).0,
                chain[k],
                rules[k].1,
            ),
        with_post_rules(word, rules) == chain.last(),
{
    let chain = Seq::new(rules.len() + 1, |k: int| with_post_rules(word, rules.take(k)));
    assert(chain[0] == word);
    assert forall|k: int| 0 <= k < rules.len() implies chain[k + 1] == replaced(
        (#[trigger] rules[k]).0,
        chain[k],
        rules[k].1,
    ) by {
        assert(rules.take(k + 1).drop_last() == rules.take(k));
        assert(rules.take(k + 1).last() == rules[k]);
    }
    lemma_chain(word, rules, chain, rules.len() as int);
    assert(rules.take(rules.len() as int) == rules);
    chain
}

/// A danda is a decimal point exactly where a digit stands on each side of it;
/// every other character stays, and none is lost.
pub proof fn a_danda_between_digits_is_a_point(text: Seq<char>)
    ensures
        with_points(text).len() == text.len(),
        forall|i: int|
            0 < i && i + 1 < text.len() && #[trigger] text[i] == DANDA && decimal_digit(text[i - 1])
                && decimal_digit(text[i + 1]) ==> with_points(text)[i] == '.',
        forall|i: int|
            0 <= i < text.len() && (#[trigger] text[i] != DANDA || i == 0 || i + 1 == text.len()
                || !decimal_digit(text[i - 1]) || !decimal_digit(text[i + 1])) ==> with_points(
                text,
            )[i] == text[i],
{
}

/// The words of a text, each with the white space behind it, spell the text;
/// there is no white space inside a word, only behind it, and only the last word
/// may have none there.
pub proof fn words_spell_their_text(text: Seq<char>)
    ensures
        words(text).map_values(
            |word: (Seq<char>, Option<char>)| word.0 + trailing_text(word.1),
        ).flatten() == text,
        forall|k: int|
            0 <= k < words(text).len() ==> {
                let (word, trailing) = #[trigger] words(text)[k];
                &&& forall|i: int| 0 <= i < word.len() ==> !white_space(#[trigger] word[i])
                &&& trailing matches Some(space) ==> white_space(space)
                &&& trailing is None ==> k == words(text).len() - 1 && word.len() > 0
            },
    decreases text.len(),
{
    let spelled = |word: (Seq<char>, Option<char>)| word.0 + trailing_text(word.1);
    if text.len() == 0 {
        assert(words(text).map_values(spelled) == Seq::<Seq<char>>::empty());
    } else {
        let k = first_space(text);
        lemma_first_space_shape(text);
        if k < text.len() {
            let head = (text.take(k), Some(text[k]));
            let rest = text.skip(k + 1);
            words_spell_their_text(rest);
            assert(words(text) == seq![head] + words(rest));
            let lists = words(text).map_values(spelled);
            assert(lists.drop_first() == words(rest).map_values(spelled));
            assert(lists.first() == text.take(k) + seq![text[k]]);
            assert(lists.flatten() == lists.first() + lists.drop_first().flatten());
            assert(text.take(k) + seq![text[k]] + rest == text);
            assert forall|n: int| 0 <= n < words(text).len() implies ({
                let (word, trailing) = #[trigger] words(text)[n];
                &&& forall|i: int| 0 <= i < word.len() ==> !white_space(#[trigger] word[i])
                &&& trailing matches Some(space) ==> white_space(space)
                &&& trailing is None ==> n == words(text).len() - 1 && word.len() > 0
            }) by {
                if n > 0 {
                    assert(words(text)[n] == words(rest)[n - 1]);
                } else {
                    assert forall|i: int| 0 <= i < k implies !white_space(
                        #[trigger] text.take(k)[i],
                    ) by {
                        assert(!white_space(text[i]));
                    }
                }
            }
        } else {
            let lists = words(text).map_values(spelled);
            assert(lists.first() == text) by {
                assert(text + Seq::<char>::empty() == text);
            }
            assert(lists.drop_first() == Seq::<Seq<char>>::empty());
            assert(lists.flatten() == lists.first() + lists.drop_first().flatten());
            assert(lists.flatten() == text);
        }
    }
}

} // verus!
