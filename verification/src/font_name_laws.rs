//! What the name of a font may vary in without changing its layout.

use vstd::prelude::*;
use vstd::utf8::encode_utf8;
use crate::font_name::{
    ascii_alphanumeric, ascii_lower, bare, ending_suffix_is_taken_off, escape_at, hex_pair,
    hex_value, layout_named, normalized, squeezed, stem, suffix_ends, suffixes_are_told_apart,
    unescaped, unescaped_from, SUFFIXES,
};
use crate::tables::{FONTASY_HIMALI, KANTIPUR, PCS_NEPALI, PREETI, SAGARMATHA};

verus! {

/// A name without a `#` holds no escape and is left alone.
pub proof fn unescaping_is_a_no_op_without_escapes(name: Seq<char>)
    requires
        !name.contains('#'),
    ensures
        unescaped(name) == name,
{
}

/// Whatever stands in front of a plus sign is ignored: the subset prefix of an
/// embedded font does not matter.
pub proof fn subset_prefix_is_ignored(prefix: Seq<char>, name: Seq<char>)
    ensures
        normalized(prefix + seq!['+'] + name) == normalized(name),
{
    lemma_stem_after_plus(prefix, name);
}

proof fn lemma_stem_after_plus(prefix: Seq<char>, name: Seq<char>)
    ensures
        stem(prefix + seq!['+'] + name) == stem(name),
    decreases name.len(),
{
    let full = prefix + seq!['+'] + name;
    if name.len() == 0 {
        assert(full.last() == '+');
    } else {
        lemma_stem_after_plus(prefix, name.drop_last());
        assert(full.drop_last() == prefix + seq!['+'] + name.drop_last());
        assert(full.last() == name.last());
    }
}

proof fn lemma_squeezed_concat(first: Seq<char>, second: Seq<char>)
    ensures
        squeezed(first + second) == squeezed(first) + squeezed(second),
    decreases second.len(),
{
    if second.len() == 0 {
        assert(first + second == first);
        assert(squeezed(first) + squeezed(second) == squeezed(first));
    } else {
        lemma_squeezed_concat(first, second.drop_last());
        assert((first + second).drop_last() == first + second.drop_last());
        assert((first + second).last() == second.last());
        assert(squeezed(first + second) == squeezed(first) + squeezed(second));
    }
}

proof fn lemma_squeezed_one(c: char)
    ensures
        squeezed(seq![c]) == if ascii_alphanumeric(c) {
            seq![ascii_lower(c)]
        } else {
            Seq::empty()
        },
{
    assert(seq![c].drop_last() == Seq::<char>::empty());
    assert(squeezed(seq![c].drop_last()) == Seq::<char>::empty());
    assert(Seq::<char>::empty().push(ascii_lower(c)) == seq![ascii_lower(c)]);
}

proof fn lemma_encode_concat(first: Seq<char>, second: Seq<char>)
    ensures
        encode_utf8(first + second) == encode_utf8(first) + encode_utf8(second),
    decreases first.len(),
{
    if first.len() == 0 {
        assert(first + second == second);
        assert(encode_utf8(first) + encode_utf8(second) == encode_utf8(second));
    } else {
        lemma_encode_concat(first.drop_first(), second);
        assert((first + second).drop_first() == first.drop_first() + second);
        assert((first + second)[0] == first[0]);
        assert(encode_utf8(first + second) == encode_utf8(first) + encode_utf8(second));
    }
}

/// An ASCII character is encoded as its own number; any other as bytes outside
/// ASCII.
proof fn lemma_encode_one(c: char)
    ensures
        (c as u32) < 0x80 ==> encode_utf8(seq![c]) == seq![c as u8],
        (c as u32) >= 0x80 ==> forall|k: int|
            0 <= k < encode_utf8(seq![c]).len() ==> #[trigger] encode_utf8(seq![c])[k] >= 0x80,
{
    let v = c as u32;
    assert(seq![c].drop_first() == Seq::<char>::empty());
    assert(encode_utf8(seq![c].drop_first()) == Seq::<u8>::empty());
    assert(encode_utf8(seq![c]) == vstd::utf8::encode_scalar(v));
    if v < 0x80 {
        assert(vstd::utf8::leading_byte_width_1(v) == v as u8) by (bit_vector)
            requires
                v < 0x80u32,
        ;
    } else {
        assert(vstd::utf8::leading_byte_width_2(v) >= 0x80) by (bit_vector);
        assert(vstd::utf8::leading_byte_width_3(v) >= 0x80) by (bit_vector);
        assert(vstd::utf8::leading_byte_width_4(v) >= 0x80) by (bit_vector);
        assert(vstd::utf8::last_continuation_byte(v) >= 0x80) by (bit_vector);
        assert(vstd::utf8::second_last_continuation_byte(v) >= 0x80) by (bit_vector);
        assert(vstd::utf8::third_last_continuation_byte(v) >= 0x80) by (bit_vector);
    }
}

/// The byte `b` in ASCII lower case.
spec fn byte_lower(b: u8) -> u8 {
    if 0x41 <= b <= 0x5A {
        (b + 32) as u8
    } else {
        b
    }
}

/// Bytes without a `#` hold no escape: each is read as the character of its
/// number.
proof fn lemma_unescaped_plain(bytes: Seq<u8>, i: int)
    requires
        0 <= i <= bytes.len(),
        forall|k: int| 0 <= k < bytes.len() ==> #[trigger] bytes[k] != 0x23,
    ensures
        unescaped_from(bytes, i) == bytes.skip(i).map_values(|b: u8| b as char),
    decreases bytes.len() - i,
{
    if i < bytes.len() {
        assert(bytes[i] != 0x23);
        lemma_unescaped_plain(bytes, i + 1);
        assert(seq![bytes[i] as char] + bytes.skip(i + 1).map_values(|b: u8| b as char)
            == bytes.skip(i).map_values(|b: u8| b as char));
    } else {
        assert(bytes.skip(i).map_values(|b: u8| b as char) == Seq::<char>::empty());
    }
}

/// An ASCII character is told by its number.
proof fn lemma_ascii_number(c: char)
    requires
        (c as u32) < 0x80,
    ensures
        (c as u8) as char == c,
        c as u8 == 0x23 <==> c == '#',
{
}

/// Squeezing a name or the characters of its bytes comes to the same: what is
/// not ASCII is dropped either way.
proof fn lemma_squeezed_bytes(name: Seq<char>)
    ensures
        squeezed(encode_utf8(name).map_values(|b: u8| b as char)) == squeezed(name),
    decreases name.len(),
{
    let read = |b: u8| b as char;
    if name.len() == 0 {
        assert(encode_utf8(name).map_values(read) == Seq::<char>::empty());
    } else {
        let head = name.drop_last();
        let last = seq![name.last()];
        lemma_squeezed_bytes(head);
        assert(name == head + last);
        lemma_encode_concat(head, last);
        assert(encode_utf8(name).map_values(read) == encode_utf8(head).map_values(read)
            + encode_utf8(last).map_values(read));
        lemma_squeezed_concat(
            encode_utf8(head).map_values(read),
            encode_utf8(last).map_values(read),
        );
        lemma_squeezed_concat(head, last);
        lemma_encode_one(name.last());
        lemma_squeezed_one(name.last());
        if (name.last() as u32) < 0x80 {
            lemma_ascii_number(name.last());
            assert(encode_utf8(last).map_values(read)[0] == name.last());
            assert(encode_utf8(last).map_values(read) == last);
        } else {
            lemma_squeezed_nothing(encode_utf8(last).map_values(read));
        }
    }
}

/// Where nothing is an ASCII letter or digit, nothing is kept.
proof fn lemma_squeezed_nothing(chars: Seq<char>)
    requires
        forall|k: int| 0 <= k < chars.len() ==> !ascii_alphanumeric(#[trigger] chars[k]),
    ensures
        squeezed(chars) == Seq::<char>::empty(),
    decreases chars.len(),
{
    if chars.len() > 0 {
        assert forall|k: int| 0 <= k < chars.drop_last().len() implies !ascii_alphanumeric(
            #[trigger] chars.drop_last()[k],
        ) by {
            assert(!ascii_alphanumeric(chars[k]));
        }
        lemma_squeezed_nothing(chars.drop_last());
        assert(!ascii_alphanumeric(chars[chars.len() - 1]));
    }
}

/// The bytes of a name hold a `#` only where the name does.
proof fn lemma_no_hash_bytes(name: Seq<char>)
    requires
        !name.contains('#'),
    ensures
        forall|k: int| 0 <= k < encode_utf8(name).len() ==> #[trigger] encode_utf8(name)[k] != 0x23,
    decreases name.len(),
{
    if name.len() > 0 {
        let head = name.drop_last();
        let last = seq![name.last()];
        assert forall|k: int| 0 <= k < head.len() implies head[k] != '#' by {
            assert(name[k] != '#');
        }
        lemma_no_hash_bytes(head);
        assert(name == head + last);
        assert(name[name.len() - 1] != '#');
        lemma_encode_concat(head, last);
        lemma_encode_one(name.last());
        assert forall|k: int| 0 <= k < encode_utf8(name).len() implies #[trigger] encode_utf8(
            name,
        )[k] != 0x23 by {
            let n = encode_utf8(head).len();
            if k < n {
                assert(encode_utf8(name)[k] == encode_utf8(head)[k]);
            } else {
                assert(encode_utf8(name)[k] == encode_utf8(last)[k - n]);
                if (name.last() as u32) < 0x80 {
                    assert(encode_utf8(last)[k - n] == name.last() as u8);
                    lemma_ascii_number(name.last());
                }
            }
        }
    }
}

/// What is kept of a name can be read off its bytes, escapes or not.
proof fn lemma_kept_from_bytes(name: Seq<char>)
    ensures
        squeezed(unescaped(name)) == squeezed(unescaped_from(encode_utf8(name), 0)),
{
    if !name.contains('#') {
        let bytes = encode_utf8(name);
        lemma_no_hash_bytes(name);
        lemma_unescaped_plain(bytes, 0);
        assert(bytes.skip(0) == bytes);
        lemma_squeezed_bytes(name);
    }
}

proof fn lemma_stem_lower(name: Seq<char>)
    ensures
        stem(name.map_values(|c: char| ascii_lower(c))) == stem(name).map_values(
            |c: char| ascii_lower(c),
        ),
    decreases name.len(),
{
    let lower = |c: char| ascii_lower(c);
    if name.len() == 0 {
        assert(stem(name).map_values(lower) == Seq::<char>::empty());
    } else {
        lemma_stem_lower(name.drop_last());
        assert(name.map_values(lower).drop_last() == name.drop_last().map_values(lower));
        if name.last() == '+' {
            assert(stem(name).map_values(lower) == Seq::<char>::empty());
        } else {
            assert(name.map_values(lower).last() != '+');
            assert(stem(name.map_values(lower)) == stem(name).map_values(lower));
        }
    }
}

proof fn lemma_encode_lower(name: Seq<char>)
    ensures
        encode_utf8(name.map_values(|c: char| ascii_lower(c))) == encode_utf8(name).map_values(
            |b: u8| byte_lower(b),
        ),
    decreases name.len(),
{
    let lower = |c: char| ascii_lower(c);
    let blower = |b: u8| byte_lower(b);
    if name.len() == 0 {
        assert(encode_utf8(name).map_values(blower) == Seq::<u8>::empty());
        assert(encode_utf8(name.map_values(lower)) == Seq::<u8>::empty());
    } else {
        let head = name.drop_last();
        let last = seq![name.last()];
        lemma_encode_lower(head);
        assert(name == head + last);
        assert(name.map_values(lower) == head.map_values(lower) + last.map_values(lower));
        lemma_encode_concat(head, last);
        lemma_encode_concat(head.map_values(lower), last.map_values(lower));
        assert(last.map_values(lower) == seq![ascii_lower(name.last())]);
        lemma_encode_one(name.last());
        lemma_encode_one(ascii_lower(name.last()));
        assert(encode_utf8(last.map_values(lower)) == encode_utf8(last).map_values(blower));
        assert(encode_utf8(name).map_values(blower) == encode_utf8(head).map_values(blower)
            + encode_utf8(last).map_values(blower));
    }
}

proof fn lemma_kept_lower(bytes: Seq<u8>, i: int)
    requires
        0 <= i,
    ensures
        squeezed(unescaped_from(bytes.map_values(|b: u8| byte_lower(b)), i)) == squeezed(
            unescaped_from(bytes, i),
        ),
    decreases bytes.len() - i,
{
    let lowered = bytes.map_values(|b: u8| byte_lower(b));
    if i < bytes.len() {
        assert(escape_at(lowered, i) == escape_at(bytes, i));
        match escape_at(bytes, i) {
            Some(byte) => {
                lemma_kept_lower(bytes, i + 3);
                lemma_squeezed_concat(seq![byte as char], unescaped_from(bytes, i + 3));
                lemma_squeezed_concat(seq![byte as char], unescaped_from(lowered, i + 3));
            },
            None => {
                lemma_kept_lower(bytes, i + 1);
                lemma_squeezed_concat(seq![bytes[i] as char], unescaped_from(bytes, i + 1));
                lemma_squeezed_concat(seq![lowered[i] as char], unescaped_from(lowered, i + 1));
                lemma_squeezed_one(bytes[i] as char);
                lemma_squeezed_one(lowered[i] as char);
            },
        }
    }
}

/// Case is ignored: a name and its lower-case spelling go by the same
/// normalized name.
pub proof fn case_is_ignored(name: Seq<char>)
    ensures
        normalized(name.map_values(|c: char| ascii_lower(c))) == normalized(name),
{
    let lower = |c: char| ascii_lower(c);
    lemma_stem_lower(name);
    lemma_encode_lower(stem(name));
    lemma_kept_lower(encode_utf8(stem(name)), 0);
    lemma_kept_from_bytes(stem(name));
    lemma_kept_from_bytes(stem(name).map_values(lower));
}

proof fn lemma_unescaped_shift(first: Seq<u8>, second: Seq<u8>, j: int)
    requires
        0 <= j <= second.len(),
    ensures
        unescaped_from(first + second, first.len() + j) == unescaped_from(second, j),
    decreases second.len() - j,
{
    let full = first + second;
    if j < second.len() {
        let i = first.len() + j;
        assert(full[i] == second[j]);
        if i + 2 < full.len() {
            assert(full[i + 1] == second[j + 1]);
            assert(full[i + 2] == second[j + 2]);
        }
        assert(escape_at(full, i) == escape_at(second, j));
        if escape_at(second, j) is Some {
            lemma_unescaped_shift(first, second, j + 3);
        } else {
            lemma_unescaped_shift(first, second, j + 1);
        }
    }
}

/// Where no escape begins in `first` and ends in `second`, the two parts are
/// read on their own.
proof fn lemma_unescaped_concat(first: Seq<u8>, second: Seq<u8>, i: int)
    requires
        0 <= i <= first.len(),
        forall|k: int|
            first.len() - 2 <= k < first.len() ==> #[trigger] escape_at(first + second, k) is None,
    ensures
        unescaped_from(first + second, i) == unescaped_from(first, i) + unescaped_from(second, 0),
    decreases first.len() - i,
{
    let full = first + second;
    if i < first.len() {
        assert(full[i] == first[i]);
        if i + 2 < first.len() {
            assert(full[i + 1] == first[i + 1]);
            assert(full[i + 2] == first[i + 2]);
        } else {
            assert(escape_at(full, i) is None);
        }
        assert(escape_at(full, i) == escape_at(first, i));
        if escape_at(first, i) is Some {
            lemma_unescaped_concat(first, second, i + 3);
        } else {
            lemma_unescaped_concat(first, second, i + 1);
        }
        assert(unescaped_from(full, i) == unescaped_from(first, i) + unescaped_from(second, 0));
    } else {
        lemma_unescaped_shift(first, second, 0);
        assert(unescaped_from(first, i) + unescaped_from(second, 0) == unescaped_from(second, 0));
    }
}

/// A hexadecimal digit.
pub open spec fn hex_char(c: char) -> bool {
    ||| '0' <= c <= '9'
    ||| 'A' <= c <= 'F'
    ||| 'a' <= c <= 'f'
}

/// A `#` and two hexadecimal digits stand at `i`.
pub open spec fn escape_written(name: Seq<char>, i: int) -> bool {
    &&& 0 <= i && i + 2 < name.len()
    &&& name[i] == '#'
    &&& hex_char(name[i + 1])
    &&& hex_char(name[i + 2])
}

/// An escape begins in `first` and ends in `second`.
pub open spec fn escape_across(first: Seq<char>, second: Seq<char>) -> bool {
    exists|i: int|
        first.len() - 2 <= i < first.len() && #[trigger] escape_written(first + second, i)
}

/// A byte of ASCII at the head of a name's bytes is its first character.
proof fn lemma_first_byte(name: Seq<char>)
    requires
        encode_utf8(name).len() > 0,
        encode_utf8(name)[0] < 0x80,
    ensures
        name.len() > 0,
        (name[0] as u32) < 0x80,
        name[0] as u8 == encode_utf8(name)[0],
        encode_utf8(name) == seq![name[0] as u8] + encode_utf8(name.skip(1)),
{
    if name.len() == 0 {
        assert(encode_utf8(name) == Seq::<u8>::empty());
    }
    let head = seq![name[0]];
    assert(name == head + name.skip(1));
    lemma_encode_concat(head, name.skip(1));
    lemma_encode_one(name[0]);
    lemma_encode_len(head);
    assert(encode_utf8(name)[0] == encode_utf8(head)[0]);
}

/// A byte of ASCII at the end of a name's bytes is its last character.
proof fn lemma_last_byte(name: Seq<char>)
    requires
        encode_utf8(name).len() > 0,
        encode_utf8(name).last() < 0x80,
    ensures
        name.len() > 0,
        (name.last() as u32) < 0x80,
        name.last() as u8 == encode_utf8(name).last(),
        encode_utf8(name) == encode_utf8(name.drop_last()).push(name.last() as u8),
{
    if name.len() == 0 {
        assert(encode_utf8(name) == Seq::<u8>::empty());
    }
    let tail = seq![name.last()];
    assert(name == name.drop_last() + tail);
    lemma_encode_concat(name.drop_last(), tail);
    lemma_encode_one(name.last());
    lemma_encode_len(tail);
    assert(encode_utf8(name).last() == encode_utf8(tail).last());
}

/// An ASCII character is a hexadecimal digit where its number has a value.
proof fn lemma_hex_char(c: char)
    requires
        (c as u32) < 0x80,
    ensures
        hex_value(c as u8) is Some <==> hex_char(c),
        c as u8 == 0x23 <==> c == '#',
{
}

/// An escape in the bytes that begins in `first` and ends in `second` is one in
/// the names.
proof fn lemma_escape_across_bytes(first: Seq<char>, second: Seq<char>, k: int)
    requires
        encode_utf8(first).len() - 2 <= k < encode_utf8(first).len(),
        escape_at(encode_utf8(first) + encode_utf8(second), k) is Some,
    ensures
        escape_across(first, second),
{
    let x = encode_utf8(first);
    let y = encode_utf8(second);
    let full = x + y;
    let name = first + second;
    let n = first.len() as int;
    assert(full[k] == 0x23);
    assert(hex_pair(full[k + 1], full[k + 2]) is Some);
    assert(full[k + 1] < 0x80 && full[k + 2] < 0x80);
    if k == x.len() - 1 {
        assert(x.last() == full[k]);
        lemma_last_byte(first);
        lemma_hex_char(first.last());
        assert(y[0] == full[k + 1]);
        assert(y[1] == full[k + 2]);
        lemma_first_byte(second);
        lemma_hex_char(second[0]);
        let rest = second.skip(1);
        assert(encode_utf8(rest)[0] == y[1]);
        lemma_first_byte(rest);
        lemma_hex_char(rest[0]);
        assert(name[n - 1] == first.last());
        assert(name[n] == second[0]);
        assert(name[n + 1] == rest[0]);
        assert(escape_written(name, n - 1));
    } else {
        assert(x.last() == full[k + 1]);
        lemma_last_byte(first);
        lemma_hex_char(first.last());
        let head = first.drop_last();
        assert(encode_utf8(head).last() == full[k]);
        lemma_last_byte(head);
        lemma_hex_char(head.last());
        assert(y[0] == full[k + 2]);
        lemma_first_byte(second);
        lemma_hex_char(second[0]);
        assert(name[n - 2] == head.last());
        assert(name[n - 1] == first.last());
        assert(name[n] == second[0]);
        assert(escape_written(name, n - 2));
    }
}

/// A name has at least as many bytes as characters.
proof fn lemma_encode_len(name: Seq<char>)
    ensures
        encode_utf8(name).len() >= name.len(),
    decreases name.len(),
{
    if name.len() > 0 {
        lemma_encode_len(name.drop_first());
    }
}

/// What is kept of a name that is not cut inside an escape is what is kept of
/// its parts.
proof fn lemma_kept_concat(first: Seq<char>, second: Seq<char>)
    requires
        !escape_across(first, second),
    ensures
        squeezed(unescaped(first + second)) == squeezed(unescaped(first)) + squeezed(
            unescaped(second),
        ),
{
    let x = encode_utf8(first);
    let y = encode_utf8(second);
    lemma_kept_from_bytes(first + second);
    lemma_kept_from_bytes(first);
    lemma_kept_from_bytes(second);
    lemma_encode_concat(first, second);
    assert forall|k: int| x.len() - 2 <= k < x.len() implies #[trigger] escape_at(
        x + y,
        k,
    ) is None by {
        if escape_at(x + y, k) is Some {
            lemma_escape_across_bytes(first, second, k);
        }
    }
    lemma_unescaped_concat(x, y, 0);
    lemma_squeezed_concat(unescaped_from(x, 0), unescaped_from(y, 0));
}

proof fn lemma_stem_concat(first: Seq<char>, second: Seq<char>)
    ensures
        second.contains('+') ==> stem(first + second) == stem(second),
        !second.contains('+') ==> stem(first + second) == stem(first) + second,
    decreases second.len(),
{
    let full = first + second;
    if second.len() == 0 {
        assert(full == first);
        assert(stem(first) + second == stem(first));
    } else {
        let head = second.drop_last();
        lemma_stem_concat(first, head);
        assert(full.drop_last() == first + head);
        assert(full.last() == second.last());
        if second.last() == '+' {
            assert(second[second.len() - 1] == '+');
        } else if head.contains('+') {
            let k = choose|k: int| 0 <= k < head.len() && head[k] == '+';
            assert(second[k] == '+');
        } else {
            assert forall|k: int| 0 <= k < second.len() implies second[k] != '+' by {
                if k < head.len() {
                    assert(head[k] != '+');
                }
            }
            assert((stem(first) + head).push(second.last()) == stem(first) + second);
        }
    }
}

/// A stem is a tail of its name, so an escape that reaches past its end reaches
/// past the end of the name.
proof fn lemma_stem_escape_across(first: Seq<char>, second: Seq<char>)
    requires
        !escape_across(first, second),
    ensures
        !escape_across(stem(first), second),
{
    lemma_stem_is_tail(first);
    let s = stem(first);
    let cut = first.len() - s.len();
    assert forall|i: int| s.len() - 2 <= i < s.len() implies !#[trigger] escape_written(
        s + second,
        i,
    ) by {
        assert(!escape_written(first + second, cut + i));
        assert forall|j: int| 0 <= j < (s + second).len() implies (s + second)[j] == (first
            + second)[cut + j] by {}
    }
}

proof fn lemma_stem_is_tail(name: Seq<char>)
    ensures
        stem(name).len() <= name.len(),
        forall|k: int|
            0 <= k < stem(name).len() ==> #[trigger] stem(name)[k] == name[name.len() - stem(
                name,
            ).len() + k],
    decreases name.len(),
{
    if name.len() > 0 && name.last() != '+' {
        lemma_stem_is_tail(name.drop_last());
    }
}

/// Separators are ignored: a character that is no ASCII letter or digit can be
/// put anywhere into a name, unless it cuts an escape in two. (A `#` begins an
/// escape and a `+` ends a prefix; they are no separators.)
pub proof fn separators_are_ignored(first: Seq<char>, separator: char, second: Seq<char>)
    requires
        !ascii_alphanumeric(separator),
        separator != '#',
        separator != '+',
        !escape_across(first, second),
    ensures
        normalized(first + seq![separator] + second) == normalized(first + second),
{
    let mid = seq![separator];
    let rest = mid + second;
    assert(first + mid + second == first + rest);
    lemma_stem_concat(first, rest);
    lemma_stem_concat(first, second);
    lemma_stem_concat(mid, second);
    if second.contains('+') {
        let k = choose|k: int| 0 <= k < second.len() && second[k] == '+';
        assert(rest[k + 1] == '+');
    } else {
        assert forall|k: int| 0 <= k < rest.len() implies rest[k] != '+' by {
            if k > 0 {
                assert(rest[k] == second[k - 1]);
            }
        }
        let head = stem(first);
        lemma_stem_escape_across(first, second);
        lemma_kept_concat(head, second);
        assert forall|i: int| head.len() - 2 <= i < head.len() implies !#[trigger] escape_written(
            head + rest,
            i,
        ) by {
            assert((head + rest)[head.len() as int] == separator);
        }
        lemma_kept_concat(head, rest);
        assert(!escape_written(rest, 0));
        assert forall|i: int| mid.len() - 2 <= i < mid.len() implies !#[trigger] escape_written(
            mid + second,
            i,
        ) by {}
        lemma_kept_concat(mid, second);
        assert(!mid.contains('#'));
        lemma_squeezed_one(separator);
        assert(squeezed(unescaped(rest)) == squeezed(unescaped(second)));
    }
}

/// A suffix behind a name that is not empty is taken off again.
pub proof fn suffix_comes_off(name: Seq<char>, k: int)
    requires
        0 <= k < 7,
        name.len() > 0,
    ensures
        bare(name + SUFFIXES[k]@) == bare(name),
{
    let suffix = SUFFIXES[k]@;
    let full = name + suffix;
    assert(suffix.is_suffix_of(full)) by {
        assert(suffix =~= full.subrange(full.len() - suffix.len(), full.len() as int));
    }
    assert(suffix_ends(full, k));
    ending_suffix_is_taken_off(full, k);
    assert(full.take(full.len() - suffix.len()) == name);
}

/// The weight and variant suffixes are all removed: tacking one onto a name
/// changes nothing, whatever the name ends in already. (The name must not be
/// empty, and the suffix must not end an escape.)
pub proof fn weight_suffix_is_ignored(name: Seq<char>, k: int)
    requires
        0 <= k < 7,
        !escape_across(name, SUFFIXES[k]@),
        squeezed(unescaped(stem(name))).len() > 0,
    ensures
        normalized(name + SUFFIXES[k]@) == normalized(name),
{
    let suffix = SUFFIXES[k]@;
    lemma_suffix_is_plain(k);
    lemma_stem_concat(name, suffix);
    lemma_stem_escape_across(name, suffix);
    lemma_kept_concat(stem(name), suffix);
    lemma_squeezed_lower(suffix);
    suffix_comes_off(squeezed(unescaped(stem(name))), k);
}

/// No suffix is left at the end of a normalized name, unless it is all there is.
pub proof fn no_suffix_is_left(name: Seq<char>, k: int)
    ensures
        !suffix_ends(normalized(name), k),
{
    lemma_bare_is_bare(squeezed(unescaped(stem(name))), k);
}

proof fn lemma_bare_is_bare(name: Seq<char>, k: int)
    ensures
        !suffix_ends(bare(name), k),
    decreases name.len(),
{
    if exists|j: int| #[trigger] suffix_ends(name, j) {
        let j = choose|j: int| #[trigger] suffix_ends(name, j);
        suffixes_are_told_apart(j, j);
        lemma_bare_is_bare(name.take(name.len() - SUFFIXES[j]@.len()), k);
    }
}

/// The known suffixes are lower-case letters.
proof fn lemma_suffix_is_plain(k: int)
    requires
        0 <= k < 7,
    ensures
        forall|i: int|
            0 <= i < SUFFIXES[k]@.len() ==> 'a' <= #[trigger] SUFFIXES[k]@[i] && SUFFIXES[k]@[i]
                <= 'z',
        !SUFFIXES[k]@.contains('+'),
        !SUFFIXES[k]@.contains('#'),
{
    reveal_strlit("normal");
    reveal_strlit("regular");
    reveal_strlit("bold");
    reveal_strlit("italic");
    reveal_strlit("mt");
    reveal_strlit("ps");
    reveal_strlit("tt");
}

/// Lower-case letters are kept as they are.
proof fn lemma_squeezed_lower(text: Seq<char>)
    requires
        forall|i: int| 0 <= i < text.len() ==> 'a' <= #[trigger] text[i] && text[i] <= 'z',
    ensures
        squeezed(text) == text,
    decreases text.len(),
{
    if text.len() > 0 {
        assert forall|i: int| 0 <= i < text.drop_last().len() implies 'a'
            <= #[trigger] text.drop_last()[i] && text.drop_last()[i] <= 'z' by {
            assert('a' <= text[i]);
        }
        lemma_squeezed_lower(text.drop_last());
        assert('a' <= text[text.len() - 1]);
        assert(squeezed(text) == text);
    } else {
        assert(squeezed(text) == text);
    }
}

/// A normalized name is made of digits and lower-case letters alone.
pub proof fn normalized_name_is_plain(name: Seq<char>, i: int)
    requires
        0 <= i < normalized(name).len(),
    ensures
        '0' <= normalized(name)[i] <= '9' || 'a' <= normalized(name)[i] <= 'z',
{
    let kept = squeezed(unescaped(stem(name)));
    lemma_squeezed_is_plain(unescaped(stem(name)));
    lemma_bare_keeps_a_head(kept);
    assert(normalized(name)[i] == kept[i]);
}

proof fn lemma_lowered_is_plain(c: char)
    ensures
        ascii_alphanumeric(c) ==> '0' <= ascii_lower(c) <= '9' || 'a' <= ascii_lower(c) <= 'z',
{
}

proof fn lemma_squeezed_is_plain(name: Seq<char>)
    ensures
        forall|i: int|
            0 <= i < squeezed(name).len() ==> '0' <= #[trigger] squeezed(name)[i] <= '9' || 'a'
                <= squeezed(name)[i] <= 'z',
    decreases name.len(),
{
    if name.len() > 0 {
        lemma_squeezed_is_plain(name.drop_last());
        lemma_lowered_is_plain(name.last());
        let before = squeezed(name.drop_last());
        assert forall|i: int| 0 <= i < squeezed(name).len() implies '0' <= #[trigger] squeezed(
            name,
        )[i] <= '9' || 'a' <= squeezed(name)[i] <= 'z' by {
            if i < before.len() {
                assert(squeezed(name)[i] == before[i]);
            }
        }
    }
}

proof fn lemma_bare_keeps_a_head(name: Seq<char>)
    ensures
        bare(name).len() <= name.len(),
        forall|i: int| 0 <= i < bare(name).len() ==> #[trigger] bare(name)[i] == name[i],
    decreases name.len(),
{
    if exists|k: int| #[trigger] suffix_ends(name, k) {
        let k = choose|k: int| #[trigger] suffix_ends(name, k);
        suffixes_are_told_apart(k, k);
        lemma_bare_keeps_a_head(name.take(name.len() - SUFFIXES[k]@.len()));
    }
}

/// The suffixes that are taken off, and no others.
pub proof fn the_known_suffixes()
    ensures
        SUFFIXES@.len() == 7,
        SUFFIXES[0]@ == "normal"@,
        SUFFIXES[1]@ == "regular"@,
        SUFFIXES[2]@ == "bold"@,
        SUFFIXES[3]@ == "italic"@,
        SUFFIXES[4]@ == "mt"@,
        SUFFIXES[5]@ == "ps"@,
        SUFFIXES[6]@ == "tt"@,
{
}

/// What is kept of a name is told by the numbers of its characters: digits and
/// lower-case letters as they are, upper-case letters 32 further on.
pub proof fn kept_characters(c: char)
    ensures
        squeezed(seq![c]) == {
            let n = c as u32;
            if (0x2F < n && n < 0x3A) || (0x60 < n && n < 0x7B) {
                seq![c]
            } else if 0x40 < n && n < 0x5B {
                seq![((n + 32) as u32) as char]
            } else {
                Seq::empty()
            }
        },
        ascii_alphanumeric(c) <==> squeezed(seq![c]).len() == 1,
{
    lemma_squeezed_one(c);
}

/// A name of digits and lower-case letters that ends in no known suffix goes by
/// itself: nothing else is taken off, put in or exchanged.
pub proof fn a_plain_name_goes_by_itself(name: Seq<char>)
    requires
        forall|i: int|
            0 <= i < name.len() ==> '0' <= #[trigger] name[i] <= '9' || 'a' <= name[i] <= 'z',
        forall|k: int| 0 <= k < 7 ==> !(#[trigger] SUFFIXES[k])@.is_suffix_of(name),
    ensures
        normalized(name) == name,
{
    assert(!name.contains('+')) by {
        if name.contains('+') {
            let i = choose|i: int| 0 <= i < name.len() && name[i] == '+';
            assert(name[i] == '+');
        }
    }
    assert(!name.contains('#')) by {
        if name.contains('#') {
            let i = choose|i: int| 0 <= i < name.len() && name[i] == '#';
            assert(name[i] == '#');
        }
    }
    lemma_stem_concat(Seq::empty(), name);
    assert(Seq::<char>::empty() + name == name);
    assert(stem(Seq::empty()) == Seq::<char>::empty());
    assert(stem(name) == name);
    lemma_squeezed_kept(name);
    assert forall|k: int| !#[trigger] suffix_ends(name, k) by {
        if suffix_ends(name, k) {
            assert(SUFFIXES[k]@.is_suffix_of(name));
        }
    }
}

/// Digits and lower-case letters are kept as they are.
proof fn lemma_squeezed_kept(text: Seq<char>)
    requires
        forall|i: int|
            0 <= i < text.len() ==> '0' <= #[trigger] text[i] <= '9' || 'a' <= text[i] <= 'z',
    ensures
        squeezed(text) == text,
    decreases text.len(),
{
    if text.len() > 0 {
        let head = text.drop_last();
        assert forall|i: int| 0 <= i < head.len() implies '0' <= #[trigger] head[i] <= '9' || 'a'
            <= head[i] <= 'z' by {
            assert(head[i] == text[i]);
        }
        lemma_squeezed_kept(head);
        assert(text[text.len() - 1] == text.last());
        assert(head.push(text.last()) == text);
    } else {
        assert(squeezed(text) == text);
    }
}

/// What is taken off the end of a name is known suffixes, one behind another,
/// and something of the name is left.
pub proof fn only_known_suffixes_come_off(name: Seq<char>) -> (ends: Seq<int>)
    ensures
        forall|i: int| 0 <= i < ends.len() ==> 0 <= #[trigger] ends[i] < 7,
        squeezed(unescaped(stem(name))) == normalized(name) + ends.map_values(
            |k: int| SUFFIXES[k]@,
        ).flatten(),
        squeezed(unescaped(stem(name))).len() > 0 ==> normalized(name).len() > 0,
{
    lemma_taken_off(squeezed(unescaped(stem(name))))
}

proof fn lemma_taken_off(name: Seq<char>) -> (ends: Seq<int>)
    ensures
        forall|i: int| 0 <= i < ends.len() ==> 0 <= #[trigger] ends[i] < 7,
        name == bare(name) + ends.map_values(|k: int| SUFFIXES[k]@).flatten(),
        name.len() > 0 ==> bare(name).len() > 0,
    decreases name.len(),
{
    let text = |k: int| SUFFIXES[k]@;
    if exists|k: int| #[trigger] suffix_ends(name, k) {
        let k = choose|k: int| #[trigger] suffix_ends(name, k);
        suffixes_are_told_apart(k, k);
        let suffix = SUFFIXES[k]@;
        let head = name.take(name.len() - suffix.len());
        let before = lemma_taken_off(head);
        let ends = before.push(k);
        assert(ends.map_values(text) == before.map_values(text).push(suffix));
        before.map_values(text).lemma_flatten_push(suffix);
        assert(name == head + suffix);
        assert(name == bare(name) + ends.map_values(text).flatten());
        ends
    } else {
        let ends = Seq::<int>::empty();
        assert(ends.map_values(text) == Seq::<Seq<char>>::empty());
        assert(name == bare(name) + ends.map_values(text).flatten());
        ends
    }
}

/// `c` writes the hexadecimal digit `value`, in either case.
pub open spec fn writes_hex(c: char, value: int) -> bool {
    ||| 0 <= value < 10 && c as u32 == 0x30 + value
    ||| 10 <= value < 16 && (c as u32 == 0x41 + value - 10 || c as u32 == 0x61 + value - 10)
}

/// What is kept of an escape is what is kept of the character that it stands
/// for.
proof fn lemma_kept_escape(x: char, y: char, high: int, low: int)
    requires
        writes_hex(x, high),
        writes_hex(y, low),
    ensures
        squeezed(unescaped(seq!['#', x, y])) == squeezed(seq![((16 * high + low) as u8) as char]),
{
    let name = seq!['#', x, y];
    let byte = (16 * high + low) as u8;
    assert(name[0] == '#');
    assert(name.contains('#'));
    assert(name == seq!['#'] + (seq![x] + seq![y]));
    lemma_encode_concat(seq!['#'], seq![x] + seq![y]);
    lemma_encode_concat(seq![x], seq![y]);
    lemma_encode_one('#');
    lemma_encode_one(x);
    lemma_encode_one(y);
    let bytes = encode_utf8(name);
    assert(bytes == seq![0x23u8, x as u8, y as u8]);
    assert(hex_value(x as u8) == Some(high as u8));
    assert(hex_value(y as u8) == Some(low as u8));
    assert(escape_at(bytes, 0) == Some(byte));
    assert(unescaped_from(bytes, 3) == Seq::<char>::empty());
    assert(unescaped_from(bytes, 0) == seq![byte as char]);
}

/// An escape, a `#` and two hexadecimal digits, is read as the character of that
/// number: a letter or digit as if it stood there itself, anything else, a plus
/// sign included, as if nothing did.
pub proof fn an_escape_is_read_as_its_character(
    first: Seq<char>,
    x: char,
    y: char,
    high: int,
    low: int,
    second: Seq<char>,
)
    requires
        writes_hex(x, high),
        writes_hex(y, low),
    ensures
        ({
            let c = ((16 * high + low) as u8) as char;
            let name = first + seq!['#', x, y] + second;
            &&& ascii_alphanumeric(c) && !escape_across(first, seq![c] + second) ==> normalized(
                name,
            ) == normalized(first + seq![c] + second)
            &&& !ascii_alphanumeric(c) && !escape_across(first, second) ==> normalized(name)
                == normalized(first + second)
        }),
{
    let c = ((16 * high + low) as u8) as char;
    let escape = seq!['#', x, y];
    let rest = escape + second;
    let name = first + escape + second;
    assert(name == first + rest);
    assert(x != '+' && y != '+');
    assert(!escape.contains('+'));
    lemma_stem_concat(first, rest);
    lemma_stem_concat(escape, second);
    lemma_stem_concat(Seq::empty(), escape);
    assert(Seq::<char>::empty() + escape == escape);
    assert(stem(Seq::empty()) == Seq::<char>::empty());
    lemma_stem_concat(first, second);
    lemma_stem_concat(seq![c], second);
    lemma_stem_concat(first, seq![c] + second);
    assert(first + seq![c] + second == first + (seq![c] + second));
    lemma_squeezed_one(c);
    if second.contains('+') {
        let k = choose|k: int| 0 <= k < second.len() && second[k] == '+';
        assert(rest[k + 3] == '+');
        assert((seq![c] + second)[k + 1] == '+');
    } else {
        assert forall|k: int| 0 <= k < rest.len() implies rest[k] != '+' by {
            if k >= 3 {
                assert(rest[k] == second[k - 3]);
            }
        }
        let head = stem(first);
        assert forall|i: int| head.len() - 2 <= i < head.len() implies !#[trigger] escape_written(
            head + rest,
            i,
        ) by {
            assert((head + rest)[head.len() as int] == '#');
        }
        lemma_kept_concat(head, rest);
        assert forall|i: int| escape.len() - 2 <= i < escape.len() implies !#[trigger]
        escape_written(escape + second, i) by {
            assert((escape + second)[1] == x);
            assert((escape + second)[2] == y);
        }
        lemma_kept_concat(escape, second);
        lemma_kept_escape(x, y, high, low);
        let kept = squeezed(unescaped(head));
        let tail = squeezed(unescaped(second));
        assert(squeezed(unescaped(stem(name))) == kept + (squeezed(seq![c]) + tail));
        if ascii_alphanumeric(c) {
            if !escape_across(first, seq![c] + second) {
                let letter = seq![c] + second;
                assert forall|k: int| 0 <= k < letter.len() implies letter[k] != '+' by {
                    if k >= 1 {
                        assert(letter[k] == second[k - 1]);
                    }
                }
                lemma_stem_escape_across(first, letter);
                lemma_kept_concat(head, letter);
                assert forall|i: int| 1 - 2 <= i < 1 implies !#[trigger] escape_written(
                    seq![c] + second,
                    i,
                ) by {
                    assert((seq![c] + second)[0] == c);
                }
                lemma_kept_concat(seq![c], second);
                assert(!seq![c].contains('#'));
                assert(unescaped(seq![c]) == seq![c]);
            }
        } else if !escape_across(first, second) {
            lemma_stem_escape_across(first, second);
            lemma_kept_concat(head, second);
            assert(squeezed(seq![c]) + tail == tail);
        }
    }
}

/// A `#` that begins no escape is no more than a separator.
pub proof fn a_lone_hash_is_ignored(first: Seq<char>, second: Seq<char>)
    requires
        !escape_written(seq!['#'] + second, 0),
        !escape_across(first, second),
    ensures
        normalized(first + seq!['#'] + second) == normalized(first + second),
{
    let mid = seq!['#'];
    let rest = mid + second;
    assert(first + mid + second == first + rest);
    lemma_stem_concat(first, rest);
    lemma_stem_concat(first, second);
    lemma_stem_concat(mid, second);
    if second.contains('+') {
        let k = choose|k: int| 0 <= k < second.len() && second[k] == '+';
        assert(rest[k + 1] == '+');
    } else {
        assert forall|k: int| 0 <= k < rest.len() implies rest[k] != '+' by {
            if k > 0 {
                assert(rest[k] == second[k - 1]);
            }
        }
        let head = stem(first);
        lemma_stem_escape_across(first, second);
        lemma_kept_concat(head, second);
        assert forall|i: int| head.len() - 2 <= i < head.len() implies !#[trigger] escape_written(
            head + rest,
            i,
        ) by {
            assert((head + rest)[head.len() as int] == '#');
        }
        lemma_kept_concat(head, rest);
        assert forall|i: int| mid.len() - 2 <= i < mid.len() implies !#[trigger] escape_written(
            mid + second,
            i,
        ) by {}
        lemma_kept_concat(mid, second);
        lemma_kept_from_bytes(mid);
        lemma_encode_one('#');
        let bytes = encode_utf8(mid);
        assert(bytes == seq![0x23u8]);
        assert(unescaped_from(bytes, 1) == Seq::<char>::empty());
        assert(unescaped_from(bytes, 0) == mid);
        lemma_squeezed_one('#');
        assert(squeezed(unescaped(rest)) == squeezed(unescaped(second)));
    }
}

/// A layout is given to the listed names only, and to each of them its own: any
/// other font, Latin or not, is left alone.
pub proof fn only_listed_names_have_a_layout(name: Seq<char>)
    ensures
        layout_named(name) == Some(PREETI@) || layout_named(name) == Some(FONTASY_HIMALI@)
            || layout_named(name) == Some(KANTIPUR@) || layout_named(name) == Some(PCS_NEPALI@)
            || layout_named(name) == Some(SAGARMATHA@) || layout_named(name) is None,
        layout_named(name) is Some <==> {
            ||| name == "preeti"@
            ||| name == "ganesh"@
            ||| name == "ganess"@
            ||| name == "aakar"@
            ||| name == "arap002"@
            ||| name == "himalb"@
            ||| name == "himalli"@
            ||| name == "fontasyhimali"@
            ||| name == "kantipur"@
            ||| name == "pcsnepali"@
            ||| name == "sagarmatha"@
        },
{
}

/// The layout of each listed name.
pub proof fn the_listed_layouts()
    ensures
        layout_named("preeti"@) == Some(PREETI@),
        layout_named("ganesh"@) == Some(PREETI@),
        layout_named("ganess"@) == Some(PREETI@),
        layout_named("aakar"@) == Some(PREETI@),
        layout_named("arap002"@) == Some(PREETI@),
        layout_named("himalb"@) == Some(PREETI@),
        layout_named("himalli"@) == Some(PREETI@),
        layout_named("fontasyhimali"@) == Some(FONTASY_HIMALI@),
        layout_named("kantipur"@) == Some(KANTIPUR@),
        layout_named("pcsnepali"@) == Some(PCS_NEPALI@),
        layout_named("sagarmatha"@) == Some(SAGARMATHA@),
{
    reveal_strlit("preeti");
    reveal_strlit("ganesh");
    reveal_strlit("ganess");
    reveal_strlit("aakar");
    reveal_strlit("arap002");
    reveal_strlit("himalb");
    reveal_strlit("himalli");
    reveal_strlit("fontasyhimali");
    reveal_strlit("kantipur");
    reveal_strlit("pcsnepali");
    reveal_strlit("sagarmatha");
    assert("fontasyhimali"@.len() == 13);
    assert("kantipur"@.len() == 8);
    assert("pcsnepali"@.len() == 9);
    assert("sagarmatha"@.len() == 10);
    assert("arap002"@.len() == 7);
    assert("himalli"@.len() == 7);
}

/// In an ASCII name the first escape, a `#` and two hexadecimal digits, gives way
/// to the character of that number; what stands before it stays, and what comes
/// behind it is read in the same way.
pub proof fn an_escape_gives_way_to_its_character(
    first: Seq<char>,
    x: char,
    y: char,
    high: int,
    low: int,
    second: Seq<char>,
)
    requires
        writes_hex(x, high),
        writes_hex(y, low),
        forall|i: int|
            0 <= i < first.len() ==> (#[trigger] first[i] as u32) < 0x80 && first[i] != '#',
        forall|i: int| 0 <= i < second.len() ==> (#[trigger] second[i] as u32) < 0x80,
    ensures
        unescaped(first + seq!['#', x, y] + second) == first + seq![
            ((16 * high + low) as u8) as char,
        ] + unescaped(second),
{
    let c = ((16 * high + low) as u8) as char;
    let escape = seq!['#', x, y];
    let name = first + escape + second;
    assert(name[first.len() as int] == '#');
    assert(name.contains('#'));
    let (a, e, b) = (encode_utf8(first), encode_utf8(escape), encode_utf8(second));
    lemma_encode_concat(first + escape, second);
    lemma_encode_concat(first, escape);
    lemma_encode_ascii(first);
    lemma_no_hash_bytes(first);
    lemma_unescaped_ascii(second);
    assert(escape == seq!['#'] + (seq![x] + seq![y]));
    lemma_encode_concat(seq!['#'], seq![x] + seq![y]);
    lemma_encode_concat(seq![x], seq![y]);
    lemma_encode_one('#');
    lemma_encode_one(x);
    lemma_encode_one(y);
    assert(e == seq![0x23u8, x as u8, y as u8]);
    assert(hex_value(x as u8) == Some(high as u8));
    assert(hex_value(y as u8) == Some(low as u8));
    let rest = e + b;
    assert(a + e + b == a + rest);
    lemma_unescaped_behind_plain(a, rest);
    lemma_unescaped_shift(e, b, 0);
    assert(rest[0] == 0x23 && rest[1] == x as u8 && rest[2] == y as u8);
    assert(escape_at(rest, 0) == Some(((16 * high + low) as u8)));
    assert(unescaped_from(rest, 0) == seq![c] + unescaped_from(b, 0));
    assert(unescaped(name) == first + (seq![c] + unescaped(second)));
    assert(first + (seq![c] + unescaped(second)) == first + seq![c] + unescaped(second));
}

/// In an ASCII name a `#` that begins no escape stays, and what comes behind it
/// is read in the same way.
pub proof fn a_lone_hash_stays(first: Seq<char>, second: Seq<char>)
    requires
        !escape_written(seq!['#'] + second, 0),
        forall|i: int|
            0 <= i < first.len() ==> (#[trigger] first[i] as u32) < 0x80 && first[i] != '#',
        forall|i: int| 0 <= i < second.len() ==> (#[trigger] second[i] as u32) < 0x80,
    ensures
        unescaped(first + seq!['#'] + second) == first + seq!['#'] + unescaped(second),
{
    let hash = seq!['#'];
    let name = first + hash + second;
    assert(name[first.len() as int] == '#');
    assert(name.contains('#'));
    let (a, e, b) = (encode_utf8(first), encode_utf8(hash), encode_utf8(second));
    lemma_encode_concat(first + hash, second);
    lemma_encode_concat(first, hash);
    lemma_encode_ascii(first);
    lemma_no_hash_bytes(first);
    lemma_unescaped_ascii(second);
    lemma_encode_ascii(second);
    lemma_encode_one('#');
    assert(e == seq![0x23u8]);
    let rest = e + b;
    assert(a + e + b == a + rest);
    lemma_unescaped_behind_plain(a, rest);
    lemma_unescaped_shift(e, b, 0);
    assert(rest[0] == 0x23);
    assert(escape_at(rest, 0) is None) by {
        if rest.len() > 2 {
            let read = b.map_values(|b: u8| b as char);
            assert(read == second);
            assert(rest[1] == b[0] && rest[2] == b[1]);
            assert(read[0] == second[0] && read[1] == second[1]);
            lemma_hex_char(second[0]);
            lemma_hex_char(second[1]);
            assert(second[0] as u8 == b[0] && second[1] as u8 == b[1]);
            let full = hash + second;
            assert(full[0] == '#' && full[1] == second[0] && full[2] == second[1]);
        }
    }
    assert(unescaped_from(rest, 0) == hash + unescaped_from(b, 0)) by {
        assert(0x23u8 as char == '#');
    }
    assert(unescaped(name) == first + (hash + unescaped(second)));
    assert(first + (hash + unescaped(second)) == first + hash + unescaped(second));
}

/// Behind bytes without a `#` the rest is read on its own.
proof fn lemma_unescaped_behind_plain(a: Seq<u8>, rest: Seq<u8>)
    requires
        forall|k: int| 0 <= k < a.len() ==> #[trigger] a[k] != 0x23,
    ensures
        unescaped_from(a + rest, 0) == a.map_values(|b: u8| b as char) + unescaped_from(rest, 0),
{
    assert forall|k: int| a.len() - 2 <= k < a.len() implies #[trigger] escape_at(
        a + rest,
        k,
    ) is None by {
        if k >= 0 {
            assert((a + rest)[k] == a[k]);
        }
    }
    lemma_unescaped_concat(a, rest, 0);
    lemma_unescaped_plain(a, 0);
    assert(a.skip(0) == a);
}

/// An ASCII name can be read off its bytes, escapes or not.
proof fn lemma_unescaped_ascii(name: Seq<char>)
    requires
        forall|i: int| 0 <= i < name.len() ==> (#[trigger] name[i] as u32) < 0x80,
    ensures
        unescaped(name) == unescaped_from(encode_utf8(name), 0),
{
    if !name.contains('#') {
        lemma_no_hash_bytes(name);
        lemma_encode_ascii(name);
        lemma_unescaped_plain(encode_utf8(name), 0);
        assert(encode_utf8(name).skip(0) == encode_utf8(name));
    }
}

/// The bytes of an ASCII name are the numbers of its characters.
proof fn lemma_encode_ascii(name: Seq<char>)
    requires
        forall|i: int| 0 <= i < name.len() ==> (#[trigger] name[i] as u32) < 0x80,
    ensures
        encode_utf8(name).map_values(|b: u8| b as char) == name,
        encode_utf8(name).len() == name.len(),
    decreases name.len(),
{
    let read = |b: u8| b as char;
    if name.len() == 0 {
        assert(encode_utf8(name).map_values(read) == name);
    } else {
        let head = name.drop_last();
        let last = seq![name.last()];
        assert forall|i: int| 0 <= i < head.len() implies (#[trigger] head[i] as u32) < 0x80 by {
            assert(head[i] == name[i]);
        }
        lemma_encode_ascii(head);
        assert(name == head + last);
        assert(name[name.len() - 1] == name.last());
        lemma_encode_concat(head, last);
        lemma_encode_one(name.last());
        lemma_ascii_number(name.last());
        assert(encode_utf8(last) == seq![name.last() as u8]);
        assert(encode_utf8(name) == encode_utf8(head).push(name.last() as u8));
        assert(encode_utf8(name).map_values(read) == encode_utf8(head).map_values(read).push(
            name.last(),
        ));
        assert(head.push(name.last()) == name);
    }
}

/// A font whose name is not listed is left alone, whatever subset prefix stands
/// in front of the name, and with a weight behind it or without.
pub proof fn an_unlisted_font_is_left_alone(prefix: Seq<char>, name: Seq<char>, k: int)
    requires
        0 <= k < 7,
        name.len() > 0,
        forall|i: int|
            0 <= i < name.len() ==> '0' <= #[trigger] name[i] <= '9' || 'a' <= name[i] <= 'z',
        forall|j: int| 0 <= j < 7 ==> !(#[trigger] SUFFIXES[j])@.is_suffix_of(name),
        name != "preeti"@ && name != "ganesh"@ && name != "ganess"@ && name != "aakar"@ && name
            != "arap002"@ && name != "himalb"@ && name != "himalli"@ && name != "fontasyhimali"@
            && name != "kantipur"@ && name != "pcsnepali"@ && name != "sagarmatha"@,
    ensures
        layout_named(normalized(name)) is None,
        layout_named(normalized(prefix + seq!['+'] + name)) is None,
        layout_named(normalized(prefix + seq!['+'] + (name + SUFFIXES[k]@))) is None,
{
    a_plain_name_goes_by_itself(name);
    subset_prefix_is_ignored(prefix, name);
    subset_prefix_is_ignored(prefix, name + SUFFIXES[k]@);
    only_listed_names_have_a_layout(name);
    lemma_stem_concat(Seq::empty(), name);
    assert(Seq::<char>::empty() + name == name);
    assert(stem(Seq::empty()) == Seq::<char>::empty());
    assert(!name.contains('+')) by {
        if name.contains('+') {
            let i = choose|i: int| 0 <= i < name.len() && name[i] == '+';
            assert(name[i] == '+');
        }
    }
    assert(!name.contains('#')) by {
        if name.contains('#') {
            let i = choose|i: int| 0 <= i < name.len() && name[i] == '#';
            assert(name[i] == '#');
        }
    }
    lemma_squeezed_kept(name);
    assert(!escape_across(name, SUFFIXES[k]@)) by {
        let full = name + SUFFIXES[k]@;
        assert forall|i: int| name.len() - 2 <= i < name.len() implies !#[trigger] escape_written(
            full,
            i,
        ) by {
            if 0 <= i {
                assert(full[i] == name[i]);
            }
        }
    }
    weight_suffix_is_ignored(name, k);
}

} // verus!
