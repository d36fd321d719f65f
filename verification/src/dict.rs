//! The dictionaries of compact outlines.
//!
//! A dictionary is a run of operands and operators, each operator behind its
//! operands. What follows finds the operands of an operator and reads them as
//! places in the table, decimals included.

use vstd::prelude::*;
use crate::preflight::REACH;

verus! {

/// The byte is an operator; any other begins an operand.
pub open spec fn operator(byte: u8) -> bool {
    byte <= 27 || byte == 31 || byte == 255
}

/// How many bytes of a dictionary lie from `i` on.
pub open spec fn bytes_left(dict: Seq<u8>, i: int) -> int {
    if i < dict.len() {
        dict.len() - i
    } else {
        0
    }
}

/// Where the decimal number whose digits begin at `i` ends: behind the first
/// byte with a half that is fifteen.
pub open spec fn decimal_end(dict: Seq<u8>, i: int) -> int
    decreases dict.len() - i,
{
    if i < 0 || i >= dict.len() {
        i
    } else if dict[i] / 16 == 15 || dict[i] % 16 == 15 {
        i + 1
    } else {
        decimal_end(dict, i + 1)
    }
}

/// Where the operand that begins at `i` ends.
pub open spec fn operand_end(dict: Seq<u8>, i: int) -> int {
    if dict[i] == 28 {
        i + 3
    } else if dict[i] == 29 {
        i + 5
    } else if dict[i] == 30 {
        decimal_end(dict, i + 1)
    } else if dict[i] >= 247 {
        i + 2
    } else {
        i + 1
    }
}

/// A decimal number does not end before it begins.
pub proof fn decimal_end_is_ahead(dict: Seq<u8>, i: int)
    ensures
        decimal_end(dict, i) >= i,
    decreases dict.len() - i,
{
    if 0 <= i < dict.len() {
        decimal_end_is_ahead(dict, i + 1);
    }
}

/// Where the first operator from `i` on stands; the operands ahead of it are
/// passed over.
pub open spec fn operator_at(dict: Seq<u8>, i: int) -> int
    decreases bytes_left(dict, i),
{
    if i < 0 || i >= dict.len() || operator(dict[i]) {
        i
    } else {
        proof {
            decimal_end_is_ahead(dict, i + 1);
        }
        operator_at(dict, operand_end(dict, i))
    }
}

/// An operator is not found before it is looked for.
pub proof fn operator_is_ahead(dict: Seq<u8>, i: int)
    ensures
        operator_at(dict, i) >= i,
    decreases bytes_left(dict, i),
{
    if 0 <= i < dict.len() && !operator(dict[i]) {
        decimal_end_is_ahead(dict, i + 1);
        operator_is_ahead(dict, operand_end(dict, i));
    }
}

/// The number of the operator at `i`. Twelve begins one of two bytes.
pub open spec fn operator_code(dict: Seq<u8>, i: int) -> int {
    if dict[i] != 12 {
        dict[i] as int
    } else if i + 1 < dict.len() {
        1200 + dict[i + 1]
    } else {
        -1
    }
}

/// Where the operator at `i` ends.
pub open spec fn operator_end(dict: Seq<u8>, i: int) -> int {
    if dict[i] == 12 {
        i + 2
    } else {
        i + 1
    }
}

/// Where the operands of every `code` operator from `i` on begin and end.
pub open spec fn operands_of(dict: Seq<u8>, i: int, code: int) -> Seq<(int, int)>
    decreases bytes_left(dict, i),
{
    let at = operator_at(dict, i);
    proof {
        operator_is_ahead(dict, i);
    }
    if i < 0 || at >= dict.len() {
        Seq::empty()
    } else {
        let rest = operands_of(dict, operator_end(dict, at), code);
        if operator_code(dict, at) == code {
            seq![(i, at)] + rest
        } else {
            rest
        }
    }
}

/// The dictionary has the operator.
pub open spec fn has_operator(dict: Seq<u8>, code: int) -> bool {
    operands_of(dict, 0, code).len() > 0
}

/// One operand stands between `from` and `to`.
pub open spec fn one_operand(dict: Seq<u8>, from: int, to: int) -> bool {
    from < to && operand_end(dict, from) == to
}

/// Two operands stand between `from` and `to`.
pub open spec fn two_operands(dict: Seq<u8>, from: int, to: int) -> bool {
    from < operand_end(dict, from) && one_operand(dict, operand_end(dict, from), to)
}

/// Half `k` of the bytes of a dictionary, the high one of each first.
pub open spec fn half_at(dict: Seq<u8>, k: int) -> int {
    if k % 2 == 0 {
        (dict[k / 2] / 16) as int
    } else {
        (dict[k / 2] % 16) as int
    }
}

/// The most characters that a decimal is written in.
pub const DECIMAL_LEN: usize = 64;

/// `text` and the characters that the halves from `k` on spell, up to the one
/// that ends them; `None` where none does, where one spells nothing, or where
/// there are too many.
pub open spec fn decimal_text(dict: Seq<u8>, k: int, text: Seq<u8>) -> Option<Seq<u8>>
    decreases 2 * dict.len() - k,
{
    if k < 0 || k >= 2 * dict.len() {
        None
    } else {
        let half = half_at(dict, k);
        if half == 15 {
            Some(text)
        } else if half == 13 || text.len() >= DECIMAL_LEN {
            None
        } else if half == 12 {
            if text.len() + 1 >= DECIMAL_LEN {
                None
            } else {
                decimal_text(dict, k + 1, text.push(0x45).push(0x2D))
            }
        } else if half == 10 {
            decimal_text(dict, k + 1, text.push(0x2E))
        } else if half == 11 {
            decimal_text(dict, k + 1, text.push(0x45))
        } else if half == 14 {
            decimal_text(dict, k + 1, text.push(0x2D))
        } else {
            decimal_text(dict, k + 1, text.push((0x30 + half) as u8))
        }
    }
}

/// A decimal digit.
pub open spec fn digit(byte: u8) -> bool {
    0x30 <= byte <= 0x39
}

/// Where the digits that begin at `i` end.
pub open spec fn digits_end(text: Seq<u8>, i: int) -> int
    decreases text.len() - i,
{
    if 0 <= i < text.len() && digit(text[i]) {
        digits_end(text, i + 1)
    } else {
        i
    }
}

/// Where the parts of a decimal begin and end: the digits before the point, the
/// digits behind it, and the digits of the exponent.
pub struct Decimal {
    pub start: int,
    pub point: int,
    pub end: int,
    pub exponent: int,
}

/// Whether a minus stands at `i`, as a number of characters.
pub open spec fn sign_at(text: Seq<u8>, i: int) -> int {
    if 0 <= i < text.len() && text[i] == 0x2D {
        1
    } else {
        0
    }
}

/// The parts of a decimal; the exponent begins past the end where there is
/// none.
pub open spec fn decimal_parts(text: Seq<u8>) -> Decimal {
    let start = sign_at(text, 0);
    let point = digits_end(text, start);
    let end = if point < text.len() && text[point] == 0x2E {
        digits_end(text, point + 1)
    } else {
        point
    };
    Decimal { start, point, end, exponent: end + 1 + sign_at(text, end + 1) }
}

/// How many digits a decimal has, its exponent apart.
pub open spec fn digit_count(parts: Decimal) -> int {
    parts.point - parts.start + if parts.end > parts.point {
        parts.end - parts.point - 1
    } else {
        0
    }
}

/// The text writes a number: a sign or none, digits with or without a point,
/// and an exponent or none.
pub open spec fn well_written(text: Seq<u8>) -> bool {
    let parts = decimal_parts(text);
    &&& digit_count(parts) > 0
    &&& parts.end == text.len() || {
        &&& text[parts.end] == 0x45
        &&& parts.exponent < text.len()
        &&& digits_end(text, parts.exponent) == text.len()
    }
}

/// Digit `j` of a decimal, counted from its first; zero outside of it.
pub open spec fn digit_of(text: Seq<u8>, parts: Decimal, j: int) -> int {
    let before = parts.point - parts.start;
    if 0 <= j < before {
        text[parts.start + j] - 0x30
    } else if before <= j < digit_count(parts) {
        text[parts.point + 1 + (j - before)] - 0x30
    } else {
        0
    }
}

/// An exponent as large as any that matters: what it makes of at most
/// sixty-four digits is past all whole numbers here, or nothing.
pub const MAX_EXPONENT: u64 = 200;

/// The size of an exponent written from `from` up to `to`, up to
/// [`MAX_EXPONENT`].
pub open spec fn exponent_size(text: Seq<u8>, from: int, to: int) -> int
    decreases to - from,
{
    if to <= from {
        0
    } else {
        let size = 10 * exponent_size(text, from, to - 1) + (text[to - 1] - 0x30);
        if size > MAX_EXPONENT {
            MAX_EXPONENT as int
        } else {
            size
        }
    }
}

/// How many digits stand before the point once the exponent is applied.
pub open spec fn whole_digits(text: Seq<u8>) -> int {
    let parts = decimal_parts(text);
    let size = if parts.end < text.len() {
        exponent_size(text, parts.exponent, text.len() as int)
    } else {
        0
    };
    parts.point - parts.start + if sign_at(text, parts.end + 1) == 1 {
        -size
    } else {
        size
    }
}

/// A whole number past all that are read here.
pub const PAST_ALL: u64 = 0x1_0000_0000;

/// The number that the first `n` digits write, up to [`PAST_ALL`].
pub open spec fn whole(text: Seq<u8>, parts: Decimal, n: int) -> int
    decreases n,
{
    if n <= 0 {
        0
    } else {
        let number = 10 * whole(text, parts, n - 1) + digit_of(text, parts, n - 1);
        if number > PAST_ALL {
            PAST_ALL as int
        } else {
            number
        }
    }
}

/// Ten to the power of `n`.
pub open spec fn ten_to(n: int) -> int
    decreases n,
{
    if n <= 0 {
        1
    } else {
        10 * ten_to(n - 1)
    }
}

/// The number that `n` digits from digit `from` on write.
pub open spec fn digits_value(text: Seq<u8>, parts: Decimal, from: int, n: int) -> int
    decreases n,
{
    if n <= 0 {
        0
    } else {
        10 * digits_value(text, parts, from, n - 1) + digit_of(text, parts, from + n - 1)
    }
}

/// How many binary digits a number has.
pub open spec fn binary_len(number: int) -> int
    decreases number,
{
    if number <= 0 {
        0
    } else {
        1 + binary_len(number / 2)
    }
}

/// The fraction `part` out of `all` begins with `n` ones in binary.
pub open spec fn begins_with_ones(part: int, all: int, n: int) -> bool
    decreases n,
{
    n <= 0 || (2 * part >= all && begins_with_ones(2 * part - all, all, n - 1))
}

/// What stands behind the point is so close to one that the nearest number of
/// 53 binary digits, which is what the text is read as, is the next whole one.
pub open spec fn rounded_up(text: Seq<u8>) -> bool {
    let parts = decimal_parts(text);
    let before = whole_digits(text);
    let behind = digit_count(parts) - before;
    &&& before >= 0
    &&& behind > 0
    &&& begins_with_ones(
        digits_value(text, parts, before, behind),
        ten_to(behind),
        54 - binary_len(whole(text, parts, before)),
    )
}

/// The number that a text writes, rounded to what a machine holds, cut off at
/// the point, and held within 32 bits.
pub open spec fn cut_off(text: Seq<u8>) -> int {
    let number = whole(text, decimal_parts(text), whole_digits(text)) + if rounded_up(text) {
        1int
    } else {
        0
    };
    if sign_at(text, 0) == 0 {
        if number > 0x7FFF_FFFF {
            0x7FFF_FFFF
        } else {
            number
        }
    } else {
        if number > 0x8000_0000 {
            -0x8000_0000
        } else {
            -number
        }
    }
}

/// The whole number that the operand at `i` comes to, if it writes one.
pub open spec fn operand_value(dict: Seq<u8>, i: int) -> Option<int> {
    if dict[i] == 28 {
        let number = dict[i + 1] * 0x100 + dict[i + 2];
        Some(
            if number < 0x8000 {
                number
            } else {
                number - 0x1_0000
            },
        )
    } else if dict[i] == 29 {
        let number = dict[i + 1] * 0x100_0000 + dict[i + 2] * 0x1_0000 + dict[i + 3] * 0x100
            + dict[i + 4];
        Some(
            if number < 0x8000_0000 {
                number
            } else {
                number - 0x1_0000_0000
            },
        )
    } else if dict[i] == 30 {
        match decimal_text(dict, 2 * (i + 1), Seq::empty()) {
            Some(text) => if well_written(text) {
                Some(cut_off(text))
            } else {
                None
            },
            None => None,
        }
    } else if dict[i] <= 246 {
        Some(dict[i] - 139)
    } else if dict[i] <= 250 {
        Some((dict[i] - 247) * 256 + dict[i + 1] + 108)
    } else {
        Some(-(dict[i] - 251) * 256 - dict[i + 1] - 108)
    }
}

/// The place that operands give: they are one number, and not a negative one.
pub open spec fn place(dict: Seq<u8>, operands: (int, int)) -> Option<u64> {
    if one_operand(dict, operands.0, operands.1) {
        match operand_value(dict, operands.0) {
            Some(value) => if value >= 0 {
                Some(value as u64)
            } else {
                None
            },
            None => None,
        }
    } else {
        None
    }
}

/// The place and the size that operands give: they are two numbers, the size
/// first, and neither is negative.
pub open spec fn span(dict: Seq<u8>, operands: (int, int)) -> Option<(u64, u64)> {
    let second = operand_end(dict, operands.0);
    if two_operands(dict, operands.0, operands.1) {
        match (operand_value(dict, operands.0), operand_value(dict, second)) {
            (Some(size), Some(start)) => if size >= 0 && start >= 0 {
                Some((start as u64, size as u64))
            } else {
                None
            },
            _ => None,
        }
    } else {
        None
    }
}

/// The place that the last `code` operator of a dictionary gives.
pub open spec fn last_place(dict: Seq<u8>, code: int) -> Option<u64> {
    if has_operator(dict, code) {
        place(dict, operands_of(dict, 0, code).last())
    } else {
        None
    }
}

/// The place and the size that the last `code` operator of a dictionary gives.
pub open spec fn last_span(dict: Seq<u8>, code: int) -> Option<(u64, u64)> {
    if has_operator(dict, code) {
        span(dict, operands_of(dict, 0, code).last())
    } else {
        None
    }
}

/// The place and the size that the first `code` operator of a dictionary gives.
pub open spec fn first_span(dict: Seq<u8>, code: int) -> Option<(u64, u64)> {
    if has_operator(dict, code) {
        span(dict, operands_of(dict, 0, code).first())
    } else {
        None
    }
}

fn is_operator(byte: u8) -> (yes: bool)
    ensures
        yes == operator(byte),
{
    byte <= 27 || byte == 31 || byte == 255
}

fn find_operand_end(dict: &[u8], i: u64) -> (end: u64)
    requires
        i < dict@.len() <= REACH,
    ensures
        end == operand_end(dict@, i as int),
        i < end <= i + 5 || i < end <= dict@.len(),
{
    let byte: u8 = dict[i as usize];
    if byte == 28 {
        i + 3
    } else if byte == 29 {
        i + 5
    } else if byte == 30 {
        let mut k: u64 = i + 1;
        while k < dict.len() as u64
            invariant
                i < k <= dict@.len() <= REACH,
                dict@[i as int] == 30,
                decimal_end(dict@, k as int) == decimal_end(dict@, i + 1),
            decreases dict@.len() - k,
        {
            let halves: u8 = dict[k as usize];
            if halves / 16 == 15 || halves % 16 == 15 {
                return k + 1;
            }
            k += 1;
        }
        k
    } else if byte >= 247 {
        i + 2
    } else {
        i + 1
    }
}

/// The places of operands, as numbers.
pub open spec fn places(found: Seq<(u64, u64)>) -> Seq<(int, int)> {
    found.map_values(|place: (u64, u64)| (place.0 as int, place.1 as int))
}

/// From every found place on, operands run up to the operator.
pub open spec fn operands_within(dict: Seq<u8>, found: Seq<(u64, u64)>) -> bool {
    forall|k: int|
        0 <= k < found.len() ==> (#[trigger] found[k]).0 <= found[k].1 < dict.len() && operator_at(
            dict,
            found[k].0 as int,
        ) == found[k].1
}

fn find_operands(dict: &[u8], code: u64) -> (found: Vec<(u64, u64)>)
    requires
        dict@.len() <= REACH,
        code < 2000,
    ensures
        places(found@) == operands_of(dict@, 0, code as int),
        operands_within(dict@, found@),
{
    let mut found: Vec<(u64, u64)> = Vec::new();
    let mut i: u64 = 0;
    assert(places(found@) + operands_of(dict@, 0, code as int) == operands_of(
        dict@,
        0,
        code as int,
    ));
    while i < dict.len() as u64
        invariant
            dict@.len() <= REACH,
            i <= REACH + 2,
            places(found@) + operands_of(dict@, i as int, code as int) == operands_of(
                dict@,
                0,
                code as int,
            ),
            operands_within(dict@, found@),
        decreases bytes_left(dict@, i as int),
    {
        let mut at: u64 = i;
        while at < dict.len() as u64 && !is_operator(dict[at as usize])
            invariant
                dict@.len() <= REACH,
                i <= at <= REACH + 5,
                operator_at(dict@, at as int) == operator_at(dict@, i as int),
            decreases bytes_left(dict@, at as int),
        {
            at = find_operand_end(dict, at);
        }
        assert(operator_at(dict@, i as int) == at);
        if at >= dict.len() as u64 {
            assert(operands_of(dict@, i as int, code as int) == Seq::<(int, int)>::empty());
            assert(places(found@) + Seq::<(int, int)>::empty() == places(found@));
            return found;
        }
        let byte: u8 = dict[at as usize];
        let next: u64 = if byte == 12 {
            at + 2
        } else {
            at + 1
        };
        let matched: bool = if byte != 12 {
            byte as u64 == code
        } else if at + 1 < dict.len() as u64 {
            1200 + dict[(at + 1) as usize] as u64 == code
        } else {
            false
        };
        assert(matched == (operator_code(dict@, at as int) == code as int));
        let ghost before = found@;
        let ghost rest = operands_of(dict@, next as int, code as int);
        if matched {
            found.push((i, at));
            assert(places(found@) == places(before).push((i as int, at as int)));
            assert(places(before) + (seq![(i as int, at as int)] + rest) == places(found@) + rest);
        }
        i = next;
    }
    proof {
        operator_is_ahead(dict@, i as int);
    }
    assert(operands_of(dict@, i as int, code as int) == Seq::<(int, int)>::empty());
    assert(places(found@) + Seq::<(int, int)>::empty() == places(found@));
    found
}

/// Where the operands run up to an operator, each but the last is followed by
/// another.
proof fn lemma_operand_follows(dict: Seq<u8>, from: int, to: int)
    requires
        0 <= from < to < dict.len(),
        operator_at(dict, from) == to,
    ensures
        !operator(dict[from]),
        operand_end(dict, from) <= to,
        operator_at(dict, operand_end(dict, from)) == to,
        from < operand_end(dict, from),
{
    decimal_end_is_ahead(dict, from + 1);
    operator_is_ahead(dict, operand_end(dict, from));
}

/// A run of digits ends behind its last one, and within the text.
proof fn lemma_digits_end(text: Seq<u8>, i: int)
    requires
        0 <= i <= text.len(),
    ensures
        i <= digits_end(text, i) <= text.len(),
        forall|j: int| i <= j < digits_end(text, i) ==> digit(#[trigger] text[j]),
    decreases text.len() - i,
{
    if i < text.len() && digit(text[i]) {
        lemma_digits_end(text, i + 1);
    }
}

fn find_digits_end(text: &[u8], i: usize) -> (end: usize)
    requires
        i <= text@.len(),
    ensures
        end == digits_end(text@, i as int),
        i <= end <= text@.len(),
{
    let mut k: usize = i;
    while k < text.len() && 0x30 <= text[k] && text[k] <= 0x39
        invariant
            i <= k <= text@.len(),
            digits_end(text@, k as int) == digits_end(text@, i as int),
        decreases text@.len() - k,
    {
        k += 1;
    }
    k
}

fn read_sign(text: &[u8], i: usize) -> (length: usize)
    requires
        i <= text@.len() + 1,
    ensures
        length == sign_at(text@, i as int),
{
    if i < text.len() && text[i] == 0x2D {
        1
    } else {
        0
    }
}

/// Where the parts of a decimal begin and end, in the order of the fields of
/// [`Decimal`].
type Parts = (usize, usize, usize, usize);

/// The parts as numbers.
spec fn parts_view(parts: Parts) -> Decimal {
    Decimal {
        start: parts.0 as int,
        point: parts.1 as int,
        end: parts.2 as int,
        exponent: parts.3 as int,
    }
}

/// The parts of a decimal stand in order within its text, and its digits are
/// digits.
proof fn lemma_parts(text: Seq<u8>)
    ensures
        ({
            let parts = decimal_parts(text);
            &&& 0 <= parts.start <= parts.point <= parts.end <= text.len()
            &&& parts.end < parts.exponent <= parts.end + 2
            &&& forall|j: int|
                parts.start <= j < parts.point || parts.point < j < parts.end ==> digit(
                    #[trigger] text[j],
                )
            &&& forall|j: int| 0 <= #[trigger] digit_of(text, parts, j) <= 9
        }),
{
    let start = sign_at(text, 0);
    lemma_digits_end(text, start);
    let point = digits_end(text, start);
    if point < text.len() {
        lemma_digits_end(text, point + 1);
    }
}

fn find_parts(text: &[u8]) -> (parts: Parts)
    requires
        text@.len() <= DECIMAL_LEN,
    ensures
        parts_view(parts) == decimal_parts(text@),
{
    proof {
        lemma_parts(text@);
    }
    let start: usize = read_sign(text, 0);
    let point: usize = find_digits_end(text, start);
    let end: usize = if point < text.len() && text[point] == 0x2E {
        find_digits_end(text, point + 1)
    } else {
        point
    };
    (start, point, end, end + 1 + read_sign(text, end + 1))
}

fn count_digits(parts: Parts) -> (count: usize)
    requires
        parts.0 <= parts.1 <= parts.2 <= DECIMAL_LEN,
    ensures
        count == digit_count(parts_view(parts)),
{
    if parts.2 > parts.1 {
        (parts.1 - parts.0) + (parts.2 - parts.1 - 1)
    } else {
        parts.1 - parts.0
    }
}

fn is_well_written(text: &[u8], parts: Parts) -> (yes: bool)
    requires
        text@.len() <= DECIMAL_LEN,
        parts_view(parts) == decimal_parts(text@),
    ensures
        yes == well_written(text@),
{
    proof {
        lemma_parts(text@);
    }
    if count_digits(parts) == 0 {
        false
    } else if parts.2 == text.len() {
        true
    } else {
        text[parts.2] == 0x45 && parts.3 < text.len() && find_digits_end(text, parts.3)
            == text.len()
    }
}

fn read_digit(text: &[u8], parts: Parts, j: i64) -> (value: u64)
    requires
        text@.len() <= DECIMAL_LEN,
        parts_view(parts) == decimal_parts(text@),
        -1000 <= j <= 1000,
    ensures
        value == digit_of(text@, decimal_parts(text@), j as int),
        value <= 9,
{
    proof {
        lemma_parts(text@);
    }
    let before: i64 = parts.1 as i64 - parts.0 as i64;
    if 0 <= j && j < before {
        (text[parts.0 + j as usize] - 0x30) as u64
    } else if before <= j && j < count_digits(parts) as i64 {
        assert(parts.1 < parts.1 + 1 + (j - before) < parts.2);
        (text[parts.1 + 1 + (j - before) as usize] - 0x30) as u64
    } else {
        0
    }
}

fn count_whole_digits(text: &[u8], parts: Parts) -> (count: i64)
    requires
        text@.len() <= DECIMAL_LEN,
        parts_view(parts) == decimal_parts(text@),
        well_written(text@),
    ensures
        count == whole_digits(text@),
        -200 <= count <= 264,
{
    proof {
        lemma_parts(text@);
    }
    let mut size: u64 = 0;
    if parts.2 < text.len() {
        proof {
            lemma_digits_end(text@, parts.3 as int);
        }
        let mut k: usize = parts.3;
        while k < text.len()
            invariant
                parts.3 <= k <= text@.len(),
                size <= MAX_EXPONENT,
                size == exponent_size(text@, parts.3 as int, k as int),
                forall|j: int| parts.3 <= j < text@.len() ==> digit(#[trigger] text@[j]),
            decreases text@.len() - k,
        {
            let more: u64 = 10 * size + (text[k] - 0x30) as u64;
            size = if more > MAX_EXPONENT {
                MAX_EXPONENT
            } else {
                more
            };
            k += 1;
        }
    }
    let before: i64 = parts.1 as i64 - parts.0 as i64;
    if read_sign(text, parts.2 + 1) == 1 {
        before - size as i64
    } else {
        before + size as i64
    }
}

/// The number that the first `n` of some digits write.
spec fn prefix_value(digits: Seq<u8>, n: int) -> int
    decreases n,
{
    if n <= 0 {
        0
    } else {
        10 * prefix_value(digits, n - 1) + digits[n - 1]
    }
}

/// Some digits write the same number where they are the same, and a smaller one
/// than the power of ten behind them.
proof fn lemma_prefix_value(left: Seq<u8>, right: Seq<u8>, n: int)
    requires
        0 <= n <= left.len(),
        n <= right.len(),
        forall|k: int| 0 <= k < n ==> #[trigger] left[k] == right[k],
        forall|k: int| 0 <= k < n ==> #[trigger] left[k] <= 9,
    ensures
        prefix_value(left, n) == prefix_value(right, n),
        0 <= prefix_value(left, n) < ten_to(n),
    decreases n,
{
    if n > 0 {
        lemma_prefix_value(left, right, n - 1);
    }
}

/// Double the number that the first `n` digits write, and add one where `more`
/// says so. What does not fit is carried.
fn double_digits(digits: &mut Vec<u8>, n: usize, more: bool) -> (carried: bool)
    requires
        n <= old(digits)@.len(),
        forall|k: int| 0 <= k < old(digits)@.len() ==> #[trigger] old(digits)@[k] <= 9,
    ensures
        final(digits)@.len() == old(digits)@.len(),
        forall|k: int| 0 <= k < final(digits)@.len() ==> #[trigger] final(digits)@[k] <= 9,
        forall|k: int| n <= k < final(digits)@.len() ==> #[trigger] final(digits)@[k] == old(
            digits,
        )@[k],
        prefix_value(final(digits)@, n as int) + if carried {
            ten_to(n as int)
        } else {
            0
        } == 2 * prefix_value(old(digits)@, n as int) + if more {
            1int
        } else {
            0
        },
    decreases n,
{
    if n == 0 {
        return more;
    }
    let ghost before = digits@;
    let doubled: u8 = 2 * digits[n - 1] + if more {
        1
    } else {
        0
    };
    digits.set(n - 1, doubled % 10);
    proof {
        lemma_prefix_value(before, digits@, n - 1);
    }
    double_digits(digits, n - 1, doubled >= 10)
}

fn find_binary_len(number: u64) -> (len: u64)
    ensures
        len == binary_len(number as int),
        len <= number,
{
    let mut rest: u64 = number;
    let mut len: u64 = 0;
    while rest > 0
        invariant
            len + binary_len(rest as int) == binary_len(number as int),
            len + rest <= number,
        decreases rest,
    {
        rest = rest / 2;
        len += 1;
    }
    len
}

/// Whether what stands behind the point is rounded up to one.
fn is_rounded_up(text: &[u8], parts: Parts, before: i64, number: u64) -> (yes: bool)
    requires
        text@.len() <= DECIMAL_LEN,
        parts_view(parts) == decimal_parts(text@),
        before == whole_digits(text@),
        -200 <= before <= 264,
        number == whole(text@, decimal_parts(text@), before as int),
        number <= PAST_ALL,
    ensures
        yes == rounded_up(text@),
{
    proof {
        lemma_parts(text@);
    }
    let behind: i64 = count_digits(parts) as i64 - before;
    if before < 0 || behind <= 0 {
        return false;
    }
    let mut digits: Vec<u8> = Vec::new();
    let mut j: i64 = 0;
    while j < behind
        invariant
            0 <= j <= behind <= 2 * DECIMAL_LEN,
            0 <= before <= 264,
            text@.len() <= DECIMAL_LEN,
            parts_view(parts) == decimal_parts(text@),
            digits@.len() == j,
            forall|k: int| 0 <= k < j ==> #[trigger] digits@[k] <= 9,
            prefix_value(digits@, j as int) == digits_value(
                text@,
                decimal_parts(text@),
                before as int,
                j as int,
            ),
        decreases behind - j,
    {
        let ghost shorter = digits@;
        digits.push(read_digit(text, parts, before + j) as u8);
        proof {
            lemma_prefix_value(shorter, digits@, j as int);
        }
        j += 1;
    }
    let ghost all = ten_to(behind as int);
    let mut left: i64 = 54 - find_binary_len(number) as i64;
    while left > 0
        invariant
            digits@.len() == behind,
            0 < behind <= 2 * DECIMAL_LEN,
            all == ten_to(behind as int),
            forall|k: int| 0 <= k < behind ==> #[trigger] digits@[k] <= 9,
            before >= 0,
            before == whole_digits(text@),
            behind == digit_count(decimal_parts(text@)) - before,
            rounded_up(text@) == begins_with_ones(
                prefix_value(digits@, behind as int),
                all,
                left as int,
            ),
        decreases left,
    {
        let carried: bool = double_digits(&mut digits, behind as usize, false);
        proof {
            lemma_prefix_value(digits@, digits@, behind as int);
        }
        if !carried {
            return false;
        }
        left -= 1;
    }
    true
}

fn find_cut_off(text: &[u8], parts: Parts, count: i64) -> (number: i64)
    requires
        text@.len() <= DECIMAL_LEN,
        parts_view(parts) == decimal_parts(text@),
        count == whole_digits(text@),
        -200 <= count <= 264,
    ensures
        number == cut_off(text@),
        -0x8000_0000 <= number <= 0x7FFF_FFFF,
{
    let mut number: u64 = 0;
    let mut j: i64 = 0;
    while j < count
        invariant
            0 <= j,
            j <= count || j == 0,
            count <= 264,
            text@.len() <= DECIMAL_LEN,
            parts_view(parts) == decimal_parts(text@),
            number <= PAST_ALL,
            number == whole(text@, decimal_parts(text@), j as int),
        decreases count - j,
    {
        let more: u64 = 10 * number + read_digit(text, parts, j);
        number = if more > PAST_ALL {
            PAST_ALL
        } else {
            more
        };
        j += 1;
    }
    assert(number == whole(text@, decimal_parts(text@), count as int));
    if is_rounded_up(text, parts, count, number) {
        number += 1;
    }
    if read_sign(text, 0) == 0 {
        if number > 0x7FFF_FFFF {
            0x7FFF_FFFF
        } else {
            number as i64
        }
    } else if number > 0x8000_0000 {
        -0x8000_0000
    } else {
        -(number as i64)
    }
}

fn read_half(dict: &[u8], k: u64) -> (half: u8)
    requires
        k < 2 * dict@.len(),
        dict@.len() <= REACH,
    ensures
        half == half_at(dict@, k as int),
        half <= 15,
{
    let byte: u8 = dict[(k / 2) as usize];
    if k % 2 == 0 {
        byte / 16
    } else {
        byte % 16
    }
}

fn read_decimal(dict: &[u8], from: u64) -> (text: Option<Vec<u8>>)
    requires
        from <= 2 * dict@.len(),
        dict@.len() <= REACH,
    ensures
        match text {
            Some(text) => decimal_text(dict@, from as int, Seq::empty()) == Some(text@)
                && text@.len() <= DECIMAL_LEN,
            None => decimal_text(dict@, from as int, Seq::empty()) is None,
        },
{
    let mut text: Vec<u8> = Vec::new();
    let mut k: u64 = from;
    assert(text@ == Seq::<u8>::empty());
    while k < 2 * dict.len() as u64
        invariant
            k <= 2 * dict@.len(),
            dict@.len() <= REACH,
            text@.len() <= DECIMAL_LEN,
            decimal_text(dict@, k as int, text@) == decimal_text(
                dict@,
                from as int,
                Seq::empty(),
            ),
        decreases 2 * dict@.len() - k,
    {
        let half: u8 = read_half(dict, k);
        if half == 15 {
            return Some(text);
        }
        if half == 13 || text.len() >= DECIMAL_LEN {
            return None;
        }
        if half == 12 {
            if text.len() + 1 >= DECIMAL_LEN {
                return None;
            }
            text.push(0x45);
            text.push(0x2D);
        } else if half == 10 {
            text.push(0x2E);
        } else if half == 11 {
            text.push(0x45);
        } else if half == 14 {
            text.push(0x2D);
        } else {
            text.push(0x30 + half);
        }
        k += 1;
    }
    None
}

fn read_operand(dict: &[u8], i: u64) -> (found: Option<i64>)
    requires
        i < dict@.len() <= REACH,
        !operator(dict@[i as int]),
        operand_end(dict@, i as int) <= dict@.len(),
    ensures
        match found {
            Some(value) => operand_value(dict@, i as int) == Some(value as int) && value
                <= 0x7FFF_FFFF,
            None => operand_value(dict@, i as int) is None,
        },
{
    let at: usize = i as usize;
    let byte: u8 = dict[at];
    if byte == 28 {
        let value: i64 = dict[at + 1] as i64 * 0x100 + dict[at + 2] as i64;
        Some(
            if value < 0x8000 {
                value
            } else {
                value - 0x1_0000
            },
        )
    } else if byte == 29 {
        let value: i64 = dict[at + 1] as i64 * 0x100_0000 + dict[at + 2] as i64 * 0x1_0000
            + dict[at + 3] as i64 * 0x100 + dict[at + 4] as i64;
        Some(
            if value < 0x8000_0000 {
                value
            } else {
                value - 0x1_0000_0000
            },
        )
    } else if byte == 30 {
        match read_decimal(dict, 2 * (i + 1)) {
            None => None,
            Some(text) => {
                let parts: Parts = find_parts(text.as_slice());
                if !is_well_written(text.as_slice(), parts) {
                    return None;
                }
                let count: i64 = count_whole_digits(text.as_slice(), parts);
                Some(find_cut_off(text.as_slice(), parts, count))
            },
        }
    } else if byte <= 246 {
        Some(byte as i64 - 139)
    } else if byte <= 250 {
        Some((byte as i64 - 247) * 256 + dict[at + 1] as i64 + 108)
    } else {
        Some(-(byte as i64 - 251) * 256 - dict[at + 1] as i64 - 108)
    }
}

fn read_place(dict: &[u8], operands: (u64, u64)) -> (found: Option<u64>)
    requires
        operands.0 <= operands.1 < dict@.len() <= REACH,
        operator_at(dict@, operands.0 as int) == operands.1,
    ensures
        found == place(dict@, (operands.0 as int, operands.1 as int)),
        found matches Some(value) ==> value <= 0x7FFF_FFFF,
{
    if operands.0 >= operands.1 {
        return None;
    }
    proof {
        lemma_operand_follows(dict@, operands.0 as int, operands.1 as int);
    }
    if find_operand_end(dict, operands.0) != operands.1 {
        return None;
    }
    match read_operand(dict, operands.0) {
        Some(value) if value >= 0 => Some(value as u64),
        _ => None,
    }
}

fn read_span(dict: &[u8], operands: (u64, u64)) -> (found: Option<(u64, u64)>)
    requires
        operands.0 <= operands.1 < dict@.len() <= REACH,
        operator_at(dict@, operands.0 as int) == operands.1,
    ensures
        found == span(dict@, (operands.0 as int, operands.1 as int)),
        found matches Some((start, size)) ==> start <= 0x7FFF_FFFF && size <= 0x7FFF_FFFF,
{
    if operands.0 >= operands.1 {
        return None;
    }
    proof {
        lemma_operand_follows(dict@, operands.0 as int, operands.1 as int);
    }
    let second: u64 = find_operand_end(dict, operands.0);
    if second >= operands.1 {
        return None;
    }
    proof {
        lemma_operand_follows(dict@, second as int, operands.1 as int);
    }
    if find_operand_end(dict, second) != operands.1 {
        return None;
    }
    match (read_operand(dict, operands.0), read_operand(dict, second)) {
        (Some(size), Some(start)) if size >= 0 && start >= 0 => Some((start as u64, size as u64)),
        _ => None,
    }
}

/// The dictionary has the operator.
pub fn find_operator(dict: &[u8], code: u64) -> (yes: bool)
    requires
        dict@.len() <= REACH,
        code < 2000,
    ensures
        yes == has_operator(dict@, code as int),
{
    let found: Vec<(u64, u64)> = find_operands(dict, code);
    assert(places(found@).len() == found@.len());
    found.len() > 0
}

/// The place that the last `code` operator of a dictionary gives.
pub fn find_last_place(dict: &[u8], code: u64) -> (found: Option<u64>)
    requires
        dict@.len() <= REACH,
        code < 2000,
    ensures
        found == last_place(dict@, code as int),
        found matches Some(value) ==> value <= 0x7FFF_FFFF,
{
    let found: Vec<(u64, u64)> = find_operands(dict, code);
    let n: usize = found.len();
    assert(places(found@).len() == n);
    if n > 0 {
        read_place(dict, found[n - 1])
    } else {
        None
    }
}

/// The place and the size that the last `code` operator of a dictionary gives.
pub fn find_last_span(dict: &[u8], code: u64) -> (found: Option<(u64, u64)>)
    requires
        dict@.len() <= REACH,
        code < 2000,
    ensures
        found == last_span(dict@, code as int),
        found matches Some((start, size)) ==> start <= 0x7FFF_FFFF && size <= 0x7FFF_FFFF,
{
    let found: Vec<(u64, u64)> = find_operands(dict, code);
    let n: usize = found.len();
    assert(places(found@).len() == n);
    if n > 0 {
        read_span(dict, found[n - 1])
    } else {
        None
    }
}

/// The place and the size that the first `code` operator of a dictionary gives.
pub fn find_first_span(dict: &[u8], code: u64) -> (found: Option<(u64, u64)>)
    requires
        dict@.len() <= REACH,
        code < 2000,
    ensures
        found == first_span(dict@, code as int),
        found matches Some((start, size)) ==> start <= 0x7FFF_FFFF && size <= 0x7FFF_FFFF,
{
    let found: Vec<(u64, u64)> = find_operands(dict, code);
    assert(places(found@).len() == found@.len());
    if found.len() > 0 {
        read_span(dict, found[0])
    } else {
        None
    }
}

/// A small number is written as one byte, a larger one as two.
pub proof fn short_numbers_are_read_as_written(rest: Seq<u8>, value: int, k: int, low: u8)
    requires
        -107 <= value <= 107,
        0 <= k < 4,
    ensures
        ({
            let one = seq![(value + 139) as u8] + rest;
            let two = seq![(247 + k) as u8, low] + rest;
            let negative = seq![(251 + k) as u8, low] + rest;
            &&& operand_end(one, 0) == 1 && operand_value(one, 0) == Some(value)
            &&& operand_end(two, 0) == 2 && operand_value(two, 0) == Some(108 + 256 * k + low)
            &&& operand_end(negative, 0) == 2 && operand_value(negative, 0) == Some(
                -(108 + 256 * k + low),
            )
        }),
{
    let one = seq![(value + 139) as u8] + rest;
    let two = seq![(247 + k) as u8, low] + rest;
    let negative = seq![(251 + k) as u8, low] + rest;
    assert(one[0] == value + 139);
    assert(two[0] == 247 + k && two[1] == low);
    assert(negative[0] == 251 + k && negative[1] == low);
}

/// A long number is written as a mark and two or four bytes, the high byte
/// first; one that begins with a high bit is negative.
pub proof fn long_numbers_are_read_as_written(rest: Seq<u8>, a: u8, b: u8, c: u8, d: u8)
    ensures
        ({
            let two = seq![28u8, a, b] + rest;
            let four = seq![29u8, a, b, c, d] + rest;
            let short = 256 * a + b;
            let long = 0x1_0000 * short + (256 * c + d);
            &&& operand_end(two, 0) == 3 && operand_end(four, 0) == 5
            &&& a < 128 ==> operand_value(two, 0) == Some(short) && operand_value(four, 0) == Some(
                long,
            )
            &&& a >= 128 ==> operand_value(two, 0) == Some(short - 0x1_0000) && operand_value(
                four,
                0,
            ) == Some(long - 0x1_0000_0000)
        }),
{
    let two = seq![28u8, a, b] + rest;
    let four = seq![29u8, a, b, c, d] + rest;
    assert(two[0] == 28 && two[1] == a && two[2] == b);
    assert(four[0] == 29 && four[1] == a && four[2] == b && four[3] == c && four[4] == d);
}

/// A dictionary that is one number and one operator of a byte gives the number
/// as the place of that operator, if it is not negative, and no other operator
/// has one.
pub proof fn one_entry_gives_its_place(number: Seq<u8>, operator_byte: u8, value: int, code: int)
    requires
        number.len() > 0,
        operator_byte <= 21,
        operator_byte != 12,
        !operator(number[0]),
        operand_end(number + seq![operator_byte], 0) == number.len(),
        operand_value(number + seq![operator_byte], 0) == Some(value),
    ensures
        ({
            let dict = number + seq![operator_byte];
            &&& value >= 0 ==> last_place(dict, operator_byte as int) == Some(value as u64)
            &&& value < 0 ==> last_place(dict, operator_byte as int) is None
            &&& code != operator_byte ==> !has_operator(dict, code)
            &&& code != operator_byte ==> last_place(dict, code) is None
            &&& has_operator(dict, operator_byte as int)
        }),
{
    let dict = number + seq![operator_byte];
    let n = number.len() as int;
    assert(dict[0] == number[0]);
    assert(dict[n] == operator_byte);
    assert(operator_at(dict, n) == n);
    decimal_end_is_ahead(dict, 1);
    assert(operator_at(dict, 0) == n);
    assert(operator_at(dict, n + 1) == n + 1);
    assert(operands_of(dict, n + 1, operator_byte as int) == Seq::<(int, int)>::empty());
    assert(operands_of(dict, n + 1, code) == Seq::<(int, int)>::empty());
    assert(operands_of(dict, 0, operator_byte as int) == seq![(0int, n)]);
}

} // verus!
