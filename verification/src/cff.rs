//! Following the program of a glyph in compact outlines.
//!
//! A glyph program may declare hints, and the parser counts them in 32 bits. A
//! small program that calls its routines often enough makes it count too far.
//! [`are_hints_in_reach`] follows a program the way the parser does, without
//! drawing, and tells whether the count stays within bounds.

use vstd::prelude::*;
use crate::dict::bytes_left;
use crate::outlines::{
    find_list_item, find_list_len, find_outlines, find_routines, list_item, list_len, near,
    outlines, routines_of, Outlines, Routines, MAX_OUTLINES,
};
use crate::preflight::{read_short, short_at, REACH};

verus! {

/// The most numbers that may wait for an operator.
pub const STACK_LEN: usize = 48;

/// How deep routines may call each other.
pub const MAX_CALLS: u8 = 10;

/// One, as programs hold numbers: in units of a 65536th.
pub const ONE: i64 = 0x1_0000;

/// How far a program has come.
#[verifier::ext_equal]
pub struct Drawing {
    /// The numbers that wait for an operator.
    pub stack: Seq<int>,
    /// The hints declared so far.
    pub hints: nat,
    /// The width has been given.
    pub width: bool,
    /// An outline has been begun.
    pub moved: bool,
    /// The glyph is complete.
    pub ended: bool,
    /// The glyph is made of two others.
    pub accented: bool,
}

/// What becomes of a program.
#[verifier::ext_equal]
pub enum Walk {
    /// It runs to its end.
    Goes(Drawing),
    /// It is refused on the way.
    Fails,
    /// It counts further than 32 bits allow, or calls routines that reach so far.
    Beyond,
}

/// What becomes of one instruction.
#[verifier::ext_equal]
pub enum Step {
    /// The program goes on at a place.
    On(int, Drawing),
    /// The program returns.
    Done,
    /// The instruction is refused.
    Fails,
    /// The count reaches further than 32 bits allow.
    Beyond,
}

/// The multiple of `unit` next to `m`, the even one of two.
pub open spec fn nearest(m: int, unit: int) -> int {
    let rest = m % unit;
    if 2 * rest < unit || (2 * rest == unit && (m / unit) % 2 == 0) {
        m - rest
    } else {
        m - rest + unit
    }
}

/// The distance between the numbers of 24 bits around `m`.
pub open spec fn spacing(m: int) -> int {
    if m < 0x100_0000 {
        1
    } else if m < 0x200_0000 {
        2
    } else if m < 0x400_0000 {
        4
    } else if m < 0x800_0000 {
        8
    } else if m < 0x1000_0000 {
        16
    } else if m < 0x2000_0000 {
        32
    } else if m < 0x4000_0000 {
        64
    } else if m < 0x8000_0000 {
        128
    } else {
        256
    }
}

/// A fixed-point number as it is held: rounded to 24 bits.
pub open spec fn held(number: int) -> int {
    if number >= 0 {
        nearest(number, spacing(number))
    } else {
        -nearest(-number, spacing(-number))
    }
}

/// The whole part of a held number.
pub open spec fn whole_part(number: int) -> int {
    if number >= 0 {
        number / ONE as int
    } else {
        -(-number / ONE as int)
    }
}

/// A number, and where it ends, out of the instruction at `i`.
pub open spec fn literal(code: Seq<u8>, i: int) -> Option<(int, int)> {
    let byte = code[i];
    if byte == 28 {
        match short_at(code, i + 1) {
            Some(n) => Some(
                (
                    if n < 0x8000 {
                        n * ONE
                    } else {
                        (n - 0x1_0000) * ONE
                    },
                    i + 3,
                ),
            ),
            None => None,
        }
    } else if byte == 255 {
        match (short_at(code, i + 1), short_at(code, i + 3)) {
            (Some(high), Some(low)) => {
                let n = high * 0x1_0000 + low;
                Some(
                    (
                        held(
                            if n < 0x8000_0000 {
                                n
                            } else {
                                n - 0x1_0000_0000
                            },
                        ),
                        i + 5,
                    ),
                )
            },
            _ => None,
        }
    } else if byte <= 246 {
        Some(((byte - 139) * ONE, i + 1))
    } else if i + 1 >= code.len() {
        None
    } else if byte <= 250 {
        Some((((byte - 247) * 256 + code[i + 1] + 108) * ONE, i + 2))
    } else {
        Some(((-(byte - 251) * 256 - code[i + 1] - 108) * ONE, i + 2))
    }
}

/// The instruction is a number.
pub open spec fn is_literal(byte: u8) -> bool {
    byte == 28 || byte >= 32
}

/// The drawing instruction takes `n` numbers.
pub open spec fn takes(byte: u8, n: int) -> bool {
    if byte == 5 {
        n % 2 == 0
    } else if byte == 6 || byte == 7 {
        n > 0
    } else if byte == 8 {
        n % 6 == 0
    } else if byte == 24 {
        n >= 8 && (n - 2) % 6 == 0
    } else if byte == 25 {
        n >= 8 && n % 2 == 0
    } else if byte == 26 || byte == 27 {
        n % 4 <= 1
    } else if byte == 30 || byte == 31 {
        n >= 4 && n % 4 <= 1
    } else {
        false
    }
}

/// The drawing instruction of two bytes takes `n` numbers.
pub open spec fn bends(byte: u8, n: int) -> bool {
    if byte == 34 {
        n == 7
    } else if byte == 35 {
        n == 13
    } else if byte == 36 {
        n == 9
    } else if byte == 37 {
        n == 11
    } else {
        false
    }
}

/// The instruction is done with the numbers that waited for it.
pub open spec fn cleared(d: Drawing) -> Drawing {
    Drawing { stack: Seq::empty(), ..d }
}

/// What becomes of the instruction at `i`, unless it calls another program or
/// completes the glyph.
pub open spec fn step(code: Seq<u8>, i: int, d: Drawing) -> Step {
    let byte = code[i];
    let n = d.stack.len();
    let hints = d.hints + n / 2;
    if is_literal(byte) {
        match literal(code, i) {
            Some((number, next)) => if n < STACK_LEN {
                Step::On(next, Drawing { stack: d.stack.push(number), ..d })
            } else {
                Step::Fails
            },
            None => Step::Fails,
        }
    } else if byte == 1 || byte == 3 || byte == 18 || byte == 23 {
        if hints > REACH {
            Step::Beyond
        } else {
            Step::On(
                i + 1,
                Drawing { hints, width: d.width || n % 2 == 1, ..cleared(d) },
            )
        }
    } else if byte == 19 || byte == 20 {
        if hints + 7 > REACH {
            Step::Beyond
        } else {
            Step::On(
                i + 1 + (hints + 7) / 8,
                Drawing { hints, width: d.width || n % 2 == 1, ..cleared(d) },
            )
        }
    } else if byte == 4 || byte == 22 {
        if n == 1 || n == 2 {
            Step::On(i + 1, Drawing { width: d.width || n == 2, moved: true, ..cleared(d) })
        } else {
            Step::Fails
        }
    } else if byte == 21 {
        if n == 2 || n == 3 {
            Step::On(i + 1, Drawing { width: d.width || n == 3, moved: true, ..cleared(d) })
        } else {
            Step::Fails
        }
    } else if byte == 11 {
        Step::Done
    } else if byte == 12 {
        if i + 1 < code.len() && d.moved && bends(code[i + 1], n as int) {
            Step::On(i + 2, cleared(d))
        } else {
            Step::Fails
        }
    } else if d.moved && takes(byte, n as int) {
        Step::On(i + 1, cleared(d))
    } else {
        Step::Fails
    }
}

/// What routines are counted from, by how many there are.
pub open spec fn bias(count: int) -> int {
    if count < 1240 {
        107
    } else if count < 33900 {
        1131
    } else {
        32768
    }
}

/// The routines that a call draws on.
pub open spec fn called(cff: Seq<u8>, o: Outlines, gid: u16, byte: u8) -> Routines {
    if byte == 29 {
        Routines::At(o.globals)
    } else {
        routines_of(cff, o, gid)
    }
}

/// The name that the standard encoding gives a character.
pub open spec fn standard_name(code: int) -> int {
    if 32 <= code <= 126 {
        code - 31
    } else if 161 <= code <= 175 {
        code - 65
    } else if 177 <= code <= 180 {
        code - 66
    } else if 182 <= code <= 189 {
        code - 67
    } else if code == 191 {
        123
    } else if 193 <= code <= 200 {
        code - 69
    } else if 202 <= code <= 203 {
        code - 70
    } else if 205 <= code <= 208 {
        code - 71
    } else if code == 225 {
        138
    } else if code == 227 {
        139
    } else if 232 <= code <= 235 {
        code - 92
    } else if code == 241 {
        144
    } else if code == 245 {
        145
    } else if 248 <= code <= 251 {
        code - 102
    } else {
        0
    }
}

/// The first glyph from `gid` on with a name, where the names are listed one by
/// one from `p` on.
pub open spec fn glyph_in_names(cff: Seq<u8>, p: int, gid: int, glyphs: int, name: int) -> Option<
    int,
>
    decreases glyphs - gid,
{
    match short_at(cff, p) {
        Some(found) => if gid >= glyphs {
            None
        } else if found == name {
            Some(gid)
        } else {
            glyph_in_names(cff, p + 2, gid + 1, glyphs, name)
        },
        None => None,
    }
}

/// How many names follow the first one of the range at `p`, as a byte or, where
/// the ranges are wide, as two.
pub open spec fn names_left(cff: Seq<u8>, p: int, wide: bool) -> Option<int> {
    if wide {
        short_at(cff, p + 2)
    } else if 0 <= p && p + 2 < cff.len() {
        Some(cff[p + 2] as int)
    } else {
        None
    }
}

/// How many glyphs there are from `gid` on.
pub open spec fn glyphs_left(gid: int, glyphs: int) -> int {
    if gid < glyphs {
        glyphs - gid
    } else {
        0
    }
}

/// The first glyph from `gid` on with a name, where the names are listed in
/// ranges from `p` on.
pub open spec fn glyph_in_ranges(
    cff: Seq<u8>,
    p: int,
    gid: int,
    glyphs: int,
    name: int,
    wide: bool,
) -> Option<int>
    decreases glyphs_left(gid, glyphs),
{
    match (short_at(cff, p), names_left(cff, p, wide)) {
        (Some(first), Some(left)) => if gid >= glyphs {
            None
        } else if first <= name <= first + left {
            Some(gid + (name - first))
        } else {
            glyph_in_ranges(
                cff,
                p + if wide {
                    4int
                } else {
                    3
                },
                gid + left + 1,
                glyphs,
                name,
                wide,
            )
        },
        _ => None,
    }
}

/// The glyph that a character code stands for.
pub open spec fn glyph_of(cff: Seq<u8>, o: Outlines, number: int) -> Option<int> {
    let code = whole_part(number);
    let name = standard_name(code);
    let glyphs = list_len(cff, o.programs as int);
    if code < 0 || code > 255 {
        None
    } else if o.charset == 0 {
        if code <= 228 {
            Some(name)
        } else {
            None
        }
    } else if o.charset <= 2 {
        None
    } else if name == 0 {
        Some(0)
    } else if o.charset >= cff.len() {
        None
    } else if cff[o.charset as int] == 0 {
        glyph_in_names(cff, o.charset + 1, 1, glyphs, name)
    } else if cff[o.charset as int] <= 2 {
        glyph_in_ranges(cff, o.charset + 1, 1, glyphs, name, cff[o.charset as int] == 2)
    } else {
        None
    }
}

/// The program completes the glyph with the instruction at `i`, which must be
/// its last.
pub open spec fn complete(code: Seq<u8>, i: int, d: Drawing) -> Walk {
    if i + 1 < code.len() {
        Walk::Fails
    } else {
        Walk::Goes(Drawing { ended: true, ..d })
    }
}

/// The glyph is made of two others: its last numbers are their character codes.
pub open spec fn composed(d: Drawing) -> bool {
    d.stack.len() == 4 || (!d.width && d.stack.len() == 5)
}

/// What becomes of a glyph program from `i` on, `depth` calls deep.
pub open spec fn run(
    cff: Seq<u8>,
    o: Outlines,
    gid: u16,
    code: Seq<u8>,
    i: int,
    depth: int,
    d: Drawing,
) -> Walk
    decreases MAX_CALLS - depth, bytes_left(code, i),
{
    let n = d.stack.len() as int;
    if i < 0 || i >= code.len() {
        Walk::Goes(d)
    } else if code[i] == 10 || code[i] == 29 {
        if n == 0 || depth >= MAX_CALLS {
            Walk::Fails
        } else {
            match called(cff, o, gid, code[i]) {
                Routines::Absent => Walk::Fails,
                Routines::Far => Walk::Beyond,
                Routines::At(p) => match list_item(
                    cff,
                    p as int,
                    whole_part(d.stack.last()) + bias(list_len(cff, p as int)),
                ) {
                    None => Walk::Fails,
                    Some(routine) => match run(
                        cff,
                        o,
                        gid,
                        routine,
                        0,
                        depth + 1,
                        Drawing { stack: d.stack.drop_last(), ..d },
                    ) {
                        Walk::Goes(after) => if after.ended && !after.accented {
                            complete(code, i, after)
                        } else {
                            run(cff, o, gid, code, i + 1, depth, after)
                        },
                        walk => walk,
                    },
                },
            }
        }
    } else if code[i] == 14 {
        if composed(d) {
            let accent = glyph_of(cff, o, d.stack[n - 1]);
            let base = glyph_of(cff, o, d.stack[n - 2]);
            if accent is None || base is None || depth >= MAX_CALLS {
                Walk::Fails
            } else {
                match list_item(cff, o.programs as int, base->0) {
                    None => Walk::Fails,
                    Some(base) => match run(
                        cff,
                        o,
                        gid,
                        base,
                        0,
                        depth + 1,
                        Drawing { width: d.width || n == 5, accented: true, ..cleared(d) },
                    ) {
                        Walk::Goes(after) => match list_item(cff, o.programs as int, accent->0) {
                            None => Walk::Fails,
                            Some(accent) => match run(cff, o, gid, accent, 0, depth + 1, after) {
                                Walk::Goes(after) => complete(code, i, after),
                                walk => walk,
                            },
                        },
                        walk => walk,
                    },
                }
            }
        } else if n == 1 && !d.width {
            complete(code, i, Drawing { width: true, ..cleared(d) })
        } else {
            complete(code, i, d)
        }
    } else {
        match step(code, i, d) {
            Step::On(next, after) => run(cff, o, gid, code, next, depth, after),
            Step::Done => Walk::Goes(d),
            Step::Fails => Walk::Fails,
            Step::Beyond => Walk::Beyond,
        }
    }
}

/// Nothing is drawn yet.
pub open spec fn blank() -> Drawing {
    Drawing {
        stack: Seq::empty(),
        hints: 0,
        width: false,
        moved: false,
        ended: false,
        accented: false,
    }
}

/// The table can be read, and the program of a glyph declares no more hints
/// than 32 bits can count.
pub open spec fn hints_in_reach(cff: Seq<u8>, gid: u16) -> bool {
    match outlines(cff) {
        Some(o) => match list_item(cff, o.programs as int, gid as int) {
            Some(code) => run(cff, o, gid, code, 0, 0, blank()) !is Beyond,
            None => true,
        },
        None => false,
    }
}

/// How far a program has come, as it is held.
struct Pen {
    stack: Vec<i64>,
    hints: u64,
    width: bool,
    moved: bool,
    ended: bool,
    accented: bool,
}

/// The numbers of a stack.
spec fn numbers(stack: Seq<i64>) -> Seq<int> {
    stack.map_values(|number: i64| number as int)
}

impl Pen {
    spec fn drawing(&self) -> Drawing {
        Drawing {
            stack: numbers(self.stack@),
            hints: self.hints as nat,
            width: self.width,
            moved: self.moved,
            ended: self.ended,
            accented: self.accented,
        }
    }

    /// Neither the stack, nor its numbers, nor the count of hints are too large.
    spec fn within_bounds(&self) -> bool {
        &&& self.stack@.len() <= STACK_LEN
        &&& self.hints <= REACH
        &&& forall|k: int|
            0 <= k < self.stack@.len() ==> -0x1_0000_0000 <= #[trigger] self.stack@[k]
                <= 0x1_0000_0000
    }
}

/// What becomes of one instruction, the pen having moved.
enum Moved {
    On(u64),
    Done,
    Fails,
    Beyond,
}

fn find_nearest(m: u64, unit: u64) -> (number: u64)
    requires
        m <= 0x8000_0000,
        1 <= unit <= 256,
    ensures
        number == nearest(m as int, unit as int),
        number <= m + unit,
{
    proof {
        vstd::arithmetic::div_mod::lemma_mod_bound(m as int, unit as int);
        vstd::arithmetic::div_mod::lemma_mod_decreases(m as nat, unit as nat);
    }
    let rest: u64 = m % unit;
    if 2 * rest < unit || (2 * rest == unit && (m / unit) % 2 == 0) {
        m - rest
    } else {
        m - rest + unit
    }
}

fn find_held(number: i64) -> (result: i64)
    requires
        -0x8000_0000 <= number < 0x8000_0000,
    ensures
        result == held(number as int),
        -0x1_0000_0000 <= result <= 0x1_0000_0000,
{
    let m: u64 = if number >= 0 {
        number as u64
    } else {
        (-number) as u64
    };
    let unit: u64 = if m < 0x100_0000 {
        1
    } else if m < 0x200_0000 {
        2
    } else if m < 0x400_0000 {
        4
    } else if m < 0x800_0000 {
        8
    } else if m < 0x1000_0000 {
        16
    } else if m < 0x2000_0000 {
        32
    } else if m < 0x4000_0000 {
        64
    } else if m < 0x8000_0000 {
        128
    } else {
        256
    };
    let size: i64 = find_nearest(m, unit) as i64;
    if number >= 0 {
        size
    } else {
        -size
    }
}

fn find_whole_part(number: i64) -> (whole: i64)
    requires
        -0x1_0000_0000 <= number <= 0x1_0000_0000,
    ensures
        whole == whole_part(number as int),
        -0x1_0000 <= whole <= 0x1_0000,
{
    if number >= 0 {
        number / ONE
    } else {
        -((-number) / ONE)
    }
}

fn read_literal(code: &[u8], i: u64) -> (found: Option<(i64, u64)>)
    requires
        i < code@.len() <= MAX_OUTLINES,
        is_literal(code@[i as int]),
    ensures
        match found {
            Some((number, next)) => {
                &&& literal(code@, i as int) == Some((number as int, next as int))
                &&& -0x1_0000_0000 <= number <= 0x1_0000_0000
                &&& i < next <= i + 5
            },
            None => literal(code@, i as int) is None,
        },
{
    let byte: u8 = code[i as usize];
    if byte == 28 {
        match read_short(code, i + 1) {
            Some(n) => {
                let number: i64 = if n < 0x8000 {
                    n as i64
                } else {
                    n as i64 - 0x1_0000
                };
                Some((number * ONE, i + 3))
            },
            None => None,
        }
    } else if byte == 255 {
        match (read_short(code, i + 1), read_short(code, i + 3)) {
            (Some(high), Some(low)) => {
                let n: i64 = high as i64 * 0x1_0000 + low as i64;
                let number: i64 = if n < 0x8000_0000 {
                    n
                } else {
                    n - 0x1_0000_0000
                };
                Some((find_held(number), i + 5))
            },
            _ => None,
        }
    } else if byte <= 246 {
        Some(((byte as i64 - 139) * ONE, i + 1))
    } else if i + 1 >= code.len() as u64 {
        None
    } else {
        let low: i64 = code[(i + 1) as usize] as i64;
        if byte <= 250 {
            Some((((byte as i64 - 247) * 256 + low + 108) * ONE, i + 2))
        } else {
            Some(((-(byte as i64 - 251) * 256 - low - 108) * ONE, i + 2))
        }
    }
}

fn does_take(byte: u8, n: usize) -> (yes: bool)
    ensures
        yes == takes(byte, n as int),
{
    if byte == 5 {
        n % 2 == 0
    } else if byte == 6 || byte == 7 {
        n > 0
    } else if byte == 8 {
        n % 6 == 0
    } else if byte == 24 {
        n >= 8 && (n - 2) % 6 == 0
    } else if byte == 25 {
        n >= 8 && n % 2 == 0
    } else if byte == 26 || byte == 27 {
        n % 4 <= 1
    } else if byte == 30 || byte == 31 {
        n >= 4 && n % 4 <= 1
    } else {
        false
    }
}

fn does_bend(byte: u8, n: usize) -> (yes: bool)
    ensures
        yes == bends(byte, n as int),
{
    (byte == 34 && n == 7) || (byte == 35 && n == 13) || (byte == 36 && n == 9) || (byte == 37
        && n == 11)
}

fn take_step(code: &[u8], i: u64, pen: &mut Pen) -> (moved: Moved)
    requires
        i < code@.len() <= MAX_OUTLINES,
        old(pen).within_bounds(),
    ensures
        final(pen).within_bounds(),
        match moved {
            Moved::On(next) => step(code@, i as int, old(pen).drawing()) == Step::On(
                next as int,
                final(pen).drawing(),
            ) && i < next <= i + REACH,
            Moved::Done => step(code@, i as int, old(pen).drawing()) is Done
                && final(pen).drawing() == old(pen).drawing(),
            Moved::Fails => step(code@, i as int, old(pen).drawing()) is Fails,
            Moved::Beyond => step(code@, i as int, old(pen).drawing()) is Beyond,
        },
{
    let byte: u8 = code[i as usize];
    let n: usize = pen.stack.len();
    let ghost before = pen.stack@;
    assert(numbers(before).len() == n);
    let hints: u64 = pen.hints + (n / 2) as u64;
    let next: u64 = if byte == 28 || byte >= 32 {
        match read_literal(code, i) {
            Some((number, next)) => {
                if n >= STACK_LEN {
                    return Moved::Fails;
                }
                pen.stack.push(number);
                assert(numbers(pen.stack@) == numbers(before).push(number as int));
                return Moved::On(next);
            },
            None => return Moved::Fails,
        }
    } else if byte == 1 || byte == 3 || byte == 18 || byte == 23 {
        if hints > REACH {
            return Moved::Beyond;
        }
        pen.hints = hints;
        pen.width = pen.width || n % 2 == 1;
        i + 1
    } else if byte == 19 || byte == 20 {
        if hints + 7 > REACH {
            return Moved::Beyond;
        }
        pen.hints = hints;
        pen.width = pen.width || n % 2 == 1;
        i + 1 + (hints + 7) / 8
    } else if byte == 4 || byte == 22 {
        if n != 1 && n != 2 {
            return Moved::Fails;
        }
        pen.width = pen.width || n == 2;
        pen.moved = true;
        i + 1
    } else if byte == 21 {
        if n != 2 && n != 3 {
            return Moved::Fails;
        }
        pen.width = pen.width || n == 3;
        pen.moved = true;
        i + 1
    } else if byte == 11 {
        return Moved::Done;
    } else if byte == 12 {
        if i + 1 < code.len() as u64 && pen.moved && does_bend(code[(i + 1) as usize], n) {
            i + 2
        } else {
            return Moved::Fails;
        }
    } else if pen.moved && does_take(byte, n) {
        i + 1
    } else {
        return Moved::Fails;
    };
    pen.stack.clear();
    assert(numbers(pen.stack@) == Seq::<int>::empty());
    Moved::On(next)
}

fn find_standard_name(code: u64) -> (name: u64)
    ensures
        name == standard_name(code as int),
{
    if 32 <= code && code <= 126 {
        code - 31
    } else if 161 <= code && code <= 175 {
        code - 65
    } else if 177 <= code && code <= 180 {
        code - 66
    } else if 182 <= code && code <= 189 {
        code - 67
    } else if code == 191 {
        123
    } else if 193 <= code && code <= 200 {
        code - 69
    } else if 202 <= code && code <= 203 {
        code - 70
    } else if 205 <= code && code <= 208 {
        code - 71
    } else if code == 225 {
        138
    } else if code == 227 {
        139
    } else if 232 <= code && code <= 235 {
        code - 92
    } else if code == 241 {
        144
    } else if code == 245 {
        145
    } else if 248 <= code && code <= 251 {
        code - 102
    } else {
        0
    }
}

fn find_glyph_in_names(cff: &[u8], start: u64, glyphs: u64, name: u64) -> (found: Option<u64>)
    requires
        start <= REACH + 1,
        glyphs <= 0xFFFF,
    ensures
        match found {
            Some(gid) => glyph_in_names(cff@, start as int, 1, glyphs as int, name as int) == Some(
                gid as int,
            ),
            None => glyph_in_names(cff@, start as int, 1, glyphs as int, name as int) is None,
        },
{
    let mut p: u64 = start;
    let mut gid: u64 = 1;
    while gid < glyphs
        invariant
            1 <= gid,
            gid <= glyphs || gid == 1,
            glyphs <= 0xFFFF,
            start <= REACH + 1,
            p == start + 2 * (gid - 1),
            glyph_in_names(cff@, start as int, 1, glyphs as int, name as int) == glyph_in_names(
                cff@,
                p as int,
                gid as int,
                glyphs as int,
                name as int,
            ),
        decreases glyphs - gid,
    {
        match read_short(cff, p) {
            Some(found) => if found == name {
                return Some(gid);
            },
            None => return None,
        }
        p += 2;
        gid += 1;
    }
    None
}

fn read_names_left(cff: &[u8], p: u64, wide: bool) -> (left: Option<u64>)
    requires
        p < u64::MAX - 4,
    ensures
        match left {
            Some(left) => names_left(cff@, p as int, wide) == Some(left as int) && left <= 0xFFFF,
            None => names_left(cff@, p as int, wide) is None,
        },
{
    if wide {
        read_short(cff, p + 2)
    } else if p + 2 < cff.len() as u64 {
        Some(cff[(p + 2) as usize] as u64)
    } else {
        None
    }
}

fn find_glyph_in_ranges(cff: &[u8], start: u64, glyphs: u64, name: u64, wide: bool) -> (found:
    Option<u64>)
    requires
        start <= REACH + 1,
        glyphs <= 0xFFFF,
        name <= 0xFFFF,
    ensures
        match found {
            Some(gid) => glyph_in_ranges(
                cff@,
                start as int,
                1,
                glyphs as int,
                name as int,
                wide,
            ) == Some(gid as int),
            None => glyph_in_ranges(
                cff@,
                start as int,
                1,
                glyphs as int,
                name as int,
                wide,
            ) is None,
        },
{
    let mut p: u64 = start;
    let mut gid: u64 = 1;
    while gid < glyphs
        invariant
            1 <= gid <= 0x2_0000,
            p <= start + 4 * gid,
            start <= REACH + 1,
            glyphs <= 0xFFFF,
            name <= 0xFFFF,
            glyph_in_ranges(cff@, start as int, 1, glyphs as int, name as int, wide)
                == glyph_in_ranges(
                cff@,
                p as int,
                gid as int,
                glyphs as int,
                name as int,
                wide,
            ),
        decreases glyphs_left(gid as int, glyphs as int),
    {
        match (read_short(cff, p), read_names_left(cff, p, wide)) {
            (Some(first), Some(left)) => {
                if first <= name && name <= first + left {
                    return Some(gid + (name - first));
                }
                p += if wide {
                    4
                } else {
                    3
                };
                gid += left + 1;
            },
            _ => return None,
        }
    }
    None
}

fn find_glyph(cff: &[u8], o: &Outlines, number: i64) -> (found: Option<u64>)
    requires
        near(*o),
        -0x1_0000_0000 <= number <= 0x1_0000_0000,
    ensures
        match found {
            Some(gid) => glyph_of(cff@, *o, number as int) == Some(gid as int),
            None => glyph_of(cff@, *o, number as int) is None,
        },
{
    let code: i64 = find_whole_part(number);
    if code < 0 || code > 255 {
        return None;
    }
    let name: u64 = find_standard_name(code as u64);
    if o.charset == 0 {
        if code <= 228 {
            Some(name)
        } else {
            None
        }
    } else if o.charset <= 2 {
        None
    } else if name == 0 {
        Some(0)
    } else if o.charset >= cff.len() as u64 {
        None
    } else {
        let format: u8 = cff[o.charset as usize];
        let glyphs: u64 = find_list_len(cff, o.programs);
        if format == 0 {
            find_glyph_in_names(cff, o.charset + 1, glyphs, name)
        } else if format <= 2 {
            find_glyph_in_ranges(cff, o.charset + 1, glyphs, name, format == 2)
        } else {
            None
        }
    }
}

fn find_called(cff: &[u8], o: &Outlines, gid: u16, byte: u8) -> (found: Routines)
    requires
        cff@.len() <= MAX_OUTLINES,
        near(*o),
    ensures
        found == called(cff@, *o, gid, byte),
        found matches Routines::At(p) ==> p <= REACH,
{
    if byte == 29 {
        Routines::At(o.globals)
    } else {
        find_routines(cff, o, gid)
    }
}

fn find_routine(cff: &[u8], p: u64, number: i64) -> (routine: Option<&[u8]>)
    requires
        cff@.len() <= MAX_OUTLINES,
        p <= REACH,
        -0x1_0000_0000 <= number <= 0x1_0000_0000,
    ensures
        match routine {
            Some(routine) => list_item(
                cff@,
                p as int,
                whole_part(number as int) + bias(list_len(cff@, p as int)),
            ) == Some(routine@) && routine@.len() <= cff@.len(),
            None => list_item(
                cff@,
                p as int,
                whole_part(number as int) + bias(list_len(cff@, p as int)),
            ) is None,
        },
{
    let count: u64 = find_list_len(cff, p);
    let start: i64 = if count < 1240 {
        107
    } else if count < 33900 {
        1131
    } else {
        32768
    };
    let index: i64 = find_whole_part(number) + start;
    if index < 0 {
        return None;
    }
    find_list_item(cff, p, index as u64)
}

/// What becomes of a program, as it is held.
enum Outcome {
    Goes(Pen),
    Fails,
    Beyond,
}

impl Outcome {
    spec fn walk(&self) -> Walk {
        match self {
            Outcome::Goes(pen) => Walk::Goes(pen.drawing()),
            Outcome::Fails => Walk::Fails,
            Outcome::Beyond => Walk::Beyond,
        }
    }

    spec fn within_bounds(&self) -> bool {
        self matches Outcome::Goes(pen) ==> pen.within_bounds()
    }
}

fn finish(code: &[u8], i: u64, pen: Pen) -> (outcome: Outcome)
    requires
        i < code@.len() <= MAX_OUTLINES,
        pen.within_bounds(),
    ensures
        outcome.walk() == complete(code@, i as int, pen.drawing()),
        outcome.within_bounds(),
{
    if i + 1 < code.len() as u64 {
        return Outcome::Fails;
    }
    let mut pen = pen;
    pen.ended = true;
    Outcome::Goes(pen)
}

/// Follow the program of a glyph that is made of two others.
fn follow_composed(
    cff: &[u8],
    o: &Outlines,
    gid: u16,
    code: &[u8],
    i: u64,
    depth: u8,
    pen: Pen,
) -> (outcome: Outcome)
    requires
        cff@.len() <= MAX_OUTLINES,
        near(*o),
        i < code@.len() <= MAX_OUTLINES,
        code@[i as int] == 14,
        composed(pen.drawing()),
        depth <= MAX_CALLS,
        pen.within_bounds(),
    ensures
        outcome.walk() == run(cff@, *o, gid, code@, i as int, depth as int, pen.drawing()),
        outcome.within_bounds(),
    decreases MAX_CALLS - depth, 0int,
{
    let mut pen = pen;
    let n: usize = pen.stack.len();
    let ghost d = pen.drawing();
    assert(d.stack.len() == n);
    let (accent, base) = match (
        find_glyph(cff, o, pen.stack[n - 1]),
        find_glyph(cff, o, pen.stack[n - 2]),
    ) {
        (Some(accent), Some(base)) => (accent, base),
        _ => return Outcome::Fails,
    };
    if depth >= MAX_CALLS {
        return Outcome::Fails;
    }
    let base = match find_list_item(cff, o.programs, base) {
        Some(program) => program,
        None => return Outcome::Fails,
    };
    pen.stack.clear();
    pen.width = pen.width || n == 5;
    pen.accented = true;
    assert(pen.drawing() == Drawing {
        width: d.width || n == 5,
        accented: true,
        ..cleared(d)
    });
    let after = match follow(cff, o, gid, base, depth + 1, pen) {
        Outcome::Goes(after) => after,
        outcome => return outcome,
    };
    let accent = match find_list_item(cff, o.programs, accent) {
        Some(program) => program,
        None => return Outcome::Fails,
    };
    match follow(cff, o, gid, accent, depth + 1, after) {
        Outcome::Goes(after) => finish(code, i, after),
        outcome => outcome,
    }
}

/// Follow a glyph program, `depth` calls deep.
fn follow(cff: &[u8], o: &Outlines, gid: u16, code: &[u8], depth: u8, start: Pen) -> (outcome:
    Outcome)
    requires
        cff@.len() <= MAX_OUTLINES,
        near(*o),
        code@.len() <= MAX_OUTLINES,
        depth <= MAX_CALLS,
        start.within_bounds(),
    ensures
        outcome.walk() == run(cff@, *o, gid, code@, 0, depth as int, start.drawing()),
        outcome.within_bounds(),
    decreases MAX_CALLS - depth, 1int,
{
    let mut pen = start;
    let mut i: u64 = 0;
    while i < code.len() as u64
        invariant
            cff@.len() <= MAX_OUTLINES,
            near(*o),
            code@.len() <= MAX_OUTLINES,
            depth <= MAX_CALLS,
            pen.within_bounds(),
            i <= 0x2_0000_0000,
            run(cff@, *o, gid, code@, 0, depth as int, start.drawing()) == run(
                cff@,
                *o,
                gid,
                code@,
                i as int,
                depth as int,
                pen.drawing(),
            ),
        decreases bytes_left(code@, i as int),
    {
        let byte: u8 = code[i as usize];
        let n: usize = pen.stack.len();
        let ghost d = pen.drawing();
        assert(d.stack.len() == n);
        if byte == 10 || byte == 29 {
            if n == 0 || depth >= MAX_CALLS {
                return Outcome::Fails;
            }
            let p: u64 = match find_called(cff, o, gid, byte) {
                Routines::Absent => return Outcome::Fails,
                Routines::Far => return Outcome::Beyond,
                Routines::At(p) => p,
            };
            let number: i64 = pen.stack[n - 1];
            assert(d.stack.last() == number);
            let routine = match find_routine(cff, p, number) {
                Some(routine) => routine,
                None => return Outcome::Fails,
            };
            pen.stack.truncate(n - 1);
            assert(pen.drawing() == Drawing { stack: d.stack.drop_last(), ..d });
            let after = match follow(cff, o, gid, routine, depth + 1, pen) {
                Outcome::Goes(after) => after,
                outcome => return outcome,
            };
            if after.ended && !after.accented {
                return finish(code, i, after);
            }
            pen = after;
            i += 1;
        } else if byte == 14 {
            if n == 4 || (!pen.width && n == 5) {
                return follow_composed(cff, o, gid, code, i, depth, pen);
            }
            if n == 1 && !pen.width {
                pen.stack.clear();
                pen.width = true;
                assert(pen.drawing() == Drawing { width: true, ..cleared(d) });
            }
            return finish(code, i, pen);
        } else {
            match take_step(code, i, &mut pen) {
                Moved::On(next) => {
                    i = next;
                },
                Moved::Done => return Outcome::Goes(pen),
                Moved::Fails => return Outcome::Fails,
                Moved::Beyond => return Outcome::Beyond,
            }
        }
    }
    Outcome::Goes(pen)
}

/// Whether the program of a glyph can be handed to the parser: the table can be
/// read, and the hints that the program declares can be counted.
pub fn are_hints_in_reach(cff: &[u8], gid: u16) -> (ok: bool)
    ensures
        ok == hints_in_reach(cff@, gid),
{
    let o = match find_outlines(cff) {
        Some(o) => o,
        None => return false,
    };
    let code = match find_list_item(cff, o.programs, gid as u64) {
        Some(code) => code,
        None => return true,
    };
    let pen = Pen {
        stack: Vec::new(),
        hints: 0,
        width: false,
        moved: false,
        ended: false,
        accented: false,
    };
    assert(pen.drawing() == blank());
    match follow(cff, &o, gid, code, 0, pen) {
        Outcome::Beyond => false,
        _ => true,
    }
}

/// Only a program that declares more hints than 32 bits can count is refused: one
/// that calls no routine, and is shorter than a twenty-fourth of that, runs on
/// until it ends or makes a mistake. (Its last instruction may still compose the
/// glyph of two others.)
pub proof fn a_program_without_calls_is_followed(
    cff: Seq<u8>,
    o: Outlines,
    gid: u16,
    code: Seq<u8>,
)
    requires
        code.len() <= 0xA00_0000,
        forall|i: int| 0 <= i < code.len() ==> #[trigger] code[i] != 10 && code[i] != 29,
        forall|i: int| 0 <= i < code.len() - 1 ==> #[trigger] code[i] != 14,
        o.charset == 1 || o.charset == 2 || (code.len() > 0 ==> code.last() != 14),
    ensures
        run(cff, o, gid, code, 0, 0, blank()) !is Beyond,
{
    lemma_no_calls(cff, o, gid, code, 0, 0, blank());
}

proof fn lemma_no_calls(
    cff: Seq<u8>,
    o: Outlines,
    gid: u16,
    code: Seq<u8>,
    i: int,
    depth: int,
    d: Drawing,
)
    requires
        0 <= i,
        d.stack.len() <= 48,
        d.hints + 24 * bytes_left(code, i) + 31 <= 0xFFFF_FFFF,
        forall|i: int| 0 <= i < code.len() ==> #[trigger] code[i] != 10 && code[i] != 29,
        forall|i: int| 0 <= i < code.len() - 1 ==> #[trigger] code[i] != 14,
        o.charset == 1 || o.charset == 2 || (code.len() > 0 ==> code.last() != 14),
    ensures
        run(cff, o, gid, code, i, depth, d) !is Beyond,
    decreases bytes_left(code, i),
{
    if i < code.len() {
        assert(code[i] != 10 && code[i] != 29);
        if code[i] == 14 {
            assert(i == code.len() - 1);
            assert(code.last() == 14);
        } else {
            match step(code, i, d) {
                Step::On(next, after) => {
                    assert(after.stack.len() <= 48);
                    assert(after.hints <= d.hints + 24);
                    assert(bytes_left(code, next) <= bytes_left(code, i) - 1);
                    lemma_no_calls(cff, o, gid, code, next, depth, after);
                },
                _ => {},
            }
        }
    }
}

/// An instruction goes too far only by the hints that it declares.
pub proof fn only_hints_go_too_far(code: Seq<u8>, i: int, d: Drawing)
    requires
        0 <= i < code.len(),
        d.hints + d.stack.len() / 2 + 7 <= 0xFFFF_FFFF,
    ensures
        step(code, i, d) !is Beyond,
{
}

/// A glyph that has no program is handed on, where the table can be read.
pub proof fn a_glyph_without_a_program_is_handed_on(cff: Seq<u8>, gid: u16)
    requires
        outlines(cff) is Some,
        list_item(cff, outlines(cff)->0.programs as int, gid as int) is None,
    ensures
        hints_in_reach(cff, gid),
{
}

} // verus!
