//! How a `CFF ` table of compact outlines is held together.
//!
//! The table is made of lists, each of which says in its last entry how long it
//! is, and of dictionaries that say where other lists are. The parser believes
//! those numbers. [`find_outlines`] follows them as the parser does and finds
//! the lists that a glyph program draws on.

use vstd::prelude::*;
use crate::dict::{
    find_first_span, find_last_place, find_last_span, find_operator, first_span, has_operator,
    last_place, last_span,
};
use crate::preflight::{read_short, short_at, REACH};

verus! {

/// The longest table that is read: what the parser reads past the end of a list
/// before it notices stays within [`REACH`].
pub const MAX_OUTLINES: u64 = 0xFF00_0000;

/// `n` times the size of an entry, which is at most four bytes.
pub open spec fn scaled(n: int, size: int) -> int {
    if size == 1 {
        n
    } else if size == 2 {
        2 * n
    } else if size == 3 {
        3 * n
    } else {
        4 * n
    }
}

/// The big-endian number of `size` bytes at `i`.
pub open spec fn number_at(data: Seq<u8>, i: int, size: int) -> int {
    if size == 1 {
        data[i] as int
    } else if size == 2 {
        data[i] * 0x100 + data[i + 1]
    } else if size == 3 {
        data[i] * 0x1_0000 + data[i + 1] * 0x100 + data[i + 2]
    } else {
        data[i] * 0x100_0000 + data[i + 1] * 0x1_0000 + data[i + 2] * 0x100 + data[i + 3]
    }
}

/// The size of the entries of the list at `p`.
pub open spec fn entry_size(cff: Seq<u8>, p: int) -> int {
    if 0 <= p && p + 2 < cff.len() {
        cff[p + 2] as int
    } else {
        0
    }
}

/// The list at `p` has `n` items, and its entries fit into the table.
pub open spec fn listed(cff: Seq<u8>, p: int, n: int) -> bool {
    &&& n > 0
    &&& short_at(cff, p) == Some(n)
    &&& 1 <= entry_size(cff, p) <= 4
    &&& p + 3 + scaled(n + 1, entry_size(cff, p)) <= cff.len()
}

/// Entry `k` of the list at `p`.
pub open spec fn entry(cff: Seq<u8>, p: int, k: int) -> int {
    number_at(cff, p + 3 + scaled(k, entry_size(cff, p)), entry_size(cff, p))
}

/// Where the items of the list at `p` begin.
pub open spec fn items_start(cff: Seq<u8>, p: int, n: int) -> int {
    p + 3 + scaled(n + 1, entry_size(cff, p))
}

/// Where the list at `p` ends by its own account, if it can be read. Entries
/// count from one; a last entry of zero says nothing.
pub open spec fn list_end(cff: Seq<u8>, p: int) -> Option<int> {
    match short_at(cff, p) {
        Some(n) => if n == 0 {
            Some(p + 2)
        } else if listed(cff, p, n) {
            let last = entry(cff, p, n);
            Some(
                items_start(cff, p, n) + if last == 0 {
                    0
                } else {
                    last - 1
                },
            )
        } else {
            None
        },
        None => None,
    }
}

/// Where the list at `p` ends, if it ends within the table.
pub open spec fn list_close(cff: Seq<u8>, p: int) -> Option<int> {
    match list_end(cff, p) {
        Some(end) => if end <= cff.len() {
            Some(end)
        } else {
            None
        },
        None => None,
    }
}

/// How many items the list at `p` has.
pub open spec fn list_len(cff: Seq<u8>, p: int) -> int {
    match short_at(cff, p) {
        Some(n) => if listed(cff, p, n) && entry(cff, p, n) > 0 {
            n
        } else {
            0
        },
        None => 0,
    }
}

/// Item `k` of the list at `p`, if there is one.
pub open spec fn list_item(cff: Seq<u8>, p: int, k: int) -> Option<Seq<u8>> {
    let n = list_len(cff, p);
    let start = items_start(cff, p, n);
    if 0 <= k < n && 0 < entry(cff, p, k) <= entry(cff, p, k + 1) <= entry(cff, p, n) && start
        + entry(cff, p, n) - 1 <= cff.len() {
        Some(cff.subrange(start + entry(cff, p, k) - 1, start + entry(cff, p, k + 1) - 1))
    } else {
        None
    }
}

fn scale(n: u64, size: u64) -> (product: u64)
    requires
        n <= 0x1_0000,
    ensures
        product == scaled(n as int, size as int),
        product <= 0x4_0000,
{
    if size == 1 {
        n
    } else if size == 2 {
        2 * n
    } else if size == 3 {
        3 * n
    } else {
        4 * n
    }
}

fn read_number(data: &[u8], i: u64, size: u64) -> (number: u64)
    requires
        1 <= size <= 4,
        i + size <= data@.len(),
    ensures
        number == number_at(data@, i as int, size as int),
        number <= REACH,
{
    let k: usize = i as usize;
    if size == 1 {
        data[k] as u64
    } else if size == 2 {
        data[k] as u64 * 0x100 + data[k + 1] as u64
    } else if size == 3 {
        data[k] as u64 * 0x1_0000 + data[k + 1] as u64 * 0x100 + data[k + 2] as u64
    } else {
        data[k] as u64 * 0x100_0000 + data[k + 1] as u64 * 0x1_0000 + data[k + 2] as u64 * 0x100
            + data[k + 3] as u64
    }
}

/// The number of items and the size of the entries of the list at `p`, if it
/// has any and its entries fit into the table.
fn read_list(cff: &[u8], p: u64) -> (list: Option<(u64, u64)>)
    requires
        p <= REACH,
    ensures
        match list {
            Some((n, size)) => {
                &&& listed(cff@, p as int, n as int)
                &&& size == entry_size(cff@, p as int)
                &&& n <= 0xFFFF
            },
            None => forall|n: int| !#[trigger] listed(cff@, p as int, n),
        },
{
    match read_short(cff, p) {
        Some(n) => {
            if n > 0 && p + 2 < cff.len() as u64 {
                let size: u64 = cff[(p + 2) as usize] as u64;
                if 1 <= size && size <= 4 && p + 3 + scale(n + 1, size) <= cff.len() as u64 {
                    return Some((n, size));
                }
            }
            None
        },
        None => None,
    }
}

fn read_entry(cff: &[u8], p: u64, n: u64, size: u64, k: u64) -> (number: u64)
    requires
        p <= REACH,
        n <= 0xFFFF,
        k <= n,
        listed(cff@, p as int, n as int),
        size == entry_size(cff@, p as int),
    ensures
        number == entry(cff@, p as int, k as int),
        number <= REACH,
{
    read_number(cff, p + 3 + scale(k, size), size)
}

fn find_list_end(cff: &[u8], p: u64) -> (end: Option<u64>)
    requires
        p <= REACH,
    ensures
        match end {
            Some(end) => list_end(cff@, p as int) == Some(end as int) && end >= p,
            None => list_end(cff@, p as int) is None,
        },
{
    match read_short(cff, p) {
        Some(0) => Some(p + 2),
        Some(_) => match read_list(cff, p) {
            Some((n, size)) => {
                let last: u64 = read_entry(cff, p, n, size, n);
                let start: u64 = p + 3 + scale(n + 1, size);
                Some(
                    if last == 0 {
                        start
                    } else {
                        start + (last - 1)
                    },
                )
            },
            None => None,
        },
        None => None,
    }
}

fn find_list_close(cff: &[u8], p: u64) -> (end: Option<u64>)
    requires
        p <= REACH,
    ensures
        match end {
            Some(end) => list_close(cff@, p as int) == Some(end as int) && end <= cff@.len(),
            None => list_close(cff@, p as int) is None,
        },
{
    match find_list_end(cff, p) {
        Some(end) if end <= cff.len() as u64 => Some(end),
        _ => None,
    }
}

/// How many items the list at `p` has.
pub fn find_list_len(cff: &[u8], p: u64) -> (n: u64)
    requires
        p <= REACH,
    ensures
        n == list_len(cff@, p as int),
        n <= 0xFFFF,
{
    match read_list(cff, p) {
        Some((n, size)) => if read_entry(cff, p, n, size, n) > 0 {
            n
        } else {
            0
        },
        None => {
            proof {
                if let Some(n) = short_at(cff@, p as int) {
                    assert(!listed(cff@, p as int, n));
                }
            }
            0
        },
    }
}

/// Item `k` of the list at `p`, if there is one.
pub fn find_list_item(cff: &[u8], p: u64, k: u64) -> (item: Option<&[u8]>)
    requires
        p <= REACH,
    ensures
        match item {
            Some(item) => list_item(cff@, p as int, k as int) == Some(item@),
            None => list_item(cff@, p as int, k as int) is None,
        },
{
    match read_list(cff, p) {
        Some((n, size)) => {
            if k >= n {
                return None;
            }
            let start: u64 = p + 3 + scale(n + 1, size);
            let first: u64 = read_entry(cff, p, n, size, k);
            let next: u64 = read_entry(cff, p, n, size, k + 1);
            let last: u64 = read_entry(cff, p, n, size, n);
            if 0 < first && first <= next && next <= last && start + (last - 1)
                <= cff.len() as u64 {
                Some(
                    vstd::slice::slice_subrange(
                        cff,
                        (start + (first - 1)) as usize,
                        (start + (next - 1)) as usize,
                    ),
                )
            } else {
                None
            }
        },
        None => {
            proof {
                if let Some(n) = short_at(cff@, p as int) {
                    assert(!listed(cff@, p as int, n));
                }
            }
            None
        },
    }
}

/// Where the lists of a table of compact outlines are.
#[derive(Clone, Copy, Debug)]
pub struct Outlines {
    /// The list of the glyph programs.
    pub programs: u64,
    /// The list of the routines that all programs share.
    pub globals: u64,
    /// The names of the glyphs: one of three fixed sets, or a place.
    pub charset: u64,
    /// The list of the fonts, and the place that tells which font a glyph is of.
    pub fonts: Option<(u64, u64)>,
    /// The list of the routines of a table that is one font.
    pub routines: Option<u64>,
}

/// The bytes of a span, if they lie within the table.
pub open spec fn spanned(cff: Seq<u8>, start: u64, size: u64) -> Option<Seq<u8>> {
    if start + size <= cff.len() {
        Some(cff.subrange(start as int, start + size))
    } else {
        None
    }
}

/// The place of the routines that the private dictionary at a span names; they
/// are counted from the start of the dictionary.
pub open spec fn routines_place(cff: Seq<u8>, start: u64, size: u64) -> Option<u64> {
    match spanned(cff, start, size) {
        Some(private) => match last_place(private, 19) {
            Some(offset) => Some((start + offset) as u64),
            None => None,
        },
        None => None,
    }
}

/// The routines of a table that is one font: `None` where the table cannot be
/// read for them, `Some(None)` where it has none.
pub open spec fn own_routines(cff: Seq<u8>, dict: Seq<u8>) -> Option<Option<u64>> {
    match last_span(dict, 18) {
        None => Some(None),
        Some((start, size)) => if spanned(cff, start, size) is None {
            None
        } else {
            match routines_place(cff, start, size) {
                None => Some(None),
                Some(p) => if p <= cff.len() && list_close(cff, p as int) is Some {
                    Some(Some(p))
                } else {
                    None
                },
            }
        },
    }
}

/// The glyph names of a table; the first fixed set where it says nothing.
pub open spec fn named_charset(dict: Seq<u8>) -> u64 {
    match last_place(dict, 15) {
        None => 0,
        Some(p) => p,
    }
}

/// The lists that a dictionary names, with the shared routines at `globals`.
pub open spec fn named_lists(cff: Seq<u8>, dict: Seq<u8>, globals: u64) -> Option<Outlines> {
    let charset = named_charset(dict);
    match last_place(dict, 17) {
        Some(programs) => if programs == 0 || list_close(
            cff,
            programs as int,
        ) is None || list_len(cff, programs as int) == 0 {
            None
        } else if has_operator(dict, 1230) {
            match (last_place(dict, 1236), last_place(dict, 1237)) {
                (Some(fonts), Some(select)) => if charset > 2 && list_close(
                    cff,
                    fonts as int,
                ) is Some {
                    Some(
                        Outlines {
                            programs,
                            globals,
                            charset,
                            fonts: Some((fonts, select)),
                            routines: None,
                        },
                    )
                } else {
                    None
                },
                _ => None,
            }
        } else {
            match own_routines(cff, dict) {
                Some(routines) => Some(
                    Outlines { programs, globals, charset, fonts: None, routines },
                ),
                None => None,
            }
        },
        None => None,
    }
}

/// Where the list of names stands, behind the header.
pub open spec fn names_start(cff: Seq<u8>) -> int {
    if cff[2] > 4 {
        cff[2] as int
    } else {
        4
    }
}

/// Where the lists of a table are; `None` where the table cannot be read, or
/// where a list does not end within it.
pub open spec fn outlines(cff: Seq<u8>) -> Option<Outlines> {
    if 4 <= cff.len() <= MAX_OUTLINES && cff[0] == 1 {
        match list_close(cff, names_start(cff)) {
            Some(tops) => match (list_close(cff, tops), list_item(cff, tops, 0)) {
                (Some(strings), Some(dict)) => match list_close(cff, strings) {
                    Some(globals) => if list_close(cff, globals) is Some {
                        named_lists(cff, dict, globals as u64)
                    } else {
                        None
                    },
                    None => None,
                },
                _ => None,
            },
            None => None,
        }
    } else {
        None
    }
}

fn find_routines_place(cff: &[u8], start: u64, size: u64) -> (found: Option<u64>)
    requires
        cff@.len() <= MAX_OUTLINES,
        start <= 0x7FFF_FFFF,
        size <= 0x7FFF_FFFF,
    ensures
        found == routines_place(cff@, start, size),
        found matches Some(p) ==> p <= REACH,
{
    if start + size <= cff.len() as u64 {
        let private = vstd::slice::slice_subrange(cff, start as usize, (start + size) as usize);
        match find_last_place(private, 19) {
            Some(offset) => Some(start + offset),
            None => None,
        }
    } else {
        None
    }
}

fn find_own_routines(cff: &[u8], dict: &[u8]) -> (found: Option<Option<u64>>)
    requires
        cff@.len() <= MAX_OUTLINES,
        dict@.len() <= MAX_OUTLINES,
    ensures
        found == own_routines(cff@, dict@),
        found matches Some(Some(p)) ==> p <= REACH,
{
    match find_last_span(dict, 18) {
        None => Some(None),
        Some((start, size)) => {
            if start + size > cff.len() as u64 {
                return None;
            }
            match find_routines_place(cff, start, size) {
                None => Some(None),
                Some(p) => {
                    if p <= cff.len() as u64 && find_list_close(cff, p).is_some() {
                        Some(Some(p))
                    } else {
                        None
                    }
                },
            }
        },
    }
}

/// The places stand within the first 32 bits.
pub open spec fn near(o: Outlines) -> bool {
    &&& o.programs <= REACH
    &&& o.globals <= REACH
    &&& o.charset <= REACH
    &&& o.fonts matches Some((fonts, select)) ==> fonts <= REACH && select <= REACH
    &&& o.routines matches Some(p) ==> p <= REACH
}

fn find_named_lists(cff: &[u8], dict: &[u8], globals: u64) -> (found: Option<Outlines>)
    requires
        cff@.len() <= MAX_OUTLINES,
        dict@.len() <= MAX_OUTLINES,
        globals <= REACH,
    ensures
        found == named_lists(cff@, dict@, globals),
        found matches Some(o) ==> near(o),
{
    let charset: u64 = match find_last_place(dict, 15) {
        None => 0,
        Some(p) => p,
    };
    let programs: u64 = match find_last_place(dict, 17) {
        Some(p) => p,
        None => return None,
    };
    if programs == 0 || find_list_close(cff, programs).is_none() || find_list_len(cff, programs)
        == 0 {
        return None;
    }
    if find_operator(dict, 1230) {
        match (find_last_place(dict, 1236), find_last_place(dict, 1237)) {
            (Some(fonts), Some(select)) => {
                if charset > 2 && find_list_close(cff, fonts).is_some() {
                    Some(
                        Outlines {
                            programs,
                            globals,
                            charset,
                            fonts: Some((fonts, select)),
                            routines: None,
                        },
                    )
                } else {
                    None
                }
            },
            _ => None,
        }
    } else {
        match find_own_routines(cff, dict) {
            Some(routines) => Some(Outlines { programs, globals, charset, fonts: None, routines }),
            None => None,
        }
    }
}

/// Where the lists of a table of compact outlines are.
pub fn find_outlines(cff: &[u8]) -> (found: Option<Outlines>)
    ensures
        found == outlines(cff@),
        found matches Some(o) ==> near(o),
{
    if cff.len() < 4 || cff.len() as u64 > MAX_OUTLINES || cff[0] != 1 {
        return None;
    }
    let names: u64 = if cff[2] > 4 {
        cff[2] as u64
    } else {
        4
    };
    let tops: u64 = match find_list_close(cff, names) {
        Some(end) => end,
        None => return None,
    };
    let (strings, dict) = match (find_list_close(cff, tops), find_list_item(cff, tops, 0)) {
        (Some(end), Some(dict)) => (end, dict),
        _ => return None,
    };
    let globals: u64 = match find_list_close(cff, strings) {
        Some(end) => end,
        None => return None,
    };
    if find_list_close(cff, globals).is_none() {
        return None;
    }
    find_named_lists(cff, dict, globals)
}

/// The font of a glyph among ranges of glyphs, of which the one at `p` is next.
/// A range begins with its first glyph and its font, and ends where the next
/// one begins.
pub open spec fn font_in_ranges(cff: Seq<u8>, p: int, left: int, gid: u16) -> Option<u8>
    decreases left,
{
    match (short_at(cff, p), short_at(cff, p + 3)) {
        (Some(first), Some(next)) => if left <= 0 {
            None
        } else if first <= gid < next {
            Some(cff[p + 2])
        } else if p + 5 < cff.len() {
            font_in_ranges(cff, p + 3, left - 1, gid)
        } else {
            None
        },
        _ => None,
    }
}

/// Which font a glyph is of, out of `glyphs` glyphs.
pub open spec fn font_of(cff: Seq<u8>, select: int, glyphs: int, gid: u16) -> Option<u8> {
    if 0 <= select < cff.len() && cff[select] == 0 {
        if gid < glyphs && select + 1 + gid < cff.len() {
            Some(cff[select + 1 + gid])
        } else {
            None
        }
    } else if 0 <= select < cff.len() && cff[select] == 3 {
        match short_at(cff, select + 1) {
            Some(n) => if n < 0xFFFF {
                font_in_ranges(cff, select + 3, n, gid)
            } else {
                None
            },
            None => None,
        }
    } else {
        None
    }
}

/// The routines that a program may call.
#[derive(Clone, Copy, Debug)]
pub enum Routines {
    /// There are none that can be read.
    Absent,
    /// The list of them reaches past what 32 bits can address.
    Far,
    /// The list of them is at a place.
    At(u64),
}

/// The routines at `p`.
pub open spec fn routines_at(cff: Seq<u8>, p: u64) -> Routines {
    match list_end(cff, p as int) {
        Some(end) => if end <= cff.len() {
            Routines::At(p)
        } else if end - p <= REACH {
            Routines::Absent
        } else {
            Routines::Far
        },
        None => Routines::Absent,
    }
}

/// The private dictionary of the font that a glyph is of.
pub open spec fn private_of(cff: Seq<u8>, o: Outlines, gid: u16) -> Option<(u64, u64)> {
    match o.fonts {
        Some((fonts, select)) => match font_of(
            cff,
            select as int,
            list_len(cff, o.programs as int),
            gid,
        ) {
            Some(font) => match list_item(cff, fonts as int, font as int) {
                Some(dict) => first_span(dict, 18),
                None => None,
            },
            None => None,
        },
        None => None,
    }
}

/// The routines of the font that a glyph is of.
pub open spec fn routines_of(cff: Seq<u8>, o: Outlines, gid: u16) -> Routines {
    if o.fonts is None {
        match o.routines {
            Some(p) => Routines::At(p),
            None => Routines::Absent,
        }
    } else {
        match private_of(cff, o, gid) {
            Some((start, size)) => match routines_place(cff, start, size) {
                Some(p) => routines_at(cff, p),
                None => Routines::Absent,
            },
            None => Routines::Absent,
        }
    }
}

fn find_font_in_ranges(cff: &[u8], start: u64, count: u64, gid: u16) -> (font: Option<u8>)
    requires
        start <= REACH + 3,
        count <= 0xFFFF,
    ensures
        font == font_in_ranges(cff@, start as int, count as int, gid),
{
    let mut p: u64 = start;
    let mut left: u64 = count;
    while left > 0
        invariant
            left <= count <= 0xFFFF,
            p + 3 * left == start + 3 * count,
            start <= REACH + 3,
            font_in_ranges(cff@, start as int, count as int, gid) == font_in_ranges(
                cff@,
                p as int,
                left as int,
                gid,
            ),
        decreases left,
    {
        match (read_short(cff, p), read_short(cff, p + 3)) {
            (Some(first), Some(next)) => {
                if first <= gid as u64 && (gid as u64) < next {
                    return Some(cff[(p + 2) as usize]);
                }
                if p + 5 >= cff.len() as u64 {
                    return None;
                }
            },
            _ => return None,
        }
        p += 3;
        left -= 1;
    }
    None
}

fn find_font(cff: &[u8], select: u64, glyphs: u64, gid: u16) -> (font: Option<u8>)
    requires
        select <= REACH,
    ensures
        font == font_of(cff@, select as int, glyphs as int, gid),
{
    if select >= cff.len() as u64 {
        return None;
    }
    let format: u8 = cff[select as usize];
    if format == 0 {
        if (gid as u64) < glyphs && select + 1 + (gid as u64) < cff.len() as u64 {
            Some(cff[(select + 1 + gid as u64) as usize])
        } else {
            None
        }
    } else if format == 3 {
        match read_short(cff, select + 1) {
            Some(n) if n < 0xFFFF => find_font_in_ranges(cff, select + 3, n, gid),
            _ => None,
        }
    } else {
        None
    }
}

/// The routines of the font that a glyph is of.
pub fn find_routines(cff: &[u8], o: &Outlines, gid: u16) -> (found: Routines)
    requires
        cff@.len() <= MAX_OUTLINES,
        near(*o),
    ensures
        found == routines_of(cff@, *o, gid),
        found matches Routines::At(p) ==> p <= REACH,
{
    let (fonts, select) = match o.fonts {
        Some(found) => found,
        None => return match o.routines {
            Some(p) => Routines::At(p),
            None => Routines::Absent,
        },
    };
    let font: u8 = match find_font(cff, select, find_list_len(cff, o.programs), gid) {
        Some(font) => font,
        None => return Routines::Absent,
    };
    let dict = match find_list_item(cff, fonts, font as u64) {
        Some(dict) => dict,
        None => return Routines::Absent,
    };
    let (start, size) = match find_first_span(dict, 18) {
        Some(span) => span,
        None => return Routines::Absent,
    };
    let p: u64 = match find_routines_place(cff, start, size) {
        Some(p) => p,
        None => return Routines::Absent,
    };
    match find_list_end(cff, p) {
        Some(end) => if end <= cff.len() as u64 {
            Routines::At(p)
        } else if end - p <= REACH {
            Routines::Absent
        } else {
            Routines::Far
        },
        None => Routines::Absent,
    }
}

/// Entries are numbers of one to four bytes, the high byte first, and stand side
/// by side.
pub proof fn entries_are_read_high_byte_first(data: Seq<u8>, i: int, n: int)
    ensures
        number_at(data, i, 1) == data[i],
        number_at(data, i, 2) == 256 * number_at(data, i, 1) + data[i + 1],
        number_at(data, i, 3) == 256 * number_at(data, i, 2) + data[i + 2],
        number_at(data, i, 4) == 256 * number_at(data, i, 3) + data[i + 3],
        scaled(n, 1) == n,
        scaled(n, 2) == n + n,
        scaled(n, 3) == n + n + n,
        scaled(n, 4) == n + n + n + n,
{
}

/// A list of `n` items has `n + 1` entries, which count from one: item `k` lies
/// between entry `k` and the next, and the last entry tells where the list ends.
pub proof fn a_list_gives_its_items(cff: Seq<u8>, p: int, n: int, k: int)
    requires
        0 <= p,
        p + 2 < cff.len(),
        n > 0,
        short_at(cff, p) == Some(n),
        1 <= cff[p + 2] <= 4,
        0 <= k < n,
        ({
            let size = cff[p + 2] as int;
            let start = p + 3 + scaled(n + 1, size);
            let item = number_at(cff, p + 3 + scaled(k, size), size);
            let next = number_at(cff, p + 3 + scaled(k + 1, size), size);
            let last = number_at(cff, p + 3 + scaled(n, size), size);
            &&& start <= cff.len()
            &&& 0 < item <= next <= last
            &&& start + last - 1 <= cff.len()
        }),
    ensures
        ({
            let size = cff[p + 2] as int;
            let start = p + 3 + scaled(n + 1, size);
            let item = number_at(cff, p + 3 + scaled(k, size), size);
            let next = number_at(cff, p + 3 + scaled(k + 1, size), size);
            let last = number_at(cff, p + 3 + scaled(n, size), size);
            &&& list_len(cff, p) == n
            &&& list_item(cff, p, k) == Some(cff.subrange(start + item - 1, start + next - 1))
            &&& list_item(cff, p, n) is None
            &&& list_close(cff, p) == Some(start + last - 1)
        }),
{
}

/// A list that counts no items ends behind its count.
pub proof fn an_empty_list_is_its_count(cff: Seq<u8>, p: int, k: int)
    requires
        short_at(cff, p) == Some(0int),
    ensures
        list_len(cff, p) == 0,
        list_item(cff, p, k) is None,
        list_close(cff, p) == Some(p + 2),
{
}

/// The four lists at the head of a table follow each other: the names behind the
/// header, the top dictionaries, the strings, and the shared routines. Where they
/// all end within the table, and the first top dictionary names a list of
/// programs that does too, the table of one font is read, with the routines that
/// its private dictionary names, if it has one and that names any.
pub proof fn the_outlines_of_one_font_are_read(
    cff: Seq<u8>,
    tops: int,
    strings: int,
    globals: int,
    dict: Seq<u8>,
    programs: u64,
)
    requires
        4 <= cff.len() <= 0xFF00_0000,
        cff[0] == 1,
        cff[2] <= 4 ==> list_close(cff, 4) == Some(tops),
        cff[2] > 4 ==> list_close(cff, cff[2] as int) == Some(tops),
        list_close(cff, tops) == Some(strings),
        list_close(cff, strings) == Some(globals),
        list_close(cff, globals) is Some,
        list_item(cff, tops, 0) == Some(dict),
        last_place(dict, 17) == Some(programs),
        programs > 0,
        list_close(cff, programs as int) is Some,
        list_len(cff, programs as int) > 0,
        !has_operator(dict, 1230),
    ensures
        ({
            let charset = match last_place(dict, 15) {
                Some(charset) => charset,
                None => 0,
            };
            match last_span(dict, 18) {
                None => outlines(cff) == Some(
                    Outlines {
                        programs,
                        globals: globals as u64,
                        charset,
                        fonts: None,
                        routines: None,
                    },
                ),
                Some((start, size)) => start + size <= cff.len() ==> match last_place(
                    cff.subrange(start as int, start + size),
                    19,
                ) {
                    None => outlines(cff) == Some(
                        Outlines {
                            programs,
                            globals: globals as u64,
                            charset,
                            fonts: None,
                            routines: None,
                        },
                    ),
                    Some(offset) => start + offset <= cff.len() && list_close(
                        cff,
                        start + offset,
                    ) is Some ==> outlines(cff) == Some(
                        Outlines {
                            programs,
                            globals: globals as u64,
                            charset,
                            fonts: None,
                            routines: Some((start + offset) as u64),
                        },
                    ),
                },
            }
        }),
{
}

/// A table of several fonts is read in the same way, where its top dictionary
/// names the list of the fonts, the place that tells which font a glyph is of,
/// and glyph names that are none of the fixed sets.
pub proof fn the_outlines_of_several_fonts_are_read(
    cff: Seq<u8>,
    tops: int,
    strings: int,
    globals: int,
    dict: Seq<u8>,
    programs: u64,
    charset: u64,
    fonts: u64,
    select: u64,
)
    requires
        4 <= cff.len() <= 0xFF00_0000,
        cff[0] == 1,
        cff[2] <= 4 ==> list_close(cff, 4) == Some(tops),
        cff[2] > 4 ==> list_close(cff, cff[2] as int) == Some(tops),
        list_close(cff, tops) == Some(strings),
        list_close(cff, strings) == Some(globals),
        list_close(cff, globals) is Some,
        list_item(cff, tops, 0) == Some(dict),
        last_place(dict, 17) == Some(programs),
        programs > 0,
        list_close(cff, programs as int) is Some,
        list_len(cff, programs as int) > 0,
        has_operator(dict, 1230),
        last_place(dict, 15) == Some(charset),
        charset > 2,
        last_place(dict, 1236) == Some(fonts),
        list_close(cff, fonts as int) is Some,
        last_place(dict, 1237) == Some(select),
    ensures
        outlines(cff) == Some(
            Outlines {
                programs,
                globals: globals as u64,
                charset,
                fonts: Some((fonts, select)),
                routines: None,
            },
        ),
{
}

} // verus!
