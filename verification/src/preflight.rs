//! What is looked at before the bytes of a font are handed to the parser.
//!
//! The parser trusts a few numbers in a font file too far. A count or an offset
//! that reaches past what 32 bits can address trips its assertions, and a
//! substitution that stands for itself sends it round without end. What follows
//! reads just enough of a file or of a table to tell.

use vstd::prelude::*;

verus! {

/// The furthest byte that 32 bits can address.
pub const REACH: u64 = 0xFFFF_FFFF;

/// The mark that a font collection begins with.
pub const COLLECTION: u32 = 0x7474_6366;

/// More bytes than the directory of a face can have.
pub const DIRECTORY_LEN: u64 = 0x10_0000;

/// How many extensions may follow each other. What the parser follows is held
/// on its stack.
pub const MAX_EXTENSIONS: u64 = 256;

/// The big-endian 16-bit number at `i`.
pub open spec fn short_at(data: Seq<u8>, i: int) -> Option<int> {
    if 0 <= i && i + 2 <= data.len() {
        Some(data[i] * 0x100 + data[i + 1])
    } else {
        None
    }
}

/// The big-endian 32-bit number at `i`.
pub open spec fn long_at(data: Seq<u8>, i: int) -> Option<int> {
    if 0 <= i && i + 4 <= data.len() {
        Some(data[i] * 0x100_0000 + data[i + 1] * 0x1_0000 + data[i + 2] * 0x100 + data[i + 3])
    } else {
        None
    }
}

pub(crate) fn read_short(data: &[u8], i: u64) -> (number: Option<u64>)
    ensures
        match number {
            Some(number) => number <= 0xFFFF && short_at(data@, i as int) == Some(number as int),
            None => short_at(data@, i as int) is None,
        },
{
    let len: u64 = data.len() as u64;
    if i < len && len - i >= 2 {
        let k: usize = i as usize;
        Some(data[k] as u64 * 0x100 + data[k + 1] as u64)
    } else {
        None
    }
}

pub(crate) fn read_long(data: &[u8], i: u64) -> (number: Option<u64>)
    ensures
        match number {
            Some(number) => number <= REACH && long_at(data@, i as int) == Some(number as int),
            None => long_at(data@, i as int) is None,
        },
{
    let len: u64 = data.len() as u64;
    if i < len && len - i >= 4 {
        let k: usize = i as usize;
        Some(
            data[k] as u64 * 0x100_0000 + data[k + 1] as u64 * 0x1_0000 + data[k + 2] as u64 * 0x100
                + data[k + 3] as u64,
        )
    } else {
        None
    }
}

/// The directory of the first face can be read without going past what 32 bits
/// can address. Only a collection can put it that far: by the number of its
/// faces, or by where it says that the first one is.
pub open spec fn directory_in_reach(font: Seq<u8>) -> bool {
    long_at(font, 0) == Some(COLLECTION as int) ==> {
        &&& long_at(font, 8) matches Some(count) ==> 12 + 4 * count <= REACH
        &&& long_at(font, 12) matches Some(face) ==> face <= font.len() ==> face + DIRECTORY_LEN
            <= REACH
    }
}

/// Whether the directory of the first face can be read.
pub fn is_directory_in_reach(font: &[u8]) -> (ok: bool)
    ensures
        ok == directory_in_reach(font@),
{
    match read_long(font, 0) {
        Some(mark) => if mark != COLLECTION as u64 {
            return true;
        },
        None => return true,
    }
    if let Some(count) = read_long(font, 8) {
        if 12 + 4 * count > REACH {
            return false;
        }
    }
    if let Some(face) = read_long(font, 12) {
        return face > font.len() as u64 || face + DIRECTORY_LEN <= REACH;
    }
    true
}

/// The character map subtable at `start` does not list more items than can be
/// addressed. Only four formats count them in 32 bits.
pub open spec fn mapping_in_reach(cmap: Seq<u8>, start: int) -> bool {
    &&& short_at(cmap, start) == Some(10int) ==> (long_at(cmap, start + 16) matches Some(count)
        ==> 20 + 2 * count <= REACH)
    &&& short_at(cmap, start) == Some(12int) || short_at(cmap, start) == Some(13int) ==> (long_at(
        cmap,
        start + 12,
    ) matches Some(count) ==> 16 + 12 * count <= REACH)
    &&& short_at(cmap, start) == Some(14int) ==> (long_at(cmap, start + 6) matches Some(count)
        ==> 10 + 11 * count <= REACH)
}

/// The same of a subtable by its place in the list of them.
pub open spec fn subtable_in_reach(cmap: Seq<u8>, index: u16) -> bool {
    long_at(cmap, 8 + 8 * index) matches Some(start) ==> mapping_in_reach(cmap, start)
}

fn is_mapping_in_reach(cmap: &[u8], start: u64) -> (ok: bool)
    requires
        start <= REACH,
    ensures
        ok == mapping_in_reach(cmap@, start as int),
{
    match read_short(cmap, start) {
        Some(10) => match read_long(cmap, start + 16) {
            Some(count) => 20 + 2 * count <= REACH,
            None => true,
        },
        Some(12) => match read_long(cmap, start + 12) {
            Some(count) => 16 + 12 * count <= REACH,
            None => true,
        },
        Some(13) => match read_long(cmap, start + 12) {
            Some(count) => 16 + 12 * count <= REACH,
            None => true,
        },
        Some(14) => match read_long(cmap, start + 6) {
            Some(count) => 10 + 11 * count <= REACH,
            None => true,
        },
        _ => true,
    }
}

/// Whether a character map subtable can be handed to the parser.
pub fn is_subtable_in_reach(cmap: &[u8], index: u16) -> (ok: bool)
    ensures
        ok == subtable_in_reach(cmap@, index),
{
    match read_long(cmap, 8 + 8 * index as u64) {
        Some(start) => is_mapping_in_reach(cmap, start),
        None => true,
    }
}

/// The offset that a table holds at `i`, counted from `start`.
pub open spec fn offset_from(table: Seq<u8>, start: int, i: int) -> Option<int> {
    match short_at(table, i) {
        Some(offset) => Some(start + offset),
        None => None,
    }
}

/// Where a substitution lookup stands in its table.
pub open spec fn lookup_start(gsub: Seq<u8>, lookup: u16) -> Option<int> {
    match short_at(gsub, 8) {
        Some(list) => offset_from(gsub, list, list + 2 + 2 * lookup),
        None => None,
    }
}

/// Where a subtable of a substitution lookup stands in its table.
pub open spec fn subtable_start(gsub: Seq<u8>, lookup: u16, index: u16) -> Option<int> {
    match lookup_start(gsub, lookup) {
        Some(start) => offset_from(gsub, start, start + 6 + 2 * index),
        None => None,
    }
}

/// Where the extension at `start` leads, if that is another extension.
pub open spec fn next_extension(gsub: Seq<u8>, start: int) -> Option<int> {
    match long_at(gsub, start + 4) {
        Some(offset) => if short_at(gsub, start) == Some(1int) && short_at(gsub, start + 2) == Some(
            7int,
        ) && start + offset <= gsub.len() {
            Some(start + offset)
        } else {
            None
        },
        None => None,
    }
}

/// The extension at `start` leads to a subtable of another kind, or nowhere,
/// through at most `left` more extensions.
pub open spec fn extension_ends(gsub: Seq<u8>, start: int, left: int) -> bool
    decreases left,
{
    match next_extension(gsub, start) {
        Some(next) => left > 0 && extension_ends(gsub, next, left - 1),
        None => true,
    }
}

/// A substitution subtable is no extension, which stands for a subtable of
/// another kind elsewhere, or it is one that ends.
pub open spec fn subtable_ends(gsub: Seq<u8>, lookup: u16, index: u16) -> bool {
    (lookup_start(gsub, lookup) matches Some(start) && short_at(gsub, start) == Some(7int)) ==> (
    subtable_start(gsub, lookup, index) matches Some(start) ==> extension_ends(
        gsub,
        start,
        MAX_EXTENSIONS as int,
    ))
}

/// Where the extension at `start` leads, if that is another extension.
fn find_next_extension(gsub: &[u8], start: u64) -> (next: Option<u64>)
    requires
        start <= gsub@.len() || start <= REACH,
    ensures
        match next {
            Some(next) => next_extension(gsub@, start as int) == Some(next as int) && next
                <= gsub@.len(),
            None => next_extension(gsub@, start as int) is None,
        },
{
    let len: u64 = gsub.len() as u64;
    if start >= len {
        return None;
    }
    if len - start < 8 {
        return None;
    }
    match (read_short(gsub, start), read_short(gsub, start + 2), read_long(gsub, start + 4)) {
        (Some(1), Some(7), Some(offset)) => if offset <= len - start {
            Some(start + offset)
        } else {
            None
        },
        _ => None,
    }
}

/// Whether a substitution subtable, if it is an extension, leads to another
/// kind, so that it can be handed to the parser.
pub fn is_subtable_ending(gsub: &[u8], lookup: u16, index: u16) -> (ends: bool)
    ensures
        ends == subtable_ends(gsub@, lookup, index),
{
    let list: u64 = match read_short(gsub, 8) {
        Some(list) => list,
        None => return true,
    };
    let home: u64 = match read_short(gsub, list + 2 + 2 * lookup as u64) {
        Some(offset) => list + offset,
        None => return true,
    };
    match read_short(gsub, home) {
        Some(7) => {},
        _ => return true,
    }
    let first: u64 = match read_short(gsub, home + 6 + 2 * index as u64) {
        Some(offset) => home + offset,
        None => return true,
    };
    let mut start: u64 = first;
    let mut left: u64 = MAX_EXTENSIONS;
    loop
        invariant
            start <= gsub@.len() || start <= 0x3_0000,
            left <= MAX_EXTENSIONS,
            subtable_start(gsub@, lookup, index) == Some(first as int),
            lookup_start(gsub@, lookup) == Some(home as int),
            short_at(gsub@, home as int) == Some(7int),
            extension_ends(gsub@, first as int, MAX_EXTENSIONS as int) == extension_ends(
                gsub@,
                start as int,
                left as int,
            ),
        decreases left,
    {
        match find_next_extension(gsub, start) {
            Some(next) => {
                if left == 0 {
                    return false;
                }
                start = next;
                left -= 1;
            },
            None => return true,
        }
    }
}

/// Numbers are read with the high byte first, and only where all their bytes
/// are there.
pub proof fn numbers_are_read_high_byte_first(data: Seq<u8>, i: int)
    ensures
        short_at(data, i) is Some <==> 0 <= i && i + 1 < data.len(),
        long_at(data, i) is Some <==> 0 <= i && i + 3 < data.len(),
        short_at(data, i) matches Some(number) ==> number / 256 == data[i] && number % 256 == data[i
            + 1],
        long_at(data, i) matches Some(number) ==> short_at(data, i) == Some(number / 0x1_0000)
            && short_at(data, i + 2) == Some(number % 0x1_0000),
{
}

/// A file that is no collection is never refused for its directory, nor is a
/// collection that is small enough, unless it claims more faces than 32 bits can
/// list.
pub proof fn few_files_are_refused(font: Seq<u8>)
    ensures
        long_at(font, 0) != Some(0x7474_6366int) ==> directory_in_reach(font),
        font.len() <= 0xFFEF_FFFF && (long_at(font, 8) matches Some(count) ==> count
            <= 0x3FFF_FFFC) ==> directory_in_reach(font),
{
}

/// A character map subtable is handed on unless it counts its items in 32 bits
/// and claims more of them than the table could hold.
pub proof fn a_mapping_that_fits_is_in_reach(cmap: Seq<u8>, index: u16)
    requires
        cmap.len() <= 0xFFFF_FFFF,
    ensures
        long_at(cmap, 8 + 8 * index) is None ==> subtable_in_reach(cmap, index),
        long_at(cmap, 8 + 8 * index) matches Some(start) ==> {
            let format = short_at(cmap, start);
            &&& format != Some(10int) && format != Some(12int) && format != Some(13int) && format
                != Some(14int) ==> subtable_in_reach(cmap, index)
            &&& format == Some(10int) && (long_at(cmap, start + 16) matches Some(count) ==> start
                + 20 + 2 * count <= cmap.len()) ==> subtable_in_reach(cmap, index)
            &&& (format == Some(12int) || format == Some(13int)) && (long_at(
                cmap,
                start + 12,
            ) matches Some(count) ==> start + 16 + 12 * count <= cmap.len()) ==> subtable_in_reach(
                cmap,
                index,
            )
            &&& format == Some(14int) && (long_at(cmap, start + 6) matches Some(count) ==> start
                + 10 + 11 * count <= cmap.len()) ==> subtable_in_reach(cmap, index)
        },
{
}

/// A subtable of a lookup that is not of the extension kind is handed on, and so
/// is an extension whose chain of extensions ends: it stands at `places[0]`, each
/// leads to the next, the last to none, and there are no more than 256 behind the
/// first.
pub proof fn a_chain_of_extensions_ends(
    gsub: Seq<u8>,
    lookup: u16,
    index: u16,
    places: Seq<int>,
)
    requires
        0 < places.len() <= 257,
        subtable_start(gsub, lookup, index) == Some(places[0]),
        forall|k: int|
            0 <= k < places.len() - 1 ==> {
                &&& short_at(gsub, #[trigger] places[k]) == Some(1int)
                &&& short_at(gsub, places[k] + 2) == Some(7int)
                &&& long_at(gsub, places[k] + 4) == Some(places[k + 1] - places[k])
                &&& places[k + 1] <= gsub.len()
            },
        short_at(gsub, places.last()) != Some(1int) || short_at(gsub, places.last() + 2) != Some(
            7int,
        ) || long_at(gsub, places.last() + 4) is None || places.last() + long_at(
            gsub,
            places.last() + 4,
        )->0 > gsub.len(),
    ensures
        subtable_ends(gsub, lookup, index),
{
    lemma_chain_ends(gsub, places, 0, 256);
}

proof fn lemma_chain_ends(gsub: Seq<u8>, places: Seq<int>, k: int, left: int)
    requires
        0 <= k < places.len(),
        places.len() - 1 - k <= left,
        forall|j: int|
            0 <= j < places.len() - 1 ==> {
                &&& short_at(gsub, #[trigger] places[j]) == Some(1int)
                &&& short_at(gsub, places[j] + 2) == Some(7int)
                &&& long_at(gsub, places[j] + 4) == Some(places[j + 1] - places[j])
                &&& places[j + 1] <= gsub.len()
            },
        short_at(gsub, places.last()) != Some(1int) || short_at(gsub, places.last() + 2) != Some(
            7int,
        ) || long_at(gsub, places.last() + 4) is None || places.last() + long_at(
            gsub,
            places.last() + 4,
        )->0 > gsub.len(),
    ensures
        extension_ends(gsub, places[k], left),
    decreases places.len() - k,
{
    if k < places.len() - 1 {
        assert(next_extension(gsub, places[k]) == Some(places[k + 1]));
        lemma_chain_ends(gsub, places, k + 1, left - 1);
    } else {
        assert(places[k] == places.last());
    }
}

/// Where a lookup is not of the extension kind there is no chain to follow.
pub proof fn other_lookups_are_handed_on(gsub: Seq<u8>, lookup: u16, index: u16)
    requires
        lookup_start(gsub, lookup) matches Some(start) ==> short_at(gsub, start) != Some(7int),
    ensures
        subtable_ends(gsub, lookup, index),
{
}

} // verus!
