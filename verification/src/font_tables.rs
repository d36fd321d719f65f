//! The tables of a font file.
//!
//! Only the tables that are read are handed to the parser, so that a broken
//! table of another kind costs nothing.

use vstd::prelude::*;
use ttf_parser::RawFace;
use crate::preflight::{directory_in_reach, is_directory_in_reach};

verus! {

/// The tag of the font header.
pub const TAG_HEAD: u32 = 0x6865_6164;

/// The tag of the header of the horizontal metrics.
pub const TAG_HHEA: u32 = 0x6868_6561;

/// The tag of the profile, which counts the glyphs.
pub const TAG_MAXP: u32 = 0x6D61_7870;

/// The tag of the horizontal metrics.
pub const TAG_HMTX: u32 = 0x686D_7478;

/// The tag of the character map.
pub const TAG_CMAP: u32 = 0x636D_6170;

/// The tag of the places of the outlines.
pub const TAG_LOCA: u32 = 0x6C6F_6361;

/// The tag of the outlines.
pub const TAG_GLYF: u32 = 0x676C_7966;

/// The tag of compact outlines.
pub const TAG_CFF: u32 = 0x4346_4620;

/// The tag of the substitutions.
pub const TAG_GSUB: u32 = 0x4753_5542;

/// What the directory says of one table: its tag, where it begins and how long
/// it is.
pub type Record = (u32, u32, u32);

/// The table records of the first face of a font file, if it has a directory.
pub uninterp spec fn face_records(font: Seq<u8>) -> Option<Seq<(u32, u32, u32)>>;

/// The records of an optional list.
pub open spec fn records_view(records: Option<Vec<Record>>) -> Option<Seq<Record>> {
    match records {
        Some(records) => Some(records@),
        None => None,
    }
}

/// Trusted: `ttf_parser::RawFace::parse` of face zero finds the directory or
/// not by the bytes alone, and so are the `table_records` that it holds, which
/// are its `TableRecord`s in order.
#[verifier::external_body]
pub(crate) fn records(font: &[u8]) -> (records: Option<Vec<Record>>)
    requires
        directory_in_reach(font@),
    ensures
        records_view(records) == face_records(font@),
{
    let records = RawFace::parse(font, 0).ok()?.table_records;
    Some(
        (0..records.len()).map_while(|i| records.get(i)).map(
            |r| (r.tag.0, r.offset, r.length),
        ).collect(),
    )
}

/// The bytes of a table by its record, if they lie within the file.
pub open spec fn record_bytes(font: Seq<u8>, record: Record) -> Option<Seq<u8>> {
    if record.1 + record.2 <= font.len() {
        Some(font.subrange(record.1 as int, record.1 + record.2))
    } else {
        None
    }
}

/// The table with a tag: the last record of the tag tells.
pub open spec fn table(font: Seq<u8>, records: Seq<Record>, tag: u32) -> Option<Seq<u8>>
    decreases records.len(),
{
    if records.len() == 0 {
        None
    } else if records.last().0 == tag {
        record_bytes(font, records.last())
    } else {
        table(font, records.drop_last(), tag)
    }
}

/// The tables of a face that are read. The first three must be there for the
/// parser to accept the face; one that is not there is empty.
#[derive(Clone, Copy, Debug)]
pub struct Tables<'a> {
    pub head: &'a [u8],
    pub hhea: &'a [u8],
    pub maxp: &'a [u8],
    pub hmtx: Option<&'a [u8]>,
    pub cmap: Option<&'a [u8]>,
    pub loca: Option<&'a [u8]>,
    pub glyf: Option<&'a [u8]>,
    pub cff: Option<&'a [u8]>,
    pub gsub: Option<&'a [u8]>,
}

/// The mathematical form of [`Tables`].
pub struct TablesView {
    pub head: Seq<u8>,
    pub hhea: Seq<u8>,
    pub maxp: Seq<u8>,
    pub hmtx: Option<Seq<u8>>,
    pub cmap: Option<Seq<u8>>,
    pub loca: Option<Seq<u8>>,
    pub glyf: Option<Seq<u8>>,
    pub cff: Option<Seq<u8>>,
    pub gsub: Option<Seq<u8>>,
}

/// The bytes of a table, if it is there.
pub open spec fn bytes(table: Option<&[u8]>) -> Option<Seq<u8>> {
    match table {
        Some(table) => Some(table@),
        None => None,
    }
}

/// The bytes of a table, none if it is not there.
pub open spec fn bytes_or_none(table: Option<Seq<u8>>) -> Seq<u8> {
    match table {
        Some(table) => table,
        None => Seq::empty(),
    }
}

impl<'a> View for Tables<'a> {
    type V = TablesView;

    open spec fn view(&self) -> TablesView {
        TablesView {
            head: self.head@,
            hhea: self.hhea@,
            maxp: self.maxp@,
            hmtx: bytes(self.hmtx),
            cmap: bytes(self.cmap),
            loca: bytes(self.loca),
            glyf: bytes(self.glyf),
            cff: bytes(self.cff),
            gsub: bytes(self.gsub),
        }
    }
}

/// The tables that records name.
pub open spec fn recorded_tables(font: Seq<u8>, records: Seq<Record>) -> TablesView {
    TablesView {
        head: bytes_or_none(table(font, records, TAG_HEAD)),
        hhea: bytes_or_none(table(font, records, TAG_HHEA)),
        maxp: bytes_or_none(table(font, records, TAG_MAXP)),
        hmtx: table(font, records, TAG_HMTX),
        cmap: table(font, records, TAG_CMAP),
        loca: table(font, records, TAG_LOCA),
        glyf: table(font, records, TAG_GLYF),
        cff: table(font, records, TAG_CFF),
        gsub: table(font, records, TAG_GSUB),
    }
}

/// The tables of the first face of a font file; `None` where the file has no
/// directory, or one that cannot be read within 32 bits.
pub open spec fn font_tables(font: Seq<u8>) -> Option<TablesView> {
    if directory_in_reach(font) {
        match face_records(font) {
            Some(records) => Some(recorded_tables(font, records)),
            None => None,
        }
    } else {
        None
    }
}

/// The table with a tag.
pub fn find_table<'a>(font: &'a [u8], records: &[Record], tag: u32) -> (found: Option<&'a [u8]>)
    ensures
        bytes(found) == table(font@, records@, tag),
{
    let mut i: usize = records.len();
    assert(records@.take(i as int) == records@);
    while i > 0
        invariant
            i <= records@.len(),
            table(font@, records@.take(i as int), tag) == table(font@, records@, tag),
        decreases i,
    {
        let record: Record = records[i - 1];
        assert(records@.take(i as int).last() == record);
        if record.0 == tag {
            let end: u64 = record.1 as u64 + record.2 as u64;
            return if end <= font.len() as u64 {
                Some(vstd::slice::slice_subrange(font, record.1 as usize, end as usize))
            } else {
                None
            };
        }
        i -= 1;
        assert(records@.take(i + 1).drop_last() == records@.take(i as int));
    }
    None
}

/// The table with a tag, an empty one if it is not there.
fn find_table_or_none<'a>(font: &'a [u8], records: &[Record], tag: u32) -> (found: &'a [u8])
    ensures
        found@ == bytes_or_none(table(font@, records@, tag)),
{
    match find_table(font, records, tag) {
        Some(found) => found,
        None => {
            let none = vstd::slice::slice_subrange(font, 0, 0);
            assert(none@ == Seq::<u8>::empty());
            none
        },
    }
}

/// The tables that records name.
pub fn select_tables<'a>(font: &'a [u8], records: &[Record]) -> (tables: Tables<'a>)
    ensures
        tables@ == recorded_tables(font@, records@),
{
    Tables {
        head: find_table_or_none(font, records, TAG_HEAD),
        hhea: find_table_or_none(font, records, TAG_HHEA),
        maxp: find_table_or_none(font, records, TAG_MAXP),
        hmtx: find_table(font, records, TAG_HMTX),
        cmap: find_table(font, records, TAG_CMAP),
        loca: find_table(font, records, TAG_LOCA),
        glyf: find_table(font, records, TAG_GLYF),
        cff: find_table(font, records, TAG_CFF),
        gsub: find_table(font, records, TAG_GSUB),
    }
}

/// The tables of the first face of a font file.
pub fn find_tables(font: &[u8]) -> (tables: Option<Tables<'_>>)
    ensures
        match tables {
            Some(tables) => font_tables(font@) == Some(tables@),
            None => font_tables(font@) is None,
        },
{
    if !is_directory_in_reach(font) {
        return None;
    }
    match records(font) {
        Some(records) => Some(select_tables(font, records.as_slice())),
        None => None,
    }
}

/// The last record of a tag tells where its table is, and that the table is
/// there only if it lies within the file.
pub proof fn the_last_record_of_a_tag_tells(font: Seq<u8>, records: Seq<Record>, k: int)
    requires
        0 <= k < records.len(),
        forall|j: int| k < j < records.len() ==> (#[trigger] records[j]).0 != records[k].0,
    ensures
        ({
            let (tag, offset, length) = records[k];
            &&& offset + length <= font.len() ==> table(font, records, tag) == Some(
                font.subrange(offset as int, offset + length),
            )
            &&& offset + length > font.len() ==> table(font, records, tag) is None
        }),
    decreases records.len(),
{
    if k < records.len() - 1 {
        let before = records.drop_last();
        assert(records[records.len() - 1] == records.last());
        assert(before[k] == records[k]);
        assert forall|j: int| k < j < before.len() implies (#[trigger] before[j]).0
            != before[k].0 by {
            assert(before[j] == records[j]);
        }
        the_last_record_of_a_tag_tells(font, before, k);
    }
}

/// A tag that no record has is that of no table.
pub proof fn a_tag_without_a_record_has_no_table(font: Seq<u8>, records: Seq<Record>, tag: u32)
    requires
        forall|j: int| 0 <= j < records.len() ==> (#[trigger] records[j]).0 != tag,
    ensures
        table(font, records, tag) is None,
    decreases records.len(),
{
    if records.len() > 0 {
        let before = records.drop_last();
        assert(records[records.len() - 1] == records.last());
        assert forall|j: int| 0 <= j < before.len() implies (#[trigger] before[j]).0 != tag by {
            assert(before[j] == records[j]);
        }
        a_tag_without_a_record_has_no_table(font, before, tag);
    }
}

/// The tables that are read, each by the four letters of its tag.
pub proof fn the_tables_that_are_read(font: Seq<u8>)
    requires
        directory_in_reach(font),
        face_records(font) is Some,
    ensures
        ({
            let records = face_records(font)->0;
            let tables = font_tables(font)->0;
            &&& font_tables(font) is Some
            &&& table(font, records, 0x6865_6164) matches Some(head) ==> tables.head == head
            &&& table(font, records, 0x6868_6561) matches Some(hhea) ==> tables.hhea == hhea
            &&& table(font, records, 0x6D61_7870) matches Some(maxp) ==> tables.maxp == maxp
            &&& table(font, records, 0x6865_6164) is None ==> tables.head.len() == 0
            &&& table(font, records, 0x6868_6561) is None ==> tables.hhea.len() == 0
            &&& table(font, records, 0x6D61_7870) is None ==> tables.maxp.len() == 0
            &&& tables.hmtx == table(font, records, 0x686D_7478)
            &&& tables.cmap == table(font, records, 0x636D_6170)
            &&& tables.loca == table(font, records, 0x6C6F_6361)
            &&& tables.glyf == table(font, records, 0x676C_7966)
            &&& tables.cff == table(font, records, 0x4346_4620)
            &&& tables.gsub == table(font, records, 0x4753_5542)
        }),
{
}

} // verus!
