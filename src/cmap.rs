use vstd::prelude::*;
use vstd::slice::slice_subrange;
use crate::directory::TableRecord;
use crate::error::FontError;
use crate::format4::{format4_error, SegmentMapping};
use crate::reader::{be16, be32, fits, u16_at, u32_at, view_u16};

verus! {

/// Size in bytes of the character-map header.
pub const CMAP_HEADER_SIZE: u64 = 4;

/// Size in bytes of one encoding record.
pub const ENCODING_RECORD_SIZE: u64 = 8;

/// The header of the character-map table.
#[derive(Debug, Clone, Copy, PartialEq, Eq, Structural)]
pub struct CmapHeader {
    pub version: u16,
    pub num_tables: u16,
}

/// One encoding record; `subtable_offset` counts from the start of the
/// character-map table.
#[derive(Debug, Clone, Copy, PartialEq, Eq, Structural)]
pub struct EncodingRecord {
    pub platform_id: u16,
    pub encoding_id: u16,
    pub subtable_offset: u32,
}

/// What became of one subtable.
#[derive(Debug, Clone)]
pub enum SubtableOutcome {
    /// A segment mapping, decoded.
    Decoded(SegmentMapping),
    /// A known format that this library leaves undecoded on purpose.
    Unsupported(u16),
    /// The subtable could not be decoded.
    Failed(FontError),
}

/// An encoding record with the outcome of decoding its subtable.
#[derive(Debug, Clone)]
pub struct CmapEntry {
    pub record: EncodingRecord,
    pub outcome: SubtableOutcome,
}

/// The character-map header and one entry per encoding record, in order.
#[derive(Debug, Clone)]
pub struct CmapTable {
    pub header: CmapHeader,
    pub entries: Vec<CmapEntry>,
}

/// Subtable formats that are known but not decoded.
pub open spec fn known_undecoded_format(f: int) -> bool {
    f == 0 || f == 2 || f == 6 || f == 8 || f == 10 || f == 12 || f == 13 || f == 14
}

/// `o` is what decoding the subtable at `t[at..]` gives.
pub open spec fn outcome_of(o: SubtableOutcome, t: Seq<u8>, at: int) -> bool {
    if !fits(t.len() as int, at, 2) {
        o == SubtableOutcome::Failed(FontError::OutOfBounds)
    } else if be16(t, at) == 4 {
        match format4_error(t, at) {
            Some(e) => o == SubtableOutcome::Failed(e),
            None => match o {
                SubtableOutcome::Decoded(m) => m.decoded_from(t, at),
                _ => false,
            },
        }
    } else if known_undecoded_format(be16(t, at)) {
        o == SubtableOutcome::Unsupported(be16(t, at) as u16)
    } else {
        o == SubtableOutcome::Failed(FontError::InvalidFormat)
    }
}

/// `r` holds the encoding record stored at `t[at..at + 8]`.
pub open spec fn encoding_record_decoded(r: EncodingRecord, t: Seq<u8>, at: int) -> bool {
    &&& r.platform_id as int == be16(t, at)
    &&& r.encoding_id as int == be16(t, at + 2)
    &&& r.subtable_offset as int == be32(t, at + 4)
}

/// Where the `i`-th encoding record starts.
pub open spec fn encoding_record_start(i: int) -> int {
    CMAP_HEADER_SIZE + ENCODING_RECORD_SIZE * i
}

/// The bytes of the table that `rec` points at.
pub open spec fn table_bytes(s: Seq<u8>, rec: TableRecord) -> Seq<u8> {
    s.subrange(rec.offset as int, rec.offset + rec.length)
}

/// Why the character-map table that `rec` points at in `s` cannot be read,
/// or `None` where it can.
pub open spec fn cmap_error(s: Seq<u8>, rec: TableRecord) -> Option<FontError> {
    let t = table_bytes(s, rec);
    if rec.offset + rec.length > s.len() {
        Some(FontError::Truncated)
    } else if t.len() < CMAP_HEADER_SIZE {
        Some(FontError::OutOfBounds)
    } else if encoding_record_start(be16(t, 2)) > t.len() {
        Some(FontError::Truncated)
    } else {
        None
    }
}

/// Peeks at the format of the subtable at `table[at..]` and decodes it where
/// it is a segment mapping.
pub fn decode_subtable(table: &[u8], at: u64) -> (r: SubtableOutcome)
    ensures
        outcome_of(r, table@, at as int),
{
    let format = match view_u16(table, at, 0) {
        Ok(f) => f,
        Err(e) => return SubtableOutcome::Failed(e),
    };
    if format == 4 {
        match SegmentMapping::parse(table, at) {
            Ok(m) => SubtableOutcome::Decoded(m),
            Err(e) => SubtableOutcome::Failed(e),
        }
    } else if format == 0 || format == 2 || format == 6 || format == 8 || format == 10 || format
        == 12 || format == 13 || format == 14 {
        SubtableOutcome::Unsupported(format)
    } else {
        SubtableOutcome::Failed(FontError::InvalidFormat)
    }
}

impl CmapTable {
    /// The header and every entry hold what the table bytes `t` store.
    pub open spec fn decoded_from(&self, t: Seq<u8>) -> bool {
        &&& self.header.version as int == be16(t, 0)
        &&& self.header.num_tables as int == be16(t, 2)
        &&& encoding_record_start(self.header.num_tables as int) <= t.len()
        &&& self.entries@.len() == self.header.num_tables
        &&& forall|i: int|
            0 <= i < self.entries@.len() ==> {
                &&& encoding_record_decoded(
                    (#[trigger] self.entries@[i]).record,
                    t,
                    encoding_record_start(i),
                )
                &&& outcome_of(self.entries@[i].outcome, t, self.entries@[i].record.subtable_offset as int)
            }
    }

    /// Reads the character-map table that `rec` points at: its header, its
    /// encoding records, and each record's subtable. A subtable that fails is
    /// recorded against its entry; the other entries are still decoded.
    pub fn parse(buf: &[u8], rec: &TableRecord) -> (r: Result<CmapTable, FontError>)
        ensures
            match r {
                Ok(c) => cmap_error(buf@, *rec) is None && c.decoded_from(table_bytes(buf@, *rec)),
                Err(e) => cmap_error(buf@, *rec) == Some(e),
            },
    {
        let len = buf.len() as u64;
        if rec.offset as u64 + rec.length as u64 > len {
            return Err(FontError::Truncated);
        }
        let start = rec.offset as usize;
        let table = slice_subrange(buf, start, start + rec.length as usize);
        assert(table@ == table_bytes(buf@, *rec));
        let t_len = table.len() as u64;
        if t_len < CMAP_HEADER_SIZE {
            return Err(FontError::OutOfBounds);
        }
        let version = u16_at(table, 0);
        let num_tables = u16_at(table, 2);
        let n = num_tables as u64;
        if CMAP_HEADER_SIZE + ENCODING_RECORD_SIZE * n > t_len {
            return Err(FontError::Truncated);
        }
        let header = CmapHeader { version, num_tables };
        let mut entries: Vec<CmapEntry> = Vec::new();
        let mut j: u64 = 0;
        while j < n
            invariant
                j <= n == num_tables,
                t_len == table@.len(),
                encoding_record_start(n as int) <= table@.len(),
                entries@.len() == j,
                forall|i: int|
                    0 <= i < j ==> {
                        &&& encoding_record_decoded(
                            (#[trigger] entries@[i]).record,
                            table@,
                            encoding_record_start(i),
                        )
                        &&& outcome_of(entries@[i].outcome, table@, entries@[i].record.subtable_offset as int)
                    },
            decreases n - j,
        {
            let at = CMAP_HEADER_SIZE + ENCODING_RECORD_SIZE * j;
            let record = EncodingRecord {
                platform_id: u16_at(table, at),
                encoding_id: u16_at(table, at + 2),
                subtable_offset: u32_at(table, at + 4),
            };
            let outcome = decode_subtable(table, record.subtable_offset as u64);
            entries.push(CmapEntry { record, outcome });
            j = j + 1;
        }
        Ok(CmapTable { header, entries })
    }
}

} // verus!
