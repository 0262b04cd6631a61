use vstd::prelude::*;
use crate::error::FontError;
use crate::reader::{
    be16, be32, fits, lemma_be16_of_bytes, lemma_be32_of_bytes, lemma_written_piece, u16_bytes,
    u32_bytes, view_tag, view_u16, view_u32,
};

verus! {

/// Size in bytes of the font header.
pub const HEADER_SIZE: u64 = 12;

/// Size in bytes of one table record.
pub const RECORD_SIZE: u64 = 16;

/// Default ceiling on the size of an input buffer (256 MiB).
pub const MAX_INPUT_LEN: usize = 0x1000_0000;

/// The fixed header at the start of an sfnt file.
#[derive(Debug, Clone, Copy, PartialEq, Eq, Structural)]
pub struct FontHeader {
    pub sfnt_version: u32,
    pub num_tables: u16,
    pub search_range: u16,
    pub entry_selector: u16,
    pub range_shift: u16,
}

/// One entry of the table directory.
#[derive(Debug, Clone, Copy)]
pub struct TableRecord {
    pub tag: [u8; 4],
    pub checksum: u32,
    pub offset: u32,
    pub length: u32,
}

/// The font header and the table records, in directory order.
#[derive(Debug, Clone)]
pub struct FontDirectory {
    pub header: FontHeader,
    pub records: Vec<TableRecord>,
}

/// `h` holds the fields stored in the first twelve bytes of `s`.
pub open spec fn header_decoded(h: FontHeader, s: Seq<u8>) -> bool {
    &&& h.sfnt_version as int == be32(s, 0)
    &&& h.num_tables as int == be16(s, 4)
    &&& h.search_range as int == be16(s, 6)
    &&& h.entry_selector as int == be16(s, 8)
    &&& h.range_shift as int == be16(s, 10)
}

/// `r` holds the fields of the table record stored at `s[at..at + 16]`.
pub open spec fn record_decoded(r: TableRecord, s: Seq<u8>, at: int) -> bool {
    &&& r.tag@ == s.subrange(at, at + 4)
    &&& r.checksum as int == be32(s, at + 4)
    &&& r.offset as int == be32(s, at + 8)
    &&& r.length as int == be32(s, at + 12)
}

/// Where the `i`-th table record starts.
pub open spec fn record_start(i: int) -> int {
    HEADER_SIZE + RECORD_SIZE * i
}

/// The number of bytes that the header and all the records it announces take.
pub open spec fn directory_len(s: Seq<u8>) -> int {
    record_start(be16(s, 4))
}

/// Two to the power `e`.
pub open spec fn pow2(e: nat) -> nat
    decreases e,
{
    if e == 0 {
        1
    } else {
        2 * pow2((e - 1) as nat)
    }
}

/// `entry_selector` is the exponent of the largest power of two not above
/// `num_tables`, and `search_range` is that power times the record size.
pub open spec fn search_fields_hold(h: FontHeader) -> bool {
    let e = h.entry_selector as nat;
    &&& pow2(e) <= h.num_tables
    &&& h.num_tables < 2 * pow2(e)
    &&& h.search_range == RECORD_SIZE * pow2(e)
}

/// A printable ASCII byte.
pub open spec fn printable(b: u8) -> bool {
    0x20 <= b && b <= 0x7e
}

/// The twelve bytes that store header `h`.
pub open spec fn header_bytes(h: FontHeader) -> Seq<u8> {
    u32_bytes(h.sfnt_version as int) + u16_bytes(h.num_tables as int) + u16_bytes(
        h.search_range as int,
    ) + u16_bytes(h.entry_selector as int) + u16_bytes(h.range_shift as int)
}

/// The sixteen bytes that store record `r`.
pub open spec fn record_bytes(r: TableRecord) -> Seq<u8> {
    r.tag@ + u32_bytes(r.checksum as int) + u32_bytes(r.offset as int) + u32_bytes(
        r.length as int,
    )
}

/// Two records carry the same tag and the same fields.
pub open spec fn same_record(a: TableRecord, b: TableRecord) -> bool {
    &&& a.tag@ == b.tag@
    &&& a.checksum == b.checksum
    &&& a.offset == b.offset
    &&& a.length == b.length
}

/// Round trip: a buffer that starts with the bytes of header `h` followed by
/// the bytes of each record of `rs` holds a whole directory, and any
/// directory decoded from it has exactly `h` and `rs`.
pub proof fn lemma_directory_round_trip(h: FontHeader, rs: Seq<TableRecord>, s: Seq<u8>)
    requires
        rs.len() == h.num_tables,
        record_start(rs.len() as int) <= s.len(),
        s.subrange(0, 12) == header_bytes(h),
        forall|i: int|
            0 <= i < rs.len() ==> s.subrange(record_start(i), record_start(i) + 16)
                == record_bytes(#[trigger] rs[i]),
    ensures
        directory_len(s) <= s.len(),
        header_decoded(h, s),
        forall|i: int| 0 <= i < rs.len() ==> record_decoded(#[trigger] rs[i], s, record_start(i)),
        forall|d: FontDirectory|
            #[trigger] d.decoded_from(s) ==> d.header == h && d.records@.len() == rs.len() && (
            forall|i: int| 0 <= i < rs.len() ==> same_record(#[trigger] d.records@[i], rs[i])),
{
    let hb = header_bytes(h);
    assert(hb.len() == 12);
    lemma_written_piece(s, 0, hb, 0, 4);
    assert(hb.subrange(0, 4) =~= u32_bytes(h.sfnt_version as int));
    lemma_be32_of_bytes(s, 0, h.sfnt_version as int);
    lemma_written_piece(s, 0, hb, 4, 2);
    assert(hb.subrange(4, 6) =~= u16_bytes(h.num_tables as int));
    lemma_be16_of_bytes(s, 4, h.num_tables as int);
    lemma_written_piece(s, 0, hb, 6, 2);
    assert(hb.subrange(6, 8) =~= u16_bytes(h.search_range as int));
    lemma_be16_of_bytes(s, 6, h.search_range as int);
    lemma_written_piece(s, 0, hb, 8, 2);
    assert(hb.subrange(8, 10) =~= u16_bytes(h.entry_selector as int));
    lemma_be16_of_bytes(s, 8, h.entry_selector as int);
    lemma_written_piece(s, 0, hb, 10, 2);
    assert(hb.subrange(10, 12) =~= u16_bytes(h.range_shift as int));
    lemma_be16_of_bytes(s, 10, h.range_shift as int);
    assert forall|i: int| 0 <= i < rs.len() implies record_decoded(
        #[trigger] rs[i],
        s,
        record_start(i),
    ) by {
        lemma_record_round_trip(rs[i], s, record_start(i));
    }
}

/// The sixteen bytes of record `r`, written at `at`, decode back to `r`.
proof fn lemma_record_round_trip(r: TableRecord, s: Seq<u8>, at: int)
    requires
        0 <= at,
        at + 16 <= s.len(),
        s.subrange(at, at + 16) == record_bytes(r),
    ensures
        record_decoded(r, s, at),
{
    let rb = record_bytes(r);
    assert(rb.len() == 16);
    lemma_written_piece(s, at, rb, 0, 4);
    assert(rb.subrange(0, 4) =~= r.tag@);
    lemma_written_piece(s, at, rb, 4, 4);
    assert(rb.subrange(4, 8) =~= u32_bytes(r.checksum as int));
    lemma_be32_of_bytes(s, at + 4, r.checksum as int);
    lemma_written_piece(s, at, rb, 8, 4);
    assert(rb.subrange(8, 12) =~= u32_bytes(r.offset as int));
    lemma_be32_of_bytes(s, at + 8, r.offset as int);
    lemma_written_piece(s, at, rb, 12, 4);
    assert(rb.subrange(12, 16) =~= u32_bytes(r.length as int));
    lemma_be32_of_bytes(s, at + 12, r.length as int);
}

proof fn lemma_pow2_grows(a: nat, b: nat)
    requires
        a <= b,
    ensures
        pow2(a) <= pow2(b),
    decreases b,
{
    if a < b {
        lemma_pow2_grows(a, (b - 1) as nat);
    }
}

impl FontHeader {
    /// Decodes the header from the first twelve bytes of `buf`.
    pub fn read(buf: &[u8]) -> (r: Result<FontHeader, FontError>)
        ensures
            match r {
                Ok(h) => fits(buf@.len() as int, 0, 12) && header_decoded(h, buf@),
                Err(e) => e == FontError::OutOfBounds && buf@.len() < 12,
            },
    {
        let sfnt_version = view_u32(buf, 0, 0)?;
        let num_tables = view_u16(buf, 4, 0)?;
        let search_range = view_u16(buf, 6, 0)?;
        let entry_selector = view_u16(buf, 8, 0)?;
        let range_shift = view_u16(buf, 10, 0)?;
        Ok(FontHeader { sfnt_version, num_tables, search_range, entry_selector, range_shift })
    }

    /// Whether `search_range` and `entry_selector` agree with `num_tables`.
    /// A mismatch is reported here and never corrected.
    pub fn search_fields_consistent(&self) -> (r: bool)
        ensures
            r == search_fields_hold(*self),
    {
        if self.entry_selector > 15 {
            proof {
                lemma_pow2_grows(16, self.entry_selector as nat);
                assert(pow2(16) == 65536) by {
                    reveal_with_fuel(pow2, 17);
                }
            }
            return false;
        }
        let mut p: u32 = 1;
        let mut i: u16 = 0;
        while i < self.entry_selector
            invariant
                i <= self.entry_selector <= 15,
                p == pow2(i as nat),
                p <= 32768,
            decreases self.entry_selector - i,
        {
            proof {
                lemma_pow2_grows(i as nat, 14);
                assert(pow2(14) == 16384) by {
                    reveal_with_fuel(pow2, 15);
                }
            }
            p = p * 2;
            i = i + 1;
        }
        let n = self.num_tables as u32;
        p <= n && n < 2 * p && self.search_range as u32 == 16 * p
    }
}

impl TableRecord {
    /// Decodes the table record stored at `byte_offset`.
    pub fn read(buf: &[u8], byte_offset: u64) -> (r: Result<TableRecord, FontError>)
        ensures
            match r {
                Ok(t) => fits(buf@.len() as int, byte_offset as int, 16) && record_decoded(
                    t,
                    buf@,
                    byte_offset as int,
                ),
                Err(e) => e == FontError::OutOfBounds && !fits(
                    buf@.len() as int,
                    byte_offset as int,
                    16,
                ),
            },
    {
        let tag = view_tag(buf, byte_offset)?;
        let checksum = view_u32(buf, byte_offset, 1)?;
        let offset = view_u32(buf, byte_offset, 2)?;
        let length = view_u32(buf, byte_offset, 3)?;
        Ok(TableRecord { tag, checksum, offset, length })
    }

    /// Whether every byte of the tag is printable ASCII.
    pub fn tag_is_printable(&self) -> (r: bool)
        ensures
            r == (forall|i: int| 0 <= i < 4 ==> printable(#[trigger] self.tag@[i])),
    {
        let mut i: usize = 0;
        while i < 4
            invariant
                i <= 4,
                forall|j: int| 0 <= j < i ==> printable(#[trigger] self.tag@[j]),
            decreases 4 - i,
        {
            let b = self.tag[i];
            if b < 0x20 || b > 0x7e {
                return false;
            }
            i = i + 1;
        }
        true
    }

    /// Checks this record on its own: its tag must be printable ASCII, and the
    /// table it points at must lie inside a buffer of `buf_len` bytes.
    pub fn check(&self, buf_len: usize) -> (r: Result<(), FontError>)
        ensures
            match r {
                Ok(_) => (forall|i: int| 0 <= i < 4 ==> printable(#[trigger] self.tag@[i]))
                    && self.offset + self.length <= buf_len,
                Err(e) => if !(forall|i: int| 0 <= i < 4 ==> printable(#[trigger] self.tag@[i])) {
                    e == FontError::InvalidFormat
                } else {
                    e == FontError::Truncated && self.offset + self.length > buf_len
                },
            },
    {
        if !self.tag_is_printable() {
            Err(FontError::InvalidFormat)
        } else if self.offset as u64 + self.length as u64 > buf_len as u64 {
            Err(FontError::Truncated)
        } else {
            Ok(())
        }
    }

    /// Whether this record carries `tag`.
    pub fn has_tag(&self, tag: &[u8; 4]) -> (r: bool)
        ensures
            r == (self.tag@ == tag@),
    {
        let same = self.tag[0] == tag[0] && self.tag[1] == tag[1] && self.tag[2] == tag[2]
            && self.tag[3] == tag[3];
        if same {
            assert(self.tag@ =~= tag@);
        }
        same
    }
}

impl FontDirectory {
    /// Parses the header and the table records, refusing inputs larger than
    /// `MAX_INPUT_LEN`.
    pub fn parse(buf: &[u8]) -> (r: Result<FontDirectory, FontError>)
        ensures
            r is Ok ==> buf@.len() <= MAX_INPUT_LEN && r->Ok_0.decoded_from(buf@),
            r is Err ==> r->Err_0 == directory_error(buf@, MAX_INPUT_LEN as int),
            buf@.len() <= MAX_INPUT_LEN && buf@.len() >= 12 && directory_len(buf@)
                <= buf@.len() ==> r is Ok,
    {
        Self::parse_with_limit(buf, MAX_INPUT_LEN)
    }

    /// Parses the header and the table records, refusing inputs larger than
    /// `max_len` bytes before reading anything.
    pub fn parse_with_limit(buf: &[u8], max_len: usize) -> (r: Result<FontDirectory, FontError>)
        ensures
            r is Ok ==> buf@.len() <= max_len && r->Ok_0.decoded_from(buf@),
            r is Err ==> r->Err_0 == directory_error(buf@, max_len as int),
            buf@.len() <= max_len && buf@.len() >= 12 && directory_len(buf@) <= buf@.len()
                ==> r is Ok,
    {
        if buf.len() > max_len {
            return Err(FontError::ResourceLimitExceeded);
        }
        let header = FontHeader::read(buf)?;
        let n = header.num_tables as u64;
        if HEADER_SIZE + RECORD_SIZE * n > buf.len() as u64 {
            return Err(FontError::Truncated);
        }
        let mut records: Vec<TableRecord> = Vec::new();
        let mut i: u64 = 0;
        while i < n
            invariant
                i <= n,
                n == header.num_tables,
                header_decoded(header, buf@),
                record_start(n as int) <= buf@.len(),
                records@.len() == i,
                forall|j: int|
                    0 <= j < i ==> record_decoded(#[trigger] records@[j], buf@, record_start(j)),
            decreases n - i,
        {
            let rec = TableRecord::read(buf, HEADER_SIZE + RECORD_SIZE * i)?;
            records.push(rec);
            i = i + 1;
        }
        Ok(FontDirectory { header, records })
    }

    /// The first record, in directory order, whose tag is `tag`.
    pub fn lookup(&self, tag: &[u8; 4]) -> (r: Option<TableRecord>)
        ensures
            match r {
                None => forall|i: int|
                    0 <= i < self.records@.len() ==> (#[trigger] self.records@[i]).tag@ != tag@,
                Some(t) => exists|i: int|
                    0 <= i < self.records@.len() && #[trigger] self.records@[i] == t && t.tag@
                        == tag@ && forall|j: int|
                        0 <= j < i ==> (#[trigger] self.records@[j]).tag@ != tag@,
            },
    {
        let mut i: usize = 0;
        while i < self.records.len()
            invariant
                i <= self.records@.len(),
                forall|j: int| 0 <= j < i ==> (#[trigger] self.records@[j]).tag@ != tag@,
            decreases self.records@.len() - i,
        {
            if self.records[i].has_tag(tag) {
                return Some(self.records[i]);
            }
            i = i + 1;
        }
        None
    }

    /// The header and every record hold what `s` stores for them.
    pub open spec fn decoded_from(&self, s: Seq<u8>) -> bool {
        &&& directory_len(s) <= s.len()
        &&& header_decoded(self.header, s)
        &&& self.records@.len() == self.header.num_tables
        &&& forall|i: int|
            0 <= i < self.records@.len() ==> record_decoded(
                #[trigger] self.records@[i],
                s,
                record_start(i),
            )
    }
}

/// The error that parsing a directory from `s` reports, under the ceiling
/// `max_len`, where it fails.
pub open spec fn directory_error(s: Seq<u8>, max_len: int) -> FontError {
    if s.len() > max_len {
        FontError::ResourceLimitExceeded
    } else if s.len() < 12 {
        FontError::OutOfBounds
    } else {
        FontError::Truncated
    }
}

} // verus!
