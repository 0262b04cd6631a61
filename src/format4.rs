use vstd::prelude::*;
use vstd::slice::{slice_subrange, slice_to_vec};
use crate::error::FontError;
use crate::reader::{
    be16, fits, i16_array, lemma_be16_of_bytes, lemma_u16s_bytes, lemma_u16s_read_back,
    lemma_written_piece, signed16, u16_array, u16_at, u16_bytes, u16s_bytes, view_u16,
};

verus! {

/// Size in bytes of the fixed header of a segment-mapping subtable.
pub const FORMAT4_HEADER_SIZE: u64 = 14;

/// A decoded format 4 (segment mapping) character-map subtable.
///
/// `glyph_area` holds the bytes from the start of the `id_range_offsets`
/// array to the end of the subtable, so that the indirect glyph lookups read
/// only what was copied out of the font.
#[derive(Debug, Clone)]
pub struct SegmentMapping {
    pub format: u16,
    pub length: u16,
    pub language: u16,
    pub seg_countx2: u16,
    pub search_range: u16,
    pub entry_selector: u16,
    pub range_shift: u16,
    pub end_codes: Vec<u16>,
    pub reserved_pad: u16,
    pub start_codes: Vec<u16>,
    pub id_deltas: Vec<i16>,
    pub id_range_offsets: Vec<u16>,
    pub glyph_area: Vec<u8>,
}

/// The number of bytes that the header and the four segment arrays take for
/// `seg_countx2 / 2` segments.
pub open spec fn arrays_end(seg_countx2: int) -> int {
    FORMAT4_HEADER_SIZE + 4 * seg_countx2 + 2
}

/// Why the subtable stored at `s[at..]` cannot be decoded as format 4, or
/// `None` where it can.
pub open spec fn format4_error(s: Seq<u8>, at: int) -> Option<FontError> {
    if !fits(s.len() as int, at, FORMAT4_HEADER_SIZE as int) {
        Some(FontError::OutOfBounds)
    } else if be16(s, at) != 4 {
        Some(FontError::InvalidFormat)
    } else if be16(s, at + 6) % 2 == 1 {
        Some(FontError::InvalidFormat)
    } else if at + be16(s, at + 2) > s.len() {
        Some(FontError::Truncated)
    } else if arrays_end(be16(s, at + 6)) > be16(s, at + 2) {
        Some(FontError::Truncated)
    } else {
        None
    }
}

/// The index of the first segment at or after `i` whose end code is at least
/// `c`, or `ends.len()` where there is none.
pub open spec fn first_segment_from(ends: Seq<u16>, c: u16, i: int) -> int
    decreases ends.len() - i,
{
    if 0 <= i < ends.len() {
        if ends[i] >= c {
            i
        } else {
            first_segment_from(ends, c, i + 1)
        }
    } else {
        ends.len() as int
    }
}

/// The index of the first segment whose end code is at least `c`.
pub open spec fn first_segment(ends: Seq<u16>, c: u16) -> int {
    first_segment_from(ends, c, 0)
}

/// `v` reduced modulo 65536.
pub open spec fn wrap16(v: int) -> int {
    v % 65536
}

/// `v + d` reduced modulo 65536.
fn add_delta(v: u16, d: i16) -> (r: u16)
    ensures
        r as int == wrap16(v + d),
{
    let s: i32 = v as i32 + d as i32;
    if s < 0 {
        (s + 65536) as u16
    } else if s >= 65536 {
        (s - 65536) as u16
    } else {
        s as u16
    }
}

impl SegmentMapping {
    /// The number of segments.
    pub open spec fn seg_count(&self) -> int {
        self.seg_countx2 as int / 2
    }

    /// The four segment arrays have one entry per segment.
    pub open spec fn wf(&self) -> bool {
        &&& self.end_codes@.len() == self.seg_count()
        &&& self.start_codes@.len() == self.seg_count()
        &&& self.id_deltas@.len() == self.seg_count()
        &&& self.id_range_offsets@.len() == self.seg_count()
    }

    /// Every field holds what the subtable stored at `s[at..]` holds for it.
    pub open spec fn decoded_from(&self, s: Seq<u8>, at: int) -> bool {
        let n = self.seg_count();
        let ends = at + FORMAT4_HEADER_SIZE;
        let starts = ends + 2 * n + 2;
        let deltas = starts + 2 * n;
        let ranges = deltas + 2 * n;
        &&& self.format as int == be16(s, at)
        &&& self.length as int == be16(s, at + 2)
        &&& self.language as int == be16(s, at + 4)
        &&& self.seg_countx2 as int == be16(s, at + 6)
        &&& self.search_range as int == be16(s, at + 8)
        &&& self.entry_selector as int == be16(s, at + 10)
        &&& self.range_shift as int == be16(s, at + 12)
        &&& self.wf()
        &&& forall|i: int| 0 <= i < n ==> #[trigger] self.end_codes@[i] as int == be16(s, ends + 2 * i)
        &&& self.reserved_pad as int == be16(s, ends + 2 * n)
        &&& forall|i: int|
            0 <= i < n ==> #[trigger] self.start_codes@[i] as int == be16(s, starts + 2 * i)
        &&& forall|i: int|
            0 <= i < n ==> #[trigger] self.id_deltas@[i] as int == signed16(
                be16(s, deltas + 2 * i),
            )
        &&& forall|i: int|
            0 <= i < n ==> #[trigger] self.id_range_offsets@[i] as int == be16(s, ranges + 2 * i)
        &&& self.glyph_area@ == s.subrange(ranges, at + self.length)
    }

    /// The glyph id that code point `c` maps to: the first segment whose end
    /// code is at least `c` decides; a code before that segment's start, or
    /// past the last segment, maps to glyph 0.
    pub open spec fn glyph_of(&self, c: u16) -> int {
        let i = first_segment(self.end_codes@, c);
        if i >= self.end_codes@.len() {
            0
        } else if self.start_codes@[i] > c {
            0
        } else if self.id_range_offsets@[i] == 0 {
            wrap16(c + self.id_deltas@[i])
        } else {
            let a = 2 * i + self.id_range_offsets@[i] + 2 * (c - self.start_codes@[i]);
            if !fits(self.glyph_area@.len() as int, a, 2) {
                0
            } else if be16(self.glyph_area@, a) == 0 {
                0
            } else {
                wrap16(be16(self.glyph_area@, a) + self.id_deltas@[i])
            }
        }
    }

    /// The last segment ends at 0xFFFF.
    pub open spec fn has_sentinel(&self) -> bool {
        self.end_codes@.len() > 0 && self.end_codes@.last() == 0xFFFF
    }

    /// The start codes never decrease.
    pub open spec fn starts_sorted(&self) -> bool {
        forall|i: int, j: int|
            0 <= i < j < self.start_codes@.len() ==> self.start_codes@[i] <= self.start_codes@[j]
    }

    /// Decodes the format 4 subtable stored at `region[at..]`.
    pub fn parse(region: &[u8], at: u64) -> (r: Result<SegmentMapping, FontError>)
        ensures
            match r {
                Ok(m) => format4_error(region@, at as int) is None && m.decoded_from(
                    region@,
                    at as int,
                ),
                Err(e) => format4_error(region@, at as int) == Some(e),
            },
    {
        let format = view_u16(region, at, 0)?;
        let length = view_u16(region, at, 1)?;
        let language = view_u16(region, at, 2)?;
        let seg_countx2 = view_u16(region, at, 3)?;
        let search_range = view_u16(region, at, 4)?;
        let entry_selector = view_u16(region, at, 5)?;
        let range_shift = view_u16(region, at, 6)?;
        if format != 4 {
            return Err(FontError::InvalidFormat);
        }
        if seg_countx2 % 2 == 1 {
            return Err(FontError::InvalidFormat);
        }
        let len = region.len() as u64;
        if length as u64 > len - at {
            return Err(FontError::Truncated);
        }
        if FORMAT4_HEADER_SIZE + 4 * seg_countx2 as u64 + 2 > length as u64 {
            return Err(FontError::Truncated);
        }
        let n = seg_countx2 as u64 / 2;
        assert(2 * n == seg_countx2);
        let ends = at + FORMAT4_HEADER_SIZE;
        let starts = ends + 2 * n + 2;
        let deltas = starts + 2 * n;
        let ranges = deltas + 2 * n;
        let end_codes = u16_array(region, ends, n);
        let reserved_pad = u16_at(region, ends + 2 * n);
        let start_codes = u16_array(region, starts, n);
        let id_deltas = i16_array(region, deltas, n);
        let id_range_offsets = u16_array(region, ranges, n);
        let glyph_area = slice_to_vec(slice_subrange(region, ranges as usize, (at + length as u64) as usize));
        Ok(SegmentMapping {
            format,
            length,
            language,
            seg_countx2,
            search_range,
            entry_selector,
            range_shift,
            end_codes,
            reserved_pad,
            start_codes,
            id_deltas,
            id_range_offsets,
            glyph_area,
        })
    }

    /// Whether the table ends with the 0xFFFF segment and its start codes
    /// never decrease.
    pub fn is_structurally_valid(&self) -> (r: bool)
        requires
            self.wf(),
        ensures
            r == (self.has_sentinel() && self.starts_sorted()),
    {
        let n = self.end_codes.len();
        if n == 0 || self.end_codes[n - 1] != 0xFFFF {
            return false;
        }
        let mut k: usize = 1;
        while k < n
            invariant
                1 <= k <= n == self.start_codes@.len(),
                forall|i: int, j: int|
                    0 <= i < j < k ==> self.start_codes@[i] <= self.start_codes@[j],
            decreases n - k,
        {
            if self.start_codes[k - 1] > self.start_codes[k] {
                return false;
            }
            k = k + 1;
        }
        true
    }

    /// The glyph id that code point `c` maps to. Defined for every `c`.
    pub fn lookup(&self, c: u16) -> (r: u16)
        requires
            self.wf(),
        ensures
            r as int == self.glyph_of(c),
    {
        let n = self.end_codes.len();
        let mut i: usize = 0;
        while i < n && self.end_codes[i] < c
            invariant
                i <= n == self.end_codes@.len(),
                first_segment(self.end_codes@, c) == first_segment_from(self.end_codes@, c, i as int),
            decreases n - i,
        {
            i = i + 1;
        }
        if i == n {
            return 0;
        }
        let start = self.start_codes[i];
        if start > c {
            return 0;
        }
        let delta = self.id_deltas[i];
        let range_offset = self.id_range_offsets[i];
        if range_offset == 0 {
            return add_delta(c, delta);
        }
        let a: u64 = 2 * i as u64 + range_offset as u64 + 2 * (c - start) as u64;
        match view_u16(self.glyph_area.as_slice(), a, 0) {
            Ok(g) => if g == 0 {
                0
            } else {
                add_delta(g, delta)
            },
            Err(_) => 0,
        }
    }
}

proof fn lemma_search_stops_by_last(ends: Seq<u16>, c: u16, i: int)
    requires
        0 <= i < ends.len(),
        ends.last() >= c,
    ensures
        i <= first_segment_from(ends, c, i) < ends.len(),
    decreases ends.len() - i,
{
    if ends[i] < c {
        lemma_search_stops_by_last(ends, c, i + 1);
    }
}

/// With the closing 0xFFFF segment present, every code point from 0 to
/// 0xFFFF is answered by some segment: the search never runs past the last
/// one.
pub proof fn lemma_sentinel_covers_every_code(m: SegmentMapping, c: u16)
    requires
        m.wf(),
        m.has_sentinel(),
    ensures
        0 <= first_segment(m.end_codes@, c) < m.end_codes@.len(),
{
    lemma_search_stops_by_last(m.end_codes@, c, 0);
}

/// An odd `seg_countx2` is refused as a format error whenever the fixed
/// header can be read.
pub proof fn lemma_odd_segment_count_is_invalid(s: Seq<u8>, at: int)
    requires
        fits(s.len() as int, at, FORMAT4_HEADER_SIZE as int),
        be16(s, at + 6) % 2 == 1,
    ensures
        format4_error(s, at) == Some(FontError::InvalidFormat),
{
}

/// A segment mapping whose `length` field reaches past the end of the bytes
/// is refused as truncated.
pub proof fn lemma_overlong_length_is_truncated(s: Seq<u8>, at: int)
    requires
        fits(s.len() as int, at, FORMAT4_HEADER_SIZE as int),
        be16(s, at) == 4,
        be16(s, at + 6) % 2 == 0,
        at + be16(s, at + 2) > s.len(),
    ensures
        format4_error(s, at) == Some(FontError::Truncated),
{
}

/// The 16-bit pattern that stores `d`.
pub open spec fn i16_bits(d: i16) -> int {
    if d < 0 {
        d + 65536
    } else {
        d as int
    }
}

/// The values of `vs` as integers.
pub open spec fn words(vs: Seq<u16>) -> Seq<int> {
    vs.map_values(|v: u16| v as int)
}

impl SegmentMapping {
    /// The seven fields of the fixed header, in the order they are stored.
    pub open spec fn header_words(&self) -> Seq<int> {
        seq![
            self.format as int,
            self.length as int,
            self.language as int,
            self.seg_countx2 as int,
            self.search_range as int,
            self.entry_selector as int,
            self.range_shift as int,
        ]
    }

    /// The bytes that store this subtable. The `id_range_offsets` array is
    /// stored as the first bytes of `glyph_area`.
    pub open spec fn encoded(&self) -> Seq<u8> {
        u16s_bytes(self.header_words()) + u16s_bytes(words(self.end_codes@)) + u16_bytes(
            self.reserved_pad as int,
        ) + u16s_bytes(words(self.start_codes@)) + u16s_bytes(
            self.id_deltas@.map_values(|d: i16| i16_bits(d)),
        ) + self.glyph_area@
    }

    /// Both mappings hold the same values in every field.
    pub open spec fn same_fields(&self, o: SegmentMapping) -> bool {
        &&& self.header_words() == o.header_words()
        &&& self.end_codes@ == o.end_codes@
        &&& self.reserved_pad == o.reserved_pad
        &&& self.start_codes@ == o.start_codes@
        &&& self.id_deltas@ == o.id_deltas@
        &&& self.id_range_offsets@ == o.id_range_offsets@
        &&& self.glyph_area@ == o.glyph_area@
    }
}

/// The bytes of the well-formed mapping `m` stand at `s[at..]`, its
/// `id_range_offsets` leading its `glyph_area`.
pub open spec fn written_at(m: SegmentMapping, s: Seq<u8>, at: int) -> bool {
    &&& m.wf()
    &&& m.format == 4
    &&& m.seg_countx2 % 2 == 0
    &&& m.glyph_area@.len() >= m.seg_countx2
    &&& m.glyph_area@.subrange(0, m.seg_countx2 as int) == u16s_bytes(words(m.id_range_offsets@))
    &&& m.length == m.encoded().len()
    &&& 0 <= at
    &&& at + m.length <= s.len()
    &&& s.subrange(at, at + m.length) == m.encoded()
}

proof fn lemma_encoded_len(m: SegmentMapping)
    requires
        m.wf(),
    ensures
        m.encoded().len() == 16 + 6 * m.seg_count() + m.glyph_area@.len(),
        u16s_bytes(m.header_words()).len() == 14,
        u16s_bytes(words(m.end_codes@)).len() == 2 * m.seg_count(),
        u16s_bytes(words(m.start_codes@)).len() == 2 * m.seg_count(),
        u16s_bytes(m.id_deltas@.map_values(|d: i16| i16_bits(d))).len() == 2 * m.seg_count(),
{
    lemma_u16s_bytes(m.header_words());
    lemma_u16s_bytes(words(m.end_codes@));
    lemma_u16s_bytes(words(m.start_codes@));
    lemma_u16s_bytes(m.id_deltas@.map_values(|d: i16| i16_bits(d)));
}

proof fn lemma_header_written(m: SegmentMapping, s: Seq<u8>, at: int)
    requires
        written_at(m, s, at),
    ensures
        be16(s, at) == m.format,
        be16(s, at + 2) == m.length,
        be16(s, at + 4) == m.language,
        be16(s, at + 6) == m.seg_countx2,
        be16(s, at + 8) == m.search_range,
        be16(s, at + 10) == m.entry_selector,
        be16(s, at + 12) == m.range_shift,
{
    let e = m.encoded();
    let hw = m.header_words();
    lemma_encoded_len(m);
    assert(e.subrange(0, 14) =~= u16s_bytes(hw));
    lemma_u16s_read_back(s, at, e, 0, hw);
    assert(be16(s, at) == hw[0]);
    assert(be16(s, at + 2) == hw[1]);
    assert(be16(s, at + 4) == hw[2]);
    assert(be16(s, at + 6) == hw[3]);
    assert(be16(s, at + 8) == hw[4]);
    assert(be16(s, at + 10) == hw[5]);
    assert(be16(s, at + 12) == hw[6]);
}

proof fn lemma_ends_and_pad_written(m: SegmentMapping, s: Seq<u8>, at: int)
    requires
        written_at(m, s, at),
    ensures
        forall|i: int|
            0 <= i < m.seg_count() ==> #[trigger] m.end_codes@[i] as int == be16(s, at + 14 + 2 * i),
        m.reserved_pad as int == be16(s, at + 14 + 2 * m.seg_count()),
{
    let n = m.seg_count();
    let e = m.encoded();
    let ends = words(m.end_codes@);
    lemma_encoded_len(m);
    assert(e.subrange(14, 14 + 2 * n) =~= u16s_bytes(ends));
    lemma_u16s_read_back(s, at, e, 14, ends);
    assert forall|i: int| 0 <= i < n implies #[trigger] m.end_codes@[i] as int == be16(
        s,
        at + 14 + 2 * i,
    ) by {
        assert(ends[i] == m.end_codes@[i]);
    }
    assert(e.subrange(14 + 2 * n, 16 + 2 * n) =~= u16_bytes(m.reserved_pad as int));
    lemma_written_piece(s, at, e, 14 + 2 * n, 2);
    lemma_be16_of_bytes(s, at + 14 + 2 * n, m.reserved_pad as int);
}

proof fn lemma_starts_and_deltas_written(m: SegmentMapping, s: Seq<u8>, at: int)
    requires
        written_at(m, s, at),
    ensures
        forall|i: int|
            0 <= i < m.seg_count() ==> #[trigger] m.start_codes@[i] as int == be16(
                s,
                at + 16 + 2 * m.seg_count() + 2 * i,
            ),
        forall|i: int|
            0 <= i < m.seg_count() ==> #[trigger] m.id_deltas@[i] as int == signed16(
                be16(s, at + 16 + 4 * m.seg_count() + 2 * i),
            ),
{
    let n = m.seg_count();
    let e = m.encoded();
    let starts = words(m.start_codes@);
    let deltas = m.id_deltas@.map_values(|d: i16| i16_bits(d));
    lemma_encoded_len(m);
    assert(e.subrange(16 + 2 * n, 16 + 4 * n) =~= u16s_bytes(starts));
    lemma_u16s_read_back(s, at, e, 16 + 2 * n, starts);
    assert forall|i: int| 0 <= i < n implies #[trigger] m.start_codes@[i] as int == be16(
        s,
        at + 16 + 2 * n + 2 * i,
    ) by {
        assert(starts[i] == m.start_codes@[i]);
    }
    assert(e.subrange(16 + 4 * n, 16 + 6 * n) =~= u16s_bytes(deltas));
    assert forall|i: int| 0 <= i < deltas.len() implies 0 <= #[trigger] deltas[i] < 65536 by {}
    lemma_u16s_read_back(s, at, e, 16 + 4 * n, deltas);
    assert forall|i: int| 0 <= i < n implies #[trigger] m.id_deltas@[i] as int == signed16(
        be16(s, at + 16 + 4 * n + 2 * i),
    ) by {
        assert(deltas[i] == i16_bits(m.id_deltas@[i]));
    }
}

proof fn lemma_ranges_and_glyphs_written(m: SegmentMapping, s: Seq<u8>, at: int)
    requires
        written_at(m, s, at),
    ensures
        forall|i: int|
            0 <= i < m.seg_count() ==> #[trigger] m.id_range_offsets@[i] as int == be16(
                s,
                at + 16 + 6 * m.seg_count() + 2 * i,
            ),
        m.glyph_area@ == s.subrange(at + 16 + 6 * m.seg_count(), at + m.length),
{
    let n = m.seg_count();
    let e = m.encoded();
    let ranges = words(m.id_range_offsets@);
    lemma_encoded_len(m);
    lemma_u16s_bytes(ranges);
    assert(e.subrange(16 + 6 * n, 16 + 8 * n) =~= m.glyph_area@.subrange(0, 2 * n));
    lemma_u16s_read_back(s, at, e, 16 + 6 * n, ranges);
    assert forall|i: int| 0 <= i < n implies #[trigger] m.id_range_offsets@[i] as int == be16(
        s,
        at + 16 + 6 * n + 2 * i,
    ) by {
        assert(ranges[i] == m.id_range_offsets@[i]);
    }
    let g = m.glyph_area@.len() as int;
    assert(e.subrange(16 + 6 * n, 16 + 6 * n + g) =~= m.glyph_area@);
    lemma_written_piece(s, at, e, 16 + 6 * n, g);
}

/// Two mappings decoded from the same bytes hold the same fields.
proof fn lemma_decoded_unique(p: SegmentMapping, m: SegmentMapping, s: Seq<u8>, at: int)
    requires
        p.decoded_from(s, at),
        m.decoded_from(s, at),
    ensures
        p.same_fields(m),
{
    let n = m.seg_count();
    assert(p.header_words() =~= m.header_words());
    assert(p.end_codes@ =~= m.end_codes@);
    assert(p.start_codes@ =~= m.start_codes@);
    assert(p.id_range_offsets@ =~= m.id_range_offsets@);
    assert forall|i: int| 0 <= i < n implies p.id_deltas@[i] == m.id_deltas@[i] by {
        assert(p.id_deltas@[i] as int == m.id_deltas@[i] as int);
    }
    assert(p.id_deltas@ =~= m.id_deltas@);
}

/// Round trip: the bytes of a well-formed segment mapping `m`, written at
/// `at`, decode without error, and any mapping decoded from them holds
/// exactly the fields of `m`.
pub proof fn lemma_format4_round_trip(m: SegmentMapping, s: Seq<u8>, at: int)
    requires
        written_at(m, s, at),
    ensures
        format4_error(s, at) is None,
        m.decoded_from(s, at),
        forall|p: SegmentMapping| #[trigger] p.decoded_from(s, at) ==> p.same_fields(m),
{
    lemma_encoded_len(m);
    lemma_header_written(m, s, at);
    lemma_ends_and_pad_written(m, s, at);
    lemma_starts_and_deltas_written(m, s, at);
    lemma_ranges_and_glyphs_written(m, s, at);
    assert(m.decoded_from(s, at));
    assert forall|p: SegmentMapping| #[trigger] p.decoded_from(s, at) implies p.same_fields(m) by {
        lemma_decoded_unique(p, m, s, at);
    }
}

} // verus!
