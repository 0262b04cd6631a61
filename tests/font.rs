use sfnt_view::cmap::{decode_subtable, CmapTable, SubtableOutcome};
use sfnt_view::directory::{FontDirectory, FontHeader, TableRecord};
use sfnt_view::error::FontError;
use sfnt_view::format4::SegmentMapping;
use sfnt_view::reader::{view_i16, view_tag, view_u16, view_u32};

fn put16(b: &mut Vec<u8>, v: u16) {
    b.extend_from_slice(&v.to_be_bytes());
}

fn put32(b: &mut Vec<u8>, v: u32) {
    b.extend_from_slice(&v.to_be_bytes());
}

fn font_header(b: &mut Vec<u8>, num_tables: u16, search_range: u16, entry_selector: u16) {
    put32(b, 0x0001_0000);
    put16(b, num_tables);
    put16(b, search_range);
    put16(b, entry_selector);
    put16(b, num_tables * 16 - search_range);
}

fn table_record(b: &mut Vec<u8>, tag: &[u8; 4], checksum: u32, offset: u32, length: u32) {
    b.extend_from_slice(tag);
    put32(b, checksum);
    put32(b, offset);
    put32(b, length);
}

/// A format 4 subtable from (start, end, delta, range offset) segments and a
/// trailing glyph id array.
fn format4(segments: &[(u16, u16, i16, u16)], glyphs: &[u16]) -> Vec<u8> {
    let n = segments.len() as u16;
    let length = 16 + 8 * n + 2 * glyphs.len() as u16;
    let mut b = Vec::new();
    put16(&mut b, 4);
    put16(&mut b, length);
    put16(&mut b, 0);
    put16(&mut b, 2 * n);
    put16(&mut b, 0);
    put16(&mut b, 0);
    put16(&mut b, 0);
    for s in segments {
        put16(&mut b, s.1);
    }
    put16(&mut b, 0);
    for s in segments {
        put16(&mut b, s.0);
    }
    for s in segments {
        put16(&mut b, s.2 as u16);
    }
    for s in segments {
        put16(&mut b, s.3);
    }
    for g in glyphs {
        put16(&mut b, *g);
    }
    b
}

fn decoded(outcome: &SubtableOutcome) -> &SegmentMapping {
    match outcome {
        SubtableOutcome::Decoded(m) => m,
        other => panic!("not decoded: {:?}", other),
    }
}

/// One cmap table holding one encoding record (3, 1) whose subtable follows
/// the record, in a font whose directory has only that table.
fn font_with_cmap(subtable: &[u8]) -> Vec<u8> {
    let cmap_len = 4 + 8 + subtable.len() as u32;
    let mut b = Vec::new();
    font_header(&mut b, 1, 16, 0);
    table_record(&mut b, b"cmap", 0, 28, cmap_len);
    put16(&mut b, 0);
    put16(&mut b, 1);
    put16(&mut b, 3);
    put16(&mut b, 1);
    put32(&mut b, 12);
    b.extend_from_slice(subtable);
    b
}

#[test]
fn views_decode_big_endian() {
    let b = [0x12u8, 0x34, 0x56, 0x78, 0xff, 0xfe];
    assert_eq!(view_u16(&b, 0, 0), Ok(0x1234));
    assert_eq!(view_u16(&b, 0, 1), Ok(0x5678));
    assert_eq!(view_u16(&b, 1, 0), Ok(0x3456));
    assert_eq!(view_u32(&b, 0, 0), Ok(0x1234_5678));
    assert_eq!(view_u32(&b, 2, 0), Ok(0x5678_fffe));
    assert_eq!(view_i16(&b, 4, 0), Ok(-2));
    assert_eq!(view_i16(&b, 0, 0), Ok(0x1234));
    assert_eq!(view_tag(&b, 1), Ok([0x34, 0x56, 0x78, 0xff]));
}

#[test]
fn views_refuse_reads_past_the_end() {
    let b = [1u8, 2, 3, 4, 5];
    assert_eq!(view_u16(&b, 0, 2), Err(FontError::OutOfBounds));
    assert_eq!(view_u16(&b, 4, 0), Err(FontError::OutOfBounds));
    assert_eq!(view_u32(&b, 0, 1), Err(FontError::OutOfBounds));
    assert_eq!(view_u32(&b, 2, 0), Err(FontError::OutOfBounds));
    assert_eq!(view_tag(&b, 2), Err(FontError::OutOfBounds));
    assert_eq!(view_u16(&b, u64::MAX, 0), Err(FontError::OutOfBounds));
    assert_eq!(view_u16(&b, 0, u64::MAX), Err(FontError::OutOfBounds));
    assert_eq!(view_u16(&[], 0, 0), Err(FontError::OutOfBounds));
}

#[test]
fn directory_round_trip() {
    let mut b = Vec::new();
    font_header(&mut b, 3, 32, 1);
    table_record(&mut b, b"cmap", 0xdead_beef, 60, 4);
    table_record(&mut b, b"head", 7, 64, 0);
    table_record(&mut b, b"glyf", 0x8000_0001, 64, 0);
    b.extend_from_slice(&[0, 0, 0, 0]);
    let d = FontDirectory::parse(&b).unwrap();
    assert_eq!(
        d.header,
        FontHeader {
            sfnt_version: 0x0001_0000,
            num_tables: 3,
            search_range: 32,
            entry_selector: 1,
            range_shift: 16,
        }
    );
    assert_eq!(d.records.len(), 3);
    assert_eq!(d.records[0].tag, *b"cmap");
    assert_eq!(d.records[0].checksum, 0xdead_beef);
    assert_eq!(d.records[0].offset, 60);
    assert_eq!(d.records[0].length, 4);
    assert_eq!(d.records[1].tag, *b"head");
    assert_eq!(d.records[1].checksum, 7);
    assert_eq!(d.records[2].tag, *b"glyf");
    assert_eq!(d.records[2].checksum, 0x8000_0001);
    assert_eq!(d.records[2].offset, 64);
    assert!(d.header.search_fields_consistent());
}

#[test]
fn directory_errors() {
    assert_eq!(FontDirectory::parse(&[0u8; 11]).unwrap_err(), FontError::OutOfBounds);
    let mut b = Vec::new();
    font_header(&mut b, 2, 32, 1);
    table_record(&mut b, b"cmap", 0, 0, 0);
    assert_eq!(FontDirectory::parse(&b).unwrap_err(), FontError::Truncated);
    b.extend_from_slice(&[0u8; 15]);
    assert_eq!(FontDirectory::parse(&b).unwrap_err(), FontError::Truncated);
    b.push(0);
    assert!(FontDirectory::parse(&b).is_ok());
    assert_eq!(
        FontDirectory::parse_with_limit(&b, b.len() - 1).unwrap_err(),
        FontError::ResourceLimitExceeded
    );
    assert!(FontDirectory::parse_with_limit(&b, b.len()).is_ok());
}

#[test]
fn empty_directory() {
    let mut b = Vec::new();
    put32(&mut b, 0x0001_0000);
    put16(&mut b, 0);
    put16(&mut b, 0);
    put16(&mut b, 0);
    put16(&mut b, 0);
    let d = FontDirectory::parse(&b).unwrap();
    assert!(d.records.is_empty());
    assert_eq!(d.lookup(b"cmap").map(|r| r.offset), None);
    assert!(!d.header.search_fields_consistent());
}

#[test]
fn lookup_takes_the_first_duplicate() {
    let mut b = Vec::new();
    font_header(&mut b, 3, 32, 1);
    table_record(&mut b, b"name", 1, 0, 0);
    table_record(&mut b, b"cmap", 2, 0, 0);
    table_record(&mut b, b"cmap", 3, 0, 0);
    let d = FontDirectory::parse(&b).unwrap();
    assert_eq!(d.lookup(b"cmap").map(|r| r.checksum), Some(2));
    assert_eq!(d.lookup(b"name").map(|r| r.checksum), Some(1));
    assert!(d.lookup(b"glyf").is_none());
    assert!(d.lookup(b"cmaq").is_none());
}

#[test]
fn search_fields() {
    let h = |n: u16, sr: u16, es: u16| FontHeader {
        sfnt_version: 0x0001_0000,
        num_tables: n,
        search_range: sr,
        entry_selector: es,
        range_shift: 0,
    };
    assert!(h(1, 16, 0).search_fields_consistent());
    assert!(h(7, 64, 2).search_fields_consistent());
    assert!(h(8, 128, 3).search_fields_consistent());
    assert!(!h(65535, 0, 15).search_fields_consistent());
    assert!(!h(8, 64, 2).search_fields_consistent());
    assert!(!h(7, 128, 3).search_fields_consistent());
    assert!(!h(7, 64, 3).search_fields_consistent());
    assert!(!h(7, 64, 40).search_fields_consistent());
    assert!(!h(4096, 65535, 12).search_fields_consistent());
}

#[test]
fn record_checks() {
    let r = |tag: [u8; 4], offset: u32, length: u32| TableRecord { tag, checksum: 0, offset, length };
    assert_eq!(r(*b"cmap", 10, 20).check(30), Ok(()));
    assert_eq!(r(*b"cmap", 10, 21).check(30), Err(FontError::Truncated));
    assert_eq!(r(*b"OS/2", 0, 0).check(0), Ok(()));
    assert_eq!(r([b'c', 0, b'a', b'p'], 0, 0).check(30), Err(FontError::InvalidFormat));
    assert_eq!(r([b'c', b'm', b'a', 0x7f], 0, 0).check(30), Err(FontError::InvalidFormat));
    assert_eq!(r([0x80, b'm', b'a', b'p'], 0, 99).check(30), Err(FontError::InvalidFormat));
    assert_eq!(r(*b"cmap", u32::MAX, u32::MAX).check(usize::MAX), Ok(()));
    assert!(r(*b"cmap", 0, 0).tag_is_printable());
    assert!(!r([b'c', b'm', b'a', 0x1f], 0, 0).tag_is_printable());
}

#[test]
fn directory_keeps_a_record_with_a_bad_tag() {
    let mut b = Vec::new();
    font_header(&mut b, 2, 32, 1);
    table_record(&mut b, &[0, 1, 2, 3], 5, 0, 0);
    table_record(&mut b, b"cmap", 6, 0, 0);
    let d = FontDirectory::parse(&b).unwrap();
    assert_eq!(d.records.len(), 2);
    assert_eq!(d.records[0].tag, [0, 1, 2, 3]);
    assert_eq!(d.records[0].check(b.len()), Err(FontError::InvalidFormat));
    assert_eq!(d.records[1].check(b.len()), Ok(()));
}

#[test]
fn cmap_scenario() {
    let sub = format4(&[(0x0000, 0x007f, 0, 0), (0xffff, 0xffff, 1, 0)], &[]);
    let b = font_with_cmap(&sub);
    let d = FontDirectory::parse(&b).unwrap();
    let rec = d.lookup(b"cmap").unwrap();
    assert_eq!(rec.offset, 28);
    assert_eq!(rec.length, 44);
    let c = CmapTable::parse(&b, &rec).unwrap();
    assert_eq!(c.header.version, 0);
    assert_eq!(c.header.num_tables, 1);
    assert_eq!(c.entries.len(), 1);
    assert_eq!(c.entries[0].record.platform_id, 3);
    assert_eq!(c.entries[0].record.encoding_id, 1);
    assert_eq!(c.entries[0].record.subtable_offset, 12);
    let m = decoded(&c.entries[0].outcome);
    assert_eq!(m.lookup(0x41), 0x41);
    assert_eq!(m.lookup(0x80), 0);
    assert_eq!(m.lookup(0x00), 0x00);
    assert_eq!(m.lookup(0x7f), 0x7f);
    assert_eq!(m.lookup(0xffff), 0);
}

#[test]
fn format4_round_trip() {
    let sub = format4(&[(0x20, 0x7e, -29, 0), (0x100, 0x101, 0, 4), (0xffff, 0xffff, 1, 0)], &[9, 10]);
    let m = SegmentMapping::parse(&sub, 0).unwrap();
    assert_eq!(m.format, 4);
    assert_eq!(m.length as usize, sub.len());
    assert_eq!(m.seg_countx2, 6);
    assert_eq!(m.end_codes, vec![0x7e, 0x101, 0xffff]);
    assert_eq!(m.reserved_pad, 0);
    assert_eq!(m.start_codes, vec![0x20, 0x100, 0xffff]);
    assert_eq!(m.id_deltas, vec![-29, 0, 1]);
    assert_eq!(m.id_range_offsets, vec![0, 4, 0]);
    assert_eq!(m.glyph_area, vec![0, 0, 0, 4, 0, 0, 0, 9, 0, 10]);
}

#[test]
fn id_delta_wraps() {
    let m = SegmentMapping::parse(&format4(&[(0xfffe, 0xffff, 2, 0)], &[]), 0).unwrap();
    assert_eq!(m.lookup(0xfffe), 0x0000);
    assert_eq!(m.lookup(0xffff), 0x0001);
    let m = SegmentMapping::parse(&format4(&[(0, 0xffff, -1, 0)], &[]), 0).unwrap();
    assert_eq!(m.lookup(0), 0xffff);
    assert_eq!(m.lookup(5), 4);
}

#[test]
fn id_range_offset_reads_the_glyph_array() {
    // Segment 1 (index 1 of 3) has idRangeOffset 4: its entry sits 4 bytes
    // past its own slot, that is at the glyph array's first word.
    let sub = format4(
        &[(0x20, 0x7e, -29, 0), (0x100, 0x102, 5, 4), (0xffff, 0xffff, 1, 0)],
        &[9, 0, 0xfffe],
    );
    let m = SegmentMapping::parse(&sub, 0).unwrap();
    assert_eq!(m.lookup(0x41), 0x41 - 29);
    assert_eq!(m.lookup(0x100), 14);
    assert_eq!(m.lookup(0x101), 0);
    assert_eq!(m.lookup(0x102), 3);
    assert_eq!(m.lookup(0xff), 0);
    assert_eq!(m.lookup(0x1f), 0);
}

#[test]
fn id_range_offset_past_the_table_gives_notdef() {
    let m = SegmentMapping::parse(&format4(&[(0x10, 0x20, 0, 200), (0xffff, 0xffff, 1, 0)], &[]), 0)
        .unwrap();
    assert_eq!(m.lookup(0x10), 0);
    assert_eq!(m.lookup(0x20), 0);
}

#[test]
fn lookup_answers_every_code_point() {
    let sub = format4(
        &[(0x20, 0x7e, -29, 0), (0x100, 0x102, 5, 4), (0xffff, 0xffff, 1, 0)],
        &[9, 0, 0xfffe],
    );
    let m = SegmentMapping::parse(&sub, 0).unwrap();
    let mut mapped = 0u32;
    for c in 0..=0xffffu16 {
        if m.lookup(c) != 0 {
            mapped += 1;
        }
    }
    assert_eq!(mapped, 95 + 2);
    let empty = SegmentMapping::parse(&format4(&[], &[]), 0).unwrap();
    assert_eq!(empty.lookup(0x41), 0);
}

#[test]
fn format4_errors() {
    let mut odd = format4(&[(0, 0xffff, 0, 0)], &[]);
    odd[7] = 3;
    assert_eq!(SegmentMapping::parse(&odd, 0).unwrap_err(), FontError::InvalidFormat);
    let mut long = format4(&[(0, 0xffff, 0, 0)], &[]);
    long[3] += 1;
    assert_eq!(SegmentMapping::parse(&long, 0).unwrap_err(), FontError::Truncated);
    let mut short = format4(&[(0, 0xffff, 0, 0)], &[]);
    short[3] -= 2;
    assert_eq!(SegmentMapping::parse(&short, 0).unwrap_err(), FontError::Truncated);
    let sub = format4(&[(0, 0xffff, 0, 0)], &[]);
    assert_eq!(SegmentMapping::parse(&sub[..13], 0).unwrap_err(), FontError::OutOfBounds);
    let mut six = sub.clone();
    six[1] = 6;
    assert_eq!(SegmentMapping::parse(&six, 0).unwrap_err(), FontError::InvalidFormat);
}

#[test]
fn cmap_length_past_the_buffer_is_truncated() {
    let sub = format4(&[(0xffff, 0xffff, 1, 0)], &[]);
    let b = font_with_cmap(&sub);
    let d = FontDirectory::parse(&b).unwrap();
    let mut rec = d.lookup(b"cmap").unwrap();
    rec.length += 1;
    assert_eq!(CmapTable::parse(&b, &rec).unwrap_err(), FontError::Truncated);
    rec.length = 3;
    assert_eq!(CmapTable::parse(&b, &rec).unwrap_err(), FontError::OutOfBounds);
    rec.length = 11;
    assert_eq!(CmapTable::parse(&b, &rec).unwrap_err(), FontError::Truncated);
    rec.length = 12;
    let c = CmapTable::parse(&b, &rec).unwrap();
    assert!(matches!(c.entries[0].outcome, SubtableOutcome::Failed(FontError::OutOfBounds)));
}

#[test]
fn subtables_are_dispatched_and_isolated() {
    // Four encoding records: a format 6, an unknown format 7, a broken
    // format 4 and a good format 4.
    let good = format4(&[(0, 0x7f, 1, 0), (0xffff, 0xffff, 1, 0)], &[]);
    let mut broken = good.clone();
    broken[7] = 5;
    let mut body = Vec::new();
    let base = 4 + 8 * 4;
    let offsets = [base, base + 2, base + 4, base + 4 + broken.len() as u32];
    put16(&mut body, 0);
    put16(&mut body, 4);
    for o in offsets {
        put16(&mut body, 3);
        put16(&mut body, 1);
        put32(&mut body, o);
    }
    put16(&mut body, 6);
    put16(&mut body, 7);
    body.extend_from_slice(&broken);
    body.extend_from_slice(&good);
    let mut b = Vec::new();
    font_header(&mut b, 1, 16, 0);
    table_record(&mut b, b"cmap", 0, 28, body.len() as u32);
    b.extend_from_slice(&body);
    let d = FontDirectory::parse(&b).unwrap();
    let c = CmapTable::parse(&b, &d.records[0]).unwrap();
    assert_eq!(c.entries.len(), 4);
    assert!(matches!(c.entries[0].outcome, SubtableOutcome::Unsupported(6)));
    assert!(matches!(c.entries[1].outcome, SubtableOutcome::Failed(FontError::InvalidFormat)));
    assert!(matches!(c.entries[2].outcome, SubtableOutcome::Failed(FontError::InvalidFormat)));
    let m = decoded(&c.entries[3].outcome);
    assert_eq!(m.lookup(0x41), 0x42);
}

#[test]
fn known_formats_are_unsupported() {
    for f in [0u16, 2, 6, 8, 10, 12, 13, 14] {
        let b = f.to_be_bytes();
        assert!(matches!(decode_subtable(&b, 0), SubtableOutcome::Unsupported(g) if g == f));
    }
    for f in [1u16, 3, 5, 7, 9, 11, 15, 0xffff] {
        let b = f.to_be_bytes();
        assert!(matches!(decode_subtable(&b, 0), SubtableOutcome::Failed(FontError::InvalidFormat)));
    }
    assert!(matches!(decode_subtable(&[0], 0), SubtableOutcome::Failed(FontError::OutOfBounds)));
    assert!(matches!(decode_subtable(&[0, 6], 1), SubtableOutcome::Failed(FontError::OutOfBounds)));
}

#[test]
fn structural_validity() {
    let good = SegmentMapping::parse(&format4(&[(0, 0x7f, 0, 0), (0xffff, 0xffff, 1, 0)], &[]), 0).unwrap();
    assert!(good.is_structurally_valid());
    let no_sentinel = SegmentMapping::parse(&format4(&[(0, 0x7f, 0, 0)], &[]), 0).unwrap();
    assert!(!no_sentinel.is_structurally_valid());
    assert_eq!(no_sentinel.lookup(0x80), 0);
    let unsorted =
        SegmentMapping::parse(&format4(&[(0x50, 0x7f, 0, 0), (0x10, 0xffff, 1, 0)], &[]), 0).unwrap();
    assert!(!unsorted.is_structurally_valid());
    let equal_starts =
        SegmentMapping::parse(&format4(&[(0x10, 0x7f, 0, 0), (0x10, 0xffff, 1, 0)], &[]), 0).unwrap();
    assert!(equal_starts.is_structurally_valid());
    let empty = SegmentMapping::parse(&format4(&[], &[]), 0).unwrap();
    assert!(!empty.is_structurally_valid());
}

#[test]
fn subtable_at_an_offset_inside_a_larger_buffer() {
    let mut b = vec![0xaa; 5];
    b.extend_from_slice(&format4(&[(0x30, 0x39, -0x30, 0), (0xffff, 0xffff, 1, 0)], &[]));
    b.extend_from_slice(&[0xbb; 3]);
    let m = SegmentMapping::parse(&b, 5).unwrap();
    assert_eq!(m.end_codes, vec![0x39, 0xffff]);
    assert_eq!(m.lookup(0x35), 5);
    assert_eq!(m.glyph_area.len(), 4);
}
