use vstd::prelude::*;
use vstd::slice::slice_subrange;
use byteorder::{BigEndian, ByteOrder};
use crate::error::FontError;

verus! {

/// The big-endian 16-bit integer held by `s[at]` and `s[at + 1]`.
pub open spec fn be16(s: Seq<u8>, at: int) -> int {
    s[at] as int * 256 + s[at + 1] as int
}

/// The big-endian 32-bit integer held by `s[at..at + 4]`.
pub open spec fn be32(s: Seq<u8>, at: int) -> int {
    be16(s, at) * 65536 + be16(s, at + 2)
}

/// The two's-complement reading of a 16-bit pattern.
pub open spec fn signed16(v: int) -> int {
    if v >= 32768 { v - 65536 } else { v }
}

/// Whether `size` bytes starting at `at` lie inside a buffer of `len` bytes.
pub open spec fn fits(len: int, at: int, size: int) -> bool {
    0 <= at && at + size <= len
}

/// The two big-endian bytes that store `v`.
pub open spec fn u16_bytes(v: int) -> Seq<u8> {
    seq![(v / 256) as u8, (v % 256) as u8]
}

/// The four big-endian bytes that store `v`.
pub open spec fn u32_bytes(v: int) -> Seq<u8> {
    u16_bytes(v / 65536) + u16_bytes(v % 65536)
}

/// Two bytes written as `u16_bytes(v)` read back as `v`.
pub proof fn lemma_be16_of_bytes(s: Seq<u8>, at: int, v: int)
    requires
        0 <= v < 65536,
        0 <= at,
        at + 2 <= s.len(),
        s.subrange(at, at + 2) == u16_bytes(v),
    ensures
        be16(s, at) == v,
{
    assert(s[at] == s.subrange(at, at + 2)[0]);
    assert(s[at + 1] == s.subrange(at, at + 2)[1]);
}

/// Four bytes written as `u32_bytes(v)` read back as `v`.
pub proof fn lemma_be32_of_bytes(s: Seq<u8>, at: int, v: int)
    requires
        0 <= v < 0x1_0000_0000,
        0 <= at,
        at + 4 <= s.len(),
        s.subrange(at, at + 4) == u32_bytes(v),
    ensures
        be32(s, at) == v,
{
    assert(s.subrange(at, at + 2) =~= s.subrange(at, at + 4).subrange(0, 2));
    assert(s.subrange(at + 2, at + 4) =~= s.subrange(at, at + 4).subrange(2, 4));
    assert(u32_bytes(v).subrange(0, 2) =~= u16_bytes(v / 65536));
    assert(u32_bytes(v).subrange(2, 4) =~= u16_bytes(v % 65536));
    lemma_be16_of_bytes(s, at, v / 65536);
    lemma_be16_of_bytes(s, at + 2, v % 65536);
}

/// A piece of bytes written at `at` is found again, at its place, in `s`.
pub proof fn lemma_written_piece(s: Seq<u8>, at: int, whole: Seq<u8>, k: int, n: int)
    requires
        0 <= at,
        at + whole.len() <= s.len(),
        s.subrange(at, at + whole.len()) == whole,
        0 <= k,
        0 <= n,
        k + n <= whole.len(),
    ensures
        s.subrange(at + k, at + k + n) == whole.subrange(k, k + n),
{
    assert(s.subrange(at + k, at + k + n) =~= whole.subrange(k, k + n)) by {
        assert forall|i: int| 0 <= i < n implies s[at + k + i] == #[trigger] whole[k + i] by {
            assert(s.subrange(at, at + whole.len())[k + i] == s[at + k + i]);
        }
    }
}

/// The big-endian bytes that store the 16-bit values `vs`, one after another.
pub open spec fn u16s_bytes(vs: Seq<int>) -> Seq<u8>
    decreases vs.len(),
{
    if vs.len() == 0 {
        Seq::empty()
    } else {
        u16s_bytes(vs.drop_last()) + u16_bytes(vs.last())
    }
}

/// `u16s_bytes(vs)` takes two bytes per value, each pair storing its value.
pub proof fn lemma_u16s_bytes(vs: Seq<int>)
    ensures
        u16s_bytes(vs).len() == 2 * vs.len(),
        forall|i: int|
            0 <= i < vs.len() ==> u16s_bytes(vs).subrange(2 * i, 2 * i + 2) == u16_bytes(
                #[trigger] vs[i],
            ),
    decreases vs.len(),
{
    if vs.len() > 0 {
        let p = vs.drop_last();
        lemma_u16s_bytes(p);
        let b = u16s_bytes(vs);
        assert forall|i: int| 0 <= i < vs.len() implies b.subrange(2 * i, 2 * i + 2) == u16_bytes(
            #[trigger] vs[i],
        ) by {
            if i < p.len() {
                assert(p[i] == vs[i]);
                assert(b.subrange(2 * i, 2 * i + 2) =~= u16s_bytes(p).subrange(2 * i, 2 * i + 2));
            } else {
                assert(b.subrange(2 * i, 2 * i + 2) =~= u16_bytes(vs.last()));
            }
        }
    }
}

/// Values written as `u16s_bytes(vs)` at `at + k`, as part of `whole`
/// written at `at`, read back one by one.
pub proof fn lemma_u16s_read_back(s: Seq<u8>, at: int, whole: Seq<u8>, k: int, vs: Seq<int>)
    requires
        0 <= at,
        at + whole.len() <= s.len(),
        s.subrange(at, at + whole.len()) == whole,
        0 <= k,
        k + 2 * vs.len() <= whole.len(),
        whole.subrange(k, k + 2 * vs.len()) == u16s_bytes(vs),
        forall|i: int| 0 <= i < vs.len() ==> 0 <= #[trigger] vs[i] < 65536,
    ensures
        forall|i: int| 0 <= i < vs.len() ==> be16(s, at + k + 2 * i) == #[trigger] vs[i],
{
    lemma_u16s_bytes(vs);
    lemma_written_piece(s, at, whole, k, 2 * vs.len() as int);
    let piece = s.subrange(at + k, at + k + 2 * vs.len());
    assert forall|i: int| 0 <= i < vs.len() implies be16(s, at + k + 2 * i) == #[trigger] vs[i] by {
        lemma_written_piece(s, at + k, piece, 2 * i, 2);
        assert(s.subrange(at + k, at + k + piece.len()) == piece);
        lemma_be16_of_bytes(s, at + k + 2 * i, vs[i]);
    }
}

/// Relies on byteorder's `BigEndian::read_u16`: the first two bytes, big-endian.
/// It panics on fewer than two bytes.
#[verifier::external_body]
fn decode_u16(b: &[u8]) -> (r: u16)
    requires
        b@.len() >= 2,
    ensures
        r as int == be16(b@, 0),
{
    BigEndian::read_u16(b)
}

/// Relies on byteorder's `BigEndian::read_u32`: the first four bytes, big-endian.
/// It panics on fewer than four bytes.
#[verifier::external_body]
fn decode_u32(b: &[u8]) -> (r: u32)
    requires
        b@.len() >= 4,
    ensures
        r as int == be32(b@, 0),
{
    BigEndian::read_u32(b)
}

/// Relies on byteorder's `BigEndian::read_i16`: the first two bytes, big-endian,
/// as a two's-complement integer. It panics on fewer than two bytes.
#[verifier::external_body]
fn decode_i16(b: &[u8]) -> (r: i16)
    requires
        b@.len() >= 2,
    ensures
        r as int == signed16(be16(b@, 0)),
{
    BigEndian::read_i16(b)
}

/// The offset `byte_offset + index * size` of the `index`-th record, when it
/// fits in a `u64`.
fn record_offset(byte_offset: u64, index: u64, size: u64) -> (r: Option<u64>)
    ensures
        match r {
            Some(o) => o as int == byte_offset + index * size,
            None => byte_offset + index * size > u64::MAX,
        },
{
    match index.checked_mul(size) {
        Some(m) => byte_offset.checked_add(m),
        None => {
            assert(index * size >= 0) by (nonlinear_arith);
            None
        },
    }
}

/// The big-endian `u16` at `at`, which the caller has shown to be in bounds.
pub fn u16_at(buf: &[u8], at: u64) -> (r: u16)
    requires
        fits(buf@.len() as int, at as int, 2),
    ensures
        r as int == be16(buf@, at as int),
{
    let n = buf.len();
    assert(at + 2 <= n);
    let s = slice_subrange(buf, at as usize, at as usize + 2);
    assert(s@[0] == buf@[at as int] && s@[1] == buf@[at + 1]);
    decode_u16(s)
}

/// The big-endian `u32` at `at`, which the caller has shown to be in bounds.
pub fn u32_at(buf: &[u8], at: u64) -> (r: u32)
    requires
        fits(buf@.len() as int, at as int, 4),
    ensures
        r as int == be32(buf@, at as int),
{
    let n = buf.len();
    assert(at + 4 <= n);
    let s = slice_subrange(buf, at as usize, at as usize + 4);
    assert(s@[0] == buf@[at as int] && s@[1] == buf@[at + 1]);
    assert(s@[2] == buf@[at + 2] && s@[3] == buf@[at + 3]);
    decode_u32(s)
}

/// The big-endian `i16` at `at`, which the caller has shown to be in bounds.
pub fn i16_at(buf: &[u8], at: u64) -> (r: i16)
    requires
        fits(buf@.len() as int, at as int, 2),
    ensures
        r as int == signed16(be16(buf@, at as int)),
{
    let n = buf.len();
    assert(at + 2 <= n);
    let s = slice_subrange(buf, at as usize, at as usize + 2);
    assert(s@[0] == buf@[at as int] && s@[1] == buf@[at + 1]);
    decode_i16(s)
}

/// Where a record of `size` bytes at `index` of an array at `byte_offset`
/// starts, when the whole record lies inside `buf`.
fn checked_record(buf: &[u8], byte_offset: u64, index: u64, size: u64) -> (r: Option<u64>)
    requires
        size <= 16,
    ensures
        match r {
            Some(o) => o as int == byte_offset + index * size && fits(
                buf@.len() as int,
                o as int,
                size as int,
            ),
            None => !fits(buf@.len() as int, byte_offset + index * size, size as int),
        },
{
    let n = buf.len();
    match record_offset(byte_offset, index, size) {
        Some(o) => {
            if o <= n as u64 && n as u64 - o >= size {
                Some(o)
            } else {
                None
            }
        },
        None => {
            assert(n as int <= u64::MAX);
            None
        },
    }
}

/// Reads the `index`-th big-endian `u16` of an array that starts at
/// `byte_offset`.
pub fn view_u16(buf: &[u8], byte_offset: u64, index: u64) -> (r: Result<u16, FontError>)
    ensures
        match r {
            Ok(v) => fits(buf@.len() as int, byte_offset + index * 2, 2) && v as int == be16(
                buf@,
                byte_offset + index * 2,
            ),
            Err(e) => e == FontError::OutOfBounds && !fits(
                buf@.len() as int,
                byte_offset + index * 2,
                2,
            ),
        },
{
    match checked_record(buf, byte_offset, index, 2) {
        Some(o) => Ok(u16_at(buf, o)),
        None => Err(FontError::OutOfBounds),
    }
}

/// Reads the `index`-th big-endian `u32` of an array that starts at
/// `byte_offset`.
pub fn view_u32(buf: &[u8], byte_offset: u64, index: u64) -> (r: Result<u32, FontError>)
    ensures
        match r {
            Ok(v) => fits(buf@.len() as int, byte_offset + index * 4, 4) && v as int == be32(
                buf@,
                byte_offset + index * 4,
            ),
            Err(e) => e == FontError::OutOfBounds && !fits(
                buf@.len() as int,
                byte_offset + index * 4,
                4,
            ),
        },
{
    match checked_record(buf, byte_offset, index, 4) {
        Some(o) => Ok(u32_at(buf, o)),
        None => Err(FontError::OutOfBounds),
    }
}

/// Reads the `index`-th big-endian `i16` of an array that starts at
/// `byte_offset`.
pub fn view_i16(buf: &[u8], byte_offset: u64, index: u64) -> (r: Result<i16, FontError>)
    ensures
        match r {
            Ok(v) => fits(buf@.len() as int, byte_offset + index * 2, 2) && v as int == signed16(
                be16(buf@, byte_offset + index * 2),
            ),
            Err(e) => e == FontError::OutOfBounds && !fits(
                buf@.len() as int,
                byte_offset + index * 2,
                2,
            ),
        },
{
    match checked_record(buf, byte_offset, index, 2) {
        Some(o) => Ok(i16_at(buf, o)),
        None => Err(FontError::OutOfBounds),
    }
}

/// The `n` big-endian `u16` values stored one after another from `at`.
pub fn u16_array(buf: &[u8], at: u64, n: u64) -> (r: Vec<u16>)
    requires
        fits(buf@.len() as int, at as int, 2 * n),
    ensures
        r@.len() == n,
        forall|i: int| 0 <= i < n ==> #[trigger] r@[i] as int == be16(buf@, at + 2 * i),
{
    let len = buf.len();
    assert(len as int <= u64::MAX);
    let mut r: Vec<u16> = Vec::new();
    let mut i: u64 = 0;
    while i < n
        invariant
            i <= n,
            buf@.len() <= u64::MAX,
            fits(buf@.len() as int, at as int, 2 * n),
            r@.len() == i,
            forall|j: int| 0 <= j < i ==> #[trigger] r@[j] as int == be16(buf@, at + 2 * j),
        decreases n - i,
    {
        r.push(u16_at(buf, at + 2 * i));
        i = i + 1;
    }
    r
}

/// The `n` big-endian `i16` values stored one after another from `at`.
pub fn i16_array(buf: &[u8], at: u64, n: u64) -> (r: Vec<i16>)
    requires
        fits(buf@.len() as int, at as int, 2 * n),
    ensures
        r@.len() == n,
        forall|i: int|
            0 <= i < n ==> #[trigger] r@[i] as int == signed16(be16(buf@, at + 2 * i)),
{
    let len = buf.len();
    assert(len as int <= u64::MAX);
    let mut r: Vec<i16> = Vec::new();
    let mut i: u64 = 0;
    while i < n
        invariant
            i <= n,
            buf@.len() <= u64::MAX,
            fits(buf@.len() as int, at as int, 2 * n),
            r@.len() == i,
            forall|j: int|
                0 <= j < i ==> #[trigger] r@[j] as int == signed16(be16(buf@, at + 2 * j)),
        decreases n - i,
    {
        r.push(i16_at(buf, at + 2 * i));
        i = i + 1;
    }
    r
}

/// Copies the four raw bytes at `byte_offset` (a table tag), without decoding
/// them.
pub fn view_tag(buf: &[u8], byte_offset: u64) -> (r: Result<[u8; 4], FontError>)
    ensures
        match r {
            Ok(t) => fits(buf@.len() as int, byte_offset as int, 4) && t@ == buf@.subrange(
                byte_offset as int,
                byte_offset + 4,
            ),
            Err(e) => e == FontError::OutOfBounds && !fits(
                buf@.len() as int,
                byte_offset as int,
                4,
            ),
        },
{
    if byte_offset <= buf.len() as u64 && buf.len() as u64 - byte_offset >= 4 {
        let o = byte_offset as usize;
        let t: [u8; 4] = [buf[o], buf[o + 1], buf[o + 2], buf[o + 3]];
        assert(t@ =~= buf@.subrange(byte_offset as int, byte_offset + 4));
        Ok(t)
    } else {
        Err(FontError::OutOfBounds)
    }
}

} // verus!
