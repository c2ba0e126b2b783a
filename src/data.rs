use vstd::prelude::*;
use byteorder::{BigEndian, ByteOrder, LittleEndian};

use crate::bsa::{
    records_of, select, ArchiveFlags, BsaError, CompressedFileBlock, FileRecord, FileRecordBlock,
    FolderRecord, Header, UncompressedFileBlock, BSA,
};

verus! {

// ---------------------------------------------------------------- integers
/// Four bytes at `pos`, least significant first.
pub open spec fn u32_le_at(d: Seq<u8>, pos: int) -> u32 {
    (d[pos] as u32) | ((d[pos + 1] as u32) << 8u32) | ((d[pos + 2] as u32) << 16u32) | ((d[pos
        + 3] as u32) << 24u32)
}

/// Four bytes at `pos`, most significant first.
pub open spec fn u32_be_at(d: Seq<u8>, pos: int) -> u32 {
    (d[pos + 3] as u32) | ((d[pos + 2] as u32) << 8u32) | ((d[pos + 1] as u32) << 16u32) | ((
    d[pos] as u32) << 24u32)
}

/// Eight bytes at `pos`, least significant first.
pub open spec fn u64_le_at(d: Seq<u8>, pos: int) -> u64 {
    (u32_le_at(d, pos) as u64) | ((u32_le_at(d, pos + 4) as u64) << 32u64)
}

/// Eight bytes at `pos`, most significant first.
pub open spec fn u64_be_at(d: Seq<u8>, pos: int) -> u64 {
    (u32_be_at(d, pos + 4) as u64) | ((u32_be_at(d, pos) as u64) << 32u64)
}

/// A 32-bit integer at `pos` in the archive's byte order.
pub open spec fn u32_at(d: Seq<u8>, pos: int, big_endian: bool) -> u32 {
    if big_endian {
        u32_be_at(d, pos)
    } else {
        u32_le_at(d, pos)
    }
}

/// A 64-bit integer at `pos` in the archive's byte order.
pub open spec fn u64_at(d: Seq<u8>, pos: int, big_endian: bool) -> u64 {
    if big_endian {
        u64_be_at(d, pos)
    } else {
        u64_le_at(d, pos)
    }
}

/// Relies on byteorder's `LittleEndian::read_u32`: the first four bytes, least significant first.
#[verifier::external_body]
fn read_u32_le(d: &[u8], pos: usize) -> (r: u32)
    requires
        pos + 4 <= d@.len(),
    ensures
        r == u32_le_at(d@, pos as int),
{
    LittleEndian::read_u32(&d[pos..])
}

/// Relies on byteorder's `BigEndian::read_u32`: the first four bytes, most significant first.
#[verifier::external_body]
fn read_u32_be(d: &[u8], pos: usize) -> (r: u32)
    requires
        pos + 4 <= d@.len(),
    ensures
        r == u32_be_at(d@, pos as int),
{
    BigEndian::read_u32(&d[pos..])
}

/// Relies on byteorder's `LittleEndian::read_u64`: the first eight bytes, least significant first.
#[verifier::external_body]
fn read_u64_le(d: &[u8], pos: usize) -> (r: u64)
    requires
        pos + 8 <= d@.len(),
    ensures
        r == u64_le_at(d@, pos as int),
{
    LittleEndian::read_u64(&d[pos..])
}

/// Relies on byteorder's `BigEndian::read_u64`: the first eight bytes, most significant first.
#[verifier::external_body]
fn read_u64_be(d: &[u8], pos: usize) -> (r: u64)
    requires
        pos + 8 <= d@.len(),
    ensures
        r == u64_be_at(d@, pos as int),
{
    BigEndian::read_u64(&d[pos..])
}

fn u32_at_exec(d: &[u8], pos: usize, big_endian: bool) -> (r: u32)
    requires
        pos + 4 <= d@.len(),
    ensures
        r == u32_at(d@, pos as int, big_endian),
{
    if big_endian {
        read_u32_be(d, pos)
    } else {
        read_u32_le(d, pos)
    }
}

fn u64_at_exec(d: &[u8], pos: usize, big_endian: bool) -> (r: u64)
    requires
        pos + 8 <= d@.len(),
    ensures
        r == u64_at(d@, pos as int, big_endian),
{
    if big_endian {
        read_u64_be(d, pos)
    } else {
        read_u64_le(d, pos)
    }
}

/// Reads a 32-bit integer from the start of `data`; `None` when fewer than four bytes remain.
pub fn ulong(data: &[u8], big_endian: bool) -> (r: Option<u32>)
    ensures
        r == (if data@.len() >= 4 {
            Some(u32_at(data@, 0, big_endian))
        } else {
            None
        }),
{
    if data.len() >= 4 {
        Some(u32_at_exec(data, 0, big_endian))
    } else {
        None
    }
}

/// Reads a 64-bit hash from the start of `data`; `None` when fewer than eight bytes remain.
pub fn hash(data: &[u8], big_endian: bool) -> (r: Option<u64>)
    ensures
        r == (if data@.len() >= 8 {
            Some(u64_at(data@, 0, big_endian))
        } else {
            None
        }),
{
    if data.len() >= 8 {
        Some(u64_at_exec(data, 0, big_endian))
    } else {
        None
    }
}


// ---------------------------------------------------------------- strings
/// The characters that `String::from_utf8` gives for `b`, or `None` where `b` is not UTF-8.
pub uninterp spec fn utf8_of(b: Seq<u8>) -> Option<Seq<char>>;

/// Relies on `String::from_utf8`: whether the bytes `d[start..end]` are UTF-8, and the string they
/// spell, depend on those bytes alone.
#[verifier::external_body]
fn decode_utf8(d: &[u8], start: usize, end: usize) -> (r: Option<String>)
    requires
        start <= end <= d@.len(),
    ensures
        match r {
            Some(s) => utf8_of(d@.subrange(start as int, end as int)) == Some(s@),
            None => utf8_of(d@.subrange(start as int, end as int)) is None,
        },
{
    String::from_utf8(d[start..end].to_vec()).ok()
}

/// The result of a string decoder as values: the characters and the bytes consumed.
pub open spec fn decoded(r: Option<(String, usize)>) -> Option<(Seq<char>, int)> {
    match r {
        Some((s, n)) => Some((s@, n as int)),
        None => None,
    }
}

/// A decoded value paired with the bytes its encoding took.
pub open spec fn with_consumed(v: Option<Seq<char>>, n: int) -> Option<(Seq<char>, int)> {
    match v {
        Some(s) => Some((s, n)),
        None => None,
    }
}

/// A string whose first byte `L` counts itself's payload and a trailing NUL: the value is the
/// `L - 1` bytes after the length byte, and `L + 1` bytes are consumed.
pub open spec fn bzstring_at(d: Seq<u8>, pos: int) -> Option<(Seq<char>, int)> {
    if 0 <= pos < d.len() && d[pos] >= 1 && pos + d[pos] + 1 <= d.len() {
        with_consumed(utf8_of(d.subrange(pos + 1, pos + d[pos])), d[pos] + 1)
    } else {
        None
    }
}

/// A string whose first byte `L` is its length: the value is the `L` bytes after it, and `L + 1`
/// bytes are consumed.
pub open spec fn bstring_at(d: Seq<u8>, pos: int) -> Option<(Seq<char>, int)> {
    if 0 <= pos < d.len() && pos + d[pos] + 1 <= d.len() {
        with_consumed(utf8_of(d.subrange(pos + 1, pos + d[pos] + 1)), d[pos] + 1)
    } else {
        None
    }
}

/// The index of the first zero byte at or after `i`.
pub open spec fn nul_from(d: Seq<u8>, i: int) -> Option<int>
    decreases d.len() - i,
{
    if i < 0 || i >= d.len() {
        None
    } else if d[i] == 0 {
        Some(i)
    } else {
        nul_from(d, i + 1)
    }
}

/// A NUL-terminated string: the value is the bytes before the first zero byte, which is consumed
/// too.
pub open spec fn zstring_at(d: Seq<u8>, pos: int) -> Option<(Seq<char>, int)> {
    match nul_from(d, pos) {
        Some(n) => with_consumed(utf8_of(d.subrange(pos, n)), n - pos + 1),
        None => None,
    }
}

proof fn lemma_nul_from_bounds(d: Seq<u8>, i: int)
    ensures
        nul_from(d, i) matches Some(n) ==> i <= n < d.len() && d[n] == 0,
    decreases d.len() - i,
{
    if 0 <= i < d.len() && d[i] != 0 {
        lemma_nul_from_bounds(d, i + 1);
    }
}

fn read_bzstring(d: &[u8], pos: usize) -> (r: Option<(String, usize)>)
    ensures
        decoded(r) == bzstring_at(d@, pos as int),
        r matches Some((_, n)) ==> pos + n <= d@.len(),
{
    if pos < d.len() {
        let l = d[pos] as usize;
        if l >= 1 && l + 1 <= d.len() - pos {
            match decode_utf8(d, pos + 1, pos + l) {
                Some(s) => Some((s, l + 1)),
                None => None,
            }
        } else {
            None
        }
    } else {
        None
    }
}

fn read_bstring(d: &[u8], pos: usize) -> (r: Option<(String, usize)>)
    ensures
        decoded(r) == bstring_at(d@, pos as int),
        r matches Some((_, n)) ==> pos + n <= d@.len(),
{
    if pos < d.len() {
        let l = d[pos] as usize;
        if l + 1 <= d.len() - pos {
            match decode_utf8(d, pos + 1, pos + l + 1) {
                Some(s) => Some((s, l + 1)),
                None => None,
            }
        } else {
            None
        }
    } else {
        None
    }
}

/// Finds the terminating zero byte at or after `pos`.
fn find_nul(d: &[u8], pos: usize) -> (r: Option<usize>)
    ensures
        match r {
            Some(n) => nul_from(d@, pos as int) == Some(n as int),
            None => nul_from(d@, pos as int) is None,
        },
{
    let mut j: usize = pos;
    while j < d.len() && d[j] != 0
        invariant
            pos <= j,
            nul_from(d@, pos as int) == nul_from(d@, j as int),
        decreases d.len() - j,
    {
        j = j + 1;
    }
    if j < d.len() {
        Some(j)
    } else {
        None
    }
}

fn read_zstring(d: &[u8], pos: usize) -> (r: Option<(String, usize)>)
    ensures
        decoded(r) == zstring_at(d@, pos as int),
        r matches Some((_, n)) ==> pos + n <= d@.len(),
{
    match find_nul(d, pos) {
        Some(n) => {
            proof {
                lemma_nul_from_bounds(d@, pos as int);
            }
            let len = d.len();
            assert(pos <= n < len);
            match decode_utf8(d, pos, n) {
                Some(s) => Some((s, n - pos + 1)),
                None => None,
            }
        },
        None => None,
    }
}

/// Decodes a length-prefixed string whose length counts a trailing NUL.
pub fn bzstring(data: &[u8]) -> (r: Option<(String, usize)>)
    ensures
        decoded(r) == bzstring_at(data@, 0),
{
    read_bzstring(data, 0)
}

/// Decodes a length-prefixed string without terminator.
pub fn bstring(data: &[u8]) -> (r: Option<(String, usize)>)
    ensures
        decoded(r) == bstring_at(data@, 0),
{
    read_bstring(data, 0)
}

/// Decodes a NUL-terminated string.
pub fn zstring(data: &[u8]) -> (r: Option<(String, usize)>)
    ensures
        decoded(r) == zstring_at(data@, 0),
{
    read_zstring(data, 0)
}


// ---------------------------------------------------------------- header
/// The size of the fixed header, which it also declares of itself.
pub const HEADER_SIZE: u32 = 36;

/// The one supported format version.
pub const VERSION: u32 = 103;

/// The signature's bytes: "BSA" and a zero byte.
pub open spec fn is_magic(d: Seq<u8>) -> bool {
    d[0] == 0x42u8 && d[1] == 0x53u8 && d[2] == 0x41u8 && d[3] == 0u8
}

/// Why the header in `d` is refused, checked in this order; `None` when it is accepted.
pub open spec fn header_error(d: Seq<u8>) -> Option<BsaError> {
    if d.len() < 36 {
        Some(BsaError::TooSmall)
    } else if !is_magic(d) {
        Some(BsaError::BadMagic)
    } else if u32_le_at(d, 8) != HEADER_SIZE {
        Some(BsaError::UnsupportedHeaderSize)
    } else if u32_le_at(d, 4) != VERSION {
        Some(BsaError::UnsupportedVersion)
    } else {
        None
    }
}

/// `h` holds the header fields of `d`, all read little-endian whatever the archive flags say.
pub open spec fn header_matches(d: Seq<u8>, h: Header) -> bool {
    &&& h.file_id@ == seq!['B', 'S', 'A', '\0']
    &&& h.version == u32_le_at(d, 4)
    &&& h.offset == u32_le_at(d, 8)
    &&& h.archive_flags == u32_le_at(d, 12)
    &&& h.folder_count == u32_le_at(d, 16)
    &&& h.file_count == u32_le_at(d, 20)
    &&& h.total_folder_name_length == u32_le_at(d, 24)
    &&& h.total_file_name_length == u32_le_at(d, 28)
    &&& h.file_flags == u32_le_at(d, 32)
}

/// Decodes and validates the header at the start of `d`.
pub fn get_header(d: &[u8]) -> (r: Result<Header, BsaError>)
    ensures
        match r {
            Ok(h) => header_error(d@) is None && header_matches(d@, h),
            Err(e) => header_error(d@) == Some(e),
        },
{
    if d.len() < 36 {
        return Err(BsaError::TooSmall);
    }
    if !(d[0] == 0x42u8 && d[1] == 0x53u8 && d[2] == 0x41u8 && d[3] == 0u8) {
        return Err(BsaError::BadMagic);
    }
    let offset = read_u32_le(d, 8);
    if offset != HEADER_SIZE {
        return Err(BsaError::UnsupportedHeaderSize);
    }
    let version = read_u32_le(d, 4);
    if version != VERSION {
        return Err(BsaError::UnsupportedVersion);
    }
    let file_id: [char; 4] = ['B', 'S', 'A', '\0'];
    assert(file_id@ == seq!['B', 'S', 'A', '\0']);
    Ok(
        Header {
            file_id,
            version,
            offset,
            archive_flags: read_u32_le(d, 12),
            folder_count: read_u32_le(d, 16),
            file_count: read_u32_le(d, 20),
            total_folder_name_length: read_u32_le(d, 24),
            total_file_name_length: read_u32_le(d, 28),
            file_flags: read_u32_le(d, 32),
        },
    )
}


/// `x` as four bytes, least significant first.
pub open spec fn le_bytes(x: u32) -> Seq<u8> {
    seq![(x & 0xff) as u8, ((x >> 8u32) & 0xff) as u8, ((x >> 16u32) & 0xff) as u8, ((x >> 24u32)
        & 0xff) as u8]
}

/// The 36 bytes that encode `h`: the signature, then each field little-endian.
pub open spec fn header_bytes(h: Header) -> Seq<u8> {
    seq![0x42u8, 0x53u8, 0x41u8, 0u8] + le_bytes(h.version) + le_bytes(h.offset) + le_bytes(
        h.archive_flags,
    ) + le_bytes(h.folder_count) + le_bytes(h.file_count) + le_bytes(h.total_folder_name_length)
        + le_bytes(h.total_file_name_length) + le_bytes(h.file_flags)
}

/// A header that the decoder accepts: the signature, the fixed size and the supported version.
pub open spec fn valid_header(h: Header) -> bool {
    &&& h.file_id@ == seq!['B', 'S', 'A', '\0']
    &&& h.offset == HEADER_SIZE
    &&& h.version == VERSION
}

fn push_u32_le(v: &mut Vec<u8>, x: u32)
    ensures
        final(v)@ == old(v)@ + le_bytes(x),
{
    v.push((x & 0xff) as u8);
    v.push(((x >> 8u32) & 0xff) as u8);
    v.push(((x >> 16u32) & 0xff) as u8);
    v.push(((x >> 24u32) & 0xff) as u8);
    assert(v@ =~= old(v)@ + le_bytes(x));
}

/// Encodes a header as its 36 bytes; the signature is written whatever `file_id` holds.
pub fn serialize_header(h: &Header) -> (r: Vec<u8>)
    ensures
        r@ == header_bytes(*h),
{
    let mut v: Vec<u8> = Vec::new();
    v.push(0x42u8);
    v.push(0x53u8);
    v.push(0x41u8);
    v.push(0u8);
    assert(v@ =~= seq![0x42u8, 0x53u8, 0x41u8, 0u8]);
    push_u32_le(&mut v, h.version);
    push_u32_le(&mut v, h.offset);
    push_u32_le(&mut v, h.archive_flags);
    push_u32_le(&mut v, h.folder_count);
    push_u32_le(&mut v, h.file_count);
    push_u32_le(&mut v, h.total_folder_name_length);
    push_u32_le(&mut v, h.total_file_name_length);
    push_u32_le(&mut v, h.file_flags);
    v
}

proof fn lemma_le_bytes_read(x: u32)
    ensures
        u32_le_at(le_bytes(x), 0) == x,
{
    let b = le_bytes(x);
    assert(b[0] == (x & 0xff) as u8);
    assert(b[1] == ((x >> 8u32) & 0xff) as u8);
    assert(b[2] == ((x >> 16u32) & 0xff) as u8);
    assert(b[3] == ((x >> 24u32) & 0xff) as u8);
    assert((((x & 0xff) as u8) as u32) | (((((x >> 8u32) & 0xff) as u8) as u32) << 8u32) | (((((x
        >> 16u32) & 0xff) as u8) as u32) << 16u32) | (((((x >> 24u32) & 0xff) as u8) as u32)
        << 24u32) == x) by (bit_vector);
}

proof fn lemma_read_in_place(d: Seq<u8>, pos: int, x: u32)
    requires
        0 <= pos,
        pos + 4 <= d.len(),
        d.subrange(pos, pos + 4) == le_bytes(x),
    ensures
        u32_le_at(d, pos) == x,
{
    let b = le_bytes(x);
    lemma_le_bytes_read(x);
    assert(d[pos] == d.subrange(pos, pos + 4)[0]);
    assert(d[pos + 1] == d.subrange(pos, pos + 4)[1]);
    assert(d[pos + 2] == d.subrange(pos, pos + 4)[2]);
    assert(d[pos + 3] == d.subrange(pos, pos + 4)[3]);
}

/// Decoding the bytes that encode a valid header accepts them and gives back every field of
/// that header.
pub proof fn lemma_header_round_trip(h: Header)
    requires
        valid_header(h),
    ensures
        header_error(header_bytes(h)) is None,
        header_matches(header_bytes(h), h),
{
    let d = header_bytes(h);
    assert(d.len() == 36);
    assert(d.subrange(4, 8) =~= le_bytes(h.version));
    assert(d.subrange(8, 12) =~= le_bytes(h.offset));
    assert(d.subrange(12, 16) =~= le_bytes(h.archive_flags));
    assert(d.subrange(16, 20) =~= le_bytes(h.folder_count));
    assert(d.subrange(20, 24) =~= le_bytes(h.file_count));
    assert(d.subrange(24, 28) =~= le_bytes(h.total_folder_name_length));
    assert(d.subrange(28, 32) =~= le_bytes(h.total_file_name_length));
    assert(d.subrange(32, 36) =~= le_bytes(h.file_flags));
    lemma_read_in_place(d, 4, h.version);
    lemma_read_in_place(d, 8, h.offset);
    lemma_read_in_place(d, 12, h.archive_flags);
    lemma_read_in_place(d, 16, h.folder_count);
    lemma_read_in_place(d, 20, h.file_count);
    lemma_read_in_place(d, 24, h.total_folder_name_length);
    lemma_read_in_place(d, 28, h.total_file_name_length);
    lemma_read_in_place(d, 32, h.file_flags);
}


/// The bzstring encoding of the payload `p`: a length byte counting `p` and a NUL, `p`, the NUL.
pub open spec fn bzstring_bytes(p: Seq<u8>) -> Seq<u8> {
    seq![(p.len() + 1) as u8] + p + seq![0u8]
}

/// The bstring encoding of the payload `p`: a length byte, then `p`.
pub open spec fn bstring_bytes(p: Seq<u8>) -> Seq<u8> {
    seq![p.len() as u8] + p
}

/// The zstring encoding of the payload `p`: `p`, then a NUL.
pub open spec fn zstring_bytes(p: Seq<u8>) -> Seq<u8> {
    p + seq![0u8]
}

/// A bzstring decodes to the string its encoder was given, consuming all its bytes.
pub proof fn lemma_bzstring_round_trip(p: Seq<u8>, s: Seq<char>)
    requires
        p.len() <= 254,
        utf8_of(p) == Some(s),
    ensures
        bzstring_at(bzstring_bytes(p), 0) == Some((s, p.len() + 2 as int)),
{
    let d = bzstring_bytes(p);
    assert(d[0] == (p.len() + 1) as u8);
    assert(d.subrange(1, p.len() + 1 as int) =~= p);
}

/// A bstring decodes to the string its encoder was given, consuming all its bytes.
pub proof fn lemma_bstring_round_trip(p: Seq<u8>, s: Seq<char>)
    requires
        p.len() <= 255,
        utf8_of(p) == Some(s),
    ensures
        bstring_at(bstring_bytes(p), 0) == Some((s, p.len() + 1 as int)),
{
    let d = bstring_bytes(p);
    assert(d[0] == p.len() as u8);
    assert(d.subrange(1, p.len() + 1 as int) =~= p);
}

proof fn lemma_nul_after_nonzero(d: Seq<u8>, i: int, n: int)
    requires
        0 <= i <= n < d.len(),
        d[n] == 0,
        forall|j: int| i <= j < n ==> d[j] != 0,
    ensures
        nul_from(d, i) == Some(n),
    decreases n - i,
{
    if i < n {
        lemma_nul_after_nonzero(d, i + 1, n);
    }
}

/// A zstring of a payload without zero bytes decodes to the string its encoder was given,
/// consuming the payload and its terminator.
pub proof fn lemma_zstring_round_trip(p: Seq<u8>, s: Seq<char>)
    requires
        forall|j: int| 0 <= j < p.len() ==> p[j] != 0,
        utf8_of(p) == Some(s),
    ensures
        zstring_at(zstring_bytes(p), 0) == Some((s, p.len() + 1 as int)),
{
    let d = zstring_bytes(p);
    lemma_nul_after_nonzero(d, 0, p.len() as int);
    assert(d.subrange(0, p.len() as int) =~= p);
}

// ---------------------------------------------------------------- folder table
proof fn lemma_div_bound(room: int, n: int)
    requires
        0 <= n,
    ensures
        room >= 0 ==> (n <= room / 16 <==> 16 * n <= room),
{
    if room >= 0 {
        assert(n <= room / 16 ==> 16 * n <= room) by (nonlinear_arith)
            requires
                room >= 0,
                n >= 0,
        ;
        assert(16 * n <= room ==> n <= room / 16) by (nonlinear_arith)
            requires
                room >= 0,
                n >= 0,
        ;
    }
}

/// The folder record stored `i`-th in the table after the header.
pub open spec fn folder_record_at(d: Seq<u8>, i: int, big_endian: bool) -> FolderRecord {
    let s = 36 + 16 * i;
    FolderRecord {
        name_hash: u64_at(d, s, big_endian),
        count: u32_at(d, s + 8, big_endian),
        offset: u32_at(d, s + 12, big_endian),
    }
}

/// Decodes the `folder_count` folder records that follow the header.
pub fn get_folder_records(d: &[u8], folder_count: u32, big_endian: bool) -> (r: Result<
    Vec<FolderRecord>,
    BsaError,
>)
    ensures
        match r {
            Ok(v) => {
                &&& 36 + 16 * folder_count <= d@.len()
                &&& v@.len() == folder_count
                &&& forall|i: int|
                    0 <= i < folder_count ==> v@[i] == folder_record_at(d@, i, big_endian)
            },
            Err(e) => e == BsaError::TruncatedInput && 36 + 16 * folder_count > d@.len(),
        },
{
    let len = d.len();
    if len < 36 || (folder_count as usize) > (len - 36) / 16 {
        proof {
            lemma_div_bound(len as int - 36, folder_count as int);
        }
        return Err(BsaError::TruncatedInput);
    }
    proof {
        lemma_div_bound(len as int - 36, folder_count as int);
    }
    let mut folder_records: Vec<FolderRecord> = Vec::new();
    let mut i: u32 = 0;
    while i < folder_count
        invariant
            i <= folder_count,
            36 + 16 * folder_count <= len,
            len == d@.len(),
            folder_records@.len() == i,
            forall|k: int| 0 <= k < i ==> folder_records@[k] == folder_record_at(d@, k, big_endian),
        decreases folder_count - i,
    {
        let s = 36 + 16 * (i as usize);
        let name_hash = u64_at_exec(d, s, big_endian);
        let count = u32_at_exec(d, s + 8, big_endian);
        let offset = u32_at_exec(d, s + 12, big_endian);
        folder_records.push(FolderRecord { name_hash, count, offset });
        i = i + 1;
    }
    Ok(folder_records)
}


// ---------------------------------------------------------------- file record blocks
/// An optional string as its characters.
pub open spec fn opt_view(o: Option<String>) -> Option<Seq<char>> {
    match o {
        Some(s) => Some(s@),
        None => None,
    }
}

/// The file record stored at byte `pos`.
pub open spec fn file_record_at(d: Seq<u8>, pos: int, big_endian: bool) -> FileRecord {
    FileRecord {
        name_hash: u64_at(d, pos, big_endian),
        size: u32_at(d, pos + 8, big_endian),
        offset: u32_at(d, pos + 12, big_endian),
    }
}

/// A folder's name and the byte where its file records begin. The stored offset counts the
/// file-name table, which lies elsewhere, so its length is taken off first; with named
/// directories a bzstring name comes before the records.
pub open spec fn block_layout(
    d: Seq<u8>,
    f: FolderRecord,
    total_file_name_length: u32,
    named_directories: bool,
) -> Result<(Option<Seq<char>>, int), BsaError> {
    if f.offset < total_file_name_length {
        Err(BsaError::TruncatedInput)
    } else {
        let base = f.offset - total_file_name_length;
        if !named_directories {
            Ok((None, base))
        } else if base >= d.len() {
            Err(BsaError::TruncatedInput)
        } else {
            match bzstring_at(d, base) {
                Some((name, used)) => Ok((Some(name), base + used)),
                None => Err(BsaError::InvalidEncoding),
            }
        }
    }
}

/// The byte just past a folder's file records.
pub open spec fn block_end(
    d: Seq<u8>,
    f: FolderRecord,
    total_file_name_length: u32,
    named_directories: bool,
) -> int {
    match block_layout(d, f, total_file_name_length, named_directories) {
        Ok((_, start)) => start + 16 * f.count,
        Err(_) => 0,
    }
}

/// The end of a folder's records is its offset less the name-table length, plus the name field
/// (the name's bytes, its length byte and its NUL; nothing without named directories), plus 16
/// bytes per file record.
pub proof fn lemma_block_end_formula(
    d: Seq<u8>,
    f: FolderRecord,
    total_file_name_length: u32,
    named_directories: bool,
)
    requires
        block_layout(d, f, total_file_name_length, named_directories) is Ok,
    ensures
        ({
            let base = f.offset - total_file_name_length;
            let name_field = if named_directories {
                (d[base] - 1) + 2
            } else {
                0
            };
            block_end(d, f, total_file_name_length, named_directories) == base + name_field + 16
                * f.count
        }),
{
}

/// Why a folder's block cannot be decoded; `None` when it can.
pub open spec fn block_error(
    d: Seq<u8>,
    f: FolderRecord,
    total_file_name_length: u32,
    named_directories: bool,
) -> Option<BsaError> {
    match block_layout(d, f, total_file_name_length, named_directories) {
        Err(e) => Some(e),
        Ok((_, start)) => if start + 16 * f.count > d.len() {
            Some(BsaError::TruncatedInput)
        } else {
            None
        },
    }
}

/// `b` is the decoded block of folder `f`.
pub open spec fn block_matches(
    d: Seq<u8>,
    f: FolderRecord,
    total_file_name_length: u32,
    named_directories: bool,
    big_endian: bool,
    b: FileRecordBlock,
) -> bool {
    match block_layout(d, f, total_file_name_length, named_directories) {
        Err(_) => false,
        Ok((name, start)) => {
            &&& start + 16 * f.count <= d.len()
            &&& opt_view(b.name) == name
            &&& b.file_records@.len() == f.count
            &&& forall|i: int|
                0 <= i < f.count ==> b.file_records@[i] == file_record_at(
                    d,
                    start + 16 * i,
                    big_endian,
                )
        },
    }
}

fn read_file_record_block(
    d: &[u8],
    folder_record: &FolderRecord,
    total_file_name_length: u32,
    named_directories: bool,
    big_endian: bool,
) -> (r: Result<(FileRecordBlock, u64), BsaError>)
    ensures
        match r {
            Ok((b, end)) => block_matches(
                d@,
                *folder_record,
                total_file_name_length,
                named_directories,
                big_endian,
                b,
            ) && end == block_end(d@, *folder_record, total_file_name_length, named_directories),
            Err(e) => block_error(d@, *folder_record, total_file_name_length, named_directories)
                == Some(e),
        },
{
    let len = d.len();
    if folder_record.offset < total_file_name_length {
        return Err(BsaError::TruncatedInput);
    }
    let mut real_offset = (folder_record.offset - total_file_name_length) as usize;
    let mut directory_name: Option<String> = None;
    if named_directories {
        if real_offset >= len {
            return Err(BsaError::TruncatedInput);
        }
        match read_bzstring(d, real_offset) {
            Some((name, used)) => {
                directory_name = Some(name);
                real_offset = real_offset + used;
            },
            None => {
                return Err(BsaError::InvalidEncoding);
            },
        }
    }
    let count = folder_record.count;
    if real_offset > len {
        return Err(BsaError::TruncatedInput);
    }
    if (count as usize) > (len - real_offset) / 16 {
        proof {
            lemma_div_bound(len - real_offset, count as int);
        }
        return Err(BsaError::TruncatedInput);
    }
    proof {
        lemma_div_bound(len - real_offset, count as int);
    }
    let mut file_records: Vec<FileRecord> = Vec::new();
    let mut i: u32 = 0;
    while i < count
        invariant
            i <= count,
            count == folder_record.count,
            real_offset + 16 * count <= len,
            len == d@.len(),
            file_records@.len() == i,
            forall|k: int|
                0 <= k < i ==> file_records@[k] == file_record_at(
                    d@,
                    real_offset + 16 * k,
                    big_endian,
                ),
        decreases count - i,
    {
        let s = real_offset + 16 * (i as usize);
        let name_hash = u64_at_exec(d, s, big_endian);
        let size = u32_at_exec(d, s + 8, big_endian);
        let offset = u32_at_exec(d, s + 12, big_endian);
        file_records.push(FileRecord { name_hash, size, offset });
        i = i + 1;
    }
    let end = (real_offset + 16 * (count as usize)) as u64;
    Ok((FileRecordBlock { name: directory_name, file_records }, end))
}

/// The byte just past the file records of folder `folder_record`: where the file-name table
/// begins when this folder is the last one.
pub fn folder_block_end(
    d: &[u8],
    folder_record: &FolderRecord,
    total_file_name_length: u32,
    named_directories: bool,
) -> (r: Result<u64, BsaError>)
    ensures
        match r {
            Ok(end) => block_error(d@, *folder_record, total_file_name_length, named_directories)
                is None && end == block_end(
                d@,
                *folder_record,
                total_file_name_length,
                named_directories,
            ),
            Err(e) => block_error(d@, *folder_record, total_file_name_length, named_directories)
                == Some(e),
        },
{
    match read_file_record_block(
        d,
        folder_record,
        total_file_name_length,
        named_directories,
        false,
    ) {
        Ok((_, end)) => Ok(end),
        Err(e) => Err(e),
    }
}

/// Decodes the block of folder `folder_record`: its optional name and its file records.
pub fn get_file_record_block(
    d: &[u8],
    folder_record: &FolderRecord,
    total_file_name_length: u32,
    named_directories: bool,
    big_endian: bool,
) -> (r: Result<FileRecordBlock, BsaError>)
    ensures
        match r {
            Ok(b) => block_matches(
                d@,
                *folder_record,
                total_file_name_length,
                named_directories,
                big_endian,
                b,
            ),
            Err(e) => block_error(d@, *folder_record, total_file_name_length, named_directories)
                == Some(e),
        },
{
    match read_file_record_block(
        d,
        folder_record,
        total_file_name_length,
        named_directories,
        big_endian,
    ) {
        Ok((b, _)) => Ok(b),
        Err(e) => Err(e),
    }
}


// ---------------------------------------------------------------- file-name table
/// The `k` NUL-terminated names stored from byte `pos` on, one after another.
pub open spec fn names_from(d: Seq<u8>, pos: int, k: nat) -> Result<Seq<Seq<char>>, BsaError>
    decreases k,
{
    if k == 0 {
        Ok(Seq::empty())
    } else {
        match nul_from(d, pos) {
            None => Err(BsaError::TruncatedInput),
            Some(n) => match utf8_of(d.subrange(pos, n)) {
                None => Err(BsaError::InvalidEncoding),
                Some(v) => match names_from(d, n + 1, (k - 1) as nat) {
                    Ok(rest) => Ok(seq![v] + rest),
                    Err(e) => Err(e),
                },
            },
        }
    }
}

proof fn lemma_names_error(d: Seq<u8>, pos: int, k: nat)
    ensures
        names_from(d, pos, k) matches Err(e) ==> e == BsaError::TruncatedInput || e
            == BsaError::InvalidEncoding,
    decreases k,
{
    if k > 0 {
        if let Some(n) = nul_from(d, pos) {
            lemma_names_error(d, n + 1, (k - 1) as nat);
        }
    }
}

/// Strings as their characters.
pub open spec fn string_views(v: Seq<String>) -> Seq<Seq<char>> {
    v.map_values(|s: String| s@)
}

/// `r` with `p` put in front of its names, when it holds names.
pub open spec fn prefixed(p: Seq<Seq<char>>, r: Result<Seq<Seq<char>>, BsaError>) -> Result<
    Seq<Seq<char>>,
    BsaError,
> {
    match r {
        Ok(rest) => Ok(p + rest),
        Err(e) => Err(e),
    }
}

/// Decodes the file-name table: `file_count` NUL-terminated names from byte `offset` on.
pub fn get_file_names(d: &[u8], offset: u64, file_count: u32) -> (r: Result<
    Vec<String>,
    BsaError,
>)
    ensures
        match r {
            Ok(v) => {
                &&& names_from(d@, offset as int, file_count as nat) == Ok::<
                    Seq<Seq<char>>,
                    BsaError,
                >(string_views(v@))
                &&& v@.len() == file_count
            },
            Err(e) => names_from(d@, offset as int, file_count as nat) == Err::<
                Seq<Seq<char>>,
                BsaError,
            >(e),
        },
{
    let len = d.len();
    let mut file_names: Vec<String> = Vec::new();
    if file_count == 0 {
        assert(string_views(file_names@) =~= Seq::empty());
        return Ok(file_names);
    }
    if offset >= len as u64 {
        assert(nul_from(d@, offset as int) is None);
        return Err(BsaError::TruncatedInput);
    }
    let mut start: usize = offset as usize;
    let mut i: u32 = 0;
    assert(prefixed(string_views(file_names@), names_from(d@, start as int, file_count as nat))
        =~= names_from(d@, offset as int, file_count as nat)) by {
        assert(string_views(file_names@) =~= Seq::<Seq<char>>::empty());
        match names_from(d@, start as int, file_count as nat) {
            Ok(rest) => {
                assert(Seq::<Seq<char>>::empty() + rest =~= rest);
            },
            Err(_) => {},
        }
    }
    while i < file_count
        invariant
            i <= file_count,
            start <= len,
            len == d@.len(),
            file_names@.len() == i,
            prefixed(
                string_views(file_names@),
                names_from(d@, start as int, (file_count - i) as nat),
            ) == names_from(d@, offset as int, file_count as nat),
        decreases file_count - i,
    {
        match find_nul(d, start) {
            None => {
                return Err(BsaError::TruncatedInput);
            },
            Some(n) => {
                proof {
                    lemma_nul_from_bounds(d@, start as int);
                }
                match decode_utf8(d, start, n) {
                    None => {
                        return Err(BsaError::InvalidEncoding);
                    },
                    Some(name) => {
                        let ghost before = string_views(file_names@);
                        let ghost v = name@;
                        file_names.push(name);
                        start = n + 1;
                        i = i + 1;
                        proof {
                            assert(string_views(file_names@) =~= before.push(v));
                            match names_from(d@, start as int, (file_count - i) as nat) {
                                Ok(rest) => {
                                    assert(before + (seq![v] + rest) =~= before.push(v) + rest);
                                },
                                Err(_) => {},
                            }
                        }
                    },
                }
            },
        }
    }
    assert(string_views(file_names@) + Seq::<Seq<char>>::empty() =~= string_views(file_names@));
    Ok(file_names)
}


// ---------------------------------------------------------------- data blocks
/// The bit of a file record's size that flips the archive's default compression.
pub const COMPRESSION_TOGGLE: u32 = 0x4000_0000;

/// A file is stored compressed when the archive default and the record's toggle bit disagree.
/// With the default on and the bit clear the file counts as compressed; readers that only honour
/// a set bit would take it as raw.
pub open spec fn is_compressed(size: u32, default_compression: bool) -> bool {
    default_compression != (size & COMPRESSION_TOGGLE != 0)
}

/// Whether the file with this size field is stored compressed.
pub fn effective_compression(size: u32, default_compression: bool) -> (r: bool)
    ensures
        r == is_compressed(size, default_compression),
{
    let toggled = size & COMPRESSION_TOGGLE != 0;
    default_compression != toggled
}

/// The byte just past a file's data: its offset plus its size without the toggle bit.
pub open spec fn data_end(rec: FileRecord) -> int {
    rec.offset + (rec.size & !COMPRESSION_TOGGLE)
}

/// A file's embedded name and the byte where the rest of its data begins.
pub open spec fn payload_layout(d: Seq<u8>, rec: FileRecord, embedded_names: bool) -> Result<
    (Option<Seq<char>>, int),
    BsaError,
> {
    let start = rec.offset as int;
    if !embedded_names {
        Ok((None, start))
    } else if start >= d.len() {
        Err(BsaError::TruncatedInput)
    } else {
        match bstring_at(d, start) {
            Some((name, used)) => Ok((Some(name), start + used)),
            None => Err(BsaError::InvalidEncoding),
        }
    }
}

/// Why a file's compressed block cannot be decoded; `None` when it can.
pub open spec fn compressed_error(d: Seq<u8>, rec: FileRecord, embedded_names: bool) -> Option<
    BsaError,
> {
    match payload_layout(d, rec, embedded_names) {
        Err(e) => Some(e),
        Ok((_, start)) => if start + 4 <= data_end(rec) <= d.len() {
            None
        } else {
            Some(BsaError::TruncatedInput)
        },
    }
}

/// `b` is the compressed block of `rec`: its original size, then the compressed bytes.
pub open spec fn compressed_matches(
    d: Seq<u8>,
    rec: FileRecord,
    embedded_names: bool,
    big_endian: bool,
    b: CompressedFileBlock,
) -> bool {
    match payload_layout(d, rec, embedded_names) {
        Err(_) => false,
        Ok((name, start)) => {
            &&& start + 4 <= data_end(rec) <= d.len()
            &&& b.hash == rec.name_hash
            &&& opt_view(b.name) == name
            &&& b.original_size == u32_at(d, start, big_endian)
            &&& b.data@ == d.subrange(start + 4, data_end(rec))
        },
    }
}

/// Why a file's uncompressed block cannot be decoded; `None` when it can.
pub open spec fn uncompressed_error(d: Seq<u8>, rec: FileRecord, embedded_names: bool) -> Option<
    BsaError,
> {
    match payload_layout(d, rec, embedded_names) {
        Err(e) => Some(e),
        Ok((_, start)) => if start <= data_end(rec) <= d.len() {
            None
        } else {
            Some(BsaError::TruncatedInput)
        },
    }
}

/// `b` is the uncompressed block of `rec`: the file's bytes as stored.
pub open spec fn uncompressed_matches(
    d: Seq<u8>,
    rec: FileRecord,
    embedded_names: bool,
    b: UncompressedFileBlock,
) -> bool {
    match payload_layout(d, rec, embedded_names) {
        Err(_) => false,
        Ok((name, start)) => {
            &&& start <= data_end(rec) <= d.len()
            &&& b.hash == rec.name_hash
            &&& opt_view(b.name) == name
            &&& b.data@ == d.subrange(start, data_end(rec))
        },
    }
}

/// Copies `d[start..end]`.
fn copy_range(d: &[u8], start: usize, end: usize) -> (r: Vec<u8>)
    requires
        start <= end <= d@.len(),
    ensures
        r@ == d@.subrange(start as int, end as int),
{
    let mut v: Vec<u8> = Vec::new();
    let mut j: usize = start;
    while j < end
        invariant
            start <= j <= end,
            end <= d@.len(),
            v@ == d@.subrange(start as int, j as int),
        decreases end - j,
    {
        v.push(d[j]);
        j = j + 1;
        assert(v@ =~= d@.subrange(start as int, j as int));
    }
    v
}

/// Reads the optional embedded name at a file's data offset; returns it and where the data goes on.
fn read_payload_start(d: &[u8], file_record: &FileRecord, embedded_names: bool) -> (r: Result<
    (Option<String>, usize),
    BsaError,
>)
    ensures
        match r {
            Ok((name, start)) => payload_layout(d@, *file_record, embedded_names) == Ok::<
                (Option<Seq<char>>, int),
                BsaError,
            >((opt_view(name), start as int)),
            Err(e) => payload_layout(d@, *file_record, embedded_names) == Err::<
                (Option<Seq<char>>, int),
                BsaError,
            >(e),
        },
{
    let start = file_record.offset as usize;
    if !embedded_names {
        return Ok((None, start));
    }
    if start >= d.len() {
        return Err(BsaError::TruncatedInput);
    }
    match read_bstring(d, start) {
        Some((path, used)) => Ok((Some(path), start + used)),
        None => Err(BsaError::InvalidEncoding),
    }
}

fn data_end_exec(file_record: &FileRecord) -> (r: u64)
    ensures
        r == data_end(*file_record),
{
    file_record.offset as u64 + (file_record.size & !COMPRESSION_TOGGLE) as u64
}

/// Decodes a file's compressed block; `embedded_names` says whether a bstring name comes first.
pub fn get_compressed_file_block(
    d: &[u8],
    file_record: &FileRecord,
    embedded_names: bool,
    big_endian: bool,
) -> (r: Result<CompressedFileBlock, BsaError>)
    ensures
        match r {
            Ok(b) => compressed_matches(d@, *file_record, embedded_names, big_endian, b),
            Err(e) => compressed_error(d@, *file_record, embedded_names) == Some(e),
        },
{
    let (name, start) = match read_payload_start(d, file_record, embedded_names) {
        Ok(p) => p,
        Err(e) => {
            return Err(e);
        },
    };
    let end = data_end_exec(file_record);
    if end > d.len() as u64 || (start as u64) + 4 > end {
        return Err(BsaError::TruncatedInput);
    }
    let end = end as usize;
    let original_size = u32_at_exec(d, start, big_endian);
    let data = copy_range(d, start + 4, end);
    Ok(CompressedFileBlock { hash: file_record.name_hash, name, original_size, data })
}

/// Decodes a file's uncompressed block; `embedded_names` says whether a bstring name comes first.
pub fn get_uncompressed_file_block(
    d: &[u8],
    file_record: &FileRecord,
    embedded_names: bool,
) -> (r: Result<UncompressedFileBlock, BsaError>)
    ensures
        match r {
            Ok(b) => uncompressed_matches(d@, *file_record, embedded_names, b),
            Err(e) => uncompressed_error(d@, *file_record, embedded_names) == Some(e),
        },
{
    let (name, start) = match read_payload_start(d, file_record, embedded_names) {
        Ok(p) => p,
        Err(e) => {
            return Err(e);
        },
    };
    let end = data_end_exec(file_record);
    if end > d.len() as u64 || (start as u64) > end {
        return Err(BsaError::TruncatedInput);
    }
    let end = end as usize;
    let data = copy_range(d, start, end);
    Ok(UncompressedFileBlock { hash: file_record.name_hash, name, data })
}


// ---------------------------------------------------------------- parser
/// A decoded archive's file-name table holds exactly as many names as its header declares files.
pub proof fn lemma_name_count(d: Seq<u8>, embedded_names: bool, a: BSA)
    requires
        archive_matches(d, embedded_names, a),
    ensures
        a.file_names@.len() == a.header.file_count,
        names_from(
            d,
            name_block_start(
                d,
                a.folder_records@,
                a.header.total_file_name_length,
                has_flag(a.header.archive_flags, ArchiveFlags::NamedDirs),
            ),
            a.header.file_count as nat,
        ) is Ok,
{
}

/// Whether the archive flags hold `flag`.
pub open spec fn has_flag(flags: u32, flag: ArchiveFlags) -> bool {
    flags & flag.spec_val() != 0
}

/// Where the file-name table begins: just past the last folder's file records.
pub open spec fn name_block_start(
    d: Seq<u8>,
    folders: Seq<FolderRecord>,
    total_file_name_length: u32,
    named_directories: bool,
) -> int {
    if folders.len() == 0 {
        0
    } else {
        block_end(d, folders.last(), total_file_name_length, named_directories)
    }
}

/// The decoded archive `a` is what the bytes `d` hold.
pub open spec fn archive_matches(d: Seq<u8>, embedded_names: bool, a: BSA) -> bool {
    let h = a.header;
    let big_endian = has_flag(h.archive_flags, ArchiveFlags::BigEnd);
    let named = has_flag(h.archive_flags, ArchiveFlags::NamedDirs);
    let default_compression = has_flag(h.archive_flags, ArchiveFlags::DefComp);
    let tfnl = h.total_file_name_length;
    let folders = a.folder_records@;
    let blocks = a.file_record_blocks@;
    let recs = records_of(blocks);
    let comp = select(recs, true, default_compression);
    let unc = select(recs, false, default_compression);
    &&& header_error(d) is None
    &&& header_matches(d, h)
    &&& folders.len() == h.folder_count
    &&& forall|i: int| 0 <= i < folders.len() ==> folders[i] == folder_record_at(d, i, big_endian)
    &&& blocks.len() == folders.len()
    &&& forall|i: int|
        0 <= i < blocks.len() ==> block_matches(d, folders[i], tfnl, named, big_endian, blocks[i])
    &&& a.compressed_file_blocks@.len() == comp.len()
    &&& forall|i: int|
        0 <= i < comp.len() ==> compressed_matches(
            d,
            comp[i],
            embedded_names,
            big_endian,
            a.compressed_file_blocks@[i],
        )
    &&& a.uncompressed_file_blocks@.len() == unc.len()
    &&& forall|i: int|
        0 <= i < unc.len() ==> uncompressed_matches(
            d,
            unc[i],
            embedded_names,
            a.uncompressed_file_blocks@[i],
        )
    &&& a.file_names@.len() == h.file_count
    &&& names_from(d, name_block_start(d, folders, tfnl, named), h.file_count as nat) == Ok::<
        Seq<Seq<char>>,
        BsaError,
    >(string_views(a.file_names@))
}

/// The file records that folder `f`'s block holds, as laid out in `d`.
pub open spec fn block_records(
    d: Seq<u8>,
    f: FolderRecord,
    total_file_name_length: u32,
    named_directories: bool,
    big_endian: bool,
) -> Seq<FileRecord> {
    match block_layout(d, f, total_file_name_length, named_directories) {
        Ok((_, start)) => Seq::new(
            f.count as nat,
            |i: int| file_record_at(d, start + 16 * i, big_endian),
        ),
        Err(_) => Seq::empty(),
    }
}

/// Why the data block of `rec` cannot be decoded, under the archive's default compression.
pub open spec fn record_error(
    d: Seq<u8>,
    rec: FileRecord,
    embedded_names: bool,
    default_compression: bool,
) -> Option<BsaError> {
    if is_compressed(rec.size, default_compression) {
        compressed_error(d, rec, embedded_names)
    } else {
        uncompressed_error(d, rec, embedded_names)
    }
}

/// The first failure among the data blocks of `recs`, in order.
pub open spec fn records_error(
    d: Seq<u8>,
    recs: Seq<FileRecord>,
    embedded_names: bool,
    default_compression: bool,
) -> Option<BsaError>
    decreases recs.len(),
{
    if recs.len() == 0 {
        None
    } else {
        match records_error(d, recs.drop_last(), embedded_names, default_compression) {
            Some(e) => Some(e),
            None => record_error(d, recs.last(), embedded_names, default_compression),
        }
    }
}

/// The first failure met while walking `folders` in order: a folder's block, then its files'
/// data blocks.
pub open spec fn folders_error(
    d: Seq<u8>,
    folders: Seq<FolderRecord>,
    total_file_name_length: u32,
    named_directories: bool,
    big_endian: bool,
    embedded_names: bool,
    default_compression: bool,
) -> Option<BsaError>
    decreases folders.len(),
{
    if folders.len() == 0 {
        None
    } else {
        match folders_error(
            d,
            folders.drop_last(),
            total_file_name_length,
            named_directories,
            big_endian,
            embedded_names,
            default_compression,
        ) {
            Some(e) => Some(e),
            None => match block_error(
                d,
                folders.last(),
                total_file_name_length,
                named_directories,
            ) {
                Some(e) => Some(e),
                None => records_error(
                    d,
                    block_records(
                        d,
                        folders.last(),
                        total_file_name_length,
                        named_directories,
                        big_endian,
                    ),
                    embedded_names,
                    default_compression,
                ),
            },
        }
    }
}

/// Why the archive in `d` cannot be decoded: the header, the folder table, each folder in order,
/// then the file-name table. `None` when it decodes.
pub open spec fn archive_error(d: Seq<u8>, embedded_names: bool) -> Option<BsaError> {
    match header_error(d) {
        Some(e) => Some(e),
        None => {
            let flags = u32_le_at(d, 12);
            let folder_count = u32_le_at(d, 16);
            let tfnl = u32_le_at(d, 28);
            let big_endian = has_flag(flags, ArchiveFlags::BigEnd);
            let named = has_flag(flags, ArchiveFlags::NamedDirs);
            let default_compression = has_flag(flags, ArchiveFlags::DefComp);
            if 36 + 16 * folder_count > d.len() {
                Some(BsaError::TruncatedInput)
            } else {
                let folders = Seq::new(
                    folder_count as nat,
                    |i: int| folder_record_at(d, i, big_endian),
                );
                match folders_error(
                    d,
                    folders,
                    tfnl,
                    named,
                    big_endian,
                    embedded_names,
                    default_compression,
                ) {
                    Some(e) => Some(e),
                    None => match names_from(
                        d,
                        name_block_start(d, folders, tfnl, named),
                        u32_le_at(d, 20) as nat,
                    ) {
                        Err(e) => Some(e),
                        Ok(_) => None,
                    },
                }
            }
        },
    }
}

/// Past a good header and folder table, the archive fails where its folders or its name
/// table fail.
proof fn lemma_archive_error_after_table(
    d: Seq<u8>,
    embedded_names: bool,
    h: Header,
    folders: Seq<FolderRecord>,
)
    requires
        header_error(d) is None,
        header_matches(d, h),
        36 + 16 * h.folder_count <= d.len(),
        folders.len() == h.folder_count,
        forall|i: int|
            0 <= i < folders.len() ==> folders[i] == folder_record_at(
                d,
                i,
                has_flag(h.archive_flags, ArchiveFlags::BigEnd),
            ),
    ensures
        ({
            let big_endian = has_flag(h.archive_flags, ArchiveFlags::BigEnd);
            let named = has_flag(h.archive_flags, ArchiveFlags::NamedDirs);
            archive_error(d, embedded_names) == match folders_error(
                d,
                folders,
                h.total_file_name_length,
                named,
                big_endian,
                embedded_names,
                has_flag(h.archive_flags, ArchiveFlags::DefComp),
            ) {
                Some(e) => Some(e),
                None => match names_from(
                    d,
                    name_block_start(d, folders, h.total_file_name_length, named),
                    h.file_count as nat,
                ) {
                    Err(e) => Some(e),
                    Ok(_) => None,
                },
            }
        }),
{
    let big_endian = has_flag(h.archive_flags, ArchiveFlags::BigEnd);
    assert(folders =~= Seq::new(
        u32_le_at(d, 16) as nat,
        |i: int| folder_record_at(d, i, has_flag(u32_le_at(d, 12), ArchiveFlags::BigEnd)),
    ));
}

proof fn lemma_records_error_prefix(
    d: Seq<u8>,
    recs: Seq<FileRecord>,
    n: int,
    embedded_names: bool,
    default_compression: bool,
)
    requires
        0 <= n <= recs.len(),
        records_error(d, recs.subrange(0, n), embedded_names, default_compression) is Some,
    ensures
        records_error(d, recs, embedded_names, default_compression) == records_error(
            d,
            recs.subrange(0, n),
            embedded_names,
            default_compression,
        ),
    decreases recs.len(),
{
    if n == recs.len() {
        assert(recs.subrange(0, n) =~= recs);
    } else {
        assert(recs.drop_last().subrange(0, n) =~= recs.subrange(0, n));
        lemma_records_error_prefix(d, recs.drop_last(), n, embedded_names, default_compression);
    }
}

proof fn lemma_folders_error_prefix(
    d: Seq<u8>,
    folders: Seq<FolderRecord>,
    n: int,
    total_file_name_length: u32,
    named_directories: bool,
    big_endian: bool,
    embedded_names: bool,
    default_compression: bool,
)
    requires
        0 <= n <= folders.len(),
        folders_error(
            d,
            folders.subrange(0, n),
            total_file_name_length,
            named_directories,
            big_endian,
            embedded_names,
            default_compression,
        ) is Some,
    ensures
        folders_error(
            d,
            folders,
            total_file_name_length,
            named_directories,
            big_endian,
            embedded_names,
            default_compression,
        ) == folders_error(
            d,
            folders.subrange(0, n),
            total_file_name_length,
            named_directories,
            big_endian,
            embedded_names,
            default_compression,
        ),
    decreases folders.len(),
{
    if n == folders.len() {
        assert(folders.subrange(0, n) =~= folders);
    } else {
        assert(folders.drop_last().subrange(0, n) =~= folders.subrange(0, n));
        lemma_folders_error_prefix(
            d,
            folders.drop_last(),
            n,
            total_file_name_length,
            named_directories,
            big_endian,
            embedded_names,
            default_compression,
        );
    }
}

/// Holds an archive's bytes and decodes them.
pub struct BSAParser {
    data: Vec<u8>,
    embedded_names: bool,
}

impl BSAParser {
    /// The archive's bytes.
    pub closed spec fn bytes(&self) -> Seq<u8> {
        self.data@
    }

    /// Whether each file's data starts with a bstring name.
    pub closed spec fn embeds_names(&self) -> bool {
        self.embedded_names
    }

    /// A parser over `data`, reading file data without embedded names.
    pub fn new(data: Vec<u8>) -> (r: BSAParser)
        ensures
            r.bytes() == data@,
            !r.embeds_names(),
    {
        BSAParser { data, embedded_names: false }
    }

    /// The same parser, told whether each file's data starts with a bstring name.
    pub fn with_embedded_names(self, on: bool) -> (r: BSAParser)
        ensures
            r.bytes() == self.bytes(),
            r.embeds_names() == on,
    {
        BSAParser { data: self.data, embedded_names: on }
    }

    proof fn lemma_record_failure(
        &self,
        folders: Seq<FolderRecord>,
        i: int,
        brecs: Seq<FileRecord>,
        j: int,
        total_file_name_length: u32,
        named_dirs: bool,
        big_endian: bool,
        def_comp: bool,
    )
        requires
            0 <= i < folders.len(),
            0 <= j < brecs.len(),
            brecs == block_records(
                self.data@,
                folders[i],
                total_file_name_length,
                named_dirs,
                big_endian,
            ),
            block_error(self.data@, folders[i], total_file_name_length, named_dirs) is None,
            folders_error(
                self.data@,
                folders.subrange(0, i),
                total_file_name_length,
                named_dirs,
                big_endian,
                self.embedded_names,
                def_comp,
            ) is None,
            records_error(self.data@, brecs.subrange(0, j), self.embedded_names, def_comp) is None,
            record_error(self.data@, brecs[j], self.embedded_names, def_comp) is Some,
        ensures
            folders_error(
                self.data@,
                folders,
                total_file_name_length,
                named_dirs,
                big_endian,
                self.embedded_names,
                def_comp,
            )
                == record_error(self.data@, brecs[j], self.embedded_names, def_comp),
    {
        let d = self.data@;
        let emb = self.embedded_names;
        assert(brecs.subrange(0, j + 1).drop_last() =~= brecs.subrange(0, j));
        lemma_records_error_prefix(d, brecs, j + 1, emb, def_comp);
        assert(folders.subrange(0, i + 1).drop_last() =~= folders.subrange(0, i));
        lemma_folders_error_prefix(
            d,
            folders,
            i + 1,
            total_file_name_length,
            named_dirs,
            big_endian,
            emb,
            def_comp,
        );
    }

    /// Decodes the whole archive. A refused header gives its error; any other failure is a
    /// truncated or badly encoded record, and no part of the archive is returned.
    pub fn parse(&mut self) -> (r: Result<BSA, BsaError>)
        ensures
            final(self).bytes() == old(self).bytes(),
            final(self).embeds_names() == old(self).embeds_names(),
            match r {
                Ok(a) => archive_matches(old(self).bytes(), old(self).embeds_names(), a),
                Err(e) => archive_error(old(self).bytes(), old(self).embeds_names()) == Some(e),
            },
            r is Ok <==> archive_error(old(self).bytes(), old(self).embeds_names()) is None,
    {
        let d = self.data.as_slice();
        let embedded_names = self.embedded_names;
        let header = match get_header(d) {
            Ok(h) => h,
            Err(e) => {
                return Err(e);
            },
        };
        let big_endian = header.archive_flags & ArchiveFlags::BigEnd.val() != 0;
        let named_dirs = header.archive_flags & ArchiveFlags::NamedDirs.val() != 0;
        let def_comp = header.archive_flags & ArchiveFlags::DefComp.val() != 0;
        let total_file_name_length = header.total_file_name_length;
        let folder_records = match get_folder_records(d, header.folder_count, big_endian) {
            Ok(v) => v,
            Err(e) => {
                return Err(e);
            },
        };
        assert(folder_records@.subrange(0, 0) =~= Seq::<FolderRecord>::empty());
        let mut file_record_blocks: Vec<FileRecordBlock> = Vec::new();
        let mut compressed_file_blocks: Vec<CompressedFileBlock> = Vec::new();
        let mut uncompressed_file_blocks: Vec<UncompressedFileBlock> = Vec::new();
        let mut name_block_offset: u64 = 0;
        let mut i: usize = 0;
        while i < folder_records.len()
            invariant
                d@ == self.data@,
                i <= folder_records@.len(),
                header_error(d@) is None,
                header_matches(d@, header),
                36 + 16 * header.folder_count <= d@.len(),
                embedded_names == self.embedded_names,
                folder_records@.len() == header.folder_count,
                forall|k: int|
                    0 <= k < folder_records@.len() ==> folder_records@[k] == folder_record_at(
                        d@,
                        k,
                        big_endian,
                    ),
                folders_error(
                    d@,
                    folder_records@.subrange(0, i as int),
                    total_file_name_length,
                    named_dirs,
                    big_endian,
                    embedded_names,
                    def_comp,
                ) is None,
                big_endian == has_flag(header.archive_flags, ArchiveFlags::BigEnd),
                named_dirs == has_flag(header.archive_flags, ArchiveFlags::NamedDirs),
                def_comp == has_flag(header.archive_flags, ArchiveFlags::DefComp),
                total_file_name_length == header.total_file_name_length,
                file_record_blocks@.len() == i,
                forall|k: int|
                    0 <= k < i ==> block_matches(
                        d@,
                        folder_records@[k],
                        total_file_name_length,
                        named_dirs,
                        big_endian,
                        file_record_blocks@[k],
                    ),
                name_block_offset == name_block_start(
                    d@,
                    folder_records@.subrange(0, i as int),
                    total_file_name_length,
                    named_dirs,
                ),
                compressed_file_blocks@.len() == select(
                    records_of(file_record_blocks@),
                    true,
                    def_comp,
                ).len(),
                forall|k: int|
                    0 <= k < compressed_file_blocks@.len() ==> compressed_matches(
                        d@,
                        select(records_of(file_record_blocks@), true, def_comp)[k],
                        embedded_names,
                        big_endian,
                        compressed_file_blocks@[k],
                    ),
                uncompressed_file_blocks@.len() == select(
                    records_of(file_record_blocks@),
                    false,
                    def_comp,
                ).len(),
                forall|k: int|
                    0 <= k < uncompressed_file_blocks@.len() ==> uncompressed_matches(
                        d@,
                        select(records_of(file_record_blocks@), false, def_comp)[k],
                        embedded_names,
                        uncompressed_file_blocks@[k],
                    ),
            decreases folder_records@.len() - i,
        {
            let folder_record = &folder_records[i];
            let (block, end) = match read_file_record_block(
                d,
                folder_record,
                total_file_name_length,
                named_dirs,
                big_endian,
            ) {
                Ok(p) => p,
                Err(e) => {
                    proof {
                        let ghost upto = folder_records@.subrange(0, i + 1);
                        assert(upto.drop_last() =~= folder_records@.subrange(0, i as int));
                        assert(upto.last() == folder_records@[i as int]);
                        lemma_archive_error_after_table(
                            d@,
                            embedded_names,
                            header,
                            folder_records@,
                        );
                        lemma_folders_error_prefix(
                            d@,
                            folder_records@,
                            i + 1,
                            total_file_name_length,
                            named_dirs,
                            big_endian,
                            embedded_names,
                            def_comp,
                        );
                    }
                    return Err(e);
                },
            };
            let ghost done = records_of(file_record_blocks@);
            let ghost brecs = block_records(
                d@,
                *folder_record,
                total_file_name_length,
                named_dirs,
                big_endian,
            );
            assert(block.file_records@ =~= brecs);
            assert(block.file_records@.subrange(0, 0) =~= Seq::<FileRecord>::empty());
            let mut j: usize = 0;
            while j < block.file_records.len()
                invariant
                    d@ == self.data@,
                    header_error(d@) is None,
                    header_matches(d@, header),
                    36 + 16 * header.folder_count <= d@.len(),
                    big_endian == has_flag(header.archive_flags, ArchiveFlags::BigEnd),
                    named_dirs == has_flag(header.archive_flags, ArchiveFlags::NamedDirs),
                    def_comp == has_flag(header.archive_flags, ArchiveFlags::DefComp),
                    total_file_name_length == header.total_file_name_length,
                    embedded_names == self.embedded_names,
                        folder_records@.len() == header.folder_count,
                forall|k: int|
                    0 <= k < folder_records@.len() ==> folder_records@[k] == folder_record_at(
                        d@,
                        k,
                        big_endian,
                    ),
                    i < folder_records@.len(),
                    *folder_record == folder_records@[i as int],
                    block_error(d@, folder_records@[i as int], total_file_name_length, named_dirs)
                        is None,
                    folders_error(
                        d@,
                        folder_records@.subrange(0, i as int),
                        total_file_name_length,
                        named_dirs,
                        big_endian,
                        embedded_names,
                        def_comp,
                    ) is None,
                    j <= block.file_records@.len(),
                    block.file_records@ == brecs,
                    brecs == block_records(
                        d@,
                        folder_records@[i as int],
                        total_file_name_length,
                        named_dirs,
                        big_endian,
                    ),
                    records_error(
                        d@,
                        block.file_records@.subrange(0, j as int),
                        embedded_names,
                        def_comp,
                    ) is None,
                    compressed_file_blocks@.len() == select(
                        done + block.file_records@.subrange(0, j as int),
                        true,
                        def_comp,
                    ).len(),
                    forall|k: int|
                        0 <= k < compressed_file_blocks@.len() ==> compressed_matches(
                            d@,
                            select(
                                done + block.file_records@.subrange(0, j as int),
                                true,
                                def_comp,
                            )[k],
                            embedded_names,
                            big_endian,
                            compressed_file_blocks@[k],
                        ),
                    uncompressed_file_blocks@.len() == select(
                        done + block.file_records@.subrange(0, j as int),
                        false,
                        def_comp,
                    ).len(),
                    forall|k: int|
                        0 <= k < uncompressed_file_blocks@.len() ==> uncompressed_matches(
                            d@,
                            select(
                                done + block.file_records@.subrange(0, j as int),
                                false,
                                def_comp,
                            )[k],
                            embedded_names,
                            uncompressed_file_blocks@[k],
                        ),
                decreases block.file_records@.len() - j,
            {
                let file_record = &block.file_records[j];
                let ghost before = done + block.file_records@.subrange(0, j as int);
                assert(done + block.file_records@.subrange(0, j + 1) =~= before.push(*file_record));
                assert(before.push(*file_record).drop_last() =~= before);
                let ghost recs = block.file_records@;
                assert(recs.subrange(0, j + 1).drop_last() =~= recs.subrange(0, j as int));
                if effective_compression(file_record.size, def_comp) {
                    match get_compressed_file_block(d, file_record, embedded_names, big_endian) {
                        Ok(b) => compressed_file_blocks.push(b),
                        Err(e) => {
                            proof {
                                lemma_archive_error_after_table(
                            d@,
                            embedded_names,
                            header,
                            folder_records@,
                        );
                                self.lemma_record_failure(
                                    folder_records@,
                                    i as int,
                                    brecs,
                                    j as int,
                                    total_file_name_length,
                                    named_dirs,
                                    big_endian,
                                    def_comp,
                                );
                            }
                            return Err(e);
                        },
                    }
                } else {
                    match get_uncompressed_file_block(d, file_record, embedded_names) {
                        Ok(b) => uncompressed_file_blocks.push(b),
                        Err(e) => {
                            proof {
                                lemma_archive_error_after_table(
                            d@,
                            embedded_names,
                            header,
                            folder_records@,
                        );
                                self.lemma_record_failure(
                                    folder_records@,
                                    i as int,
                                    brecs,
                                    j as int,
                                    total_file_name_length,
                                    named_dirs,
                                    big_endian,
                                    def_comp,
                                );
                            }
                            return Err(e);
                        },
                    }
                }
                j = j + 1;
            }
            assert(block.file_records@.subrange(0, j as int) =~= block.file_records@);
            let ghost upto = folder_records@.subrange(0, i + 1);
            assert(upto.drop_last() =~= folder_records@.subrange(0, i as int));
            name_block_offset = end;
            let ghost old_blocks = file_record_blocks@;
            file_record_blocks.push(block);
            proof {
                assert(file_record_blocks@.drop_last() =~= old_blocks);
                assert(folder_records@.subrange(0, i + 1).last() == folder_records@[i as int]);
            }
            i = i + 1;
        }
        assert(folder_records@.subrange(0, i as int) =~= folder_records@);
        proof {
            lemma_archive_error_after_table(
                            d@,
                            embedded_names,
                            header,
                            folder_records@,
                        );
        }
        let file_names = match get_file_names(d, name_block_offset, header.file_count) {
            Ok(v) => v,
            Err(e) => {
                proof {
                    lemma_names_error(d@, name_block_offset as int, header.file_count as nat);
                }
                return Err(e);
            },
        };
        Ok(
            BSA {
                header,
                folder_records,
                file_record_blocks,
                compressed_file_blocks,
                uncompressed_file_blocks,
                file_names,
            },
        )
    }
}

} // verus!
