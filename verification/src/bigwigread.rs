//! Reading back what the writer wrote: the header of a file, and the records of a section.

use vstd::prelude::*;
use vstd::utf8::decode_utf8;
use vstd::utf8::valid_utf8;
use crate::bbi::BigWigWriteOptions;
use crate::bbi::chrom_views;
use crate::bbi::ChromAndSize;
use crate::bbi::ChromInfo;
use crate::bbi::ChromView;
use crate::bbi::lemma_few_zoom_levels;
use crate::bbi::ChromSize;
use crate::bbi::SectionView;
use crate::bbi::Value;
use crate::bbi::ZoomHeader;
use crate::bbi::ZoomRecord;
use crate::bbiwrite::lemma_size_tells_compression;
use crate::bbiwrite::lemma_stream_batches;
use crate::bbiwrite::lemma_written_sections;
use crate::bbiwrite::Processed;
use crate::bbiwrite::Step;
use crate::bbiwrite::stream_batches;
use crate::bbiwrite::written;
use crate::bytes::le_u16;
use crate::bytes::le_u32;
use crate::bytes::le_u64;
use crate::bytes::lemma_le_lens;
use crate::bytes::lemma_u16_round_trip;
use crate::bytes::lemma_u32_round_trip;
use crate::bytes::lemma_u64_round_trip;
use crate::bytes::u16_le;
use crate::bytes::u32_le;
use crate::bytes::u64_le;
use crate::chromtree::CHROM_TREE_MAGIC;
use crate::cirtree::CIR_TREE_MAGIC;
use crate::encode::copy_range;
use crate::encode::lemma_section_bytes_len;
use crate::encode::lemma_zoom_section_bytes_len;
use crate::encode::is_primary_section;
use crate::encode::is_zoom_section;
use crate::encode::payload_plain;
use crate::encode::section_bytes;
use crate::encode::section_header_bytes;
use crate::encode::stored_count;
use crate::encode::value_bytes;
use crate::encode::values_bytes;
use crate::encode::zlib_decompress;
use crate::encode::zoom_record_bytes;
use crate::encode::zoom_section_bytes;
use crate::layout::BIGWIG_VERSION;
use crate::layout::chrom_tree_offset;
use crate::layout::data_offset;
use crate::layout::file_bytes;
use crate::layout::header_bytes;
use crate::layout::index_offset;
use crate::layout::lemma_head_bytes_len;
use crate::layout::kept_levels;
use crate::layout::lemma_kept_levels_len;
use crate::layout::lemma_leaves_point_at_sections;
use crate::layout::lemma_zoom_skipping;
use crate::layout::sections_data;
use crate::layout::zooms_offset;
use crate::layout::section_entries;
use crate::layout::sections_offset;
use crate::layout::TrackData;
use crate::layout::summary_offset;
use crate::layout::track_zooms;
use crate::layout::TrackView;

verus! {

/// The magic number of a file whose numbers are stored least significant byte first.
pub const BIGWIG_MAGIC_LTH: u32 = 0x888F_FC26;

/// The magic number as it reads in a file whose numbers are stored most significant byte
/// first.
pub const BIGWIG_MAGIC_HTL: u32 = 0x26FC_8F88;

/// The byte order of a file.
#[derive(Clone, Copy, Debug, PartialEq, Eq, Structural)]
pub enum Endianness {
    Little,
    Big,
}

/// Why a file could not be read.
#[derive(Clone, Copy, Debug, PartialEq, Eq, Structural)]
pub enum BigWigReadError {
    /// The file does not start with the magic number.
    NotBigWig,
    /// The file ends before what it promises.
    Truncated,
    /// A section is of a type that nobody knows.
    UnknownSectionType(u8),
    /// A record of a section ends past the last base that can be named.
    Overflow,
    /// A compressed section does not inflate.
    BadCompression,
    /// The chromosome index does not start with its magic number, or its values are not
    /// of 8 bytes.
    BadChromTree,
    /// An index does not start with its magic number, or a block of it is neither of
    /// leaves nor of nodes.
    BadIndex,
    /// An index is nested deeper than any index over 64-bit offsets can be.
    TooDeep,
    /// The name of a chromosome is no text.
    BadName,
    /// The file has no chromosome of the name asked for.
    UnknownChromosome,
}

/// The number that two bytes hold, most significant first.
pub open spec fn be_u16(s: Seq<u8>) -> u16 {
    (s[1] as int + 0x100 * s[0] as int) as u16
}

/// The number that four bytes hold, most significant first.
pub open spec fn be_u32(s: Seq<u8>) -> u32 {
    (s[3] as int + 0x100 * s[2] as int + 0x1_0000 * s[1] as int + 0x100_0000 * s[0] as int) as u32
}

/// The number that eight bytes hold, most significant first.
pub open spec fn be_u64(s: Seq<u8>) -> u64 {
    (be_u32(s.subrange(4, 8)) as int + 0x1_0000_0000 * be_u32(s.subrange(0, 4)) as int) as u64
}

/// The 16-bit number at `at`.
pub open spec fn field_u16(bytes: Seq<u8>, at: int, order: Endianness) -> u16 {
    match order {
        Endianness::Little => le_u16(bytes.subrange(at, at + 2)),
        Endianness::Big => be_u16(bytes.subrange(at, at + 2)),
    }
}

/// The 32-bit number at `at`.
pub open spec fn field_u32(bytes: Seq<u8>, at: int, order: Endianness) -> u32 {
    match order {
        Endianness::Little => le_u32(bytes.subrange(at, at + 4)),
        Endianness::Big => be_u32(bytes.subrange(at, at + 4)),
    }
}

/// The 64-bit number at `at`.
pub open spec fn field_u64(bytes: Seq<u8>, at: int, order: Endianness) -> u64 {
    match order {
        Endianness::Little => le_u64(bytes.subrange(at, at + 8)),
        Endianness::Big => be_u64(bytes.subrange(at, at + 8)),
    }
}

/// Reads the 16-bit number at `at`.
pub fn get_u16(bytes: &Vec<u8>, at: usize, order: Endianness) -> (r: u16)
    requires
        at + 2 <= bytes.len(),
    ensures
        r == field_u16(bytes@, at as int, order),
{
    let a = bytes[at] as u16;
    let b = bytes[at + 1] as u16;
    match order {
        Endianness::Little => a + 0x100 * b,
        Endianness::Big => b + 0x100 * a,
    }
}

/// Reads the 32-bit number at `at`.
pub fn get_u32(bytes: &Vec<u8>, at: usize, order: Endianness) -> (r: u32)
    requires
        at + 4 <= bytes.len(),
    ensures
        r == field_u32(bytes@, at as int, order),
{
    let a = bytes[at] as u32;
    let b = bytes[at + 1] as u32;
    let c = bytes[at + 2] as u32;
    let d = bytes[at + 3] as u32;
    match order {
        Endianness::Little => a + 0x100 * b + 0x1_0000 * c + 0x100_0000 * d,
        Endianness::Big => d + 0x100 * c + 0x1_0000 * b + 0x100_0000 * a,
    }
}

/// Reads the 64-bit number at `at`.
pub fn get_u64(bytes: &Vec<u8>, at: usize, order: Endianness) -> (r: u64)
    requires
        at + 8 <= bytes.len(),
    ensures
        r == field_u64(bytes@, at as int, order),
{
    let first = get_u32(bytes, at, order) as u64;
    let second = get_u32(bytes, at + 4, order) as u64;
    proof {
        assert(bytes@.subrange(at as int, at + 8).subrange(0, 4) =~= bytes@.subrange(
            at as int,
            at + 4,
        ));
        assert(bytes@.subrange(at as int, at + 8).subrange(4, 8) =~= bytes@.subrange(
            at + 4,
            at + 8,
        ));
    }
    match order {
        Endianness::Little => first + 0x1_0000_0000 * second,
        Endianness::Big => second + 0x1_0000_0000 * first,
    }
}

/// The size of the header of a section.
pub const SECTION_HEADER_SIZE: usize = 24;

/// The type of a section of `(start, end, value)` records.
pub const SECTION_BEDGRAPH: u8 = 1;

/// The type of a section of `(start, value)` records that all span the same number of
/// bases.
pub const SECTION_VARIABLE_STEP: u8 = 2;

/// The type of a section of values that lie a fixed number of bases apart.
pub const SECTION_FIXED_STEP: u8 = 3;

/// The bytes that one record of a section of type `kind` takes.
pub open spec fn item_size(kind: u8) -> int {
    if kind == SECTION_BEDGRAPH {
        12
    } else if kind == SECTION_VARIABLE_STEP {
        8
    } else {
        4
    }
}

/// Record `i` of a section of type `kind`, or nothing where it would end past the last
/// base that can be named.
pub open spec fn block_item(plain: Seq<u8>, order: Endianness, kind: u8, i: int) -> Option<Value> {
    let chrom_start = field_u32(plain, 4, order);
    let step = field_u32(plain, 12, order);
    let span = field_u32(plain, 16, order);
    if kind == SECTION_BEDGRAPH {
        Some(
            Value {
                start: field_u32(plain, 24 + 12 * i, order),
                end: field_u32(plain, 24 + 12 * i + 4, order),
                value: field_u32(plain, 24 + 12 * i + 8, order),
            },
        )
    } else if kind == SECTION_VARIABLE_STEP {
        let start = field_u32(plain, 24 + 8 * i, order);
        if start + span > u32::MAX {
            None
        } else {
            Some(
                Value {
                    start,
                    end: (start + span) as u32,
                    value: field_u32(plain, 24 + 8 * i + 4, order),
                },
            )
        }
    } else {
        let start = chrom_start + i * step;
        if start + span > u32::MAX {
            None
        } else {
            Some(
                Value {
                    start: start as u32,
                    end: (start + span) as u32,
                    value: field_u32(plain, 24 + 4 * i, order),
                },
            )
        }
    }
}

/// The first `n` records of a section of type `kind`, or nothing where one of them would
/// end past the last base that can be named.
pub open spec fn block_items(plain: Seq<u8>, order: Endianness, kind: u8, n: nat) -> Option<
    Seq<Value>,
>
    decreases n,
{
    if n == 0 {
        Some(Seq::empty())
    } else {
        match (block_items(plain, order, kind, (n - 1) as nat), block_item(plain, order, kind, n - 1)) {
            (Some(before), Some(v)) => Some(before.push(v)),
            _ => None,
        }
    }
}

/// The records of a section, from its bytes before compression: as many as its header
/// counts, read as its type says.
pub open spec fn block_values(plain: Seq<u8>, order: Endianness) -> Result<
    Seq<Value>,
    BigWigReadError,
> {
    if plain.len() < 24 {
        Err(BigWigReadError::Truncated)
    } else {
        let kind = plain[20];
        let count = field_u16(plain, 22, order);
        if count == 0 {
            Ok(Seq::empty())
        } else if kind != SECTION_BEDGRAPH && kind != SECTION_VARIABLE_STEP && kind
            != SECTION_FIXED_STEP {
            Err(BigWigReadError::UnknownSectionType(kind))
        } else if plain.len() < 24 + count * item_size(kind) {
            Err(BigWigReadError::Truncated)
        } else {
            match block_items(plain, order, kind, count as nat) {
                Some(values) => Ok(values),
                None => Err(BigWigReadError::Overflow),
            }
        }
    }
}

/// Reads record `i` of a section of type `kind`.
pub fn read_item(plain: &Vec<u8>, order: Endianness, kind: u8, i: usize) -> (r: Option<Value>)
    requires
        kind == SECTION_BEDGRAPH || kind == SECTION_VARIABLE_STEP || kind == SECTION_FIXED_STEP,
        i < 0xffff,
        plain.len() >= 24 + (i + 1) * item_size(kind),
    ensures
        r == block_item(plain@, order, kind, i as int),
{
    let chrom_start = get_u32(plain, 4, order);
    let step = get_u32(plain, 12, order);
    let span = get_u32(plain, 16, order);
    if kind == SECTION_BEDGRAPH {
        let at: usize = SECTION_HEADER_SIZE + i * 12;
        Some(
            Value {
                start: get_u32(plain, at, order),
                end: get_u32(plain, at + 4, order),
                value: get_u32(plain, at + 8, order),
            },
        )
    } else if kind == SECTION_VARIABLE_STEP {
        let at: usize = SECTION_HEADER_SIZE + i * 8;
        let start = get_u32(plain, at, order);
        let end = start as u64 + span as u64;
        if end > u32::MAX as u64 {
            None
        } else {
            Some(Value { start, end: end as u32, value: get_u32(plain, at + 4, order) })
        }
    } else {
        let at: usize = SECTION_HEADER_SIZE + i * 4;
        assert(i * step <= 0xffff * 0xffff_ffff) by (nonlinear_arith)
            requires
                i <= 0xffff,
                step <= 0xffff_ffff,
        ;
        let start = chrom_start as u64 + i as u64 * step as u64;
        let end = start + span as u64;
        if end > u32::MAX as u64 {
            None
        } else {
            Some(Value { start: start as u32, end: end as u32, value: get_u32(plain, at, order) })
        }
    }
}

/// Reads the records of a section from its bytes before compression.
pub fn decode_block(plain: &Vec<u8>, order: Endianness) -> (r: Result<Vec<Value>, BigWigReadError>)
    ensures
        match r {
            Ok(values) => block_values(plain@, order) == Ok::<Seq<Value>, BigWigReadError>(
                values@,
            ),
            Err(e) => block_values(plain@, order) == Err::<Seq<Value>, BigWigReadError>(e),
        },
{
    if plain.len() < SECTION_HEADER_SIZE {
        return Err(BigWigReadError::Truncated);
    }
    let kind = plain[20];
    let count = get_u16(plain, 22, order);
    let mut values: Vec<Value> = Vec::new();
    assert(values@ =~= Seq::<Value>::empty());
    if count == 0 {
        return Ok(values);
    }
    if kind != SECTION_BEDGRAPH && kind != SECTION_VARIABLE_STEP && kind != SECTION_FIXED_STEP {
        return Err(BigWigReadError::UnknownSectionType(kind));
    }
    let size: usize = if kind == SECTION_BEDGRAPH {
        12
    } else if kind == SECTION_VARIABLE_STEP {
        8
    } else {
        4
    };
    assert(count * size <= 0xffff * 12) by (nonlinear_arith)
        requires
            count <= 0xffff,
            size <= 12,
    ;
    if plain.len() - SECTION_HEADER_SIZE < count as usize * size {
        return Err(BigWigReadError::Truncated);
    }
    let mut i: usize = 0;
    while i < count as usize
        invariant
            i <= count,
            count != 0,
            count == field_u16(plain@, 22, order),
            kind == plain@[20],
            plain.len() >= 24 + count * size,
            size == item_size(kind),
            kind == SECTION_BEDGRAPH || kind == SECTION_VARIABLE_STEP || kind
                == SECTION_FIXED_STEP,
            block_items(plain@, order, kind, i as nat) == Some(values@),
        decreases count - i,
    {
        assert((i + 1) * size <= count * size) by (nonlinear_arith)
            requires
                i + 1 <= count,
                size >= 0,
        ;
        match read_item(plain, order, kind, i) {
            Some(value) => {
                values.push(value);
            },
            None => {
                proof {
                    lemma_block_items_stop(plain@, order, kind, i as nat, count as nat);
                }
                return Err(BigWigReadError::Overflow);
            },
        }
        i = i + 1;
    }
    Ok(values)
}

/// Where a record has no reading, no longer run of records has one.
pub proof fn lemma_block_items_stop(plain: Seq<u8>, order: Endianness, kind: u8, i: nat, n: nat)
    requires
        i < n,
        block_item(plain, order, kind, i as int) is None,
    ensures
        block_items(plain, order, kind, n) is None,
    decreases n,
{
    if i < n - 1 {
        lemma_block_items_stop(plain, order, kind, i, (n - 1) as nat);
    }
}

/// The records of a section, from what a reader gets back from its payload: a payload
/// that does not inflate has none.
pub open spec fn payload_values(plain: Option<Seq<u8>>, order: Endianness) -> Result<
    Seq<Value>,
    BigWigReadError,
> {
    match plain {
        Some(bytes) => block_values(bytes, order),
        None => Err(BigWigReadError::BadCompression),
    }
}

/// Reads the records of a section from its payload, which is compressed where
/// `uncompress_buf_size` is not zero.
pub fn get_block_values(payload: &Vec<u8>, uncompress_buf_size: u32, order: Endianness) -> (r:
    Result<Vec<Value>, BigWigReadError>)
    ensures
        match r {
            Ok(values) => payload_values(
                payload_plain(uncompress_buf_size != 0, payload@),
                order,
            ) == Ok::<Seq<Value>, BigWigReadError>(values@),
            Err(e) => payload_values(payload_plain(uncompress_buf_size != 0, payload@), order)
                == Err::<Seq<Value>, BigWigReadError>(e),
        },
{
    if uncompress_buf_size == 0 {
        decode_block(payload, order)
    } else {
        match zlib_decompress(payload) {
            Ok(plain) => decode_block(&plain, order),
            Err(_) => Err(BigWigReadError::BadCompression),
        }
    }
}

/// The bytes of record `i` lie 12 bytes after those of the record before.
pub proof fn lemma_values_bytes_at(items: Seq<Value>, i: int)
    requires
        0 <= i < items.len(),
    ensures
        values_bytes(items).len() == 12 * items.len(),
        values_bytes(items).subrange(12 * i, 12 * i + 12) == value_bytes(items[i]),
    decreases items.len(),
{
    lemma_le_lens();
    lemma_section_bytes_len(items, 0);
    lemma_section_bytes_len(items.drop_last(), 0);
    let before = values_bytes(items.drop_last());
    let last = value_bytes(items.last());
    if i < items.len() - 1 {
        lemma_values_bytes_at(items.drop_last(), i);
        assert((before + last).subrange(12 * i, 12 * i + 12) =~= before.subrange(
            12 * i,
            12 * i + 12,
        ));
    } else {
        assert((before + last).subrange(12 * i, 12 * i + 12) =~= last);
    }
}

/// A reader finds in a primary section the fields that the writer put there.
pub proof fn lemma_section_fields(items: Seq<Value>, chrom_id: u32, i: int)
    requires
        0 <= i < items.len(),
    ensures
        block_item(section_bytes(items, chrom_id), Endianness::Little, SECTION_BEDGRAPH, i)
            == Some(items[i]),
{
    lemma_le_lens();
    lemma_values_bytes_at(items, i);
    let plain = section_bytes(items, chrom_id);
    let head = section_header_bytes(
        chrom_id,
        items.first().start,
        items.last().end,
        items.len() as u16,
    );
    let body = values_bytes(items);
    let v = items[i];
    assert(head.len() == 24);
    let at = 24 + 12 * i;
    let record = value_bytes(v);
    assert(plain.subrange(at, at + 12) =~= body.subrange(12 * i, 12 * i + 12));
    assert(plain.subrange(at, at + 4) =~= record.subrange(0, 4));
    assert(plain.subrange(at + 4, at + 8) =~= record.subrange(4, 8));
    assert(plain.subrange(at + 8, at + 12) =~= record.subrange(8, 12));
    assert(record.subrange(0, 4) =~= u32_le(v.start));
    assert(record.subrange(4, 8) =~= u32_le(v.end));
    assert(record.subrange(8, 12) =~= u32_le(v.value));
    lemma_u32_round_trip(v.start);
    lemma_u32_round_trip(v.end);
    lemma_u32_round_trip(v.value);
}

/// A reader finds in a primary section the first records that the writer put there.
pub proof fn lemma_section_items(items: Seq<Value>, chrom_id: u32, n: nat)
    requires
        n <= items.len(),
    ensures
        block_items(section_bytes(items, chrom_id), Endianness::Little, SECTION_BEDGRAPH, n)
            == Some(items.take(n as int)),
    decreases n,
{
    if n == 0 {
        assert(items.take(0) =~= Seq::<Value>::empty());
    } else {
        lemma_section_items(items, chrom_id, (n - 1) as nat);
        lemma_section_fields(items, chrom_id, n - 1);
        assert(items.take(n - 1).push(items[n - 1]) =~= items.take(n as int));
    }
}

/// Reading undoes writing: the records of a primary section are those it was made of.
pub proof fn lemma_decode_section(items: Seq<Value>, chrom_id: u32)
    requires
        1 <= items.len() <= u16::MAX,
    ensures
        block_values(section_bytes(items, chrom_id), Endianness::Little) == Ok::<
            Seq<Value>,
            BigWigReadError,
        >(items),
{
    lemma_le_lens();
    lemma_section_bytes_len(items, chrom_id);
    let plain = section_bytes(items, chrom_id);
    let count = items.len() as u16;
    let head = section_header_bytes(chrom_id, items.first().start, items.last().end, count);
    assert(head.len() == 24);
    assert(head[20] == 1u8);
    assert(plain[20] == head[20]);
    assert(plain.subrange(22, 24) =~= u16_le(count));
    lemma_u16_round_trip(count);
    lemma_section_items(items, chrom_id, items.len());
    assert(items.take(items.len() as int) =~= items);
}

/// A reader gets out of the primary section of a batch of records the records of the
/// batch, under the chromosome and with the extent of the batch, whether the section is
/// compressed or not.
pub proof fn lemma_section_read_back(
    section: SectionView,
    items: Seq<Value>,
    chrom_id: u32,
    compress: bool,
)
    requires
        1 <= items.len() <= u16::MAX,
        is_primary_section(section, items, chrom_id, compress),
    ensures
        payload_values(payload_plain(compress, section.data), Endianness::Little) == Ok::<
            Seq<Value>,
            BigWigReadError,
        >(items),
        section.chrom == chrom_id,
        section.start == items.first().start,
        section.end == items.last().end,
{
    lemma_decode_section(items, chrom_id);
}

/// Whether a payload is compressed changes nothing for the reader: of two payloads of the
/// same records, one compressed and one not, it reads the same records, which are those
/// that the payloads were made of.
pub proof fn lemma_compression_keeps_records(
    items: Seq<Value>,
    chrom_id: u32,
    plain_payload: Seq<u8>,
    compressed_payload: Seq<u8>,
)
    requires
        1 <= items.len() <= u16::MAX,
        payload_plain(false, plain_payload) == Some(section_bytes(items, chrom_id)),
        payload_plain(true, compressed_payload) == Some(section_bytes(items, chrom_id)),
    ensures
        payload_values(payload_plain(false, plain_payload), Endianness::Little)
            == payload_values(payload_plain(true, compressed_payload), Endianness::Little),
        payload_values(payload_plain(true, compressed_payload), Endianness::Little) == Ok::<
            Seq<Value>,
            BigWigReadError,
        >(items),
{
    lemma_decode_section(items, chrom_id);
}

/// The header of a file.
#[derive(Clone, Copy, Debug, PartialEq, Eq, Structural)]
pub struct BBIHeader {
    pub endianness: Endianness,
    pub version: u16,
    pub zoom_levels: u16,
    pub chromosome_tree_offset: u64,
    pub full_data_offset: u64,
    pub full_index_offset: u64,
    pub field_count: u16,
    pub defined_field_count: u16,
    pub auto_sql_offset: u64,
    pub total_summary_offset: u64,
    pub uncompress_buf_size: u32,
    pub reserved: u64,
}

/// The byte order that the first four bytes of a file show, if they are the magic number
/// in either order.
pub open spec fn file_order(file: Seq<u8>) -> Option<Endianness> {
    if file.len() < 4 {
        None
    } else if field_u32(file, 0, Endianness::Little) == BIGWIG_MAGIC_LTH {
        Some(Endianness::Little)
    } else if field_u32(file, 0, Endianness::Little) == BIGWIG_MAGIC_HTL {
        Some(Endianness::Big)
    } else {
        None
    }
}

/// The header that the first 64 bytes of a file spell in the byte order `order`.
pub open spec fn header_of(file: Seq<u8>, order: Endianness) -> BBIHeader {
    BBIHeader {
        endianness: order,
        version: field_u16(file, 4, order),
        zoom_levels: field_u16(file, 6, order),
        chromosome_tree_offset: field_u64(file, 8, order),
        full_data_offset: field_u64(file, 16, order),
        full_index_offset: field_u64(file, 24, order),
        field_count: field_u16(file, 32, order),
        defined_field_count: field_u16(file, 34, order),
        auto_sql_offset: field_u64(file, 36, order),
        total_summary_offset: field_u64(file, 44, order),
        uncompress_buf_size: field_u32(file, 52, order),
        reserved: field_u64(file, 56, order),
    }
}

/// What reading the header of a file gives.
pub open spec fn read_header_result(file: Seq<u8>) -> Result<BBIHeader, BigWigReadError> {
    match file_order(file) {
        None => Err(
            if file.len() < 4 {
                BigWigReadError::Truncated
            } else {
                BigWigReadError::NotBigWig
            },
        ),
        Some(order) => if file.len() < 64 {
            Err(BigWigReadError::Truncated)
        } else {
            Ok(header_of(file, order))
        },
    }
}

/// Reads the header of a file.
pub fn read_header(file: &Vec<u8>) -> (r: Result<BBIHeader, BigWigReadError>)
    ensures
        r == read_header_result(file@),
{
    if file.len() < 4 {
        return Err(BigWigReadError::Truncated);
    }
    let magic = get_u32(file, 0, Endianness::Little);
    let order = if magic == BIGWIG_MAGIC_LTH {
        Endianness::Little
    } else if magic == BIGWIG_MAGIC_HTL {
        Endianness::Big
    } else {
        return Err(BigWigReadError::NotBigWig);
    };
    if file.len() < 64 {
        return Err(BigWigReadError::Truncated);
    }
    Ok(
        BBIHeader {
            endianness: order,
            version: get_u16(file, 4, order),
            zoom_levels: get_u16(file, 6, order),
            chromosome_tree_offset: get_u64(file, 8, order),
            full_data_offset: get_u64(file, 16, order),
            full_index_offset: get_u64(file, 24, order),
            field_count: get_u16(file, 32, order),
            defined_field_count: get_u16(file, 34, order),
            auto_sql_offset: get_u64(file, 36, order),
            total_summary_offset: get_u64(file, 44, order),
            uncompress_buf_size: get_u32(file, 52, order),
            reserved: get_u64(file, 56, order),
        },
    )
}

/// The zoom header at place `i` of a file.
pub open spec fn zoom_header_at(file: Seq<u8>, i: int, order: Endianness) -> ZoomHeader {
    ZoomHeader {
        reduction_level: field_u32(file, 64 + 24 * i, order),
        data_offset: field_u64(file, 64 + 24 * i + 8, order),
        index_offset: field_u64(file, 64 + 24 * i + 16, order),
    }
}

/// Reads the zoom headers of a file, as many as its header counts.
pub fn read_zoom_headers(file: &Vec<u8>, header: &BBIHeader) -> (r: Result<
    Vec<ZoomHeader>,
    BigWigReadError,
>)
    ensures
        match r {
            Ok(zooms) => {
                &&& file@.len() >= 64 + 24 * header.zoom_levels
                &&& zooms@.len() == header.zoom_levels
                &&& forall|i: int|
                    0 <= i < zooms@.len() ==> #[trigger] zooms@[i] == zoom_header_at(
                        file@,
                        i,
                        header.endianness,
                    )
            },
            Err(e) => e == BigWigReadError::Truncated && file@.len() < 64 + 24
                * header.zoom_levels,
        },
{
    let count = header.zoom_levels as usize;
    if file.len() < 64 || (file.len() - 64) / 24 < count {
        return Err(BigWigReadError::Truncated);
    }
    let mut zooms: Vec<ZoomHeader> = Vec::new();
    let mut i: usize = 0;
    while i < count
        invariant
            i <= count,
            count == header.zoom_levels,
            file.len() >= 64 + 24 * count,
            zooms@.len() == i,
            forall|k: int|
                0 <= k < i ==> #[trigger] zooms@[k] == zoom_header_at(
                    file@,
                    k,
                    header.endianness,
                ),
        decreases count - i,
    {
        let at: usize = 64 + 24 * i;
        zooms.push(
            ZoomHeader {
                reduction_level: get_u32(file, at, header.endianness),
                data_offset: get_u64(file, at + 8, header.endianness),
                index_offset: get_u64(file, at + 16, header.endianness),
            },
        );
        i = i + 1;
    }
    Ok(zooms)
}

/// Which of two positions comes first: -1 where it is the first, 1 where it is the
/// second, 0 where they are the same. Positions go by chromosome, then by base.
pub fn compare_position(chrom1: u32, chrom1_base: u32, chrom2: u32, chrom2_base: u32) -> (r: i8)
    ensures
        r == position_order(chrom1, chrom1_base, chrom2, chrom2_base),
{
    if chrom1 < chrom2 {
        -1
    } else if chrom1 > chrom2 {
        1
    } else if chrom1_base < chrom2_base {
        -1
    } else if chrom1_base > chrom2_base {
        1
    } else {
        0
    }
}

/// The order of two positions.
pub open spec fn position_order(chrom1: u32, chrom1_base: u32, chrom2: u32, chrom2_base: u32)
    -> i8 {
    if chrom1 < chrom2 || (chrom1 == chrom2 && chrom1_base < chrom2_base) {
        -1i8
    } else if chrom1 == chrom2 && chrom1_base == chrom2_base {
        0i8
    } else {
        1i8
    }
}

/// Whether the bases `chromq_start..chromq_end` of chromosome `chromq` touch the
/// interval from base `chromb1_start` of chromosome `chromb1` to base `chromb2_end` of
/// chromosome `chromb2`.
pub open spec fn interval_overlaps(
    chromq: u32,
    chromq_start: u32,
    chromq_end: u32,
    chromb1: u32,
    chromb1_start: u32,
    chromb2: u32,
    chromb2_end: u32,
) -> bool {
    position_order(chromq, chromq_start, chromb2, chromb2_end) <= 0 && position_order(
        chromq,
        chromq_end,
        chromb1,
        chromb1_start,
    ) >= 0
}

/// Whether a query touches an interval of the index: it starts no later than the
/// interval ends, and ends no earlier than the interval starts.
pub fn overlaps(
    chromq: u32,
    chromq_start: u32,
    chromq_end: u32,
    chromb1: u32,
    chromb1_start: u32,
    chromb2: u32,
    chromb2_end: u32,
) -> (r: bool)
    ensures
        r == interval_overlaps(
            chromq,
            chromq_start,
            chromq_end,
            chromb1,
            chromb1_start,
            chromb2,
            chromb2_end,
        ),
{
    compare_position(chromq, chromq_start, chromb2, chromb2_end) <= 0 && compare_position(
        chromq,
        chromq_end,
        chromb1,
        chromb1_start,
    ) >= 0
}

/// A section of a file: where it lies and how many bytes it takes.
#[derive(Clone, Copy, Debug, PartialEq, Eq, Structural)]
pub struct Block {
    pub offset: u64,
    pub size: u64,
}

/// The bases `start..end` of one chromosome, as a reader asks for them.
#[derive(Clone, Copy, Debug, PartialEq, Eq, Structural)]
pub struct Query {
    pub chrom: u32,
    pub start: u32,
    pub end: u32,
}

/// How deep a reader follows an index: no index over 64-bit offsets is nested deeper.
pub const MAX_INDEX_DEPTH: u32 = 64;

/// Whether the entry at `e` of an index touches the query.
pub open spec fn entry_overlaps(file: Seq<u8>, e: int, q: Query, order: Endianness) -> bool {
    interval_overlaps(
        q.chrom,
        q.start,
        q.end,
        field_u32(file, e, order),
        field_u32(file, e + 4, order),
        field_u32(file, e + 8, order),
        field_u32(file, e + 12, order),
    )
}

/// The sections that the first `n` entries of the block of leaves at `at` point at, as
/// far as they touch the query.
pub open spec fn leaf_blocks(file: Seq<u8>, at: int, n: nat, q: Query, order: Endianness) -> Seq<
    Block,
>
    decreases n,
{
    if n == 0 {
        Seq::empty()
    } else {
        let before = leaf_blocks(file, at, (n - 1) as nat, q, order);
        let e = at + 4 + 32 * (n - 1);
        if entry_overlaps(file, e, q, order) {
            before.push(
                Block {
                    offset: field_u64(file, e + 16, order),
                    size: field_u64(file, e + 24, order),
                },
            )
        } else {
            before
        }
    }
}

/// The blocks that the first `n` entries of the block of nodes at `at` point at, as far
/// as they touch the query.
pub open spec fn child_offsets(file: Seq<u8>, at: int, n: nat, q: Query, order: Endianness)
    -> Seq<u64>
    decreases n,
{
    if n == 0 {
        Seq::empty()
    } else {
        let before = child_offsets(file, at, (n - 1) as nat, q, order);
        let e = at + 4 + 24 * (n - 1);
        if entry_overlaps(file, e, q, order) {
            before.push(field_u64(file, e + 16, order))
        } else {
            before
        }
    }
}

/// The sections that touch the query, from the block at `at` and the blocks below it, no
/// more than `fuel` levels down; or why they cannot be had.
pub open spec fn found_blocks(file: Seq<u8>, at: int, q: Query, order: Endianness, fuel: nat)
    -> Result<Seq<Block>, BigWigReadError>
    decreases fuel, 0nat,
{
    if at + 4 > file.len() {
        Err(BigWigReadError::Truncated)
    } else {
        let count = field_u16(file, at + 2, order);
        if file[at] == 1 {
            if at + 4 + 32 * count > file.len() {
                Err(BigWigReadError::Truncated)
            } else {
                Ok(leaf_blocks(file, at, count as nat, q, order))
            }
        } else if file[at] == 0 {
            if at + 4 + 24 * count > file.len() {
                Err(BigWigReadError::Truncated)
            } else if fuel == 0 {
                Err(BigWigReadError::TooDeep)
            } else {
                found_below(
                    file,
                    child_offsets(file, at, count as nat, q, order),
                    q,
                    order,
                    (fuel - 1) as nat,
                )
            }
        } else {
            Err(BigWigReadError::BadIndex)
        }
    }
}

/// The sections that touch the query from each of the blocks at `children` in turn.
pub open spec fn found_below(
    file: Seq<u8>,
    children: Seq<u64>,
    q: Query,
    order: Endianness,
    fuel: nat,
) -> Result<Seq<Block>, BigWigReadError>
    decreases fuel, children.len() + 1,
{
    if children.len() == 0 {
        Ok(Seq::empty())
    } else {
        match found_below(file, children.drop_last(), q, order, fuel) {
            Err(e) => Err(e),
            Ok(before) => match found_blocks(file, children.last() as int, q, order, fuel) {
                Err(e) => Err(e),
                Ok(more) => Ok(before + more),
            },
        }
    }
}

/// Reads the entries of the block of leaves at `at` that touch the query.
fn read_leaf_blocks(file: &Vec<u8>, at: usize, count: u16, q: Query, order: Endianness) -> (r:
    Vec<Block>)
    requires
        at + 4 + 32 * count <= file.len(),
    ensures
        r@ == leaf_blocks(file@, at as int, count as nat, q, order),
{
    let mut blocks: Vec<Block> = Vec::new();
    let mut i: usize = 0;
    while i < count as usize
        invariant
            i <= count,
            at + 4 + 32 * count <= file.len(),
            blocks@ == leaf_blocks(file@, at as int, i as nat, q, order),
        decreases count - i,
    {
        let e: usize = at + 4 + 32 * i;
        if overlaps(
            q.chrom,
            q.start,
            q.end,
            get_u32(file, e, order),
            get_u32(file, e + 4, order),
            get_u32(file, e + 8, order),
            get_u32(file, e + 12, order),
        ) {
            blocks.push(
                Block { offset: get_u64(file, e + 16, order), size: get_u64(file, e + 24, order) },
            );
        }
        i = i + 1;
    }
    blocks
}

/// Reads the entries of the block of nodes at `at` that touch the query.
fn read_child_offsets(file: &Vec<u8>, at: usize, count: u16, q: Query, order: Endianness) -> (r:
    Vec<u64>)
    requires
        at + 4 + 24 * count <= file.len(),
    ensures
        r@ == child_offsets(file@, at as int, count as nat, q, order),
{
    let mut children: Vec<u64> = Vec::new();
    let mut i: usize = 0;
    while i < count as usize
        invariant
            i <= count,
            at + 4 + 24 * count <= file.len(),
            children@ == child_offsets(file@, at as int, i as nat, q, order),
        decreases count - i,
    {
        let e: usize = at + 4 + 24 * i;
        if overlaps(
            q.chrom,
            q.start,
            q.end,
            get_u32(file, e, order),
            get_u32(file, e + 4, order),
            get_u32(file, e + 8, order),
            get_u32(file, e + 12, order),
        ) {
            children.push(get_u64(file, e + 16, order));
        }
        i = i + 1;
    }
    children
}

/// Collects the sections that touch the query, from the block at `at` and the blocks
/// below it, no more than `fuel` levels down. What it finds it adds to `blocks`, in the
/// order of the index.
pub fn search_overlapping_blocks(
    file: &Vec<u8>,
    at: u64,
    q: Query,
    order: Endianness,
    fuel: u32,
    blocks: &mut Vec<Block>,
) -> (r: Result<(), BigWigReadError>)
    ensures
        match found_blocks(file@, at as int, q, order, fuel as nat) {
            Ok(found) => r is Ok && final(blocks)@ == old(blocks)@ + found,
            Err(e) => r == Err::<(), BigWigReadError>(e),
        },
    decreases fuel,
{
    let len = file.len();
    if at > usize::MAX as u64 || len < 4 || at as usize > len - 4 {
        return Err(BigWigReadError::Truncated);
    }
    let ghost place = at as int;
    let pos: usize = at as usize;
    let isleaf = file[pos];
    let count = get_u16(file, pos + 2, order);
    let room: usize = file.len() - 4 - pos;
    if isleaf == 1 {
        if room / 32 < count as usize {
            return Err(BigWigReadError::Truncated);
        }
        let mut found = read_leaf_blocks(file, pos, count, q, order);
        blocks.append(&mut found);
        Ok(())
    } else if isleaf == 0 {
        if room / 24 < count as usize {
            return Err(BigWigReadError::Truncated);
        }
        if fuel == 0 {
            return Err(BigWigReadError::TooDeep);
        }
        let children = read_child_offsets(file, pos, count, q, order);
        let ghost all = children@;
        let mut i: usize = 0;
        assert(all.take(0) =~= Seq::<u64>::empty());
        assert(blocks@ =~= old(blocks)@ + Seq::<Block>::empty());
        while i < children.len()
            invariant
                i <= children.len(),
                all == children@,
                fuel > 0,
                place == at,
                place + 4 + 24 * count <= file@.len(),
                file@[place] == 0,
                count == field_u16(file@, place + 2, order),
                all == child_offsets(file@, place, count as nat, q, order),
                found_below(file@, all.take(i as int), q, order, (fuel - 1) as nat) matches Ok(
                    found,
                ) && blocks@ == old(blocks)@ + found,
            decreases children.len() - i,
        {
            let ghost before = found_below(
                file@,
                all.take(i as int),
                q,
                order,
                (fuel - 1) as nat,
            )->Ok_0;
            proof {
                assert(all.take(i + 1).drop_last() =~= all.take(i as int));
                assert(all.take(i + 1).last() == children@[i as int]);
            }
            match search_overlapping_blocks(file, children[i], q, order, fuel - 1, blocks) {
                Ok(()) => {
                    proof {
                        let more = found_blocks(
                            file@,
                            children@[i as int] as int,
                            q,
                            order,
                            (fuel - 1) as nat,
                        )->Ok_0;
                        assert(old(blocks)@ + before + more =~= old(blocks)@ + (before + more));
                    }
                },
                Err(e) => {
                    proof {
                        let less = (fuel - 1) as nat;
                        assert(found_blocks(file@, children@[i as int] as int, q, order, less)
                            == Err::<Seq<Block>, BigWigReadError>(e));
                        assert(found_below(file@, all.take(i + 1), q, order, less) == Err::<
                            Seq<Block>,
                            BigWigReadError,
                        >(e));
                        lemma_found_below_fails(file@, all, i + 1, q, order, less);
                        assert(found_blocks(file@, place, q, order, fuel as nat) == found_below(
                            file@,
                            all,
                            q,
                            order,
                            less,
                        ));
                    }
                    return Err(e);
                },
            }
            i = i + 1;
        }
        assert(all.take(children.len() as int) =~= all);
        Ok(())
    } else {
        Err(BigWigReadError::BadIndex)
    }
}

/// Where the first blocks cannot be searched, no more blocks can: the error is that of
/// the first blocks.
pub proof fn lemma_found_below_fails(
    file: Seq<u8>,
    children: Seq<u64>,
    n: int,
    q: Query,
    order: Endianness,
    fuel: nat,
)
    requires
        0 <= n <= children.len(),
        found_below(file, children.take(n), q, order, fuel) is Err,
    ensures
        found_below(file, children, q, order, fuel) == found_below(
            file,
            children.take(n),
            q,
            order,
            fuel,
        ),
    decreases children.len() - n,
{
    if n < children.len() {
        assert(children.take(n + 1).drop_last() =~= children.take(n));
        lemma_found_below_fails(file, children, n + 1, q, order, fuel);
    } else {
        assert(children.take(n) =~= children);
    }
}

/// What a search of the index at `index_at` gives: the sections that touch the query, or
/// why they cannot be had.
pub open spec fn searched(file: Seq<u8>, index_at: int, q: Query, order: Endianness) -> Result<
    Seq<Block>,
    BigWigReadError,
> {
    if index_at + 48 > file.len() {
        Err(BigWigReadError::Truncated)
    } else if field_u32(file, index_at, order) != CIR_TREE_MAGIC {
        Err(BigWigReadError::BadIndex)
    } else {
        found_blocks(file, index_at + 48, q, order, MAX_INDEX_DEPTH as nat)
    }
}

/// Searches the index at `index_at` for the sections that touch the query.
pub fn search_cir_tree(file: &Vec<u8>, index_at: u64, q: Query, order: Endianness) -> (r: Result<
    Vec<Block>,
    BigWigReadError,
>)
    ensures
        match r {
            Ok(blocks) => searched(file@, index_at as int, q, order) == Ok::<
                Seq<Block>,
                BigWigReadError,
            >(blocks@),
            Err(e) => searched(file@, index_at as int, q, order) == Err::<
                Seq<Block>,
                BigWigReadError,
            >(e),
        },
{
    let len = file.len();
    if index_at > usize::MAX as u64 || len < 48 || index_at as usize > len - 48 {
        return Err(BigWigReadError::Truncated);
    }
    if get_u32(file, index_at as usize, order) != CIR_TREE_MAGIC {
        return Err(BigWigReadError::BadIndex);
    }
    let mut blocks: Vec<Block> = Vec::new();
    match search_overlapping_blocks(file, index_at + 48, q, order, MAX_INDEX_DEPTH, &mut blocks) {
        Ok(()) => {
            assert(blocks@ =~= found_blocks(
                file@,
                index_at + 48,
                q,
                order,
                MAX_INDEX_DEPTH as nat,
            )->Ok_0);
            Ok(blocks)
        },
        Err(e) => Err(e),
    }
}

/// An entry of the chromosome index as the file holds it.
pub struct ChromRaw {
    pub key: Seq<u8>,
    pub id: u32,
    pub length: u32,
}

/// An entry of the chromosome index, read but not yet named.
pub struct RawChrom {
    pub key: Vec<u8>,
    pub id: u32,
    pub length: u32,
}

impl View for RawChrom {
    type V = ChromRaw;

    open spec fn view(&self) -> ChromRaw {
        ChromRaw { key: self.key@, id: self.id, length: self.length }
    }
}

/// Entries as the file holds them.
pub open spec fn raw_views(raws: Seq<RawChrom>) -> Seq<ChromRaw> {
    raws.map_values(|r: RawChrom| r@)
}

/// The first `n` entries of the leaf block at `at` of a chromosome index with keys of
/// `key_size` bytes.
pub open spec fn chrom_leaf_entries(
    file: Seq<u8>,
    at: int,
    key_size: int,
    n: nat,
    order: Endianness,
) -> Seq<ChromRaw>
    decreases n,
{
    if n == 0 {
        Seq::empty()
    } else {
        let e = at + 4 + (key_size + 8) * (n - 1);
        chrom_leaf_entries(file, at, key_size, (n - 1) as nat, order).push(
            ChromRaw {
                key: file.subrange(e, e + key_size),
                id: field_u32(file, e + key_size, order),
                length: field_u32(file, e + key_size + 4, order),
            },
        )
    }
}

/// The blocks that the first `n` entries of the block of nodes at `at` of a chromosome
/// index point at.
pub open spec fn chrom_child_offsets(
    file: Seq<u8>,
    at: int,
    key_size: int,
    n: nat,
    order: Endianness,
) -> Seq<u64>
    decreases n,
{
    if n == 0 {
        Seq::empty()
    } else {
        let e = at + 4 + (key_size + 8) * (n - 1);
        chrom_child_offsets(file, at, key_size, (n - 1) as nat, order).push(
            field_u64(file, e + key_size, order),
        )
    }
}

/// The entries of the chromosome index from the block at `at` and the blocks below it,
/// no more than `fuel` levels down; or why they cannot be had.
pub open spec fn chrom_block(file: Seq<u8>, at: int, key_size: int, order: Endianness, fuel: nat)
    -> Result<Seq<ChromRaw>, BigWigReadError>
    decreases fuel, 0nat,
{
    if at + 4 > file.len() {
        Err(BigWigReadError::Truncated)
    } else {
        let count = field_u16(file, at + 2, order);
        if at + 4 + (key_size + 8) * count > file.len() {
            Err(BigWigReadError::Truncated)
        } else if file[at] == 1 {
            Ok(chrom_leaf_entries(file, at, key_size, count as nat, order))
        } else if fuel == 0 {
            Err(BigWigReadError::TooDeep)
        } else {
            chrom_below(
                file,
                chrom_child_offsets(file, at, key_size, count as nat, order),
                key_size,
                order,
                (fuel - 1) as nat,
            )
        }
    }
}

/// The entries of the chromosome index from each of the blocks at `children` in turn.
pub open spec fn chrom_below(
    file: Seq<u8>,
    children: Seq<u64>,
    key_size: int,
    order: Endianness,
    fuel: nat,
) -> Result<Seq<ChromRaw>, BigWigReadError>
    decreases fuel, children.len() + 1,
{
    if children.len() == 0 {
        Ok(Seq::empty())
    } else {
        match chrom_below(file, children.drop_last(), key_size, order, fuel) {
            Err(e) => Err(e),
            Ok(before) => match chrom_block(file, children.last() as int, key_size, order, fuel) {
                Err(e) => Err(e),
                Ok(more) => Ok(before + more),
            },
        }
    }
}

/// Where the first blocks cannot be read, no more blocks can: the error is that of the
/// first blocks.
pub proof fn lemma_chrom_below_fails(
    file: Seq<u8>,
    children: Seq<u64>,
    n: int,
    key_size: int,
    order: Endianness,
    fuel: nat,
)
    requires
        0 <= n <= children.len(),
        chrom_below(file, children.take(n), key_size, order, fuel) is Err,
    ensures
        chrom_below(file, children, key_size, order, fuel) == chrom_below(
            file,
            children.take(n),
            key_size,
            order,
            fuel,
        ),
    decreases children.len() - n,
{
    if n < children.len() {
        assert(children.take(n + 1).drop_last() =~= children.take(n));
        lemma_chrom_below_fails(file, children, n + 1, key_size, order, fuel);
    } else {
        assert(children.take(n) =~= children);
    }
}

/// Reads the entries of the chromosome index from the block at `at` and the blocks below
/// it, no more than `fuel` levels down, and adds them to `chroms` in the order of the
/// index.
pub fn read_chrom_tree_block(
    file: &Vec<u8>,
    at: u64,
    key_size: u32,
    order: Endianness,
    fuel: u32,
    chroms: &mut Vec<RawChrom>,
) -> (r: Result<(), BigWigReadError>)
    ensures
        match chrom_block(file@, at as int, key_size as int, order, fuel as nat) {
            Ok(found) => r is Ok && raw_views(final(chroms)@) == raw_views(old(chroms)@) + found,
            Err(e) => r == Err::<(), BigWigReadError>(e),
        },
    decreases fuel,
{
    let len = file.len();
    if at > usize::MAX as u64 || len < 4 || at as usize > len - 4 {
        return Err(BigWigReadError::Truncated);
    }
    let ghost place = at as int;
    let ghost width = key_size as int;
    let pos: usize = at as usize;
    let isleaf = file[pos];
    let count = get_u16(file, pos + 2, order);
    let entry: u64 = key_size as u64 + 8;
    assert(entry * count <= 0x1_0000_0008 * 0xffff) by (nonlinear_arith)
        requires
            entry <= 0x1_0000_0008,
            count <= 0xffff,
    ;
    if ((len - 4 - pos) as u64) < entry * count as u64 {
        return Err(BigWigReadError::Truncated);
    }
    if isleaf == 1 {
        let mut i: usize = 0;
        assert(raw_views(chroms@) =~= raw_views(old(chroms)@) + Seq::<ChromRaw>::empty());
        while i < count as usize
            invariant
                i <= count,
                place == pos,
                width == key_size,
                entry == width + 8,
                place + 4 + (width + 8) * count <= file.len(),
                raw_views(chroms@) == raw_views(old(chroms)@) + chrom_leaf_entries(
                    file@,
                    place,
                    width,
                    i as nat,
                    order,
                ),
            decreases count - i,
        {
            assert((width + 8) * i + (width + 8) <= (width + 8) * count) by (nonlinear_arith)
                requires
                    i + 1 <= count,
                    width >= 0,
            ;
            let e: usize = pos + 4 + (entry * i as u64) as usize;
            let key = copy_range(file, e, e + key_size as usize);
            let raw = RawChrom {
                key,
                id: get_u32(file, e + key_size as usize, order),
                length: get_u32(file, e + key_size as usize + 4, order),
            };
            let ghost before = chroms@;
            chroms.push(raw);
            assert(raw_views(chroms@) =~= raw_views(before).push(raw@));
            i = i + 1;
        }
        Ok(())
    } else {
        if fuel == 0 {
            return Err(BigWigReadError::TooDeep);
        }
        let mut children: Vec<u64> = Vec::new();
        let mut k: usize = 0;
        while k < count as usize
            invariant
                k <= count,
                place == pos,
                width == key_size,
                entry == width + 8,
                place + 4 + (width + 8) * count <= file.len(),
                children@ == chrom_child_offsets(file@, place, width, k as nat, order),
            decreases count - k,
        {
            assert((width + 8) * k + (width + 8) <= (width + 8) * count) by (nonlinear_arith)
                requires
                    k + 1 <= count,
                    width >= 0,
            ;
            let e: usize = pos + 4 + (entry * k as u64) as usize;
            children.push(get_u64(file, e + key_size as usize, order));
            k = k + 1;
        }
        let ghost all = children@;
        let mut i: usize = 0;
        assert(all.take(0) =~= Seq::<u64>::empty());
        assert(raw_views(chroms@) =~= raw_views(old(chroms)@) + Seq::<ChromRaw>::empty());
        while i < children.len()
            invariant
                i <= children.len(),
                all == children@,
                fuel > 0,
                place == at,
                width == key_size,
                place + 4 <= file@.len(),
                place + 4 + (width + 8) * count <= file@.len(),
                file@[place] != 1,
                count == field_u16(file@, place + 2, order),
                all == chrom_child_offsets(file@, place, width, count as nat, order),
                chrom_below(file@, all.take(i as int), width, order, (fuel - 1) as nat) matches Ok(
                    found,
                ) && raw_views(chroms@) == raw_views(old(chroms)@) + found,
            decreases children.len() - i,
        {
            let ghost less = (fuel - 1) as nat;
            let ghost before = chrom_below(file@, all.take(i as int), width, order, less)->Ok_0;
            proof {
                assert(all.take(i + 1).drop_last() =~= all.take(i as int));
                assert(all.take(i + 1).last() == children@[i as int]);
            }
            match read_chrom_tree_block(file, children[i], key_size, order, fuel - 1, chroms) {
                Ok(()) => {
                    proof {
                        let more = chrom_block(
                            file@,
                            children@[i as int] as int,
                            width,
                            order,
                            less,
                        )->Ok_0;
                        assert(raw_views(old(chroms)@) + before + more =~= raw_views(
                            old(chroms)@,
                        ) + (before + more));
                    }
                },
                Err(e) => {
                    proof {
                        assert(chrom_block(file@, children@[i as int] as int, width, order, less)
                            == Err::<Seq<ChromRaw>, BigWigReadError>(e));
                        assert(chrom_below(file@, all.take(i + 1), width, order, less) == Err::<
                            Seq<ChromRaw>,
                            BigWigReadError,
                        >(e));
                        lemma_chrom_below_fails(file@, all, i + 1, width, order, less);
                        assert(chrom_block(file@, place, width, order, fuel as nat)
                            == chrom_below(file@, all, width, order, less));
                    }
                    return Err(e);
                },
            }
            i = i + 1;
        }
        assert(all.take(children.len() as int) =~= all);
        Ok(())
    }
}

/// The first place from `from` on at which a key holds a byte that is not zero, or its
/// length.
pub open spec fn key_start(key: Seq<u8>, from: int) -> int
    decreases key.len() - from,
{
    if from < 0 || from >= key.len() {
        key.len() as int
    } else if key[from] != 0 {
        from
    } else {
        key_start(key, from + 1)
    }
}

/// The place after the last byte before `upto` of a key that is not zero, or zero.
pub open spec fn key_end(key: Seq<u8>, upto: int) -> int
    decreases upto,
{
    if upto <= 0 || upto > key.len() {
        0
    } else if key[upto - 1] != 0 {
        upto
    } else {
        key_end(key, upto - 1)
    }
}

/// A key without the zero bytes around it.
pub open spec fn trimmed_key(key: Seq<u8>) -> Seq<u8> {
    let start = key_start(key, 0);
    let end = key_end(key, key.len() as int);
    if start < end {
        key.subrange(start, end)
    } else {
        Seq::empty()
    }
}

/// The chromosome that an entry names, where its key is text.
pub open spec fn named_chrom(raw: ChromRaw) -> Option<ChromView> {
    if valid_utf8(trimmed_key(raw.key)) {
        Some(ChromView { name: decode_utf8(trimmed_key(raw.key)), id: raw.id, length: raw.length })
    } else {
        None
    }
}

/// The chromosomes that entries name, where all their keys are text.
pub open spec fn named_chroms(raws: Seq<ChromRaw>) -> Option<Seq<ChromView>>
    decreases raws.len(),
{
    if raws.len() == 0 {
        Some(Seq::empty())
    } else {
        match (named_chroms(raws.drop_last()), named_chrom(raws.last())) {
            (Some(before), Some(chrom)) => Some(before.push(chrom)),
            _ => None,
        }
    }
}

/// Makes text of bytes.
///
/// Rests on `String::from_utf8`, which gives the text that the bytes encode in UTF-8, and
/// an error where they encode none.
#[verifier::external_body]
pub(crate) fn string_from_utf8(bytes: Vec<u8>) -> (r: Option<String>)
    ensures
        match r {
            Some(text) => valid_utf8(bytes@) && text@ == decode_utf8(bytes@),
            None => !valid_utf8(bytes@),
        },
{
    String::from_utf8(bytes).ok()
}

/// Reads the name that a key holds.
pub fn name_of_key(key: &Vec<u8>) -> (r: Option<String>)
    ensures
        match r {
            Some(name) => valid_utf8(trimmed_key(key@)) && name@ == decode_utf8(
                trimmed_key(key@),
            ),
            None => !valid_utf8(trimmed_key(key@)),
        },
{
    let mut start: usize = 0;
    while start < key.len() && key[start] == 0
        invariant
            start <= key.len(),
            key_start(key@, 0) == key_start(key@, start as int),
        decreases key.len() - start,
    {
        start = start + 1;
    }
    let mut end: usize = key.len();
    while end > 0 && key[end - 1] == 0
        invariant
            end <= key.len(),
            key_end(key@, key@.len() as int) == key_end(key@, end as int),
        decreases end,
    {
        end = end - 1;
    }
    let bytes = if start < end {
        copy_range(key, start, end)
    } else {
        Vec::new()
    };
    assert(bytes@ =~= trimmed_key(key@));
    string_from_utf8(bytes)
}

/// Names the chromosomes of entries. There are none where a key is no text.
pub fn name_chroms(raws: &Vec<RawChrom>) -> (r: Result<Vec<ChromInfo>, BigWigReadError>)
    ensures
        match named_chroms(raw_views(raws@)) {
            Some(views) => r matches Ok(chroms) && chrom_views(chroms@) == views,
            None => r matches Err(e) && e == BigWigReadError::BadName,
        },
{
    let ghost all = raw_views(raws@);
    let mut chroms: Vec<ChromInfo> = Vec::new();
    let mut i: usize = 0;
    assert(all.take(0) =~= Seq::<ChromRaw>::empty());
    assert(chrom_views(chroms@) =~= Seq::<ChromView>::empty());
    while i < raws.len()
        invariant
            i <= raws.len(),
            all == raw_views(raws@),
            named_chroms(all.take(i as int)) == Some(chrom_views(chroms@)),
        decreases raws.len() - i,
    {
        proof {
            assert(all.take(i + 1).drop_last() =~= all.take(i as int));
            assert(all.take(i + 1).last() == raws@[i as int]@);
        }
        match name_of_key(&raws[i].key) {
            Some(name) => {
                let ghost before = chroms@;
                let chrom = ChromInfo { name, id: raws[i].id, length: raws[i].length };
                chroms.push(chrom);
                assert(chrom_views(chroms@) =~= chrom_views(before).push(chrom@));
            },
            None => {
                proof {
                    lemma_named_chroms_fails(all, i + 1);
                }
                return Err(BigWigReadError::BadName);
            },
        }
        i = i + 1;
    }
    assert(all.take(raws.len() as int) =~= all);
    Ok(chroms)
}

/// Where the first entries do not all name a chromosome, no more entries do.
pub proof fn lemma_named_chroms_fails(raws: Seq<ChromRaw>, n: int)
    requires
        0 <= n <= raws.len(),
        named_chroms(raws.take(n)) is None,
    ensures
        named_chroms(raws) is None,
    decreases raws.len() - n,
{
    if n < raws.len() {
        assert(raws.take(n + 1).drop_last() =~= raws.take(n));
        lemma_named_chroms_fails(raws, n + 1);
    } else {
        assert(raws.take(n) =~= raws);
    }
}

/// What reading the chromosome index at `tree_at` gives: its entries, or why they cannot
/// be had.
pub open spec fn chrom_tree(file: Seq<u8>, tree_at: int, order: Endianness) -> Result<
    Seq<ChromRaw>,
    BigWigReadError,
> {
    if tree_at + 32 > file.len() {
        Err(BigWigReadError::Truncated)
    } else if field_u32(file, tree_at, order) != CHROM_TREE_MAGIC || field_u32(
        file,
        tree_at + 12,
        order,
    ) != 8 {
        Err(BigWigReadError::BadChromTree)
    } else {
        chrom_block(
            file,
            tree_at + 32,
            field_u32(file, tree_at + 8, order) as int,
            order,
            MAX_INDEX_DEPTH as nat,
        )
    }
}

/// Reads the entries of the chromosome index at `tree_at`.
pub fn read_chrom_tree(file: &Vec<u8>, tree_at: u64, order: Endianness) -> (r: Result<
    Vec<RawChrom>,
    BigWigReadError,
>)
    ensures
        match r {
            Ok(raws) => chrom_tree(file@, tree_at as int, order) == Ok::<
                Seq<ChromRaw>,
                BigWigReadError,
            >(raw_views(raws@)),
            Err(e) => chrom_tree(file@, tree_at as int, order) == Err::<
                Seq<ChromRaw>,
                BigWigReadError,
            >(e),
        },
{
    let len = file.len();
    if tree_at > usize::MAX as u64 || len < 32 || tree_at as usize > len - 32 {
        return Err(BigWigReadError::Truncated);
    }
    let at = tree_at as usize;
    if get_u32(file, at, order) != CHROM_TREE_MAGIC || get_u32(file, at + 12, order) != 8 {
        return Err(BigWigReadError::BadChromTree);
    }
    let key_size = get_u32(file, at + 8, order);
    let mut raws: Vec<RawChrom> = Vec::new();
    match read_chrom_tree_block(file, tree_at + 32, key_size, order, MAX_INDEX_DEPTH, &mut raws) {
        Ok(()) => {
            assert(raw_views(raws@) =~= chrom_block(
                file@,
                tree_at + 32,
                key_size as int,
                order,
                MAX_INDEX_DEPTH as nat,
            )->Ok_0);
            Ok(raws)
        },
        Err(e) => Err(e),
    }
}

/// What a file says of itself: its header, its zoom levels, its chromosomes.
pub struct BigWigInfo {
    pub header: BBIHeader,
    pub zoom_headers: Vec<ZoomHeader>,
    pub chrom_info: Vec<ChromInfo>,
}

/// Why a file does not say what it holds, if it does not: the first of its header, its
/// zoom headers, its chromosome index and the names in it that cannot be read.
pub open spec fn info_error(file: Seq<u8>) -> Option<BigWigReadError> {
    match read_header_result(file) {
        Err(e) => Some(e),
        Ok(header) => if file.len() < 64 + 24 * header.zoom_levels {
            Some(BigWigReadError::Truncated)
        } else {
            match chrom_tree(file, header.chromosome_tree_offset as int, header.endianness) {
                Err(e) => Some(e),
                Ok(raws) => if named_chroms(raws) is None {
                    Some(BigWigReadError::BadName)
                } else {
                    None
                },
            }
        },
    }
}

/// Whether `info` is what `file` says of itself.
pub open spec fn info_matches(info: BigWigInfo, file: Seq<u8>) -> bool {
    &&& read_header_result(file) == Ok::<BBIHeader, BigWigReadError>(info.header)
    &&& info.zoom_headers@.len() == info.header.zoom_levels
    &&& forall|i: int|
        0 <= i < info.zoom_headers@.len() ==> #[trigger] info.zoom_headers@[i] == zoom_header_at(
            file,
            i,
            info.header.endianness,
        )
    &&& chrom_tree(
        file,
        info.header.chromosome_tree_offset as int,
        info.header.endianness,
    ) matches Ok(raws)
    &&& named_chroms(raws) == Some(chrom_views(info.chrom_info@))
}

/// Reads what a file says of itself.
pub fn read_info(file: &Vec<u8>) -> (r: Result<BigWigInfo, BigWigReadError>)
    ensures
        match r {
            Ok(info) => info_error(file@) is None && info_matches(info, file@),
            Err(e) => info_error(file@) == Some(e),
        },
{
    let header = match read_header(file) {
        Ok(header) => header,
        Err(e) => {
            return Err(e);
        },
    };
    let zoom_headers = match read_zoom_headers(file, &header) {
        Ok(zooms) => zooms,
        Err(e) => {
            return Err(e);
        },
    };
    let raws = match read_chrom_tree(file, header.chromosome_tree_offset, header.endianness) {
        Ok(raws) => raws,
        Err(e) => {
            return Err(e);
        },
    };
    let chrom_info = match name_chroms(&raws) {
        Ok(chroms) => chroms,
        Err(e) => {
            return Err(e);
        },
    };
    Ok(BigWigInfo { header, zoom_headers, chrom_info })
}

/// The id of the first chromosome from place `from` on that is named `name`.
pub open spec fn chrom_id_from(chroms: Seq<ChromView>, name: Seq<char>, from: int) -> Option<u32>
    decreases chroms.len() - from,
{
    if from < 0 || from >= chroms.len() {
        None
    } else if chroms[from].name == name {
        Some(chroms[from].id)
    } else {
        chrom_id_from(chroms, name, from + 1)
    }
}

/// The bytes of a section, where the file holds all of them.
pub open spec fn block_payload(file: Seq<u8>, block: Block) -> Option<Seq<u8>> {
    if block.offset + block.size <= file.len() {
        Some(file.subrange(block.offset as int, block.offset + block.size))
    } else {
        None
    }
}

/// The records of a section of a file.
pub open spec fn block_records(file: Seq<u8>, block: Block, inflate: u32, order: Endianness)
    -> Result<Seq<Value>, BigWigReadError> {
    match block_payload(file, block) {
        None => Err(BigWigReadError::Truncated),
        Some(payload) => payload_values(payload_plain(inflate != 0, payload), order),
    }
}

/// The records of sections of a file, section after section.
pub open spec fn blocks_records(
    file: Seq<u8>,
    blocks: Seq<Block>,
    inflate: u32,
    order: Endianness,
) -> Result<Seq<Value>, BigWigReadError>
    decreases blocks.len(),
{
    if blocks.len() == 0 {
        Ok(Seq::empty())
    } else {
        match blocks_records(file, blocks.drop_last(), inflate, order) {
            Err(e) => Err(e),
            Ok(before) => match block_records(file, blocks.last(), inflate, order) {
                Err(e) => Err(e),
                Ok(more) => Ok(before + more),
            },
        }
    }
}

/// Where the first sections cannot be read, no more sections can.
pub proof fn lemma_blocks_records_fails(
    file: Seq<u8>,
    blocks: Seq<Block>,
    n: int,
    inflate: u32,
    order: Endianness,
)
    requires
        0 <= n <= blocks.len(),
        blocks_records(file, blocks.take(n), inflate, order) is Err,
    ensures
        blocks_records(file, blocks, inflate, order) == blocks_records(
            file,
            blocks.take(n),
            inflate,
            order,
        ),
    decreases blocks.len() - n,
{
    if n < blocks.len() {
        assert(blocks.take(n + 1).drop_last() =~= blocks.take(n));
        lemma_blocks_records_fails(file, blocks, n + 1, inflate, order);
    } else {
        assert(blocks.take(n) =~= blocks);
    }
}

/// A bigWig file that has been looked into.
pub struct BigWigRead {
    /// Where the file lies.
    pub path: String,
    /// What it says of itself.
    pub info: BigWigInfo,
}

impl BigWigRead {
    /// Looks into the file at `path`, whose bytes are `file`.
    pub fn from_file_and_attach(path: String, file: &Vec<u8>) -> (r: Result<
        Self,
        BigWigReadError,
    >)
        ensures
            match r {
                Ok(reader) => reader.path == path && info_error(file@) is None && info_matches(
                    reader.info,
                    file@,
                ),
                Err(e) => info_error(file@) == Some(e),
            },
    {
        match read_info(file) {
            Ok(info) => Ok(BigWigRead { path, info }),
            Err(e) => Err(e),
        }
    }

    /// The chromosomes of the file, in the order of its index.
    pub fn get_chroms(&self) -> (chroms: Vec<ChromAndSize>)
        ensures
            chroms@.len() == self.info.chrom_info@.len(),
            forall|i: int|
                0 <= i < chroms@.len() ==> (#[trigger] chroms@[i]).name@
                    == self.info.chrom_info@[i].name@ && chroms@[i].length
                    == self.info.chrom_info@[i].length,
    {
        let mut chroms: Vec<ChromAndSize> = Vec::new();
        let mut i: usize = 0;
        while i < self.info.chrom_info.len()
            invariant
                i <= self.info.chrom_info@.len(),
                chroms@.len() == i,
                forall|k: int|
                    0 <= k < i ==> (#[trigger] chroms@[k]).name@ == self.info.chrom_info@[k].name@
                        && chroms@[k].length == self.info.chrom_info@[k].length,
            decreases self.info.chrom_info@.len() - i,
        {
            let c = &self.info.chrom_info[i];
            chroms.push(ChromAndSize { name: c.name.clone(), length: c.length });
            i = i + 1;
        }
        chroms
    }

    /// Looks up the id of the chromosome `chrom_name`.
    pub fn chrom_id(&self, chrom_name: &String) -> (r: Option<u32>)
        ensures
            r == chrom_id_from(chrom_views(self.info.chrom_info@), chrom_name@, 0),
    {
        let ghost views = chrom_views(self.info.chrom_info@);
        let mut i: usize = 0;
        while i < self.info.chrom_info.len()
            invariant
                i <= self.info.chrom_info@.len(),
                views == chrom_views(self.info.chrom_info@),
                chrom_id_from(views, chrom_name@, 0) == chrom_id_from(
                    views,
                    chrom_name@,
                    i as int,
                ),
            decreases self.info.chrom_info@.len() - i,
        {
            if self.info.chrom_info[i].name == *chrom_name {
                return Some(self.info.chrom_info[i].id);
            }
            i = i + 1;
        }
        None
    }

    /// Finds the sections of `file` that touch the bases `start..end` of the chromosome
    /// `chrom_name`, in the order of the index.
    pub fn get_overlapping_blocks(
        &self,
        file: &Vec<u8>,
        chrom_name: &String,
        start: u32,
        end: u32,
    ) -> (r: Result<Vec<Block>, BigWigReadError>)
        ensures
            match chrom_id_from(chrom_views(self.info.chrom_info@), chrom_name@, 0) {
                None => r matches Err(e) && e == BigWigReadError::UnknownChromosome,
                Some(chrom) => match r {
                    Ok(blocks) => searched(
                        file@,
                        self.info.header.full_index_offset as int,
                        Query { chrom, start, end },
                        self.info.header.endianness,
                    ) == Ok::<Seq<Block>, BigWigReadError>(blocks@),
                    Err(e) => searched(
                        file@,
                        self.info.header.full_index_offset as int,
                        Query { chrom, start, end },
                        self.info.header.endianness,
                    ) == Err::<Seq<Block>, BigWigReadError>(e),
                },
            },
    {
        let chrom = match self.chrom_id(chrom_name) {
            Some(chrom) => chrom,
            None => {
                return Err(BigWigReadError::UnknownChromosome);
            },
        };
        search_cir_tree(
            file,
            self.info.header.full_index_offset,
            Query { chrom, start, end },
            self.info.header.endianness,
        )
    }

    /// Reads the records of one section of `file`.
    pub fn read_block(&self, file: &Vec<u8>, block: Block) -> (r: Result<
        Vec<Value>,
        BigWigReadError,
    >)
        ensures
            match r {
                Ok(values) => block_records(
                    file@,
                    block,
                    self.info.header.uncompress_buf_size,
                    self.info.header.endianness,
                ) == Ok::<Seq<Value>, BigWigReadError>(values@),
                Err(e) => block_records(
                    file@,
                    block,
                    self.info.header.uncompress_buf_size,
                    self.info.header.endianness,
                ) == Err::<Seq<Value>, BigWigReadError>(e),
            },
    {
        let len = file.len();
        if block.offset > len as u64 || block.size > len as u64 - block.offset {
            return Err(BigWigReadError::Truncated);
        }
        let from = block.offset as usize;
        let payload = copy_range(file, from, from + block.size as usize);
        get_block_values(
            &payload,
            self.info.header.uncompress_buf_size,
            self.info.header.endianness,
        )
    }

    /// Reads the records of `blocks`, section after section.
    pub fn read_blocks(&self, file: &Vec<u8>, blocks: &Vec<Block>) -> (r: Result<
        Vec<Value>,
        BigWigReadError,
    >)
        ensures
            match r {
                Ok(values) => blocks_records(
                    file@,
                    blocks@,
                    self.info.header.uncompress_buf_size,
                    self.info.header.endianness,
                ) == Ok::<Seq<Value>, BigWigReadError>(values@),
                Err(e) => blocks_records(
                    file@,
                    blocks@,
                    self.info.header.uncompress_buf_size,
                    self.info.header.endianness,
                ) == Err::<Seq<Value>, BigWigReadError>(e),
            },
    {
        let ghost inflate = self.info.header.uncompress_buf_size;
        let ghost order = self.info.header.endianness;
        let mut values: Vec<Value> = Vec::new();
        let mut i: usize = 0;
        assert(blocks@.take(0) =~= Seq::<Block>::empty());
        assert(values@ =~= Seq::<Value>::empty());
        while i < blocks.len()
            invariant
                i <= blocks.len(),
                inflate == self.info.header.uncompress_buf_size,
                order == self.info.header.endianness,
                blocks_records(file@, blocks@.take(i as int), inflate, order) == Ok::<
                    Seq<Value>,
                    BigWigReadError,
                >(values@),
            decreases blocks.len() - i,
        {
            let ghost before = values@;
            proof {
                assert(blocks@.take(i + 1).drop_last() =~= blocks@.take(i as int));
                assert(blocks@.take(i + 1).last() == blocks@[i as int]);
            }
            match self.read_block(file, blocks[i]) {
                Ok(mut more) => {
                    let ghost added = more@;
                    values.append(&mut more);
                    assert(blocks_records(file@, blocks@.take(i + 1), inflate, order) == Ok::<
                        Seq<Value>,
                        BigWigReadError,
                    >(before + added));
                },
                Err(e) => {
                    proof {
                        assert(blocks_records(file@, blocks@.take(i + 1), inflate, order) == Err::<
                            Seq<Value>,
                            BigWigReadError,
                        >(e));
                        lemma_blocks_records_fails(file@, blocks@, i + 1, inflate, order);
                    }
                    return Err(e);
                },
            }
            i = i + 1;
        }
        assert(blocks@.take(blocks.len() as int) =~= blocks@);
        Ok(values)
    }

    /// Reads the records of all sections of `file` that touch the bases `start..end` of
    /// the chromosome `chrom_name`, section after section.
    pub fn get_interval(&self, file: &Vec<u8>, chrom_name: &String, start: u32, end: u32) -> (r:
        Result<Vec<Value>, BigWigReadError>)
        ensures
            match chrom_id_from(chrom_views(self.info.chrom_info@), chrom_name@, 0) {
                None => r matches Err(e) && e == BigWigReadError::UnknownChromosome,
                Some(chrom) => match searched(
                    file@,
                    self.info.header.full_index_offset as int,
                    Query { chrom, start, end },
                    self.info.header.endianness,
                ) {
                    Err(e) => r == Err::<Vec<Value>, BigWigReadError>(e),
                    Ok(blocks) => match r {
                        Ok(values) => blocks_records(
                            file@,
                            blocks,
                            self.info.header.uncompress_buf_size,
                            self.info.header.endianness,
                        ) == Ok::<Seq<Value>, BigWigReadError>(values@),
                        Err(e) => blocks_records(
                            file@,
                            blocks,
                            self.info.header.uncompress_buf_size,
                            self.info.header.endianness,
                        ) == Err::<Seq<Value>, BigWigReadError>(e),
                    },
                },
            },
    {
        match self.get_overlapping_blocks(file, chrom_name, start, end) {
            Ok(blocks) => self.read_blocks(file, &blocks),
            Err(e) => Err(e),
        }
    }
}

/// A reader finds in the 64 bytes of a header the fields that the writer put there.
pub proof fn lemma_header_fields(
    zoom_levels: u16,
    chrom_tree_offset: u64,
    full_data_offset: u64,
    full_index_offset: u64,
    total_summary_offset: u64,
    uncompress_buf_size: u32,
)
    ensures
        ({
            let bytes = header_bytes(
                zoom_levels,
                chrom_tree_offset,
                full_data_offset,
                full_index_offset,
                total_summary_offset,
                uncompress_buf_size,
            );
            &&& bytes.len() == 64
            &&& file_order(bytes) == Some(Endianness::Little)
            &&& header_of(bytes, Endianness::Little) == (BBIHeader {
                endianness: Endianness::Little,
                version: BIGWIG_VERSION,
                zoom_levels,
                chromosome_tree_offset: chrom_tree_offset,
                full_data_offset,
                full_index_offset,
                field_count: 0,
                defined_field_count: 0,
                auto_sql_offset: 0,
                total_summary_offset,
                uncompress_buf_size,
                reserved: 0,
            })
        }),
{
    lemma_le_lens();
    let bytes = header_bytes(
        zoom_levels,
        chrom_tree_offset,
        full_data_offset,
        full_index_offset,
        total_summary_offset,
        uncompress_buf_size,
    );
    assert(bytes.len() == 64);
    assert(bytes.subrange(0, 4) =~= u32_le(BIGWIG_MAGIC_LTH));
    assert(bytes.subrange(4, 6) =~= u16_le(BIGWIG_VERSION));
    assert(bytes.subrange(6, 8) =~= u16_le(zoom_levels));
    assert(bytes.subrange(8, 16) =~= u64_le(chrom_tree_offset));
    assert(bytes.subrange(16, 24) =~= u64_le(full_data_offset));
    assert(bytes.subrange(24, 32) =~= u64_le(full_index_offset));
    assert(bytes.subrange(32, 34) =~= u16_le(0));
    assert(bytes.subrange(34, 36) =~= u16_le(0));
    assert(bytes.subrange(36, 44) =~= u64_le(0));
    assert(bytes.subrange(44, 52) =~= u64_le(total_summary_offset));
    assert(bytes.subrange(52, 56) =~= u32_le(uncompress_buf_size));
    assert(bytes.subrange(56, 64) =~= u64_le(0));
    lemma_u32_round_trip(BIGWIG_MAGIC_LTH);
    lemma_u16_round_trip(BIGWIG_VERSION);
    lemma_u16_round_trip(zoom_levels);
    lemma_u64_round_trip(chrom_tree_offset);
    lemma_u64_round_trip(full_data_offset);
    lemma_u64_round_trip(full_index_offset);
    lemma_u16_round_trip(0);
    lemma_u64_round_trip(0);
    lemma_u64_round_trip(total_summary_offset);
    lemma_u32_round_trip(uncompress_buf_size);
}

/// The header that a file starts with decides what a reader makes of the header of the
/// file.
pub proof fn lemma_header_of_prefix(file: Seq<u8>, header: Seq<u8>)
    requires
        header.len() == 64,
        file.len() >= 64,
        file.subrange(0, 64) == header,
    ensures
        read_header_result(file) == read_header_result(header),
{
    assert forall|a: int, b: int| 0 <= a <= b <= 64 implies #[trigger] file.subrange(a, b)
        == header.subrange(a, b) by {
        assert(file.subrange(a, b) =~= file.subrange(0, 64).subrange(a, b));
    }
    let _ = file.subrange(0, 4);
    let _ = file.subrange(4, 6);
    let _ = file.subrange(6, 8);
    let _ = file.subrange(8, 16);
    let _ = file.subrange(16, 24);
    let _ = file.subrange(24, 32);
    let _ = file.subrange(32, 34);
    let _ = file.subrange(34, 36);
    let _ = file.subrange(36, 44);
    let _ = file.subrange(44, 52);
    let _ = file.subrange(52, 56);
    let _ = file.subrange(56, 64);
    assert(file.subrange(8, 16).subrange(0, 4) =~= header.subrange(8, 16).subrange(0, 4));
}

/// Reading undoes writing: the header that a reader finds in the file of a track is the
/// one that the track was laid out with.
pub proof fn lemma_read_written_header(track: TrackView, options: BigWigWriteOptions)
    requires
        track.zooms.len() <= options.max_zooms,
    ensures
        read_header_result(file_bytes(track, options)) == Ok::<BBIHeader, BigWigReadError>(
            BBIHeader {
                endianness: Endianness::Little,
                version: BIGWIG_VERSION,
                zoom_levels: track_zooms(track, options).headers.len() as u16,
                chromosome_tree_offset: chrom_tree_offset(track, options) as u64,
                full_data_offset: data_offset(options) as u64,
                full_index_offset: index_offset(track, options) as u64,
                field_count: 0,
                defined_field_count: 0,
                auto_sql_offset: 0,
                total_summary_offset: summary_offset(options) as u64,
                uncompress_buf_size: track.uncompress_buf_size,
                reserved: 0,
            },
        ),
{
    let zooms = track_zooms(track, options);
    let header = header_bytes(
        zooms.headers.len() as u16,
        chrom_tree_offset(track, options) as u64,
        data_offset(options) as u64,
        index_offset(track, options) as u64,
        summary_offset(options) as u64,
        track.uncompress_buf_size,
    );
    lemma_header_fields(
        zooms.headers.len() as u16,
        chrom_tree_offset(track, options) as u64,
        data_offset(options) as u64,
        index_offset(track, options) as u64,
        summary_offset(options) as u64,
        track.uncompress_buf_size,
    );
    lemma_head_bytes_len(track, options);
    let file = file_bytes(track, options);
    assert(file.subrange(0, 64) =~= header);
    lemma_header_of_prefix(file, header);
}

/// A zoom record as the file holds it: the window, the count, and the extremes and sums
/// of the values as the bits of single-precision numbers.
#[derive(Clone, Copy, Debug, PartialEq, Eq, Structural)]
pub struct ZoomBlockRecord {
    pub chrom: u32,
    pub start: u32,
    pub end: u32,
    pub valid_count: u32,
    pub min_val: u32,
    pub max_val: u32,
    pub sum: u32,
    pub sum_squares: u32,
}

/// Record `i` of a zoom section.
pub open spec fn zoom_block_record(plain: Seq<u8>, i: int, order: Endianness) -> ZoomBlockRecord {
    ZoomBlockRecord {
        chrom: field_u32(plain, 32 * i, order),
        start: field_u32(plain, 32 * i + 4, order),
        end: field_u32(plain, 32 * i + 8, order),
        valid_count: field_u32(plain, 32 * i + 12, order),
        min_val: field_u32(plain, 32 * i + 16, order),
        max_val: field_u32(plain, 32 * i + 20, order),
        sum: field_u32(plain, 32 * i + 24, order),
        sum_squares: field_u32(plain, 32 * i + 28, order),
    }
}

/// The records of a zoom section, from its bytes before compression; none where the
/// bytes are no whole number of records.
pub open spec fn zoom_block_values(plain: Seq<u8>, order: Endianness) -> Result<
    Seq<ZoomBlockRecord>,
    BigWigReadError,
> {
    if plain.len() % 32 != 0 {
        Err(BigWigReadError::Truncated)
    } else {
        Ok(Seq::new((plain.len() / 32) as nat, |i: int| zoom_block_record(plain, i, order)))
    }
}

/// Reads the records of a zoom section from its bytes before compression.
pub fn decode_zoom_block(plain: &Vec<u8>, order: Endianness) -> (r: Result<
    Vec<ZoomBlockRecord>,
    BigWigReadError,
>)
    ensures
        match r {
            Ok(records) => zoom_block_values(plain@, order) == Ok::<
                Seq<ZoomBlockRecord>,
                BigWigReadError,
            >(records@),
            Err(e) => zoom_block_values(plain@, order) == Err::<
                Seq<ZoomBlockRecord>,
                BigWigReadError,
            >(e),
        },
{
    if plain.len() % 32 != 0 {
        return Err(BigWigReadError::Truncated);
    }
    let count = plain.len() / 32;
    let mut records: Vec<ZoomBlockRecord> = Vec::new();
    let mut i: usize = 0;
    while i < count
        invariant
            i <= count,
            count == plain.len() / 32,
            plain.len() % 32 == 0,
            records@.len() == i,
            forall|k: int|
                0 <= k < i ==> #[trigger] records@[k] == zoom_block_record(plain@, k, order),
        decreases count - i,
    {
        let at: usize = 32 * i;
        records.push(
            ZoomBlockRecord {
                chrom: get_u32(plain, at, order),
                start: get_u32(plain, at + 4, order),
                end: get_u32(plain, at + 8, order),
                valid_count: get_u32(plain, at + 12, order),
                min_val: get_u32(plain, at + 16, order),
                max_val: get_u32(plain, at + 20, order),
                sum: get_u32(plain, at + 24, order),
                sum_squares: get_u32(plain, at + 28, order),
            },
        );
        i = i + 1;
    }
    assert(records@ =~= Seq::new(
        (plain@.len() / 32) as nat,
        |i: int| zoom_block_record(plain@, i, order),
    ));
    Ok(records)
}

/// What the file holds of a zoom record.
pub open spec fn stored_zoom(z: ZoomRecord) -> ZoomBlockRecord {
    ZoomBlockRecord {
        chrom: z.chrom,
        start: z.start,
        end: z.end,
        valid_count: stored_count(z.total_items),
        min_val: z.stats.min_val,
        max_val: z.stats.max_val,
        sum: z.stats.sum,
        sum_squares: z.stats.sum_squares,
    }
}

/// Reading undoes writing: the records of a zoom section are those it was made of, as
/// the file holds them.
pub proof fn lemma_decode_zoom_section(items: Seq<ZoomRecord>)
    ensures
        zoom_block_values(zoom_section_bytes(items), Endianness::Little) == Ok::<
            Seq<ZoomBlockRecord>,
            BigWigReadError,
        >(items.map_values(|z: ZoomRecord| stored_zoom(z))),
{
    let plain = zoom_section_bytes(items);
    lemma_zoom_section_bytes_len(items);
    let read = Seq::new(
        (plain.len() / 32) as nat,
        |i: int| zoom_block_record(plain, i, Endianness::Little),
    );
    let stored = items.map_values(|z: ZoomRecord| stored_zoom(z));
    assert(read.len() == stored.len());
    assert forall|i: int| 0 <= i < read.len() implies read[i] == stored[i] by {
        lemma_zoom_record_at(items, i);
    }
    assert(read =~= stored);
}

/// A reader gets out of the zoom section of a batch of zoom records the records of the
/// batch as the file holds them, whether the section is compressed or not.
pub proof fn lemma_zoom_section_read_back(
    section: SectionView,
    items: Seq<ZoomRecord>,
    compress: bool,
)
    requires
        is_zoom_section(section, items, compress),
    ensures
        zoom_payload_values(payload_plain(compress, section.data), Endianness::Little) == Ok::<
            Seq<ZoomBlockRecord>,
            BigWigReadError,
        >(items.map_values(|z: ZoomRecord| stored_zoom(z))),
{
    lemma_decode_zoom_section(items);
}

/// A reader finds in a zoom section the fields of record `i` that the writer put there.
pub proof fn lemma_zoom_record_at(items: Seq<ZoomRecord>, i: int)
    requires
        0 <= i < items.len(),
    ensures
        zoom_block_record(zoom_section_bytes(items), i, Endianness::Little) == stored_zoom(
            items[i],
        ),
    decreases items.len(),
{
    lemma_le_lens();
    lemma_zoom_section_bytes_len(items);
    lemma_zoom_section_bytes_len(items.drop_last());
    let plain = zoom_section_bytes(items);
    let before = zoom_section_bytes(items.drop_last());
    let last = zoom_record_bytes(items.last());
    let at = 32 * i;
    if i < items.len() - 1 {
        lemma_zoom_record_at(items.drop_last(), i);
        assert(items.drop_last()[i] == items[i]);
        assert forall|a: int, b: int| at <= a <= b <= at + 32 implies #[trigger] plain.subrange(
            a,
            b,
        ) == before.subrange(a, b) by {
            assert(plain.subrange(a, b) =~= before.subrange(a, b));
        }
        let _ = plain.subrange(at, at + 4);
        let _ = plain.subrange(at + 4, at + 8);
        let _ = plain.subrange(at + 8, at + 12);
        let _ = plain.subrange(at + 12, at + 16);
        let _ = plain.subrange(at + 16, at + 20);
        let _ = plain.subrange(at + 20, at + 24);
        let _ = plain.subrange(at + 24, at + 28);
        let _ = plain.subrange(at + 28, at + 32);
    } else {
        let z = items[i];
        assert(plain.subrange(at, at + 4) =~= u32_le(z.chrom));
        assert(plain.subrange(at + 4, at + 8) =~= u32_le(z.start));
        assert(plain.subrange(at + 8, at + 12) =~= u32_le(z.end));
        assert(plain.subrange(at + 12, at + 16) =~= u32_le(stored_count(z.total_items)));
        assert(plain.subrange(at + 16, at + 20) =~= u32_le(z.stats.min_val));
        assert(plain.subrange(at + 20, at + 24) =~= u32_le(z.stats.max_val));
        assert(plain.subrange(at + 24, at + 28) =~= u32_le(z.stats.sum));
        assert(plain.subrange(at + 28, at + 32) =~= u32_le(z.stats.sum_squares));
        lemma_u32_round_trip(z.chrom);
        lemma_u32_round_trip(z.start);
        lemma_u32_round_trip(z.end);
        lemma_u32_round_trip(stored_count(z.total_items));
        lemma_u32_round_trip(z.stats.min_val);
        lemma_u32_round_trip(z.stats.max_val);
        lemma_u32_round_trip(z.stats.sum);
        lemma_u32_round_trip(z.stats.sum_squares);
    }
}

/// The records of a zoom section, from what a reader gets back from its payload: a
/// payload that does not inflate has none.
pub open spec fn zoom_payload_values(plain: Option<Seq<u8>>, order: Endianness) -> Result<
    Seq<ZoomBlockRecord>,
    BigWigReadError,
> {
    match plain {
        Some(bytes) => zoom_block_values(bytes, order),
        None => Err(BigWigReadError::BadCompression),
    }
}

/// Reads the records of a zoom section from its payload, which is compressed where
/// `uncompress_buf_size` is not zero.
pub fn get_zoom_block_values(payload: &Vec<u8>, uncompress_buf_size: u32, order: Endianness) -> (r:
    Result<Vec<ZoomBlockRecord>, BigWigReadError>)
    ensures
        match r {
            Ok(records) => zoom_payload_values(
                payload_plain(uncompress_buf_size != 0, payload@),
                order,
            ) == Ok::<Seq<ZoomBlockRecord>, BigWigReadError>(records@),
            Err(e) => zoom_payload_values(
                payload_plain(uncompress_buf_size != 0, payload@),
                order,
            ) == Err::<Seq<ZoomBlockRecord>, BigWigReadError>(e),
        },
{
    if uncompress_buf_size == 0 {
        decode_zoom_block(payload, order)
    } else {
        match zlib_decompress(payload) {
            Ok(plain) => decode_zoom_block(&plain, order),
            Err(_) => Err(BigWigReadError::BadCompression),
        }
    }
}

/// The first record of the zoom sections `blocks` of a file, from section `from` on;
/// none where no section holds a record.
pub open spec fn first_zoom_record(
    file: Seq<u8>,
    blocks: Seq<Block>,
    inflate: u32,
    order: Endianness,
    from: int,
) -> Result<Option<ZoomBlockRecord>, BigWigReadError>
    decreases blocks.len() - from,
{
    if from < 0 || from >= blocks.len() {
        Ok(None)
    } else {
        match block_payload(file, blocks[from]) {
            None => Err(BigWigReadError::Truncated),
            Some(payload) => match zoom_payload_values(
                payload_plain(inflate != 0, payload),
                order,
            ) {
                Err(e) => Err(e),
                Ok(records) => if records.len() > 0 {
                    Ok(Some(records[0]))
                } else {
                    first_zoom_record(file, blocks, inflate, order, from + 1)
                },
            },
        }
    }
}

impl BigWigRead {
    /// Reads the first record of the zoom sections `blocks` of `file`.
    pub fn first_zoom_record_of(&self, file: &Vec<u8>, blocks: &Vec<Block>) -> (r: Result<
        Option<ZoomBlockRecord>,
        BigWigReadError,
    >)
        ensures
            r == first_zoom_record(
                file@,
                blocks@,
                self.info.header.uncompress_buf_size,
                self.info.header.endianness,
                0,
            ),
    {
        let ghost inflate = self.info.header.uncompress_buf_size;
        let ghost order = self.info.header.endianness;
        let mut i: usize = 0;
        while i < blocks.len()
            invariant
                i <= blocks.len(),
                inflate == self.info.header.uncompress_buf_size,
                order == self.info.header.endianness,
                first_zoom_record(file@, blocks@, inflate, order, 0) == first_zoom_record(
                    file@,
                    blocks@,
                    inflate,
                    order,
                    i as int,
                ),
            decreases blocks.len() - i,
        {
            let block = blocks[i];
            let len = file.len();
            if block.offset > len as u64 || block.size > len as u64 - block.offset {
                return Err(BigWigReadError::Truncated);
            }
            let from = block.offset as usize;
            let payload = copy_range(file, from, from + block.size as usize);
            assert(block_payload(file@, block) == Some(payload@));
            let records = match get_zoom_block_values(
                &payload,
                self.info.header.uncompress_buf_size,
                self.info.header.endianness,
            ) {
                Ok(records) => records,
                Err(e) => {
                    return Err(e);
                },
            };
            if records.len() > 0 {
                return Ok(Some(records[0]));
            }
            i = i + 1;
        }
        Ok(None)
    }

    /// Reads the first record of the finest zoom level in the sections of `file` that
    /// touch the bases `start..end` of the chromosome `chrom_name`. There is none where
    /// the file has no zoom level, or no such section holds a record.
    pub fn test_read_zoom(&self, file: &Vec<u8>, chrom_name: &String, start: u32, end: u32) -> (r:
        Result<Option<ZoomBlockRecord>, BigWigReadError>)
        ensures
            self.info.zoom_headers@.len() == 0 ==> r == Ok::<
                Option<ZoomBlockRecord>,
                BigWigReadError,
            >(None),
            self.info.zoom_headers@.len() > 0 ==> match chrom_id_from(
                chrom_views(self.info.chrom_info@),
                chrom_name@,
                0,
            ) {
                None => r == Err::<Option<ZoomBlockRecord>, BigWigReadError>(
                    BigWigReadError::UnknownChromosome,
                ),
                Some(chrom) => match searched(
                    file@,
                    self.info.zoom_headers@[0].index_offset as int,
                    Query { chrom, start, end },
                    self.info.header.endianness,
                ) {
                    Err(e) => r == Err::<Option<ZoomBlockRecord>, BigWigReadError>(e),
                    Ok(blocks) => r == first_zoom_record(
                        file@,
                        blocks,
                        self.info.header.uncompress_buf_size,
                        self.info.header.endianness,
                        0,
                    ),
                },
            },
    {
        if self.info.zoom_headers.len() == 0 {
            return Ok(None);
        }
        let chrom = match self.chrom_id(chrom_name) {
            Some(chrom) => chrom,
            None => {
                return Err(BigWigReadError::UnknownChromosome);
            },
        };
        match search_cir_tree(
            file,
            self.info.zoom_headers[0].index_offset,
            Query { chrom, start, end },
            self.info.header.endianness,
        ) {
            Ok(blocks) => self.first_zoom_record_of(file, &blocks),
            Err(e) => Err(e),
        }
    }
}

/// Reading undoes writing, section by section. In the file that a stream makes, entry `j`
/// of the index over the primary sections gives the chromosome and the extent of batch
/// `j` of the stream, and what a reader decodes at the place that the entry names, with
/// the header's word on compression, are the records of that batch.
pub proof fn lemma_read_written_section<A>(
    done: Processed<A>,
    track: TrackData,
    steps: Seq<Step>,
    sizes: Seq<ChromSize>,
    options: BigWigWriteOptions,
    file: Seq<u8>,
    j: int,
)
    requires
        options.valid(),
        written(done, track, steps, sizes, options, file),
        file.len() <= u64::MAX,
        0 <= j < track@.sections.len(),
    ensures
        ({
            let batches = stream_batches(
                steps,
                sizes,
                options.items_per_slot as int,
                steps.len(),
            );
            let entry = section_entries(track@.sections, sections_offset(options))[j];
            &&& batches.len() == track@.sections.len()
            &&& entry.chrom == batches[j].chrom_id
            &&& entry.start == batches[j].items.first().start
            &&& entry.end == batches[j].items.last().end
            &&& block_records(
                file,
                Block { offset: entry.offset, size: entry.size },
                track.uncompress_buf_size,
                Endianness::Little,
            ) == Ok::<Seq<Value>, BigWigReadError>(batches[j].items)
        }),
{
    let size = options.items_per_slot as int;
    let batches = stream_batches(steps, sizes, size, steps.len());
    lemma_written_sections(done, track, steps, sizes, options);
    lemma_stream_batches(steps, sizes, size, steps.len());
    lemma_size_tells_compression(done, track, steps, sizes, options);
    lemma_leaves_point_at_sections(track@, options, j);
    lemma_section_read_back(
        track@.sections[j],
        batches[j].items,
        batches[j].chrom_id,
        options.compress,
    );
}

/// The records at entry `j` of the index over the primary sections of a written file, as
/// a reader decodes them.
pub open spec fn written_records(
    track: TrackData,
    options: BigWigWriteOptions,
    file: Seq<u8>,
    j: int,
) -> Result<Seq<Value>, BigWigReadError> {
    let entry = section_entries(track@.sections, sections_offset(options))[j];
    block_records(
        file,
        Block { offset: entry.offset, size: entry.size },
        track.uncompress_buf_size,
        Endianness::Little,
    )
}

/// Compression changes nothing of what a file says. Two files made of the same stream
/// under options that differ in nothing but whether sections are compressed have as many
/// primary sections, and a reader decodes the same records from section `j` of the one as
/// from section `j` of the other, on the same chromosome and with the same extent.
pub proof fn lemma_compression_keeps_sections<A, B>(
    done: Processed<A>,
    track: TrackData,
    file: Seq<u8>,
    other_done: Processed<B>,
    other_track: TrackData,
    other_file: Seq<u8>,
    steps: Seq<Step>,
    sizes: Seq<ChromSize>,
    options: BigWigWriteOptions,
    j: int,
)
    requires
        options.valid(),
        written(done, track, steps, sizes, options, file),
        written(
            other_done,
            other_track,
            steps,
            sizes,
            (BigWigWriteOptions { compress: !options.compress, ..options }),
            other_file,
        ),
        file.len() <= u64::MAX,
        other_file.len() <= u64::MAX,
        0 <= j < track@.sections.len(),
    ensures
        ({
            let other = BigWigWriteOptions { compress: !options.compress, ..options };
            let entry = section_entries(track@.sections, sections_offset(options))[j];
            let other_entry = section_entries(other_track@.sections, sections_offset(other))[j];
            &&& other_track@.sections.len() == track@.sections.len()
            &&& other_entry.chrom == entry.chrom
            &&& other_entry.start == entry.start
            &&& other_entry.end == entry.end
            &&& written_records(track, options, file, j) is Ok
            &&& written_records(other_track, other, other_file, j) == written_records(
                track,
                options,
                file,
                j,
            )
        }),
{
    let other = BigWigWriteOptions { compress: !options.compress, ..options };
    lemma_read_written_section(done, track, steps, sizes, options, file, j);
    lemma_written_sections(other_done, other_track, steps, sizes, other);
    lemma_read_written_section(other_done, other_track, steps, sizes, other, other_file, j);
}

/// The header of a track's file counts the zoom levels that are kept: those whose
/// sections take no more than half the bytes of the primary sections.
pub proof fn lemma_header_counts_kept_levels(track: TrackView, options: BigWigWriteOptions)
    requires
        options.valid(),
        track.zooms.len() <= options.max_zooms,
    ensures
        read_header_result(file_bytes(track, options)) matches Ok(header) && header.zoom_levels
            == kept_levels(track.zooms, sections_data(track.sections).len() as int).len(),
{
    lemma_read_written_header(track, options);
    lemma_zoom_skipping(
        track.zooms,
        zooms_offset(track, options),
        sections_data(track.sections).len() as int,
        options,
    );
    lemma_few_zoom_levels(options);
    lemma_kept_levels_len(track.zooms, sections_data(track.sections).len() as int);
}

/// The header of the file that a stream makes counts the zoom levels that are kept.
pub proof fn lemma_written_zoom_count<A>(
    done: Processed<A>,
    track: TrackData,
    steps: Seq<Step>,
    sizes: Seq<ChromSize>,
    options: BigWigWriteOptions,
    file: Seq<u8>,
)
    requires
        options.valid(),
        written(done, track, steps, sizes, options, file),
    ensures
        read_header_result(file) matches Ok(header) && header.zoom_levels == kept_levels(
            track@.zooms,
            sections_data(track@.sections).len() as int,
        ).len(),
{
    lemma_header_counts_kept_levels(track@, options);
}

} // verus!
