//! Section payloads: the bytes of a batch of records, plain or zlib-compressed.

use vstd::prelude::*;
use std::io::Read;
use crate::bbi::ProcessChromError;
use crate::bbi::SectionData;
use crate::bbi::SectionView;
use crate::bbi::Value;
use crate::bbi::ZoomRecord;
use crate::bytes::lemma_le_lens;
use crate::bytes::put_u16;
use crate::bytes::put_u32;
use crate::bytes::u16_le;
use crate::bytes::u32_le;

verus! {

/// The type byte of a section of `(start, end, value)` records.
pub const BEDGRAPH_SECTION: u8 = 1;

/// The bytes of one record: start, end, value.
pub open spec fn value_bytes(v: Value) -> Seq<u8> {
    u32_le(v.start) + u32_le(v.end) + u32_le(v.value)
}

/// The bytes of records, one after the other.
pub open spec fn values_bytes(items: Seq<Value>) -> Seq<u8>
    decreases items.len(),
{
    if items.len() == 0 {
        Seq::empty()
    } else {
        values_bytes(items.drop_last()) + value_bytes(items.last())
    }
}

/// The 24 bytes that open a primary section: chromosome, first start, last end, two
/// reserved words, the type byte, a reserved byte, the record count.
pub open spec fn section_header_bytes(chrom_id: u32, start: u32, end: u32, count: u16) -> Seq<
    u8,
> {
    u32_le(chrom_id) + u32_le(start) + u32_le(end) + u32_le(0) + u32_le(0) + seq![
        BEDGRAPH_SECTION,
        0u8,
    ] + u16_le(count)
}

/// The bytes of a primary section before compression.
pub open spec fn section_bytes(items: Seq<Value>, chrom_id: u32) -> Seq<u8> {
    section_header_bytes(
        chrom_id,
        items.first().start,
        items.last().end,
        items.len() as u16,
    ) + values_bytes(items)
}

/// The count of a zoom record as the file holds it: its low 32 bits.
pub open spec fn stored_count(total_items: u64) -> u32 {
    (total_items % 0x1_0000_0000) as u32
}

/// The 32 bytes of one zoom record: chromosome, start, end, count, then the least and the
/// greatest value, their sum and the sum of their squares.
pub open spec fn zoom_record_bytes(z: ZoomRecord) -> Seq<u8> {
    u32_le(z.chrom) + u32_le(z.start) + u32_le(z.end) + u32_le(stored_count(z.total_items))
        + u32_le(z.stats.min_val) + u32_le(z.stats.max_val) + u32_le(z.stats.sum) + u32_le(
        z.stats.sum_squares,
    )
}

/// The bytes of a zoom section before compression: its records, one after the other.
pub open spec fn zoom_section_bytes(items: Seq<ZoomRecord>) -> Seq<u8>
    decreases items.len(),
{
    if items.len() == 0 {
        Seq::empty()
    } else {
        zoom_section_bytes(items.drop_last()) + zoom_record_bytes(items.last())
    }
}

/// The zlib stream that the compressor makes of `data` at its default level.
pub uninterp spec fn zlib_stream(data: Seq<u8>) -> Seq<u8>;

/// The data that a zlib stream holds, and none where the bytes are no zlib stream.
pub uninterp spec fn zlib_inflated(stream: Seq<u8>) -> Option<Seq<u8>>;

/// The most bytes that the zlib stream of `len` bytes takes: the bytes themselves, five
/// more for each 5000 of them or part of it, and six for the wrapper.
pub open spec fn zlib_bound(len: nat) -> nat {
    len + 5 * (if len == 0 {
        1nat
    } else {
        (len + 4999) / 5000
    }) + 6
}

/// A section's payload as the file holds it.
pub open spec fn section_payload(compress: bool, plain: Seq<u8>) -> Seq<u8> {
    if compress {
        zlib_stream(plain)
    } else {
        plain
    }
}

/// What a reader gets back from a payload, and nothing where a compressed payload does
/// not inflate.
pub open spec fn payload_plain(compressed: bool, payload: Seq<u8>) -> Option<Seq<u8>> {
    if compressed {
        zlib_inflated(payload)
    } else {
        Some(payload)
    }
}

/// The most bytes that the payload of `len` plain bytes takes.
pub open spec fn payload_bound(compress: bool, len: nat) -> nat {
    if compress {
        zlib_bound(len)
    } else {
        len
    }
}

/// The size that a reader must be able to inflate a payload to; none where nothing is
/// compressed.
pub open spec fn inflated_size(compress: bool, plain: Seq<u8>) -> nat {
    if compress {
        plain.len()
    } else {
        0
    }
}

/// The primary section of a batch of records.
pub open spec fn primary_section(items: Seq<Value>, chrom_id: u32, compress: bool) -> SectionView {
    SectionView {
        chrom: chrom_id,
        start: items.first().start,
        end: items.last().end,
        data: section_payload(compress, section_bytes(items, chrom_id)),
    }
}

/// The zoom section of a batch of zoom records.
pub open spec fn zoom_section(items: Seq<ZoomRecord>, compress: bool) -> SectionView {
    SectionView {
        chrom: items.first().chrom,
        start: items.first().start,
        end: items.last().end,
        data: section_payload(compress, zoom_section_bytes(items)),
    }
}

/// Whether `section` is the primary section of a batch of records: it has its extent and
/// its payload, and a reader gets the bytes of the records back from the payload.
pub open spec fn is_primary_section(
    section: SectionView,
    items: Seq<Value>,
    chrom_id: u32,
    compress: bool,
) -> bool {
    &&& section == primary_section(items, chrom_id, compress)
    &&& payload_plain(compress, section.data) == Some(section_bytes(items, chrom_id))
    &&& section.data.len() <= payload_bound(compress, section_bytes(items, chrom_id).len())
}

/// Whether `section` is the zoom section of a batch of zoom records: it has its extent
/// and its payload, and a reader gets the bytes of the records back from the payload.
pub open spec fn is_zoom_section(section: SectionView, items: Seq<ZoomRecord>, compress: bool)
    -> bool {
    &&& section == zoom_section(items, compress)
    &&& payload_plain(compress, section.data) == Some(zoom_section_bytes(items))
    &&& section.data.len() <= payload_bound(compress, zoom_section_bytes(items).len())
}

/// `libdeflater::CompressionError`, the error of its compressor; nothing is claimed of it.
#[verifier::external_type_specification]
#[verifier::external_body]
pub struct ExCompressionError(libdeflater::CompressionError);

/// `std::io::Error`, the error of the decoder; nothing is claimed of it.
#[verifier::external_type_specification]
#[verifier::external_body]
pub struct ExIoError(std::io::Error);

/// Compresses `data` into a zlib stream.
///
/// Rests on `libdeflater::Compressor::zlib_compress` with a compressor of the default
/// level and an output buffer of `zlib_compress_bound` bytes: it writes `data` as zlib
/// data and returns how many bytes it wrote, or an error where the data did not fit the
/// buffer. The claims are four. It does not fail, because the bound is the most that
/// compressing that many bytes can take. What it wrote is no longer than the buffer, whose
/// length `zlib_compress_bound` reckons as `zlib_bound` does. What it wrote is a function
/// of `data`. And it is a zlib stream that decompresses to `data`: inflating it gives
/// `data` back.
#[verifier::external_body]
pub(crate) fn zlib_compress(data: &Vec<u8>) -> (r: Result<Vec<u8>, libdeflater::CompressionError>)
    ensures
        r is Ok,
        r matches Ok(out) ==> out@ == zlib_stream(data@) && zlib_inflated(out@) == Some(data@),
        r matches Ok(out) ==> out@.len() <= zlib_bound(data@.len()),
{
    let mut compressor = libdeflater::Compressor::new(libdeflater::CompressionLvl::default());
    let max_sz = compressor.zlib_compress_bound(data.len());
    let mut compressed_data = vec![0; max_sz];
    let actual_sz = compressor.zlib_compress(data, &mut compressed_data)?;
    compressed_data.resize(actual_sz, 0);
    Ok(compressed_data)
}

/// Inflates a zlib stream.
///
/// Rests on `flate2::read::ZlibDecoder`, read to its end: it gives the data that the
/// stream holds, or an error where `stream` is no zlib stream. The claim is that both
/// whether it gives data and the data it gives are a function of the bytes.
#[verifier::external_body]
pub(crate) fn zlib_decompress(stream: &Vec<u8>) -> (r: Result<Vec<u8>, std::io::Error>)
    ensures
        match r {
            Ok(out) => zlib_inflated(stream@) == Some(out@),
            Err(_) => zlib_inflated(stream@) is None,
        },
{
    let mut out = Vec::new();
    flate2::read::ZlibDecoder::new(&stream[..]).read_to_end(&mut out)?;
    Ok(out)
}

/// Compresses `bytes` where `compress` asks for it.
pub fn finish_payload(compress: bool, bytes: Vec<u8>) -> (r: Result<
    (Vec<u8>, usize),
    ProcessChromError,
>)
    ensures
        r is Ok,
        r matches Ok(out) ==> {
            &&& out.0@ == section_payload(compress, bytes@)
            &&& out.1 == inflated_size(compress, bytes@)
            &&& payload_plain(compress, out.0@) == Some(bytes@)
            &&& out.0@.len() <= payload_bound(compress, bytes@.len())
        },
{
    if compress {
        match zlib_compress(&bytes) {
            Ok(out) => Ok((out, bytes.len())),
            Err(_) => Err(ProcessChromError::CompressionError),
        }
    } else {
        Ok((bytes, 0))
    }
}

/// Encodes one primary section: the records of `items_in_section`, in order, on
/// chromosome `chrom_id`. With the section comes the size that a reader inflates it to.
pub fn encode_section(compress: bool, items_in_section: Vec<Value>, chrom_id: u32) -> (r: Result<
    (SectionData, usize),
    ProcessChromError,
>)
    requires
        1 <= items_in_section.len() <= u16::MAX,
    ensures
        r is Ok,
        r matches Ok(out) ==> {
            &&& out.0@ == primary_section(items_in_section@, chrom_id, compress)
            &&& out.1 == inflated_size(compress, section_bytes(items_in_section@, chrom_id))
            &&& payload_plain(compress, out.0.data@) == Some(
                section_bytes(items_in_section@, chrom_id),
            )
            &&& out.0.data@.len() <= payload_bound(
                compress,
                section_bytes(items_in_section@, chrom_id).len(),
            )
        },
{
    let n = items_in_section.len();
    let start = items_in_section[0].start;
    let end = items_in_section[n - 1].end;
    let mut bytes: Vec<u8> = Vec::new();
    put_u32(&mut bytes, chrom_id);
    put_u32(&mut bytes, start);
    put_u32(&mut bytes, end);
    put_u32(&mut bytes, 0);
    put_u32(&mut bytes, 0);
    bytes.push(BEDGRAPH_SECTION);
    bytes.push(0);
    put_u16(&mut bytes, n as u16);
    assert(bytes@ =~= section_header_bytes(chrom_id, start, end, n as u16));
    let mut i: usize = 0;
    while i < n
        invariant
            i <= n,
            n == items_in_section.len(),
            bytes@ == section_header_bytes(chrom_id, start, end, n as u16) + values_bytes(
                items_in_section@.take(i as int),
            ),
        decreases n - i,
    {
        let item = items_in_section[i];
        let ghost before = bytes@;
        put_u32(&mut bytes, item.start);
        put_u32(&mut bytes, item.end);
        put_u32(&mut bytes, item.value);
        proof {
            assert(items_in_section@.take(i + 1).drop_last() =~= items_in_section@.take(
                i as int,
            ));
            assert(bytes@ =~= before + value_bytes(item));
        }
        i = i + 1;
    }
    assert(items_in_section@.take(n as int) =~= items_in_section@);
    match finish_payload(compress, bytes) {
        Ok((data, size)) => Ok((SectionData { chrom: chrom_id, start, end, data }, size)),
        Err(e) => Err(e),
    }
}

/// Encodes one zoom section: the records of `items_in_section`, in order. With the
/// section comes the size that a reader inflates it to.
pub fn encode_zoom_section(compress: bool, items_in_section: Vec<ZoomRecord>) -> (r: Result<
    (SectionData, usize),
    ProcessChromError,
>)
    requires
        1 <= items_in_section.len(),
    ensures
        r is Ok,
        r matches Ok(out) ==> {
            &&& out.0@ == zoom_section(items_in_section@, compress)
            &&& out.1 == inflated_size(compress, zoom_section_bytes(items_in_section@))
            &&& payload_plain(compress, out.0.data@) == Some(zoom_section_bytes(items_in_section@))
            &&& out.0.data@.len() <= payload_bound(
                compress,
                zoom_section_bytes(items_in_section@).len(),
            )
        },
{
    let n = items_in_section.len();
    let chrom = items_in_section[0].chrom;
    let start = items_in_section[0].start;
    let end = items_in_section[n - 1].end;
    let mut bytes: Vec<u8> = Vec::new();
    let mut i: usize = 0;
    while i < n
        invariant
            i <= n,
            n == items_in_section.len(),
            bytes@ == zoom_section_bytes(items_in_section@.take(i as int)),
        decreases n - i,
    {
        let item = items_in_section[i];
        let ghost before = bytes@;
        put_u32(&mut bytes, item.chrom);
        put_u32(&mut bytes, item.start);
        put_u32(&mut bytes, item.end);
        put_u32(&mut bytes, (item.total_items % 0x1_0000_0000) as u32);
        put_u32(&mut bytes, item.stats.min_val);
        put_u32(&mut bytes, item.stats.max_val);
        put_u32(&mut bytes, item.stats.sum);
        put_u32(&mut bytes, item.stats.sum_squares);
        proof {
            assert(items_in_section@.take(i + 1).drop_last() =~= items_in_section@.take(
                i as int,
            ));
            assert(bytes@ =~= before + zoom_record_bytes(item));
        }
        i = i + 1;
    }
    assert(items_in_section@.take(n as int) =~= items_in_section@);
    match finish_payload(compress, bytes) {
        Ok((data, size)) => Ok((SectionData { chrom, start, end, data }, size)),
        Err(e) => Err(e),
    }
}

/// `s` cut into batches of `size` items, the last one perhaps shorter.
pub open spec fn chunks<T>(s: Seq<T>, size: int) -> Seq<Seq<T>>
    decreases s.len(),
{
    if s.len() == 0 || size < 1 {
        Seq::empty()
    } else if s.len() <= size {
        seq![s]
    } else {
        seq![s.take(size)] + chunks(s.skip(size), size)
    }
}

/// The greatest of `sizes`, and none where there is no size.
pub open spec fn greatest(sizes: Seq<nat>) -> nat
    decreases sizes.len(),
{
    if sizes.len() == 0 {
        0
    } else if sizes.last() > greatest(sizes.drop_last()) {
        sizes.last()
    } else {
        greatest(sizes.drop_last())
    }
}

/// The sizes that the primary sections of `batches` inflate to.
pub open spec fn primary_sizes(batches: Seq<Seq<Value>>, chrom_id: u32, compress: bool) -> Seq<
    nat,
> {
    batches.map_values(|c: Seq<Value>| inflated_size(compress, section_bytes(c, chrom_id)))
}

/// The sizes that the zoom sections of `batches` inflate to.
pub open spec fn zoom_sizes(batches: Seq<Seq<ZoomRecord>>, compress: bool) -> Seq<nat> {
    batches.map_values(|c: Seq<ZoomRecord>| inflated_size(compress, zoom_section_bytes(c)))
}

/// Every batch holds at least one item and at most `size`, and the batches joined give
/// the sequence back.
pub proof fn lemma_chunks<T>(s: Seq<T>, size: int)
    requires
        1 <= size,
    ensures
        forall|k: int|
            0 <= k < chunks(s, size).len() ==> 1 <= (#[trigger] chunks(s, size)[k]).len()
                <= size,
        chunks(s, size).flatten() =~= s,
        s.len() > 0 ==> chunks(s, size).len() > 0 && chunks(s, size).first().first() == s.first()
            && chunks(s, size).last().last() == s.last(),
    decreases s.len(),
{
    if s.len() == 0 {
    } else if s.len() <= size {
        assert(chunks(s, size) =~= seq![s]);
        assert(seq![s].flatten() =~= s) by {
            reveal_with_fuel(Seq::flatten, 2);
            assert(seq![s].drop_first() =~= Seq::<Seq<T>>::empty());
        }
    } else {
        let rest = chunks(s.skip(size), size);
        lemma_chunks(s.skip(size), size);
        let all = seq![s.take(size)] + rest;
        assert(all.drop_first() =~= rest);
        assert(all.flatten() =~= s.take(size) + rest.flatten());
        assert(s.take(size) + s.skip(size) =~= s);
    }
}

/// One more batch at the end of a cut: the first `start` items in batches, then the next
/// batch, are the batches of the items up to that batch's end.
pub proof fn lemma_chunks_next<T>(s: Seq<T>, size: int, start: int)
    requires
        1 <= size,
        0 <= start < s.len(),
    ensures
        chunks(s.skip(start), size) =~= seq![
            s.subrange(start, if start + size < s.len() {
                start + size
            } else {
                s.len() as int
            }),
        ] + chunks(
            s.skip(
                if start + size < s.len() {
                    start + size
                } else {
                    s.len() as int
                },
            ),
            size,
        ),
{
    let rest = s.skip(start);
    if rest.len() <= size {
        assert(rest =~= s.subrange(start, s.len() as int));
        assert(s.skip(s.len() as int).len() == 0);
    } else {
        assert(rest.take(size) =~= s.subrange(start, start + size));
        assert(rest.skip(size) =~= s.skip(start + size));
    }
}

/// The greatest of some sizes and one more.
pub proof fn lemma_greatest_push(sizes: Seq<nat>, x: nat)
    ensures
        greatest(sizes.push(x)) == if x > greatest(sizes) {
            x
        } else {
            greatest(sizes)
        },
{
    assert(sizes.push(x).drop_last() =~= sizes);
}

/// Copies the items `from..to` of `items`.
pub fn copy_range<T: Copy>(items: &Vec<T>, from: usize, to: usize) -> (out: Vec<T>)
    requires
        from <= to <= items.len(),
    ensures
        out@ == items@.subrange(from as int, to as int),
{
    let mut out: Vec<T> = Vec::new();
    let mut i: usize = from;
    while i < to
        invariant
            from <= i <= to <= items.len(),
            out@ == items@.subrange(from as int, i as int),
        decreases to - i,
    {
        out.push(items[i]);
        assert(out@ =~= items@.subrange(from as int, i + 1));
        i = i + 1;
    }
    out
}

/// Encodes the primary sections of a chromosome: its records in batches of
/// `items_per_slot`, in order. With them comes the greatest size that a reader inflates
/// one of them to.
pub fn encode_sections(
    compress: bool,
    values: &Vec<Value>,
    chrom_id: u32,
    items_per_slot: u32,
) -> (r: Result<(Vec<SectionData>, usize), ProcessChromError>)
    requires
        1 <= items_per_slot <= u16::MAX,
    ensures
        r is Ok,
        r matches Ok(out) ==> {
            let batches = chunks(values@, items_per_slot as int);
            &&& out.0@.len() == batches.len()
            &&& forall|k: int|
                0 <= k < batches.len() ==> is_primary_section(
(#[trigger] out.0@[k])@, batches[k],
                    chrom_id,
                    compress,
                )
            &&& out.1 == greatest(primary_sizes(batches, chrom_id, compress))
        },
{
    let n = values.len();
    let mut sections: Vec<SectionData> = Vec::new();
    let mut largest: usize = 0;
    let mut start: usize = 0;
    let ghost size = items_per_slot as int;
    let ghost mut done: Seq<Seq<Value>> = Seq::empty();
    assert(values@.skip(0) =~= values@);
    while start < n
        invariant
            start <= n,
            n == values.len(),
            size == items_per_slot as int,
            1 <= items_per_slot <= u16::MAX,
            chunks(values@, size) == done + chunks(values@.skip(start as int), size),
            sections@.len() == done.len(),
            forall|k: int|
                0 <= k < done.len() ==> is_primary_section(
(#[trigger] sections@[k])@, done[k],
                    chrom_id,
                    compress,
                ),
            largest == greatest(primary_sizes(done, chrom_id, compress)),
        decreases n - start,
    {
        let end: usize = if n - start > items_per_slot as usize {
            start + items_per_slot as usize
        } else {
            n
        };
        let items = copy_range(values, start, end);
        let ghost batch = items@;
        proof {
            lemma_chunks_next(values@, size, start as int);
        }
        match encode_section(compress, items, chrom_id) {
            Ok((section, inflated)) => {
                let ghost before = sections@;
                sections.push(section);
                if inflated > largest {
                    largest = inflated;
                }
                proof {
                    lemma_greatest_push(
                        primary_sizes(done, chrom_id, compress),
                        inflated_size(compress, section_bytes(batch, chrom_id)),
                    );
                    assert(primary_sizes(done.push(batch), chrom_id, compress)
                        =~= primary_sizes(done, chrom_id, compress).push(
                        inflated_size(compress, section_bytes(batch, chrom_id)),
                    ));
                    assert(done + (seq![batch] + chunks(values@.skip(end as int), size))
                        =~= done.push(batch) + chunks(values@.skip(end as int), size));
                    done = done.push(batch);
                    assert forall|k: int| 0 <= k < done.len() implies is_primary_section(
(#[trigger] sections@[k])@, done[k],
                        chrom_id,
                        compress,
                    ) by {
                        if k < before.len() {
                            assert(sections@[k] == before[k]);
                        }
                    }
                }
            },
            Err(e) => {
                return Err(e);
            },
        }
        start = end;
    }
    proof {
        assert(chunks(values@.skip(n as int), size) =~= Seq::<Seq<Value>>::empty());
        assert(done + Seq::<Seq<Value>>::empty() =~= done);
    }
    Ok((sections, largest))
}

/// Encodes the zoom sections of one resolution: its records in batches of
/// `items_per_slot`, in order. With them comes the greatest size that a reader inflates
/// one of them to.
pub fn encode_zoom_sections(compress: bool, records: &Vec<ZoomRecord>, items_per_slot: u32) -> (r:
    Result<(Vec<SectionData>, usize), ProcessChromError>)
    requires
        1 <= items_per_slot,
    ensures
        r is Ok,
        r matches Ok(out) ==> {
            let batches = chunks(records@, items_per_slot as int);
            &&& out.0@.len() == batches.len()
            &&& forall|k: int|
                0 <= k < batches.len() ==> is_zoom_section(
(#[trigger] out.0@[k])@, batches[k],
                    compress,
                )
            &&& out.1 == greatest(zoom_sizes(batches, compress))
        },
{
    let n = records.len();
    let mut sections: Vec<SectionData> = Vec::new();
    let mut largest: usize = 0;
    let mut start: usize = 0;
    let ghost size = items_per_slot as int;
    let ghost mut done: Seq<Seq<ZoomRecord>> = Seq::empty();
    assert(records@.skip(0) =~= records@);
    while start < n
        invariant
            start <= n,
            n == records.len(),
            size == items_per_slot as int,
            1 <= items_per_slot,
            chunks(records@, size) == done + chunks(records@.skip(start as int), size),
            sections@.len() == done.len(),
            forall|k: int|
                0 <= k < done.len() ==> is_zoom_section(
(#[trigger] sections@[k])@, done[k],
                    compress,
                ),
            largest == greatest(zoom_sizes(done, compress)),
        decreases n - start,
    {
        let end: usize = if n - start > items_per_slot as usize {
            start + items_per_slot as usize
        } else {
            n
        };
        let items = copy_range(records, start, end);
        let ghost batch = items@;
        proof {
            lemma_chunks_next(records@, size, start as int);
        }
        match encode_zoom_section(compress, items) {
            Ok((section, inflated)) => {
                let ghost before = sections@;
                sections.push(section);
                if inflated > largest {
                    largest = inflated;
                }
                proof {
                    lemma_greatest_push(
                        zoom_sizes(done, compress),
                        inflated_size(compress, zoom_section_bytes(batch)),
                    );
                    assert(zoom_sizes(done.push(batch), compress) =~= zoom_sizes(
                        done,
                        compress,
                    ).push(inflated_size(compress, zoom_section_bytes(batch))));
                    assert(done + (seq![batch] + chunks(records@.skip(end as int), size))
                        =~= done.push(batch) + chunks(records@.skip(end as int), size));
                    done = done.push(batch);
                    assert forall|k: int| 0 <= k < done.len() implies is_zoom_section(
(#[trigger] sections@[k])@, done[k], compress) by {
                        if k < before.len() {
                            assert(sections@[k] == before[k]);
                        }
                    }
                }
            },
            Err(e) => {
                return Err(e);
            },
        }
        start = end;
    }
    proof {
        assert(chunks(records@.skip(n as int), size) =~= Seq::<Seq<ZoomRecord>>::empty());
        assert(done + Seq::<Seq<ZoomRecord>>::empty() =~= done);
    }
    Ok((sections, largest))
}

/// Records take 12 bytes each, and a primary section 24 more.
pub proof fn lemma_section_bytes_len(items: Seq<Value>, chrom_id: u32)
    ensures
        values_bytes(items).len() == 12 * items.len(),
        section_bytes(items, chrom_id).len() == 24 + 12 * items.len(),
    decreases items.len(),
{
    lemma_le_lens();
    if items.len() > 0 {
        lemma_section_bytes_len(items.drop_last(), chrom_id);
    }
}

/// Zoom records take 32 bytes each.
pub proof fn lemma_zoom_section_bytes_len(items: Seq<ZoomRecord>)
    ensures
        zoom_section_bytes(items).len() == 32 * items.len(),
    decreases items.len(),
{
    lemma_le_lens();
    if items.len() > 0 {
        lemma_zoom_section_bytes_len(items.drop_last());
    }
}

/// The greatest of some sizes is no less than any of them.
pub proof fn lemma_greatest_reaches(sizes: Seq<nat>, i: int)
    requires
        0 <= i < sizes.len(),
    ensures
        sizes[i] <= greatest(sizes),
    decreases sizes.len(),
{
    if i < sizes.len() - 1 {
        lemma_greatest_reaches(sizes.drop_last(), i);
    }
}

/// The greatest of sizes that stay under a bound stays under it.
pub proof fn lemma_greatest_bound(sizes: Seq<nat>, bound: nat)
    requires
        forall|i: int| 0 <= i < sizes.len() ==> #[trigger] sizes[i] <= bound,
    ensures
        greatest(sizes) <= bound,
    decreases sizes.len(),
{
    if sizes.len() > 0 {
        assert forall|i: int| 0 <= i < sizes.drop_last().len() implies #[trigger] sizes.drop_last()[i]
            <= bound by {
            assert(sizes.drop_last()[i] == sizes[i]);
        }
        lemma_greatest_bound(sizes.drop_last(), bound);
        assert(sizes.last() == sizes[sizes.len() - 1]);
    }
}

/// No section of batches of at most `size` records inflates to more than a full batch
/// takes.
pub proof fn lemma_sizes_bound(values: Seq<Value>, records: Seq<ZoomRecord>, chrom_id: u32, size: int, compress: bool)
    requires
        1 <= size,
    ensures
        greatest(primary_sizes(chunks(values, size), chrom_id, compress)) <= 24 + 12 * size,
        greatest(zoom_sizes(chunks(records, size), compress)) <= 32 * size,
{
    lemma_chunks(values, size);
    lemma_chunks(records, size);
    let primary = primary_sizes(chunks(values, size), chrom_id, compress);
    assert forall|i: int| 0 <= i < primary.len() implies #[trigger] primary[i] <= (24 + 12
        * size) as nat by {
        lemma_section_bytes_len(chunks(values, size)[i], chrom_id);
    }
    lemma_greatest_bound(primary, (24 + 12 * size) as nat);
    let zoomed = zoom_sizes(chunks(records, size), compress);
    assert forall|i: int| 0 <= i < zoomed.len() implies #[trigger] zoomed[i] <= (32 * size) as nat by {
        lemma_zoom_section_bytes_len(chunks(records, size)[i]);
    }
    lemma_greatest_bound(zoomed, (32 * size) as nat);
}

/// Item `j` of batch `k` is item `k * size + j` of the sequence that was cut.
pub proof fn lemma_chunks_index<T>(s: Seq<T>, size: int, k: int, j: int)
    requires
        1 <= size,
        0 <= k < chunks(s, size).len(),
        0 <= j < chunks(s, size)[k].len(),
    ensures
        0 <= k * size + j < s.len(),
        chunks(s, size)[k][j] == s[k * size + j],
        chunks(s, size)[k].len() <= size,
    decreases s.len(),
{
    lemma_chunks(s, size);
    if s.len() <= size {
        assert(k == 0);
        assert(k * size == 0);
    } else if k == 0 {
        assert(k * size == 0);
    } else {
        let rest = s.skip(size);
        assert(chunks(s, size)[k] == chunks(rest, size)[k - 1]);
        lemma_chunks_index(rest, size, k - 1, j);
        assert((k - 1) * size + size == k * size) by (nonlinear_arith);
        assert(rest[(k - 1) * size + j] == s[k * size + j]);
    }
}

} // verus!
