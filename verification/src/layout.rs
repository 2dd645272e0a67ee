//! The bytes of a bigWig file, and where each part of it lies.
//!
//! The file opens with a fixed header and room for the zoom headers, the total summary and
//! the count of sections. The primary sections follow, then the chromosome index, the
//! index over the primary sections, and for each zoom level that is kept its sections and
//! their index. It ends as it begins, with the magic number.

use vstd::prelude::*;
use vstd::string::StringExecFns;
use crate::bbi::BigWigWriteOptions;
use crate::bbi::chrom_views;
use crate::bbi::ChromInfo;
use crate::bbi::ChromView;
use crate::bbi::DoubleBits;
use crate::bbi::ProcessChromError;
use crate::bbi::Section;
use crate::bbi::SectionData;
use crate::bbi::SectionView;
use crate::bbi::ZoomHeader;
use crate::bytes::lemma_le_lens;
use crate::bytes::put_u16;
use crate::bytes::put_u32;
use crate::bytes::put_u64;
use crate::bytes::u16_le;
use crate::bytes::u32_le;
use crate::bytes::u64_le;
use crate::chromtree::chrom_tree_bytes;
use crate::chromtree::chroms_fit;
use crate::chromtree::key_size;
use crate::chromtree::write_chrom_tree;
use crate::cirtree::index_bytes;
use crate::cirtree::index_size;
use crate::cirtree::kinds_match;
use crate::cirtree::lemma_index_bytes_len;
use crate::cirtree::lemma_levels_size_nonnegative;
use crate::cirtree::levels_size;
use crate::cirtree::write_rtreeindex;
use crate::rtree::get_rtreeindex;
use crate::tempfilebuffer::TempFileBuffer;
use crate::rtree::leaf_nodes;
use crate::rtree::RTreeIndex;
use crate::rtree::RTreeNode;
use crate::rtree::tree_levels;

verus! {

/// The number that opens and closes a bigWig file.
pub const BIGWIG_MAGIC: u32 = 0x888F_FC26;

/// The version that the header declares.
pub const BIGWIG_VERSION: u16 = 4;

/// The size of the fixed header.
pub const HEADER_SIZE: usize = 64;

/// The size of one zoom header.
pub const ZOOM_HEADER_SIZE: usize = 24;

/// The size of the total summary.
pub const SUMMARY_SIZE: usize = 40;

/// The offset of the total summary: after the header and the room for the zoom headers.
pub open spec fn summary_offset(options: BigWigWriteOptions) -> int {
    64 + 24 * options.max_zooms
}

/// The offset of the count of sections, with which the data starts.
pub open spec fn data_offset(options: BigWigWriteOptions) -> int {
    summary_offset(options) + 40
}

/// The offset of the first section.
pub open spec fn sections_offset(options: BigWigWriteOptions) -> int {
    data_offset(options) + 8
}

/// The payloads of `sections`, one after the other.
pub open spec fn sections_data(sections: Seq<SectionView>) -> Seq<u8>
    decreases sections.len(),
{
    if sections.len() == 0 {
        Seq::empty()
    } else {
        sections_data(sections.drop_last()) + sections.last().data
    }
}

/// Where `sections` lie in a file that holds their payloads from the offset `at` on.
pub open spec fn section_entries(sections: Seq<SectionView>, at: int) -> Seq<Section>
    decreases sections.len(),
{
    if sections.len() == 0 {
        Seq::empty()
    } else {
        section_entries(sections.drop_last(), at).push(
            Section {
                offset: (at + sections_data(sections.drop_last()).len()) as u64,
                size: sections.last().data.len() as u64,
                chrom: sections.last().chrom,
                start: sections.last().start,
                end: sections.last().end,
            },
        )
    }
}

/// The sections as plain values.
pub open spec fn section_views(sections: Seq<SectionData>) -> Seq<SectionView> {
    sections.map_values(|s: SectionData| s@)
}

/// The 64 bytes of the header.
pub open spec fn header_bytes(
    zoom_levels: u16,
    chrom_tree_offset: u64,
    full_data_offset: u64,
    full_index_offset: u64,
    total_summary_offset: u64,
    uncompress_buf_size: u32,
) -> Seq<u8> {
    u32_le(BIGWIG_MAGIC) + u16_le(BIGWIG_VERSION) + u16_le(zoom_levels) + u64_le(
        chrom_tree_offset,
    ) + u64_le(full_data_offset) + u64_le(full_index_offset) + u16_le(0) + u16_le(0) + u64_le(0)
        + u64_le(total_summary_offset) + u32_le(uncompress_buf_size) + u64_le(0)
}

/// The 24 bytes of one zoom header.
pub open spec fn zoom_header_bytes(z: ZoomHeader) -> Seq<u8> {
    u32_le(z.reduction_level) + u32_le(0) + u64_le(z.data_offset) + u64_le(z.index_offset)
}

/// The bytes of zoom headers, one after the other.
pub open spec fn zoom_headers_bytes(headers: Seq<ZoomHeader>) -> Seq<u8>
    decreases headers.len(),
{
    if headers.len() == 0 {
        Seq::empty()
    } else {
        zoom_headers_bytes(headers.drop_last()) + zoom_header_bytes(headers.last())
    }
}

/// The 40 bytes of the total summary.
pub open spec fn summary_bytes(bases_covered: u64, stats: DoubleBits) -> Seq<u8> {
    u64_le(bases_covered) + u64_le(stats.min_val) + u64_le(stats.max_val) + u64_le(stats.sum)
        + u64_le(stats.sum_squares)
}

/// `count` zero bytes.
pub open spec fn zeros(count: int) -> Seq<u8> {
    Seq::new(count as nat, |i: int| 0u8)
}

/// Appends `data`.
pub fn append_bytes(file: &mut Vec<u8>, data: &Vec<u8>)
    ensures
        final(file)@ == old(file)@ + data@,
{
    let n = data.len();
    let mut i: usize = 0;
    while i < n
        invariant
            i <= n,
            n == data.len(),
            file@ == old(file)@ + data@.take(i as int),
        decreases n - i,
    {
        file.push(data[i]);
        assert(file@ =~= old(file)@ + data@.take(i + 1));
        i = i + 1;
    }
    assert(data@.take(n as int) =~= data@);
}

/// Appends `count` zero bytes.
pub fn append_zeros(file: &mut Vec<u8>, count: usize)
    ensures
        final(file)@ == old(file)@ + zeros(count as int),
{
    let mut i: usize = 0;
    while i < count
        invariant
            i <= count,
            file@ == old(file)@ + zeros(i as int),
        decreases count - i,
    {
        file.push(0);
        assert(file@ =~= old(file)@ + zeros(i + 1));
        i = i + 1;
    }
}

/// Appends zeros in place of the header and of the zoom headers, which are written once
/// the rest of the file is known.
pub fn write_blank_headers(file: &mut Vec<u8>, options: BigWigWriteOptions)
    ensures
        final(file)@ == old(file)@ + zeros(summary_offset(options)),
{
    append_zeros(file, HEADER_SIZE + ZOOM_HEADER_SIZE * options.max_zooms as usize);
}

/// Appends the payloads of `sections` and lists where each of them lies.
///
/// The payloads go through a buffer and are noted with their places in it; the buffer is
/// then given the file, and the places become places in the file.
#[verifier::rlimit(60)]
#[verifier::spinoff_prover]
pub fn append_sections(file: &mut Vec<u8>, sections: &Vec<SectionData>) -> (entries: Vec<Section>)
    ensures
        final(file)@ == old(file)@ + sections_data(section_views(sections@)),
        entries@ == section_entries(section_views(sections@), old(file)@.len() as int),
{
    let n = sections.len();
    let ghost views = section_views(sections@);
    let mut buffer = TempFileBuffer::new();
    let mut entries: Vec<Section> = Vec::new();
    let mut i: usize = 0;
    assert(views.take(0) =~= Seq::<SectionView>::empty());
    while i < n
        invariant
            i <= n,
            n == sections.len(),
            views == section_views(sections@),
            buffer.buffered(),
            buffer.produced() == sections_data(views.take(i as int)),
            entries@ == section_entries(views.take(i as int), 0),
        decreases n - i,
    {
        let section = &sections[i];
        proof {
            assert(views.take(i + 1).drop_last() =~= views.take(i as int));
            assert(views.take(i + 1).last() == section@);
        }
        let entry = Section {
            offset: buffer.len() as u64,
            size: section.data.len() as u64,
            chrom: section.chrom,
            start: section.start,
            end: section.end,
        };
        buffer.write(&section.data);
        entries.push(entry);
        i = i + 1;
    }
    assert(views.take(n as int) =~= views);
    let mut output: Vec<u8> = Vec::new();
    std::mem::swap(file, &mut output);
    let base = output.len();
    buffer.switch(output);
    let mut written = buffer.await_file();
    std::mem::swap(file, &mut written);
    let ghost noted = entries@;
    let len = file.len();
    let mut k: usize = 0;
    proof {
        lemma_section_entries_len(views, 0);
        lemma_section_entries_len(views, base as int);
    }
    while k < n
        invariant
            k <= n,
            n == views.len(),
            entries@.len() == n,
            noted == section_entries(views, 0),
            len == base + sections_data(views).len(),
            forall|j: int|
                0 <= j < k ==> #[trigger] entries@[j] == section_entries(views, base as int)[j],
            forall|j: int| k <= j < n ==> #[trigger] entries@[j] == noted[j],
        decreases n - k,
    {
        let entry = entries[k];
        let ghost before = entries@;
        proof {
            lemma_section_entry(views, 0, k as int);
            lemma_section_entry(views, base as int, k as int);
            lemma_section_data_at(views, k as int);
            assert(entry == noted[k as int]);
            assert(entry.offset == sections_data(views.take(k as int)).len());
        }
        entries.set(
            k,
            Section {
                offset: entry.offset + base as u64,
                size: entry.size,
                chrom: entry.chrom,
                start: entry.start,
                end: entry.end,
            },
        );
        assert forall|j: int| k < j < n implies #[trigger] entries@[j] == noted[j] by {
            assert(entries@[j] == before[j]);
        }
        assert forall|j: int| 0 <= j < k + 1 implies #[trigger] entries@[j] == section_entries(
            views,
            base as int,
        )[j] by {
            if j < k {
                assert(entries@[j] == before[j]);
            }
        }
        k = k + 1;
    }
    assert(entries@ =~= section_entries(views, base as int));
    entries
}

/// Overwrites the first bytes of `file` with `head`.
#[verifier::rlimit(60)]
#[verifier::spinoff_prover]
pub fn patch_head(file: &mut Vec<u8>, head: &Vec<u8>)
    requires
        head@.len() <= old(file)@.len(),
    ensures
        final(file)@ == head@ + old(file)@.skip(head@.len() as int),
{
    let n = head.len();
    let mut i: usize = 0;
    assert(file@ =~= head@.take(0) + old(file)@.skip(0));
    while i < n
        invariant
            i <= n,
            n == head.len(),
            n <= old(file)@.len(),
            file@ == head@.take(i as int) + old(file)@.skip(i as int),
        decreases n - i,
    {
        file.set(i, head[i]);
        assert(file@ =~= head@.take(i + 1) + old(file)@.skip(i + 1));
        i = i + 1;
    }
    assert(head@.take(n as int) =~= head@);
}

/// The sections of one zoom level.
pub struct ZoomData {
    /// The window width, in bases.
    pub resolution: u32,
    /// The sections of all chromosomes, in file order.
    pub sections: Vec<SectionData>,
}

/// All that a file holds, before any of it has a place.
pub struct TrackData {
    /// The chromosomes, each with its id.
    pub chroms: Vec<ChromInfo>,
    /// The primary sections, in file order.
    pub sections: Vec<SectionData>,
    /// The zoom levels, finest first.
    pub zooms: Vec<ZoomData>,
    /// The bases that the records cover.
    pub bases_covered: u64,
    /// The extremes and sums of the values.
    pub stats: DoubleBits,
    /// The greatest size that a reader inflates a section to.
    pub uncompress_buf_size: u32,
}

/// A zoom level as plain values.
pub struct ZoomView {
    pub resolution: u32,
    pub sections: Seq<SectionView>,
}

/// A track as plain values.
pub struct TrackView {
    pub chroms: Seq<ChromView>,
    pub sections: Seq<SectionView>,
    pub zooms: Seq<ZoomView>,
    pub bases_covered: u64,
    pub stats: DoubleBits,
    pub uncompress_buf_size: u32,
}

impl View for ZoomData {
    type V = ZoomView;

    open spec fn view(&self) -> ZoomView {
        ZoomView { resolution: self.resolution, sections: section_views(self.sections@) }
    }
}

impl View for TrackData {
    type V = TrackView;

    open spec fn view(&self) -> TrackView {
        TrackView {
            chroms: chrom_views(self.chroms@),
            sections: section_views(self.sections@),
            zooms: self.zooms@.map_values(|z: ZoomData| z@),
            bases_covered: self.bases_covered,
            stats: self.stats,
            uncompress_buf_size: self.uncompress_buf_size,
        }
    }
}

/// The levels of the index over `sections`, whose payloads lie from `data_at` on.
pub open spec fn index_levels(
    sections: Seq<SectionView>,
    data_at: int,
    options: BigWigWriteOptions,
) -> Seq<Seq<RTreeNode>> {
    tree_levels(leaf_nodes(section_entries(sections, data_at)), options.block_size as int)
}

/// The bytes of the index over `sections`, written at `index_at`.
pub open spec fn section_index_bytes(
    sections: Seq<SectionView>,
    data_at: int,
    index_at: int,
    options: BigWigWriteOptions,
) -> Seq<u8> {
    index_bytes(
        index_levels(sections, data_at, options),
        index_at as u64,
        sections.len() as u64,
        options,
    )
}

/// Whether every offset in the index over `sections`, written at `index_at`, is a 64-bit
/// number.
pub open spec fn index_fits(
    sections: Seq<SectionView>,
    data_at: int,
    index_at: int,
    options: BigWigWriteOptions,
) -> bool {
    index_at + index_size(index_levels(sections, data_at, options)) <= u64::MAX
}

/// Whether a zoom level is kept: its sections take no more than half the bytes of the
/// primary sections.
pub open spec fn zoom_kept(zoom: ZoomView, data_size: int) -> bool {
    sections_data(zoom.sections).len() <= data_size / 2
}

/// The zoom levels of a file: their bytes, the headers of those that are kept, and whether
/// their offsets are 64-bit numbers.
pub struct ZoomLayout {
    pub bytes: Seq<u8>,
    pub headers: Seq<ZoomHeader>,
    pub fits: bool,
}

/// The layout of `zooms` from the offset `at` on, in a file whose primary sections take
/// `data_size` bytes: each level that is kept gives its sections, then their index.
pub open spec fn zoom_layout(
    zooms: Seq<ZoomView>,
    at: int,
    data_size: int,
    options: BigWigWriteOptions,
) -> ZoomLayout
    decreases zooms.len(),
{
    if zooms.len() == 0 {
        ZoomLayout { bytes: Seq::empty(), headers: Seq::empty(), fits: true }
    } else {
        let before = zoom_layout(zooms.drop_last(), at, data_size, options);
        let zoom = zooms.last();
        if zoom_kept(zoom, data_size) {
            let data_at = at + before.bytes.len();
            let data = sections_data(zoom.sections);
            let index_at = data_at + data.len();
            ZoomLayout {
                bytes: before.bytes + data + section_index_bytes(
                    zoom.sections,
                    data_at,
                    index_at,
                    options,
                ),
                headers: before.headers.push(
                    ZoomHeader {
                        reduction_level: zoom.resolution,
                        data_offset: data_at as u64,
                        index_offset: index_at as u64,
                    },
                ),
                fits: before.fits && index_fits(zoom.sections, data_at, index_at, options),
            }
        } else {
            before
        }
    }
}

/// Where the chromosome index lies.
pub open spec fn chrom_tree_offset(track: TrackView, options: BigWigWriteOptions) -> int {
    sections_offset(options) + sections_data(track.sections).len()
}

/// Where the index over the primary sections lies.
pub open spec fn index_offset(track: TrackView, options: BigWigWriteOptions) -> int {
    chrom_tree_offset(track, options) + chrom_tree_bytes(track.chroms).len()
}

/// Where the zoom levels start.
pub open spec fn zooms_offset(track: TrackView, options: BigWigWriteOptions) -> int {
    index_offset(track, options) + section_index_bytes(
        track.sections,
        sections_offset(options),
        index_offset(track, options),
        options,
    ).len()
}

/// The zoom levels of a track's file.
pub open spec fn track_zooms(track: TrackView, options: BigWigWriteOptions) -> ZoomLayout {
    zoom_layout(
        track.zooms,
        zooms_offset(track, options),
        sections_data(track.sections).len() as int,
        options,
    )
}

/// Whether a file can hold `track`: the chromosome index can hold its chromosomes, and
/// every offset in its indexes is a 64-bit number.
pub open spec fn track_fits(track: TrackView, options: BigWigWriteOptions) -> bool {
    &&& chroms_fit(track.chroms)
    &&& index_fits(
        track.sections,
        sections_offset(options),
        index_offset(track, options),
        options,
    )
    &&& track_zooms(track, options).fits
}

/// The first part of a track's file, up to the first section: the header, the headers of
/// the zoom levels that are kept and zeros in place of the others, the total summary, the
/// count of sections.
pub open spec fn head_bytes(track: TrackView, options: BigWigWriteOptions) -> Seq<u8> {
    let zooms = track_zooms(track, options);
    header_bytes(
        zooms.headers.len() as u16,
        chrom_tree_offset(track, options) as u64,
        data_offset(options) as u64,
        index_offset(track, options) as u64,
        summary_offset(options) as u64,
        track.uncompress_buf_size,
    ) + zoom_headers_bytes(zooms.headers) + zeros(24 * (options.max_zooms - zooms.headers.len()))
        + summary_bytes(track.bases_covered, track.stats) + u64_le(track.sections.len() as u64)
}

/// The bytes of a track's file.
pub open spec fn file_bytes(track: TrackView, options: BigWigWriteOptions) -> Seq<u8> {
    head_bytes(track, options) + sections_data(track.sections) + chrom_tree_bytes(track.chroms)
        + section_index_bytes(
        track.sections,
        sections_offset(options),
        index_offset(track, options),
        options,
    ) + track_zooms(track, options).bytes + u32_le(BIGWIG_MAGIC)
}

/// What is said of a track that no file can hold.
pub open spec fn too_large_message() -> Seq<char> {
    "Track too large: its chromosomes or its section offsets exceed what the file can hold"@
}

/// The levels up to a higher one take no less room.
pub proof fn lemma_levels_size_grows(levels: Seq<Seq<RTreeNode>>, low: int, high: int)
    requires
        -1 <= low <= high < levels.len(),
    ensures
        0 <= levels_size(levels, low) <= levels_size(levels, high),
    decreases high - low,
{
    lemma_levels_size_nonnegative(levels, low);
    if low < high {
        lemma_levels_size_grows(levels, low, high - 1);
        lemma_levels_size_nonnegative(levels, high);
    }
}

/// Whether every offset of `index`, written at `at`, is a 64-bit number.
pub fn rtree_fits(at: usize, index: &RTreeIndex) -> (r: bool)
    requires
        index@.len() >= 1,
    ensures
        r == (at + index_size(index@) <= u64::MAX),
{
    let ghost levels = index@;
    let count = index.levels.len();
    let mut total: u64 = match (at as u64).checked_add(48) {
        Some(t) => t,
        None => {
            proof {
                lemma_levels_size_nonnegative(levels, count - 1);
            }
            return false;
        },
    };
    let mut level: usize = 0;
    while level < count
        invariant
            level <= count,
            count == index.levels.len(),
            count >= 1,
            levels == index@,
            total == at + 48 + levels_size(levels, level - 1),
        decreases count - level,
    {
        proof {
            assert(levels[level as int] == index.levels@[level as int]@);
            if level + 1 < count {
                assert(levels[level + 1] == index.levels@[level + 1]@);
            }
            lemma_levels_size_grows(levels, level as int, count - 1);
            lemma_levels_size_nonnegative(levels, level - 1);
        }
        let blocks: usize = if level + 1 < count {
            index.levels[level + 1].len()
        } else {
            1
        };
        let entry: u64 = if level == 0 {
            32
        } else {
            24
        };
        let headers = match (blocks as u64).checked_mul(4) {
            Some(x) => x,
            None => {
                return false;
            },
        };
        let entries = match (index.levels[level].len() as u64).checked_mul(entry) {
            Some(x) => x,
            None => {
                return false;
            },
        };
        let size = match headers.checked_add(entries) {
            Some(x) => x,
            None => {
                return false;
            },
        };
        total = match total.checked_add(size) {
            Some(x) => x,
            None => {
                return false;
            },
        };
        level = level + 1;
    }
    true
}

/// Builds the index over sections at `entries` and appends it, unless one of its offsets
/// would be no 64-bit number; the file is then left as it was.
#[verifier::rlimit(60)]
#[verifier::spinoff_prover]
pub fn append_index(file: &mut Vec<u8>, entries: &Vec<Section>, options: BigWigWriteOptions) -> (r:
    bool)
    requires
        2 <= options.block_size <= u16::MAX,
    ensures
        r == (old(file)@.len() + index_size(
            tree_levels(leaf_nodes(entries@), options.block_size as int),
        ) <= u64::MAX),
        final(file)@ == if r {
            old(file)@ + index_bytes(
                tree_levels(leaf_nodes(entries@), options.block_size as int),
                old(file)@.len() as u64,
                entries@.len() as u64,
                options,
            )
        } else {
            old(file)@
        },
{
    let index = get_rtreeindex(entries, options);
    if !rtree_fits(file.len(), &index) {
        return false;
    }
    write_rtreeindex(file, &index, entries.len() as u64, options);
    true
}

/// One more payload adds its length.
pub proof fn lemma_sections_data_len(sections: Seq<SectionView>)
    ensures
        sections.len() > 0 ==> sections_data(sections).len() == sections_data(
            sections.drop_last(),
        ).len() + sections.last().data.len(),
    decreases sections.len(),
{
    if sections.len() > 0 {
        lemma_sections_data_len(sections.drop_last());
    }
}

/// Every section has its entry.
pub proof fn lemma_section_entries_len(sections: Seq<SectionView>, at: int)
    ensures
        section_entries(sections, at).len() == sections.len(),
    decreases sections.len(),
{
    if sections.len() > 0 {
        lemma_section_entries_len(sections.drop_last(), at);
    }
}

/// Adds up the sizes of the payloads of `sections`. There is no sum where it is more than
/// a buffer can hold.
pub fn sections_size(sections: &Vec<SectionData>) -> (r: Option<usize>)
    ensures
        match r {
            Some(size) => size == sections_data(section_views(sections@)).len(),
            None => sections_data(section_views(sections@)).len() > usize::MAX,
        },
{
    let n = sections.len();
    let ghost views = section_views(sections@);
    let mut total: usize = 0;
    let mut i: usize = 0;
    assert(views.take(0) =~= Seq::<SectionView>::empty());
    while i < n
        invariant
            i <= n,
            n == sections.len(),
            views == section_views(sections@),
            total == sections_data(views.take(i as int)).len(),
            sections_data(views.take(i as int)).len() <= sections_data(views).len(),
        decreases n - i,
    {
        proof {
            assert(views.take(i + 1).drop_last() =~= views.take(i as int));
            assert(views.take(i + 1).last() == sections@[i as int]@);
            lemma_sections_data_len(views.take(i + 1));
            lemma_sections_data_grows(views, i + 1);
        }
        total = match total.checked_add(sections[i].data.len()) {
            Some(t) => t,
            None => {
                return None;
            },
        };
        i = i + 1;
    }
    assert(views.take(n as int) =~= views);
    Some(total)
}

/// The payloads of the first sections take no more room than those of all.
pub proof fn lemma_sections_data_grows(sections: Seq<SectionView>, n: int)
    requires
        0 <= n <= sections.len(),
    ensures
        sections_data(sections.take(n)).len() <= sections_data(sections).len(),
    decreases sections.len() - n,
{
    if n < sections.len() {
        lemma_sections_data_grows(sections, n + 1);
        assert(sections.take(n + 1).drop_last() =~= sections.take(n));
        lemma_sections_data_len(sections.take(n + 1));
    } else {
        assert(sections.take(n) =~= sections);
    }
}

/// Words the rejection of a track that no file can hold.
pub fn say_too_large() -> (e: ProcessChromError)
    ensures
        e matches ProcessChromError::InvalidInput(text) && text@ == too_large_message(),
{
    ProcessChromError::InvalidInput(
        String::from_str(
            "Track too large: its chromosomes or its section offsets exceed what the file can hold",
        ),
    )
}

/// Appends the zoom levels that are kept, each with its index, and lists their headers.
/// Gives nothing where an offset would be no 64-bit number.
#[verifier::rlimit(60)]
#[verifier::spinoff_prover]
pub fn write_zooms(
    file: &mut Vec<u8>,
    zooms: &Vec<ZoomData>,
    data_size: usize,
    options: BigWigWriteOptions,
) -> (r: Option<Vec<ZoomHeader>>)
    requires
        2 <= options.block_size <= u16::MAX,
    ensures
        ({
            let layout = zoom_layout(
                zooms@.map_values(|z: ZoomData| z@),
                old(file)@.len() as int,
                data_size as int,
                options,
            );
            &&& r is Some <==> layout.fits
            &&& r matches Some(headers) ==> headers@ == layout.headers && final(file)@ == old(
                file,
            )@ + layout.bytes
        }),
{
    let n = zooms.len();
    let ghost views = zooms@.map_values(|z: ZoomData| z@);
    let ghost at = file@.len() as int;
    let ghost size = data_size as int;
    let mut headers: Vec<ZoomHeader> = Vec::new();
    let mut i: usize = 0;
    assert(views.take(0) =~= Seq::<ZoomView>::empty());
    assert(file@ =~= old(file)@ + Seq::<u8>::empty());
    while i < n
        invariant
            i <= n,
            n == zooms.len(),
            2 <= options.block_size <= u16::MAX,
            views == zooms@.map_values(|z: ZoomData| z@),
            at == old(file)@.len(),
            size == data_size as int,
            zoom_layout(views.take(i as int), at, size, options).fits,
            headers@ == zoom_layout(views.take(i as int), at, size, options).headers,
            file@ == old(file)@ + zoom_layout(views.take(i as int), at, size, options).bytes,
        decreases n - i,
    {
        let zoom = &zooms[i];
        let ghost before = zoom_layout(views.take(i as int), at, size, options);
        let ghost after = zoom_layout(views.take(i + 1), at, size, options);
        let ghost started = file@;
        proof {
            assert(views.take(i + 1).drop_last() =~= views.take(i as int));
            assert(views.take(i + 1).last() == zoom@);
        }
        let kept = match sections_size(&zoom.sections) {
            Some(size) => size <= data_size / 2,
            None => false,
        };
        assert(kept == zoom_kept(zoom@, size));
        if kept {
            let data_at = file.len();
            let entries = append_sections(file, &zoom.sections);
            let index_at = file.len();
            let ghost filled = file@;
            assert(data_at == at + before.bytes.len());
            assert(index_at == data_at + sections_data(zoom@.sections).len());
            proof {
                lemma_section_entries_len(zoom@.sections, data_at as int);
            }
            let written = append_index(file, &entries, options);
            assert(written == index_fits(zoom@.sections, data_at as int, index_at as int, options));
            assert(after.fits == (before.fits && written));
            if !written {
                proof {
                    lemma_zoom_layout_fits(views, i + 1, at, size, options);
                }
                return None;
            }
            let header = ZoomHeader {
                reduction_level: zoom.resolution,
                data_offset: data_at as u64,
                index_offset: index_at as u64,
            };
            headers.push(header);
            proof {
                let data = sections_data(zoom@.sections);
                let index = section_index_bytes(
                    zoom@.sections,
                    data_at as int,
                    index_at as int,
                    options,
                );
                assert(after.headers == before.headers.push(header));
                assert(after.bytes == before.bytes + data + index);
                assert(filled == started + data);
                assert(file@ == filled + index);
                assert(file@ =~= old(file)@ + (before.bytes + data + index));
            }
        } else {
            assert(after == before);
        }
        i = i + 1;
    }
    assert(views.take(n as int) =~= views);
    Some(headers)
}

/// Levels that do not fit do not fit with more levels after them.
pub proof fn lemma_zoom_layout_fits(
    zooms: Seq<ZoomView>,
    n: int,
    at: int,
    data_size: int,
    options: BigWigWriteOptions,
)
    requires
        0 <= n <= zooms.len(),
        !zoom_layout(zooms.take(n), at, data_size, options).fits,
    ensures
        !zoom_layout(zooms, at, data_size, options).fits,
    decreases zooms.len() - n,
{
    if n < zooms.len() {
        assert(zooms.take(n + 1).drop_last() =~= zooms.take(n));
        lemma_zoom_layout_fits(zooms, n + 1, at, data_size, options);
    } else {
        assert(zooms.take(n) =~= zooms);
    }
}

/// No more headers than levels.
pub proof fn lemma_zoom_layout_headers(
    zooms: Seq<ZoomView>,
    at: int,
    data_size: int,
    options: BigWigWriteOptions,
)
    ensures
        zoom_layout(zooms, at, data_size, options).headers.len() <= zooms.len(),
    decreases zooms.len(),
{
    if zooms.len() > 0 {
        lemma_zoom_layout_headers(zooms.drop_last(), at, data_size, options);
    }
}

/// Headers take 24 bytes each.
pub proof fn lemma_zoom_headers_len(headers: Seq<ZoomHeader>)
    ensures
        zoom_headers_bytes(headers).len() == 24 * headers.len(),
    decreases headers.len(),
{
    lemma_le_lens();
    if headers.len() > 0 {
        lemma_zoom_headers_len(headers.drop_last());
    }
}

/// Builds the first part of a file, up to the first section.
#[verifier::rlimit(60)]
#[verifier::spinoff_prover]
pub fn build_head(
    headers: &Vec<ZoomHeader>,
    options: BigWigWriteOptions,
    tree_at: u64,
    index_at: u64,
    bases_covered: u64,
    stats: DoubleBits,
    uncompress_buf_size: u32,
    section_count: u64,
) -> (head: Vec<u8>)
    requires
        headers@.len() <= options.max_zooms,
    ensures
        head@ == header_bytes(
            headers@.len() as u16,
            tree_at,
            data_offset(options) as u64,
            index_at,
            summary_offset(options) as u64,
            uncompress_buf_size,
        ) + zoom_headers_bytes(headers@) + zeros(24 * (options.max_zooms - headers@.len()))
            + summary_bytes(bases_covered, stats) + u64_le(section_count),
        head@.len() == sections_offset(options),
{
    let reserved: usize = HEADER_SIZE + ZOOM_HEADER_SIZE * options.max_zooms as usize;
    let mut head: Vec<u8> = Vec::new();
    put_u32(&mut head, BIGWIG_MAGIC);
    put_u16(&mut head, BIGWIG_VERSION);
    put_u16(&mut head, headers.len() as u16);
    put_u64(&mut head, tree_at);
    put_u64(&mut head, (reserved + SUMMARY_SIZE) as u64);
    put_u64(&mut head, index_at);
    put_u16(&mut head, 0);
    put_u16(&mut head, 0);
    put_u64(&mut head, 0);
    put_u64(&mut head, reserved as u64);
    put_u32(&mut head, uncompress_buf_size);
    put_u64(&mut head, 0);
    let ghost fixed = head@;
    proof {
        lemma_le_lens();
    }
    assert(fixed =~= header_bytes(
        headers@.len() as u16,
        tree_at,
        data_offset(options) as u64,
        index_at,
        summary_offset(options) as u64,
        uncompress_buf_size,
    ));
    assert(fixed.len() == 64);
    let mut k: usize = 0;
    assert(headers@.take(0) =~= Seq::<ZoomHeader>::empty());
    while k < headers.len()
        invariant
            k <= headers.len(),
            head@ == fixed + zoom_headers_bytes(headers@.take(k as int)),
        decreases headers.len() - k,
    {
        let z = headers[k];
        let ghost before = head@;
        put_u32(&mut head, z.reduction_level);
        put_u32(&mut head, 0);
        put_u64(&mut head, z.data_offset);
        put_u64(&mut head, z.index_offset);
        proof {
            assert(headers@.take(k + 1).drop_last() =~= headers@.take(k as int));
            assert(head@ =~= before + zoom_header_bytes(z));
        }
        k = k + 1;
    }
    assert(headers@.take(headers.len() as int) =~= headers@);
    proof {
        lemma_zoom_headers_len(headers@);
    }
    let unused: usize = options.max_zooms as usize - headers.len();
    assert(unused <= 0xffff);
    append_zeros(&mut head, ZOOM_HEADER_SIZE * unused);
    let ghost padded = head@;
    assert(padded.len() == 64 + 24 * options.max_zooms);
    put_u64(&mut head, bases_covered);
    put_u64(&mut head, stats.min_val);
    put_u64(&mut head, stats.max_val);
    put_u64(&mut head, stats.sum);
    put_u64(&mut head, stats.sum_squares);
    assert(head@ =~= padded + summary_bytes(bases_covered, stats));
    put_u64(&mut head, section_count);
    head
}

/// What lies behind the first part of a track's file: the primary sections, the
/// chromosome index, the index over the sections, the zoom levels, the closing number.
pub open spec fn body_bytes(track: TrackView, options: BigWigWriteOptions) -> Seq<u8> {
    sections_data(track.sections) + chrom_tree_bytes(track.chroms) + section_index_bytes(
        track.sections,
        sections_offset(options),
        index_offset(track, options),
        options,
    ) + track_zooms(track, options).bytes + u32_le(BIGWIG_MAGIC)
}

/// A file with its first part still blank, and what that part has to say of the rest.
pub struct Body {
    /// The file, zeros up to the first section.
    pub file: Vec<u8>,
    /// The headers of the zoom levels that are kept.
    pub headers: Vec<ZoomHeader>,
    /// Where the chromosome index lies.
    pub tree_at: usize,
    /// Where the index over the primary sections lies.
    pub index_at: usize,
    /// How many bytes the primary sections take.
    pub data_size: usize,
}

/// What lies between the first part of a track's file and its zoom levels: the primary
/// sections, the chromosome index, the index over the sections.
pub open spec fn data_bytes(track: TrackView, options: BigWigWriteOptions) -> Seq<u8> {
    sections_data(track.sections) + chrom_tree_bytes(track.chroms) + section_index_bytes(
        track.sections,
        sections_offset(options),
        index_offset(track, options),
        options,
    )
}

/// Lays out a track's file up to its zoom levels, with the first part left blank. Gives
/// nothing where an offset of the index would be no 64-bit number.
#[verifier::rlimit(60)]
#[verifier::spinoff_prover]
fn lay_out_data(track: &TrackData, options: BigWigWriteOptions) -> (r: Option<Body>)
    requires
        2 <= options.block_size <= u16::MAX,
        chroms_fit(track@.chroms),
    ensures
        r is Some <==> index_fits(
            track@.sections,
            sections_offset(options),
            index_offset(track@, options),
            options,
        ),
        r matches Some(body) ==> {
            &&& body.file@ == zeros(sections_offset(options)) + data_bytes(track@, options)
            &&& body.file@.len() == zooms_offset(track@, options)
            &&& body.headers@.len() == 0
            &&& body.tree_at == chrom_tree_offset(track@, options)
            &&& body.index_at == index_offset(track@, options)
            &&& body.data_size == sections_data(track@.sections).len()
        },
{
    let ghost view = track@;
    let data_start: usize = HEADER_SIZE + ZOOM_HEADER_SIZE * options.max_zooms as usize
        + SUMMARY_SIZE + 8;
    let mut file: Vec<u8> = Vec::new();
    write_blank_headers(&mut file, options);
    append_zeros(&mut file, SUMMARY_SIZE + 8);
    let ghost blank = file@;
    assert(blank =~= zeros(data_start as int));
    assert(blank.len() == sections_offset(options));
    let entries = append_sections(&mut file, &track.sections);
    let ghost data = sections_data(view.sections);
    let ghost with_data = file@;
    assert(with_data == blank + data);
    let tree_at: usize = file.len();
    let data_size: usize = tree_at - data_start;
    assert(tree_at == chrom_tree_offset(view, options));
    write_chrom_tree(&mut file, &track.chroms);
    let ghost tree = chrom_tree_bytes(view.chroms);
    let ghost with_tree = file@;
    assert(with_tree == with_data + tree);
    let index_at: usize = file.len();
    assert(index_at == index_offset(view, options));
    proof {
        lemma_section_entries_len(view.sections, data_start as int);
    }
    let written = append_index(&mut file, &entries, options);
    assert(written == index_fits(
        view.sections,
        sections_offset(options),
        index_offset(view, options),
        options,
    ));
    if !written {
        return None;
    }
    let ghost index = section_index_bytes(
        view.sections,
        data_start as int,
        index_at as int,
        options,
    );
    assert(file@ == with_tree + index);
    assert(file@ =~= blank + (data + tree + index));
    Some(Body { file, headers: Vec::new(), tree_at, index_at, data_size })
}

/// Lays out all of a track's file but the first part, which it leaves blank.
#[verifier::rlimit(60)]
#[verifier::spinoff_prover]
pub fn lay_out_body(track: &TrackData, options: BigWigWriteOptions) -> (r: Option<Body>)
    requires
        2 <= options.block_size <= u16::MAX,
        chroms_fit(track@.chroms),
    ensures
        r is Some <==> track_fits(track@, options),
        r matches Some(body) ==> {
            &&& body.file@ == zeros(sections_offset(options)) + body_bytes(track@, options)
            &&& body.headers@ == track_zooms(track@, options).headers
            &&& body.tree_at == chrom_tree_offset(track@, options)
            &&& body.index_at == index_offset(track@, options)
            &&& body.data_size == sections_data(track@.sections).len()
        },
{
    let ghost view = track@;
    let body = match lay_out_data(track, options) {
        Some(body) => body,
        None => {
            return None;
        },
    };
    let mut file = body.file;
    let ghost with_index = file@;
    let ghost blank = zeros(sections_offset(options));
    let ghost data = data_bytes(view, options);
    proof {
        lemma_zeros_len(sections_offset(options));
    }
    let data_size: usize = body.data_size;
    assert(view.zooms == track.zooms@.map_values(|z: ZoomData| z@));
    let headers = match write_zooms(&mut file, &track.zooms, data_size, options) {
        Some(headers) => headers,
        None => {
            return None;
        },
    };
    let ghost zooms = track_zooms(view, options);
    assert(file@ == with_index + zooms.bytes);
    put_u32(&mut file, BIGWIG_MAGIC);
    assert(file@ =~= blank + (data + zooms.bytes + u32_le(BIGWIG_MAGIC)));
    assert(body_bytes(view, options) =~= data + zooms.bytes + u32_le(BIGWIG_MAGIC));
    Some(Body { file, headers, tree_at: body.tree_at, index_at: body.index_at, data_size })
}

/// Zeros are as many as they are said to be.
pub proof fn lemma_zeros_len(count: int)
    requires
        0 <= count,
    ensures
        zeros(count).len() == count,
{
}

/// Lays a track out as the bytes of its file.
///
/// A track with more chromosomes than the chromosome index counts, with a name longer than
/// its key can be, or with an index whose offsets pass 64 bits has no file.
#[verifier::rlimit(60)]
#[verifier::spinoff_prover]
pub fn assemble(track: &TrackData, options: BigWigWriteOptions) -> (r: Result<
    Vec<u8>,
    ProcessChromError,
>)
    requires
        2 <= options.block_size <= u16::MAX,
        track.zooms@.len() <= options.max_zooms,
    ensures
        r is Ok <==> track_fits(track@, options),
        r matches Ok(file) ==> file@ == file_bytes(track@, options),
        r matches Err(e) ==> e matches ProcessChromError::InvalidInput(text) && text@
            == too_large_message(),
{
    let ghost view = track@;
    if track.chroms.len() > u16::MAX as usize || key_size(&track.chroms).is_none() {
        return Err(say_too_large());
    }
    let body = match lay_out_body(track, options) {
        Some(body) => body,
        None => {
            return Err(say_too_large());
        },
    };
    proof {
        lemma_zoom_layout_headers(
            view.zooms,
            zooms_offset(view, options),
            sections_data(view.sections).len() as int,
            options,
        );
    }
    let head = build_head(
        &body.headers,
        options,
        body.tree_at as u64,
        body.index_at as u64,
        track.bases_covered,
        track.stats,
        track.uncompress_buf_size,
        track.sections.len() as u64,
    );
    assert(head@ == head_bytes(view, options));
    let mut file = body.file;
    let ghost blank = file@;
    patch_head(&mut file, &head);
    proof {
        assert(blank.skip(head@.len() as int) =~= body_bytes(view, options));
        assert(file@ =~= file_bytes(view, options));
    }
    Ok(file)
}

/// The resolutions of the zoom levels that are kept, finest first.
pub open spec fn kept_levels(zooms: Seq<ZoomView>, data_size: int) -> Seq<u32>
    decreases zooms.len(),
{
    if zooms.len() == 0 {
        Seq::empty()
    } else if zoom_kept(zooms.last(), data_size) {
        kept_levels(zooms.drop_last(), data_size).push(zooms.last().resolution)
    } else {
        kept_levels(zooms.drop_last(), data_size)
    }
}

/// No more levels are kept than there are.
pub proof fn lemma_kept_levels_len(zooms: Seq<ZoomView>, data_size: int)
    ensures
        kept_levels(zooms, data_size).len() <= zooms.len(),
    decreases zooms.len(),
{
    if zooms.len() > 0 {
        lemma_kept_levels_len(zooms.drop_last(), data_size);
    }
}

/// A file has a header for each zoom level that is kept, in their order, and for no other:
/// a level whose sections take more than half the bytes of the primary sections is left
/// out, and the count of levels in the header is that of the levels kept.
pub proof fn lemma_zoom_skipping(
    zooms: Seq<ZoomView>,
    at: int,
    data_size: int,
    options: BigWigWriteOptions,
)
    ensures
        zoom_layout(zooms, at, data_size, options).headers.map_values(
            |h: ZoomHeader| h.reduction_level,
        ) == kept_levels(zooms, data_size),
        zoom_layout(zooms, at, data_size, options).headers.len() == kept_levels(
            zooms,
            data_size,
        ).len(),
    decreases zooms.len(),
{
    let levels = |h: ZoomHeader| h.reduction_level;
    if zooms.len() == 0 {
        assert(zoom_layout(zooms, at, data_size, options).headers.map_values(levels)
            =~= kept_levels(zooms, data_size));
    } else {
        lemma_zoom_skipping(zooms.drop_last(), at, data_size, options);
        let before = zoom_layout(zooms.drop_last(), at, data_size, options);
        let all = zoom_layout(zooms, at, data_size, options);
        if zoom_kept(zooms.last(), data_size) {
            assert(all.headers.map_values(levels) =~= before.headers.map_values(levels).push(
                zooms.last().resolution,
            ));
        }
    }
}

/// The payload of section `i` lies in the payloads of all, after those of the sections
/// before it.
pub proof fn lemma_section_data_at(sections: Seq<SectionView>, i: int)
    requires
        0 <= i < sections.len(),
    ensures
        sections_data(sections.take(i)).len() + sections[i].data.len() <= sections_data(
            sections,
        ).len(),
        sections_data(sections).subrange(
            sections_data(sections.take(i)).len() as int,
            (sections_data(sections.take(i)).len() + sections[i].data.len()) as int,
        ) == sections[i].data,
    decreases sections.len(),
{
    let before = sections.drop_last();
    let all = sections_data(sections);
    if i < sections.len() - 1 {
        lemma_section_data_at(before, i);
        assert(before.take(i) =~= sections.take(i));
        assert(before[i] == sections[i]);
        let from = sections_data(sections.take(i)).len() as int;
        let to = from + sections[i].data.len();
        assert(all.subrange(from, to) =~= sections_data(before).subrange(from, to));
    } else {
        assert(sections.take(i) =~= before);
        let from = sections_data(before).len() as int;
        assert(all.subrange(from, from + sections[i].data.len()) =~= sections[i].data);
    }
}

/// Entry `i` names section `i`: its interval, its size, and as its offset the place of
/// its payload.
pub proof fn lemma_section_entry(sections: Seq<SectionView>, at: int, i: int)
    requires
        0 <= i < sections.len(),
    ensures
        section_entries(sections, at).len() == sections.len(),
        section_entries(sections, at)[i] == (Section {
            offset: (at + sections_data(sections.take(i)).len()) as u64,
            size: sections[i].data.len() as u64,
            chrom: sections[i].chrom,
            start: sections[i].start,
            end: sections[i].end,
        }),
    decreases sections.len(),
{
    lemma_section_entries_len(sections, at);
    lemma_section_entries_len(sections.drop_last(), at);
    if i < sections.len() - 1 {
        lemma_section_entry(sections.drop_last(), at, i);
        assert(sections.drop_last().take(i) =~= sections.take(i));
        assert(sections.drop_last()[i] == sections[i]);
    } else {
        assert(sections.take(i) =~= sections.drop_last());
    }
}

/// The first part of a file ends where the first section starts.
pub proof fn lemma_head_bytes_len(track: TrackView, options: BigWigWriteOptions)
    requires
        track.zooms.len() <= options.max_zooms,
    ensures
        head_bytes(track, options).len() == sections_offset(options),
{
    lemma_le_lens();
    let zooms = track_zooms(track, options);
    lemma_zoom_layout_headers(
        track.zooms,
        zooms_offset(track, options),
        sections_data(track.sections).len() as int,
        options,
    );
    lemma_zoom_headers_len(zooms.headers);
}

/// Every entry of the index over the primary sections points at its section: the bytes of
/// the file from its offset on, as many as its size, are the payload of the section whose
/// chromosome and interval it gives.
pub proof fn lemma_leaves_point_at_sections(track: TrackView, options: BigWigWriteOptions, i: int)
    requires
        track.zooms.len() <= options.max_zooms,
        0 <= i < track.sections.len(),
        file_bytes(track, options).len() <= u64::MAX,
    ensures
        ({
            let file = file_bytes(track, options);
            let entry = section_entries(track.sections, sections_offset(options))[i];
            &&& entry.chrom == track.sections[i].chrom
            &&& entry.start == track.sections[i].start
            &&& entry.end == track.sections[i].end
            &&& entry.offset + entry.size <= file.len()
            &&& file.subrange(entry.offset as int, entry.offset + entry.size)
                == track.sections[i].data
        }),
{
    let file = file_bytes(track, options);
    let head = head_bytes(track, options);
    let data = sections_data(track.sections);
    let at = sections_offset(options);
    lemma_head_bytes_len(track, options);
    lemma_section_entry(track.sections, at, i);
    lemma_section_data_at(track.sections, i);
    let from = sections_data(track.sections.take(i)).len() as int;
    let size = track.sections[i].data.len() as int;
    assert(file.subrange(at + from, at + from + size) =~= data.subrange(from, from + size));
}

/// The index over sections takes the room that is reckoned for it.
pub proof fn lemma_section_index_len(
    sections: Seq<SectionView>,
    data_at: int,
    index_at: int,
    options: BigWigWriteOptions,
)
    requires
        2 <= options.block_size,
    ensures
        section_index_bytes(sections, data_at, index_at, options).len() == index_size(
            index_levels(sections, data_at, options),
        ),
{
    let leaves = leaf_nodes(section_entries(sections, data_at));
    assert(kinds_match(leaves, 0));
    lemma_index_bytes_len(leaves, index_at as u64, sections.len() as u64, options);
}

/// Zoom levels that end before offsets pass 64 bits fit.
pub proof fn lemma_zoom_layout_within(
    zooms: Seq<ZoomView>,
    at: int,
    data_size: int,
    options: BigWigWriteOptions,
)
    requires
        2 <= options.block_size,
        0 <= at,
        at + zoom_layout(zooms, at, data_size, options).bytes.len() <= u64::MAX,
    ensures
        zoom_layout(zooms, at, data_size, options).fits,
    decreases zooms.len(),
{
    if zooms.len() > 0 {
        let before = zoom_layout(zooms.drop_last(), at, data_size, options);
        let zoom = zooms.last();
        if zoom_kept(zoom, data_size) {
            let data_at = at + before.bytes.len();
            let index_at = data_at + sections_data(zoom.sections).len();
            lemma_section_index_len(zoom.sections, data_at, index_at, options);
        }
        lemma_zoom_layout_within(zooms.drop_last(), at, data_size, options);
    }
}

/// A track fits a file wherever the chromosome index can hold its chromosomes and the
/// file has fewer than 2^64 bytes.
pub proof fn lemma_track_fits(track: TrackView, options: BigWigWriteOptions)
    requires
        2 <= options.block_size,
        track.zooms.len() <= options.max_zooms,
        chroms_fit(track.chroms),
        file_bytes(track, options).len() <= u64::MAX,
    ensures
        track_fits(track, options),
{
    lemma_head_bytes_len(track, options);
    lemma_section_index_len(
        track.sections,
        sections_offset(options),
        index_offset(track, options),
        options,
    );
    lemma_zoom_layout_within(
        track.zooms,
        zooms_offset(track, options),
        sections_data(track.sections).len() as int,
        options,
    );
}

} // verus!
