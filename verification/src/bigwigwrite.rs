//! Writing a bigWig file: one chromosome's records into sections and zoom summaries, and
//! all chromosomes into the bytes of the file.

use vstd::prelude::*;
use vstd::string::StringExecFns;
use crate::bbi::BigWigWriteOptions;
use crate::bbi::ChromSize;
use crate::bbi::lemma_zoom_size_monotonic;
use crate::bbi::ProcessChromError;
use crate::bbi::SectionData;
use crate::bbi::Summary;
use crate::bbi::Value;
use crate::bbi::ValueStats;
use crate::bbi::zoom_size;
use crate::bbi::ZoomRecord;
use crate::bbiwrite::error_is;
use crate::bbiwrite::Expected;
use crate::bbiwrite::failing_step;
use crate::bbiwrite::invalid_options_message;
use crate::bbiwrite::lemma_processed_fits;
use crate::bbiwrite::lemma_merged_bases;
use crate::bbiwrite::merge_groups;
use crate::bbiwrite::steps_bases;
use crate::bbiwrite::refused;
use crate::bbiwrite::unfit;
use crate::bbiwrite::Processed;
use crate::bbiwrite::step_error;
use crate::bbiwrite::stream_steps;
use crate::bbiwrite::write_vals;
use crate::bbiwrite::written;
use crate::bedparser::BedParserStreamingIterator;
use crate::bedparser::StreamingBedValues;
use crate::encode::chunks;
use crate::encode::encode_sections;
use crate::encode::encode_zoom_sections;
use crate::encode::greatest;
use crate::encode::lemma_greatest_bound;
use crate::encode::lemma_chunks;
use crate::encode::lemma_chunks_index;
use crate::encode::lemma_sizes_bound;
use crate::encode::is_primary_section;
use crate::encode::is_zoom_section;
use crate::encode::primary_section;
use crate::encode::primary_sizes;
use crate::encode::zoom_sizes;
use crate::layout::assemble;
use crate::layout::too_large_message;
use crate::layout::TrackData;
use crate::text::backwards_message;
use crate::text::overlap_message;
use crate::text::say_backwards;
use crate::text::say_overlap;
use crate::text::say_too_long;
use crate::text::too_long_message;
use crate::zoom::lemma_zoom_fold;
use crate::zoom::lemma_zoom_inv_later;
use crate::zoom::lemma_zoom_windows;
use crate::zoom::record_windows;
use crate::zoom::records_bases;
use crate::zoom::records_on;
use crate::zoom::records_reach;
use crate::zoom::records_valid;
use crate::zoom::windows_bases;
use crate::zoom::zoom_fold;
use crate::zoom::zoom_windows;
use crate::zoom::ZoomItem;

verus! {

/// What can be wrong with a record.
pub enum Fault {
    /// It ends before it starts.
    Backwards,
    /// It ends past the chromosome.
    TooLong,
    /// The next record starts before it ends.
    Overlap,
}

/// What is wrong with record `i`, if anything. The checks come in this order.
pub open spec fn record_fault(records: Seq<Value>, i: int, chrom_length: u32) -> Option<Fault> {
    let v = records[i];
    if v.start > v.end {
        Some(Fault::Backwards)
    } else if v.end > chrom_length {
        Some(Fault::TooLong)
    } else if i + 1 < records.len() && v.end > records[i + 1].start {
        Some(Fault::Overlap)
    } else {
        None
    }
}

/// The first record from `from` on with something wrong.
pub open spec fn first_fault(records: Seq<Value>, chrom_length: u32, from: int) -> Option<int>
    decreases records.len() - from,
{
    if from < 0 || from >= records.len() {
        None
    } else if record_fault(records, from, chrom_length) is Some {
        Some(from)
    } else {
        first_fault(records, chrom_length, from + 1)
    }
}

/// What is said of record `i`'s fault.
pub open spec fn fault_message(records: Seq<Value>, i: int, chrom: Seq<char>, chrom_length: u32)
    -> Seq<char> {
    match record_fault(records, i, chrom_length) {
        Some(Fault::Backwards) => backwards_message(records[i]),
        Some(Fault::TooLong) => too_long_message(chrom, records[i], chrom_length),
        Some(Fault::Overlap) => overlap_message(chrom, records[i], records[i + 1]),
        None => Seq::empty(),
    }
}

/// Records are valid exactly when none of them has a fault.
pub proof fn lemma_valid_iff_no_fault(records: Seq<Value>, chrom_length: u32)
    ensures
        records_valid(records, chrom_length as int) <==> forall|i: int|
            0 <= i < records.len() ==> #[trigger] record_fault(records, i, chrom_length) is None,
{
    if records_valid(records, chrom_length as int) {
        assert forall|i: int| 0 <= i < records.len() implies #[trigger] record_fault(
            records,
            i,
            chrom_length,
        ) is None by {
            assert(records[i].start <= records[i].end);
        }
    }
    if forall|i: int|
        0 <= i < records.len() ==> #[trigger] record_fault(records, i, chrom_length) is None {
        assert forall|i: int| 0 <= i < records.len() implies (#[trigger] records[i]).start
            <= records[i].end <= chrom_length by {
            assert(record_fault(records, i, chrom_length) is None);
        }
        assert forall|i: int| 0 <= i < records.len() - 1 implies (#[trigger] records[i]).end
            <= records[i + 1].start by {
            assert(record_fault(records, i, chrom_length) is None);
        }
    }
}

/// The first fault is a fault, and no record before it has one.
pub proof fn lemma_first_fault(records: Seq<Value>, chrom_length: u32, from: int)
    requires
        0 <= from,
    ensures
        match first_fault(records, chrom_length, from) {
            Some(i) => from <= i < records.len() && record_fault(records, i, chrom_length) is Some
                && forall|j: int|
                from <= j < i ==> #[trigger] record_fault(records, j, chrom_length) is None,
            None => forall|j: int|
                from <= j < records.len() ==> #[trigger] record_fault(records, j, chrom_length)
                    is None,
        },
    decreases records.len() - from,
{
    if from < records.len() && record_fault(records, from, chrom_length) is None {
        lemma_first_fault(records, chrom_length, from + 1);
    }
}

/// Checks a chromosome's records, in order, and words what is wrong with the first that
/// breaks a rule.
pub fn check_values(values: &Vec<Value>, chrom: &str, chrom_length: u32) -> (r: Result<
    (),
    ProcessChromError,
>)
    ensures
        r is Ok <==> records_valid(values@, chrom_length as int),
        r matches Err(e) ==> {
            &&& first_fault(values@, chrom_length, 0) matches Some(i)
            &&& e matches ProcessChromError::InvalidInput(text)
            &&& text@ == fault_message(values@, i, chrom@, chrom_length)
        },
{
    let n = values.len();
    let mut i: usize = 0;
    while i < n
        invariant
            i <= n,
            n == values.len(),
            first_fault(values@, chrom_length, 0) == first_fault(values@, chrom_length, i as int),
            forall|j: int|
                0 <= j < i ==> #[trigger] record_fault(values@, j, chrom_length) is None,
        decreases n - i,
    {
        let v = values[i];
        if v.start > v.end {
            proof {
                lemma_valid_iff_no_fault(values@, chrom_length);
            }
            return Err(ProcessChromError::InvalidInput(say_backwards(v)));
        }
        if v.end > chrom_length {
            proof {
                lemma_valid_iff_no_fault(values@, chrom_length);
            }
            return Err(ProcessChromError::InvalidInput(say_too_long(chrom, v, chrom_length)));
        }
        if i + 1 < n {
            let next = values[i + 1];
            if v.end > next.start {
                proof {
                    lemma_valid_iff_no_fault(values@, chrom_length);
                }
                return Err(ProcessChromError::InvalidInput(say_overlap(chrom, v, next)));
            }
        }
        i = i + 1;
    }
    proof {
        lemma_valid_iff_no_fault(values@, chrom_length);
    }
    Ok(())
}

/// One resolution of a chromosome's zoom ladder.
pub struct ZoomOutput {
    /// The window width, in bases.
    pub resolution: u32,
    /// The windows, in order.
    pub records: Vec<ZoomRecord>,
    /// The windows in sections, ready for the file.
    pub sections: Vec<SectionData>,
}

/// What one chromosome adds to the file.
pub struct ChromOutput<A> {
    /// The primary sections, in order.
    pub sections: Vec<SectionData>,
    /// The zoom ladder, finest first.
    pub zooms: Vec<ZoomOutput>,
    /// What the chromosome's records amount to.
    pub summary: Summary<A>,
    /// The greatest size that a reader inflates one of the sections to.
    pub uncompress_buf_size: usize,
}

/// Whether `sections` are the primary sections of `values`.
pub open spec fn sections_match(
    sections: Seq<SectionData>,
    values: Seq<Value>,
    chrom_id: u32,
    options: BigWigWriteOptions,
) -> bool {
    let batches = chunks(values, options.items_per_slot as int);
    &&& sections.len() == batches.len()
    &&& forall|k: int|
        0 <= k < batches.len() ==> is_primary_section(
(#[trigger] sections[k])@, batches[k],
            chrom_id,
            options.compress,
        )
}

/// Whether `zoom` is level `level` of the ladder over `values`: its windows are those of
/// the level's resolution, and its sections hold them in batches.
pub open spec fn zoom_matches(
    zoom: ZoomOutput,
    level: nat,
    values: Seq<Value>,
    chrom_id: u32,
    options: BigWigWriteOptions,
) -> bool {
    let batches = chunks(zoom.records@, options.items_per_slot as int);
    &&& zoom.resolution == zoom_size(options.initial_zoom_size as int, level)
    &&& record_windows(zoom.records@) == zoom_windows(values, zoom.resolution as int)
    &&& records_on(zoom.records@, chrom_id)
    &&& zoom.sections@.len() == batches.len()
    &&& forall|k: int|
        0 <= k < batches.len() ==> is_zoom_section(
(#[trigger] zoom.sections@[k])@, batches[k],
            options.compress,
        )
}

/// The greatest size that a reader inflates a zoom section of `zooms` to.
pub open spec fn zooms_greatest(zooms: Seq<ZoomOutput>, options: BigWigWriteOptions) -> nat
    decreases zooms.len(),
{
    if zooms.len() == 0 {
        0
    } else {
        let last = greatest(
            zoom_sizes(
                chunks(zooms.last().records@, options.items_per_slot as int),
                options.compress,
            ),
        );
        let before = zooms_greatest(zooms.drop_last(), options);
        if last > before {
            last
        } else {
            before
        }
    }
}

/// Whether `out` is what the records `values` of chromosome `chrom_id` add to the file.
pub open spec fn chrom_output_matches<A>(
    out: ChromOutput<A>,
    values: Seq<Value>,
    chrom_id: u32,
    options: BigWigWriteOptions,
) -> bool {
    let primary = greatest(
        primary_sizes(
            chunks(values, options.items_per_slot as int),
            chrom_id,
            options.compress,
        ),
    );
    let zoomed = zooms_greatest(out.zooms@, options);
    &&& sections_match(out.sections@, values, chrom_id, options)
    &&& out.zooms@.len() == options.max_zooms
    &&& forall|l: int|
        0 <= l < out.zooms@.len() ==> zoom_matches(
            #[trigger] out.zooms@[l],
            l as nat,
            values,
            chrom_id,
            options,
        )
    &&& out.summary.total_items == values.len()
    &&& out.summary.bases_covered == records_bases(values)
    &&& (out.summary.stats is Some <==> values.len() > 0)
    &&& out.uncompress_buf_size == if primary > zoomed {
        primary
    } else {
        zoomed
    }
}

/// The first records of valid records are valid.
pub proof fn lemma_valid_prefix(records: Seq<Value>, chrom_length: int, n: int)
    requires
        records_valid(records, chrom_length),
        0 <= n <= records.len(),
    ensures
        records_valid(records.take(n), chrom_length),
        n < records.len() ==> records_reach(records.take(n)) <= records[n].start,
{
    let first = records.take(n);
    assert forall|i: int| 0 <= i < first.len() implies (#[trigger] first[i]).start
        <= first[i].end <= chrom_length by {
        assert(first[i] == records[i]);
    }
    assert forall|i: int| 0 <= i < first.len() - 1 implies (#[trigger] first[i]).end <= first[i
        + 1].start by {
        assert(first[i] == records[i]);
        assert(first[i + 1] == records[i + 1]);
    }
    if 0 < n < records.len() {
        assert(first.last() == records[n - 1]);
        assert(records[n - 1].end <= records[n - 1 + 1].start);
    }
}

/// Valid records cover no more bases than lie before the end of the last.
pub proof fn lemma_bases_bound(records: Seq<Value>, chrom_length: int)
    requires
        records_valid(records, chrom_length),
        0 <= chrom_length,
    ensures
        0 <= records_bases(records) <= records_reach(records) <= chrom_length,
    decreases records.len(),
{
    if records.len() > 0 {
        lemma_valid_prefix(records, chrom_length, records.len() - 1);
        assert(records.take(records.len() - 1) =~= records.drop_last());
        lemma_bases_bound(records.drop_last(), chrom_length);
        assert(records.last() == records[records.len() - 1]);
    }
}

/// Builds one level of the zoom ladder over a chromosome's records.
pub fn process_zoom<A: ValueStats>(
    chrom_id: u32,
    options: BigWigWriteOptions,
    chrom_values: &Vec<Value>,
    chrom_length: u32,
    resolution: u32,
) -> (r: Result<(ZoomOutput, usize), ProcessChromError>)
    requires
        1 <= options.items_per_slot,
        1 <= resolution,
        records_valid(chrom_values@, chrom_length as int),
    ensures
        r is Ok,
        r matches Ok(out) ==> {
            let batches = chunks(out.0.records@, options.items_per_slot as int);
            &&& out.0.resolution == resolution
            &&& record_windows(out.0.records@) == zoom_windows(chrom_values@, resolution as int)
            &&& records_on(out.0.records@, chrom_id)
            &&& out.0.sections@.len() == batches.len()
            &&& forall|k: int|
                0 <= k < batches.len() ==> is_zoom_section(
(#[trigger] out.0.sections@[k])@, batches[k],
                    options.compress,
                )
            &&& out.1 == greatest(zoom_sizes(batches, options.compress))
        },
{
    let n = chrom_values.len();
    let mut item: ZoomItem<A> = ZoomItem::new(resolution);
    let mut i: usize = 0;
    assert(chrom_values@.take(0) =~= Seq::<Value>::empty());
    while i < n
        invariant
            i <= n,
            n == chrom_values.len(),
            1 <= resolution,
            item.size == resolution,
            records_valid(chrom_values@, chrom_length as int),
            item.model() == zoom_fold(chrom_values@.take(i as int), resolution as int),
            records_on(item.records@, chrom_id),
        decreases n - i,
    {
        let v = chrom_values[i];
        proof {
            lemma_valid_prefix(chrom_values@, chrom_length as int, i as int);
            lemma_zoom_fold(chrom_values@.take(i as int), chrom_length as int, resolution as int);
            lemma_zoom_inv_later(
                item.model(),
                resolution as int,
                records_reach(chrom_values@.take(i as int)),
                v.start as int,
            );
            assert(chrom_values@.take(i + 1).drop_last() =~= chrom_values@.take(i as int));
        }
        item.add_value(chrom_id, v);
        i = i + 1;
    }
    assert(chrom_values@.take(n as int) =~= chrom_values@);
    item.finish(chrom_id);
    match encode_zoom_sections(options.compress, &item.records, options.items_per_slot) {
        Ok((sections, largest)) => Ok(
            (ZoomOutput { resolution, records: item.records, sections }, largest),
        ),
        Err(e) => Err(e),
    }
}

/// Processes one chromosome: checks its records, and turns them into primary sections,
/// the sections of each zoom level, and a summary.
///
/// A record that ends before it starts, ends past the chromosome or runs into the next
/// one is rejected, the first such record deciding what is said.
pub fn process_chrom<A: ValueStats>(
    chrom_id: u32,
    options: BigWigWriteOptions,
    chrom_values: &Vec<Value>,
    chrom: &str,
    chrom_length: u32,
) -> (r: Result<ChromOutput<A>, ProcessChromError>)
    requires
        options.valid(),
    ensures
        r is Ok <==> records_valid(chrom_values@, chrom_length as int),
        r matches Ok(out) ==> chrom_output_matches(out, chrom_values@, chrom_id, options),
        r matches Err(e) ==> {
            &&& first_fault(chrom_values@, chrom_length, 0) matches Some(i)
            &&& e matches ProcessChromError::InvalidInput(text)
            &&& text@ == fault_message(chrom_values@, i, chrom@, chrom_length)
        },
{
    match check_values(chrom_values, chrom, chrom_length) {
        Ok(()) => {},
        Err(e) => {
            return Err(e);
        },
    }
    let n = chrom_values.len();
    let mut summary: Summary<A> = Summary { total_items: 0, bases_covered: 0, stats: None };
    let mut i: usize = 0;
    assert(chrom_values@.take(0) =~= Seq::<Value>::empty());
    while i < n
        invariant
            i <= n,
            n == chrom_values.len(),
            records_valid(chrom_values@, chrom_length as int),
            summary.total_items == i,
            summary.bases_covered == records_bases(chrom_values@.take(i as int)),
            summary.stats is Some <==> i > 0,
        decreases n - i,
    {
        let v = chrom_values[i];
        proof {
            lemma_valid_prefix(chrom_values@, chrom_length as int, i + 1);
            lemma_bases_bound(chrom_values@.take(i + 1), chrom_length as int);
            assert(chrom_values@.take(i + 1).drop_last() =~= chrom_values@.take(i as int));
            assert(v.start <= v.end);
        }
        let len: u32 = v.end - v.start;
        summary.total_items = summary.total_items + 1;
        summary.bases_covered = summary.bases_covered + len as u64;
        let mut stats = match summary.stats.take() {
            Some(stats) => stats,
            None => A::start(v.value),
        };
        stats.add_bases(len, v.value);
        summary.stats = Some(stats);
        i = i + 1;
    }
    assert(chrom_values@.take(n as int) =~= chrom_values@);
    let (sections, primary) = match encode_sections(
        options.compress,
        chrom_values,
        chrom_id,
        options.items_per_slot,
    ) {
        Ok(out) => out,
        Err(e) => {
            return Err(e);
        },
    };
    let mut zooms: Vec<ZoomOutput> = Vec::new();
    let mut zoomed: usize = 0;
    let mut resolution: u32 = options.initial_zoom_size;
    let mut level: u16 = 0;
    while level < options.max_zooms
        invariant
            level <= options.max_zooms,
            options.valid(),
            records_valid(chrom_values@, chrom_length as int),
            zooms@.len() == level,
            level < options.max_zooms ==> resolution == zoom_size(
                options.initial_zoom_size as int,
                level as nat,
            ),
            forall|l: int|
                0 <= l < zooms@.len() ==> zoom_matches(
                    #[trigger] zooms@[l],
                    l as nat,
                    chrom_values@,
                    chrom_id,
                    options,
                ),
            zoomed == zooms_greatest(zooms@, options),
        decreases options.max_zooms - level,
    {
        proof {
            lemma_zoom_size_monotonic(options.initial_zoom_size as int, 0, level as nat);
        }
        match process_zoom::<A>(chrom_id, options, chrom_values, chrom_length, resolution) {
            Ok((zoom, largest)) => {
                let ghost before = zooms@;
                zooms.push(zoom);
                if largest > zoomed {
                    zoomed = largest;
                }
                proof {
                    assert(zooms@.drop_last() =~= before);
                    assert forall|l: int| 0 <= l < zooms@.len() implies zoom_matches(
                        #[trigger] zooms@[l],
                        l as nat,
                        chrom_values@,
                        chrom_id,
                        options,
                    ) by {
                        if l < before.len() {
                            assert(zooms@[l] == before[l]);
                        }
                    }
                }
            },
            Err(e) => {
                return Err(e);
            },
        }
        level = level + 1;
        if level < options.max_zooms {
            proof {
                lemma_zoom_size_monotonic(
                    options.initial_zoom_size as int,
                    level as nat,
                    (options.max_zooms - 1) as nat,
                );
            }
            resolution = resolution * 4;
        }
    }
    let uncompress_buf_size = if primary > zoomed {
        primary
    } else {
        zoomed
    };
    Ok(ChromOutput { sections, zooms, summary, uncompress_buf_size })
}

/// Where nothing is compressed no zoom section is inflated.
pub proof fn lemma_zooms_greatest_plain(zooms: Seq<ZoomOutput>, options: BigWigWriteOptions)
    requires
        !options.compress,
    ensures
        zooms_greatest(zooms, options) == 0,
    decreases zooms.len(),
{
    if zooms.len() > 0 {
        lemma_zooms_greatest_plain(zooms.drop_last(), options);
        lemma_greatest_bound(
            zoom_sizes(
                chunks(zooms.last().records@, options.items_per_slot as int),
                options.compress,
            ),
            0,
        );
    }
}

/// The greatest size that any section of a track written with valid options inflates to.
pub open spec fn largest_section() -> nat {
    32 * 65535
}

/// No zoom section inflates to more than a full batch takes.
pub proof fn lemma_zooms_greatest_bound(zooms: Seq<ZoomOutput>, options: BigWigWriteOptions)
    requires
        options.valid(),
    ensures
        zooms_greatest(zooms, options) <= largest_section(),
    decreases zooms.len(),
{
    if zooms.len() > 0 {
        lemma_zooms_greatest_bound(zooms.drop_last(), options);
        lemma_sizes_bound(
            Seq::<Value>::empty(),
            zooms.last().records@,
            0,
            options.items_per_slot as int,
            options.compress,
        );
    }
}

/// What a chromosome adds to a file has no section that inflates to more than the
/// header can say.
pub proof fn lemma_output_size_bound<A>(
    out: ChromOutput<A>,
    values: Seq<Value>,
    chrom_id: u32,
    options: BigWigWriteOptions,
)
    requires
        options.valid(),
        chrom_output_matches(out, values, chrom_id, options),
    ensures
        out.uncompress_buf_size <= largest_section(),
{
    lemma_zooms_greatest_bound(out.zooms@, options);
    lemma_sizes_bound(
        values,
        Seq::<ZoomRecord>::empty(),
        chrom_id,
        options.items_per_slot as int,
        options.compress,
    );
}

/// A bigWig file to be written.
pub struct BigWigWrite {
    /// Where the file is to lie.
    pub path: String,
    /// How it is written.
    pub options: BigWigWriteOptions,
}

impl BigWigWrite {
    /// A writer for the file at `path`, with the options that a writer starts with.
    pub fn create_file(path: String) -> (writer: Self)
        ensures
            writer.path == path,
            writer.options == (BigWigWriteOptions {
                compress: true,
                items_per_slot: 1024,
                block_size: 256,
                initial_zoom_size: 10,
                max_zooms: 10,
            }),
            writer.options.valid(),
    {
        BigWigWrite { path, options: BigWigWriteOptions::default() }
    }

    /// Writes the records of `vals` as a bigWig file, and gives its bytes.
    ///
    /// The chromosomes get their ids in the order in which the stream first names them,
    /// and their lengths from `chrom_sizes`. Each is processed in turn; the first step
    /// that fails decides the error. What the chromosomes add is gathered into one track
    /// and laid out. A file is given unless a step fails, the records cover more bases than
    /// a 64-bit number counts, or no file can hold the track: its chromosomes are more
    /// than the chromosome index counts, or an offset in an index passes 64 bits.
    pub fn write<S: StreamingBedValues<Value = Value>, A: ValueStats>(
        &self,
        chrom_sizes: &Vec<ChromSize>,
        vals: BedParserStreamingIterator<S>,
    ) -> (r: Result<Vec<u8>, ProcessChromError>)
        requires
            vals.ready(),
        ensures
            !self.options.valid() ==> {
                &&& r matches Err(ProcessChromError::InvalidInput(text))
                &&& text@ == invalid_options_message()
            },
            self.options.valid() ==> ({
                let steps = stream_steps(vals.upcoming(), vals.last(), vals.allows_any_order());
                let failing = failing_step(steps, chrom_sizes@, 0);
                &&& r matches Ok(file) ==> {
                    &&& failing is None
                    &&& exists|done: Processed<A>, track: TrackData| #[trigger]
                        written(done, track, steps, chrom_sizes@, self.options, file@)
                }
                &&& r matches Err(e) ==> match failing {
                    Some(k) => error_is(e, step_error(steps, chrom_sizes@, k)->0),
                    None => {
                        &&& error_is(e, Expected::Rejection(too_large_message()))
                        &&& (steps_bases(steps) > u64::MAX || exists|done: Processed<A>| #[trigger]
                            refused(done, steps, chrom_sizes@, self.options))
                    },
                }
                &&& failing is Some ==> r is Err
            }),
    {
        if !self.options.is_valid() {
            return Err(
                ProcessChromError::InvalidInput(
                    String::from_str(
                        "Invalid options: a section holds 1 to 65535 records, an index node 2 to 65535 children, and every zoom window fewer than 4294967296 bases",
                    ),
                ),
            );
        }
        let mut vals = vals;
        let ghost steps = stream_steps(vals.upcoming(), vals.last(), vals.allows_any_order());
        let done = match write_vals::<S, A>(&mut vals, chrom_sizes, self.options) {
            Ok(done) => done,
            Err(e) => {
                return Err(e);
            },
        };
        let ghost processed = done;
        proof {
            lemma_processed_fits(processed, steps, chrom_sizes@, self.options);
        }
        let track = match merge_groups(done, self.options) {
            Ok(track) => track,
            Err(e) => {
                proof {
                    lemma_merged_bases(
                        processed,
                        steps,
                        chrom_sizes@,
                        self.options,
                        steps.len() as int,
                    );
                }
                return Err(e);
            },
        };
        let file = match assemble(&track, self.options) {
            Ok(file) => file,
            Err(e) => {
                assert(unfit(track, processed, self.options));
                assert(refused(processed, steps, chrom_sizes@, self.options));
                return Err(e);
            },
        };
        assert(written(processed, track, steps, chrom_sizes@, self.options, file@));
        Ok(file)
    }
}

/// Of valid records, each ends where any later one starts, or before.
pub proof fn lemma_records_in_order(records: Seq<Value>, chrom_length: int, i: int, j: int)
    requires
        records_valid(records, chrom_length),
        0 <= i < j < records.len(),
    ensures
        records[i].start <= records[i].end <= records[j].start <= records[j].end,
    decreases j - i,
{
    if i + 1 < j {
        lemma_records_in_order(records, chrom_length, i, j - 1);
        assert(records[j - 1].end <= records[j - 1 + 1].start);
    } else {
        assert(records[i].end <= records[i + 1].start);
    }
}

/// The primary sections of a chromosome come in the order of their bases: each starts no
/// earlier than the one before it ends, and so no earlier than it starts.
pub proof fn lemma_sections_in_order(
    values: Seq<Value>,
    chrom_length: int,
    chrom_id: u32,
    options: BigWigWriteOptions,
    j: int,
    k: int,
)
    requires
        records_valid(values, chrom_length),
        1 <= options.items_per_slot,
        0 <= j < k < chunks(values, options.items_per_slot as int).len(),
    ensures
        ({
            let batches = chunks(values, options.items_per_slot as int);
            let first = primary_section(batches[j], chrom_id, options.compress);
            let second = primary_section(batches[k], chrom_id, options.compress);
            first.start <= first.end <= second.start <= second.end
        }),
{
    let size = options.items_per_slot as int;
    let batches = chunks(values, size);
    lemma_chunks(values, size);
    let last = batches[j].len() - 1;
    lemma_chunks_index(values, size, j, 0);
    lemma_chunks_index(values, size, j, last);
    lemma_chunks_index(values, size, k, 0);
    lemma_chunks_index(values, size, k, batches[k].len() - 1);
    assert((j + 1) * size <= k * size) by (nonlinear_arith)
        requires
            j + 1 <= k,
            size >= 1,
    ;
    assert((j + 1) * size == j * size + size) by (nonlinear_arith);
    lemma_records_in_order(values, chrom_length, j * size + last, k * size);
    if last > 0 {
        lemma_records_in_order(values, chrom_length, j * size, j * size + last);
    }
    let end = batches[k].len() - 1;
    if end > 0 {
        lemma_records_in_order(values, chrom_length, k * size, k * size + end);
    }
}

/// Of what a chromosome adds to a file, at every zoom level: no zoom record spans more
/// bases than the level is wide, each starts at least that many bases after the one
/// before, and together the records of the level cover as many bases as the records of
/// the chromosome do.
pub proof fn lemma_output_zooms<A>(
    out: ChromOutput<A>,
    values: Seq<Value>,
    chrom_length: u32,
    chrom_id: u32,
    options: BigWigWriteOptions,
    level: int,
)
    requires
        options.valid(),
        records_valid(values, chrom_length as int),
        chrom_output_matches(out, values, chrom_id, options),
        0 <= level < options.max_zooms,
    ensures
        ({
            let zoom = out.zooms@[level];
            let records = zoom.records@;
            &&& forall|i: int|
                0 <= i < records.len() ==> (#[trigger] records[i]).start <= records[i].end
                    <= chrom_length && records[i].end - records[i].start <= zoom.resolution
                    && records[i].chrom == chrom_id
            &&& forall|i: int, j: int|
                0 <= i < j < records.len() ==> (#[trigger] records[i]).start + zoom.resolution <= (
                #[trigger] records[j]).start
            &&& windows_bases(record_windows(records)) == out.summary.bases_covered
        }),
{
    let zoom = out.zooms@[level];
    let records = zoom.records@;
    assert(zoom_matches(zoom, level as nat, values, chrom_id, options));
    lemma_zoom_size_monotonic(options.initial_zoom_size as int, 0, level as nat);
    let windows = zoom_windows(values, zoom.resolution as int);
    lemma_zoom_windows(values, chrom_length as int, zoom.resolution as int);
    assert forall|i: int| 0 <= i < records.len() implies (#[trigger] records[i]).start
        <= records[i].end <= chrom_length && records[i].end - records[i].start
        <= zoom.resolution && records[i].chrom == chrom_id by {
        assert(record_windows(records)[i] == windows[i]);
    }
    assert forall|i: int, j: int| 0 <= i < j < records.len() implies (
    #[trigger] records[i]).start + zoom.resolution <= (#[trigger] records[j]).start by {
        assert(record_windows(records)[i] == windows[i]);
        assert(record_windows(records)[j] == windows[j]);
    }
}

} // verus!
