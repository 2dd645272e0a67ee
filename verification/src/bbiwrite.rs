//! From a stream of records to all that a file holds: each chromosome in turn is given an
//! id, checked against its length, and processed.

use vstd::prelude::*;
use crate::bbi::BedParseError;
use crate::bbi::BigWigWriteOptions;
use crate::bbi::chrom_views;
use crate::bbi::ChromInfo;
use crate::bbi::ChromSize;
use crate::bbi::ChromView;
use crate::bbi::DoubleBits;
use crate::bbi::lemma_zoom_size_monotonic;
use crate::bbi::ProcessChromError;
use crate::bbi::SectionData;
use crate::bbi::SectionView;
use crate::bbi::Value;
use crate::bbi::ValueStats;
use crate::bbi::zoom_size;
use crate::bedparser::after_group;
use crate::bedparser::BedParserStreamingIterator;
use crate::bedparser::ChromDataState;
use crate::bedparser::ChromGroup;
use crate::bedparser::group_failure;
use crate::bedparser::group_head;
use crate::bedparser::group_values;
use crate::bedparser::in_order;
use crate::bedparser::StreamingBedValues;
use crate::bigwigwrite::check_values;
use crate::bigwigwrite::chrom_output_matches;
use crate::bigwigwrite::sections_match;
use crate::bigwigwrite::ChromOutput;
use crate::bigwigwrite::fault_message;
use crate::bigwigwrite::first_fault;
use crate::bigwigwrite::largest_section;
use crate::bigwigwrite::lemma_output_size_bound;
use crate::bigwigwrite::process_chrom;
use crate::bigwigwrite::ZoomOutput;
use crate::chromtree::chroms_fit;
use crate::layout::lemma_track_fits;
use crate::encode::chunks;
use crate::encode::lemma_chunks;
use crate::encode::lemma_greatest_bound;
use crate::encode::lemma_greatest_reaches;
use crate::encode::lemma_section_bytes_len;
use crate::encode::primary_sizes;
use crate::bigwigwrite::lemma_zooms_greatest_plain;
use crate::encode::is_primary_section;
use crate::layout::file_bytes;
use crate::layout::say_too_large;
use crate::layout::section_views;
use crate::layout::too_large_message;
use crate::layout::track_fits;
use crate::layout::TrackData;
use crate::layout::ZoomData;
use crate::layout::ZoomView;
use crate::text::say_unknown_chrom;
use crate::text::unknown_chrom_message;
use crate::text::unsorted_message;
use crate::zoom::records_bases;
use crate::zoom::records_valid;

verus! {

/// The length that `sizes` gives for the chromosome `name`, looking from entry `from` on.
pub open spec fn size_from(sizes: Seq<ChromSize>, name: Seq<char>, from: int) -> Option<u32>
    decreases sizes.len() - from,
{
    if from < 0 || from >= sizes.len() {
        None
    } else if sizes[from].name@ == name {
        Some(sizes[from].length)
    } else {
        size_from(sizes, name, from + 1)
    }
}

/// The place of the chromosome `name` in `chroms`, looking from entry `from` on.
pub open spec fn chrom_from(chroms: Seq<ChromView>, name: Seq<char>, from: int) -> Option<int>
    decreases chroms.len() - from,
{
    if from < 0 || from >= chroms.len() {
        None
    } else if chroms[from].name == name {
        Some(from)
    } else {
        chrom_from(chroms, name, from + 1)
    }
}

/// Looks up the length of the chromosome `name`.
pub fn find_size(sizes: &Vec<ChromSize>, name: &String) -> (r: Option<u32>)
    ensures
        r == size_from(sizes@, name@, 0),
{
    let mut i: usize = 0;
    while i < sizes.len()
        invariant
            i <= sizes.len(),
            size_from(sizes@, name@, 0) == size_from(sizes@, name@, i as int),
        decreases sizes.len() - i,
    {
        if sizes[i].name == *name {
            return Some(sizes[i].length);
        }
        i = i + 1;
    }
    None
}

/// Looks up the place of the chromosome `name`.
pub fn find_chrom(chroms: &Vec<ChromInfo>, name: &String) -> (r: Option<usize>)
    ensures
        match r {
            Some(i) => chrom_from(chrom_views(chroms@), name@, 0) == Some(i as int) && i
                < chroms@.len(),
            None => chrom_from(chrom_views(chroms@), name@, 0) is None,
        },
{
    let mut i: usize = 0;
    while i < chroms.len()
        invariant
            i <= chroms.len(),
            chrom_from(chrom_views(chroms@), name@, 0) == chrom_from(
                chrom_views(chroms@),
                name@,
                i as int,
            ),
        decreases chroms.len() - i,
    {
        if chroms[i].name == *name {
            return Some(i);
        }
        i = i + 1;
    }
    None
}

/// What becomes of a chromosome that a stream starts on.
pub enum Enrolment {
    /// Nobody gave its length.
    Unknown,
    /// All ids are taken.
    TooMany,
    /// It has this id and this length; it is `fresh` where it had no id before.
    Known { id: u32, length: u32, fresh: bool },
}

/// What becomes of the chromosome `name`, given the chromosomes that have an id and the
/// lengths that were given. A chromosome without an id gets the next one.
pub open spec fn enrolment(table: Seq<ChromView>, sizes: Seq<ChromSize>, name: Seq<char>)
    -> Enrolment {
    match size_from(sizes, name, 0) {
        None => Enrolment::Unknown,
        Some(length) => match chrom_from(table, name, 0) {
            Some(i) => Enrolment::Known { id: table[i].id, length, fresh: false },
            None => if table.len() >= u32::MAX {
                Enrolment::TooMany
            } else {
                Enrolment::Known { id: table.len() as u32, length, fresh: true }
            },
        },
    }
}

/// The chromosomes with an id once the chromosome `name` has been started on.
pub open spec fn enrolled(table: Seq<ChromView>, sizes: Seq<ChromSize>, name: Seq<char>) -> Seq<
    ChromView,
> {
    match enrolment(table, sizes, name) {
        Enrolment::Known { id, length, fresh } => if fresh {
            table.push(ChromView { name, id, length })
        } else {
            table
        },
        _ => table,
    }
}

/// Gives the chromosome `name` its id and looks up its length.
pub fn enrol_chrom(chroms: &mut Vec<ChromInfo>, sizes: &Vec<ChromSize>, name: &String) -> (r:
    Result<(u32, u32), ProcessChromError>)
    ensures
        chrom_views(final(chroms)@) == enrolled(chrom_views(old(chroms)@), sizes@, name@),
        match enrolment(chrom_views(old(chroms)@), sizes@, name@) {
            Enrolment::Unknown => {
                &&& r matches Err(ProcessChromError::InvalidInput(text))
                &&& text@ == unknown_chrom_message(name@)
            },
            Enrolment::TooMany => {
                &&& r matches Err(ProcessChromError::InvalidInput(text))
                &&& text@ == too_large_message()
            },
            Enrolment::Known { id, length, fresh } => r == Ok::<
                (u32, u32),
                ProcessChromError,
            >((id, length)),
        },
{
    let length = match find_size(sizes, name) {
        Some(length) => length,
        None => {
            return Err(ProcessChromError::InvalidInput(say_unknown_chrom(name.as_str())));
        },
    };
    match find_chrom(chroms, name) {
        Some(i) => Ok((chroms[i].id, length)),
        None => {
            if chroms.len() >= u32::MAX as usize {
                return Err(say_too_large());
            }
            let id = chroms.len() as u32;
            chroms.push(ChromInfo { name: name.clone(), id, length });
            assert(chrom_views(chroms@) =~= chrom_views(old(chroms)@).push(
                ChromView { name: name@, id, length },
            ));
            Ok((id, length))
        },
    }
}

/// One chromosome, processed.
pub struct ChromProcessed<A> {
    /// The id of the chromosome.
    pub chrom_id: u32,
    /// What it adds to the file.
    pub output: ChromOutput<A>,
}

/// What a writer expects of an error.
pub enum Expected {
    /// This very error.
    Exactly(ProcessChromError),
    /// A rejection of the input, in these words.
    Rejection(Seq<char>),
}

/// Whether `e` is the error that is expected.
pub open spec fn error_is(e: ProcessChromError, expected: Expected) -> bool {
    match expected {
        Expected::Exactly(x) => e == x,
        Expected::Rejection(words) => e matches ProcessChromError::InvalidInput(text) && text@
            == words,
    }
}

/// The error that the records of one chromosome raise: the first record that breaks a
/// rule, else the failure of the source.
pub open spec fn group_error(
    values: Seq<Value>,
    failure: Option<BedParseError>,
    name: Seq<char>,
    length: u32,
) -> Option<Expected> {
    if !records_valid(values, length as int) {
        Some(
            Expected::Rejection(
                fault_message(values, first_fault(values, length, 0)->0, name, length),
            ),
        )
    } else {
        match failure {
            Some(e) => Some(Expected::Exactly(ProcessChromError::SourceError(e))),
            None => None,
        }
    }
}

/// Processes the records of one chromosome of a stream: gives the chromosome its id,
/// looks up its length, checks the records and turns them into sections.
pub fn process_group<A: ValueStats>(
    group: ChromGroup<Value>,
    chroms: &mut Vec<ChromInfo>,
    sizes: &Vec<ChromSize>,
    options: BigWigWriteOptions,
) -> (r: Result<ChromProcessed<A>, ProcessChromError>)
    requires
        options.valid(),
    ensures
        chrom_views(final(chroms)@) == enrolled(chrom_views(old(chroms)@), sizes@, group.chrom@),
        match enrolment(chrom_views(old(chroms)@), sizes@, group.chrom@) {
            Enrolment::Unknown => {
                &&& r matches Err(ProcessChromError::InvalidInput(text))
                &&& text@ == unknown_chrom_message(group.chrom@)
            },
            Enrolment::TooMany => {
                &&& r matches Err(ProcessChromError::InvalidInput(text))
                &&& text@ == too_large_message()
            },
            Enrolment::Known { id, length, fresh } => match group_error(
                group.values@,
                group.failure,
                group.chrom@,
                length,
            ) {
                Some(expected) => r matches Err(e) && error_is(e, expected),
                None => {
                    &&& r matches Ok(done)
                    &&& done.chrom_id == id
                    &&& chrom_output_matches(done.output, group.values@, id, options)
                },
            },
        },
{
    let (id, length) = match enrol_chrom(chroms, sizes, &group.chrom) {
        Ok(known) => known,
        Err(e) => {
            return Err(e);
        },
    };
    match check_values(&group.values, group.chrom.as_str(), length) {
        Ok(()) => {},
        Err(e) => {
            return Err(e);
        },
    }
    match group.failure {
        Some(e) => {
            return Err(ProcessChromError::SourceError(e));
        },
        None => {},
    }
    match process_chrom::<A>(id, options, &group.values, group.chrom.as_str(), length) {
        Ok(output) => Ok(ChromProcessed { chrom_id: id, output }),
        Err(e) => Err(e),
    }
}

/// One step of a writer through a stream.
pub enum Step {
    /// The records of one chromosome.
    Group { chrom: Seq<char>, values: Seq<Value>, failure: Option<BedParseError> },
    /// A record that could not be had where a chromosome should start.
    Failed(BedParseError),
    /// A chromosome out of order.
    Unsorted,
}

/// Taking the records of a chromosome that `records` start on leaves fewer records.
pub proof fn lemma_after_group_shorter<V>(
    records: Seq<Result<(String, V), BedParseError>>,
    chrom: Seq<char>,
)
    ensures
        after_group(records, chrom).len() <= records.len(),
        group_head(records, Some(chrom)) is Some ==> after_group(records, chrom).len()
            < records.len(),
    decreases records.len(),
{
    if group_head(records, Some(chrom)) matches Some(Ok(v)) {
        lemma_after_group_shorter(records.skip(1), chrom);
    }
}

/// The steps of a writer through `records`, where the chromosome before was `last`: one
/// for each chromosome, up to a record that cannot be had or a chromosome out of order.
#[verifier::opaque]
pub open spec fn stream_steps(
    records: Seq<Result<(String, Value), BedParseError>>,
    last: Option<Seq<char>>,
    allow: bool,
) -> Seq<Step>
    decreases records.len(),
{
    if records.len() == 0 {
        Seq::empty()
    } else {
        match records[0] {
            Err(e) => seq![Step::Failed(e)],
            Ok(record) => if !in_order(last, record.0@, allow) {
                seq![Step::Unsorted]
            } else {
                proof {
                    lemma_after_group_shorter(records, record.0@);
                }
                seq![
                    Step::Group {
                        chrom: record.0@,
                        values: group_values(records, record.0@),
                        failure: group_failure(records, record.0@),
                    },
                ] + stream_steps(after_group(records, record.0@), Some(record.0@), allow)
            },
        }
    }
}

/// The chromosomes that have an id after the first `k` of `steps`.
pub open spec fn table_after(steps: Seq<Step>, sizes: Seq<ChromSize>, k: nat) -> Seq<ChromView>
    decreases k,
{
    if k == 0 {
        Seq::empty()
    } else {
        let before = table_after(steps, sizes, (k - 1) as nat);
        match steps[k - 1] {
            Step::Group { chrom, values, failure } => enrolled(before, sizes, chrom),
            _ => before,
        }
    }
}

/// What a stream error is to a writer: a rejection stays one, anything else is a failure
/// of the source.
pub open spec fn lifted(e: BedParseError) -> ProcessChromError {
    match e {
        BedParseError::InvalidInput(text) => ProcessChromError::InvalidInput(text),
        BedParseError::IoError(text) => ProcessChromError::SourceError(
            BedParseError::IoError(text),
        ),
    }
}

/// The error that `step` raises, where `table` lists the chromosomes that have an id.
#[verifier::opaque]
pub open spec fn local_error(step: Step, table: Seq<ChromView>, sizes: Seq<ChromSize>) -> Option<
    Expected,
> {
    match step {
        Step::Failed(e) => Some(Expected::Exactly(lifted(e))),
        Step::Unsorted => Some(Expected::Rejection(unsorted_message())),
        Step::Group { chrom, values, failure } => match enrolment(table, sizes, chrom) {
            Enrolment::Unknown => Some(Expected::Rejection(unknown_chrom_message(chrom))),
            Enrolment::TooMany => Some(Expected::Rejection(too_large_message())),
            Enrolment::Known { id, length, fresh } => group_error(values, failure, chrom, length),
        },
    }
}

/// The error that step `k` raises.
pub open spec fn step_error(steps: Seq<Step>, sizes: Seq<ChromSize>, k: int) -> Option<Expected> {
    local_error(steps[k], table_after(steps, sizes, k as nat), sizes)
}

/// The first step from `from` on that raises an error by itself.
pub open spec fn failing_step(steps: Seq<Step>, sizes: Seq<ChromSize>, from: int) -> Option<int>
    decreases steps.len() - from,
{
    if from < 0 || from >= steps.len() {
        None
    } else if step_error(steps, sizes, from) is Some {
        Some(from)
    } else {
        failing_step(steps, sizes, from + 1)
    }
}

/// Whether `done` is what `step` adds to the file, where `table` lists the chromosomes
/// that have an id: the sections and summaries of its records, under the id of its
/// chromosome.
#[verifier::opaque]
pub open spec fn local_matches<A>(
    done: ChromProcessed<A>,
    step: Step,
    table: Seq<ChromView>,
    sizes: Seq<ChromSize>,
    options: BigWigWriteOptions,
) -> bool {
    &&& step matches Step::Group { chrom, values, failure }
    &&& enrolment(table, sizes, chrom) matches Enrolment::Known { id, length, fresh }
    &&& done.chrom_id == id
    &&& chrom_output_matches(done.output, values, id, options)
}

/// Whether `done` is what step `k` adds to the file.
pub open spec fn step_matches<A>(
    done: ChromProcessed<A>,
    steps: Seq<Step>,
    sizes: Seq<ChromSize>,
    k: int,
    options: BigWigWriteOptions,
) -> bool {
    local_matches(done, steps[k], table_after(steps, sizes, k as nat), sizes, options)
}

/// The table after a step.
pub open spec fn table_next(step: Step, table: Seq<ChromView>, sizes: Seq<ChromSize>) -> Seq<
    ChromView,
> {
    match step {
        Step::Group { chrom, values, failure } => enrolled(table, sizes, chrom),
        _ => table,
    }
}

/// All chromosomes of a stream, processed, and the table of their ids.
pub struct Processed<A> {
    /// The chromosomes that have an id, in the order of their ids.
    pub chroms: Vec<ChromInfo>,
    /// What each chromosome of the stream adds to the file, in the order of the stream.
    pub groups: Vec<ChromProcessed<A>>,
}

/// Lifts a stream error to a writer's error.
pub fn lift_error(e: BedParseError) -> (r: ProcessChromError)
    ensures
        r == lifted(e),
{
    match e {
        BedParseError::InvalidInput(text) => ProcessChromError::InvalidInput(text),
        BedParseError::IoError(text) => ProcessChromError::SourceError(
            BedParseError::IoError(text),
        ),
    }
}

/// How one step of a writer ended.
pub enum StepResult<A> {
    /// A chromosome was processed.
    Done(ChromProcessed<A>),
    /// The stream has no more records.
    End,
    /// The step failed.
    Fail(ProcessChromError),
}

/// Takes one step through a stream: reads the next chromosome and processes it.
pub fn write_step<S: StreamingBedValues<Value = Value>, A: ValueStats>(
    vals: &mut BedParserStreamingIterator<S>,
    chroms: &mut Vec<ChromInfo>,
    chrom_sizes: &Vec<ChromSize>,
    options: BigWigWriteOptions,
) -> (r: StepResult<A>)
    requires
        old(vals).ready(),
        options.valid(),
    ensures
        final(vals).ready(),
        final(vals).allows_any_order() == old(vals).allows_any_order(),
        ({
            let rest = stream_steps(
                old(vals).upcoming(),
                old(vals).last(),
                old(vals).allows_any_order(),
            );
            let table = chrom_views(old(chroms)@);
            &&& rest.len() == 0 <==> r is End
            &&& rest.len() == 0 ==> final(chroms)@ == old(chroms)@
            &&& rest.len() > 0 ==> {
                &&& chrom_views(final(chroms)@) == table_next(rest[0], table, chrom_sizes@)
                &&& match local_error(rest[0], table, chrom_sizes@) {
                    Some(expected) => r matches StepResult::Fail(e) && error_is(e, expected),
                    None => {
                        &&& r matches StepResult::Done(done)
                        &&& local_matches(done, rest[0], table, chrom_sizes@, options)
                        &&& stream_steps(
                            final(vals).upcoming(),
                            final(vals).last(),
                            final(vals).allows_any_order(),
                        ) == rest.skip(1)
                        &&& final(vals).upcoming().len() < old(vals).upcoming().len()
                    },
                }
            }
        }),
{
    let ghost records = vals.upcoming();
    let ghost allow = vals.allows_any_order();
    let ghost rest = stream_steps(records, vals.last(), allow);
    proof {
        reveal(stream_steps);
        reveal(local_error);
        reveal(local_matches);
        if records.len() > 0 && records[0] is Ok {
            lemma_after_group_shorter(records, records[0]->Ok_0.0@);
        }
    }
    match vals.advance() {
        ChromDataState::Finished => StepResult::End,
        ChromDataState::Error(e) => StepResult::Fail(lift_error(e)),
        ChromDataState::NewChrom(group) => {
            let ghost chrom = group.chrom@;
            proof {
                let tail = stream_steps(after_group(records, chrom), Some(chrom), allow);
                assert(rest == seq![
                    Step::Group { chrom, values: group.values@, failure: group.failure },
                ] + tail);
                assert(rest.skip(1) =~= tail);
            }
            match process_group::<A>(group, chroms, chrom_sizes, options) {
                Ok(done) => StepResult::Done(done),
                Err(e) => StepResult::Fail(e),
            }
        },
    }
}

/// Processes a stream, chromosome by chromosome, until it ends or a step fails.
///
/// The first step that fails decides the error: a record that cannot be had, a
/// chromosome out of order or without a length, or a record that breaks a rule.
pub fn write_vals<S: StreamingBedValues<Value = Value>, A: ValueStats>(
    vals: &mut BedParserStreamingIterator<S>,
    chrom_sizes: &Vec<ChromSize>,
    options: BigWigWriteOptions,
) -> (r: Result<Processed<A>, ProcessChromError>)
    requires
        old(vals).ready(),
        options.valid(),
    ensures
        ({
            let steps = stream_steps(
                old(vals).upcoming(),
                old(vals).last(),
                old(vals).allows_any_order(),
            );
            let failing = failing_step(steps, chrom_sizes@, 0);
            &&& r is Ok <==> failing is None
            &&& r matches Ok(done) ==> {
                &&& chrom_views(done.chroms@) == table_after(steps, chrom_sizes@, steps.len())
                &&& done.groups@.len() == steps.len()
                &&& forall|k: int|
                    0 <= k < steps.len() ==> step_matches(
                        #[trigger] done.groups@[k],
                        steps,
                        chrom_sizes@,
                        k,
                        options,
                    )
            }
            &&& r matches Err(e) ==> error_is(
                e,
                step_error(steps, chrom_sizes@, failing->0)->0,
            )
        }),
{
    let ghost steps = stream_steps(vals.upcoming(), vals.last(), vals.allows_any_order());
    let ghost allow = vals.allows_any_order();
    let ghost sizes = chrom_sizes@;
    let mut chroms: Vec<ChromInfo> = Vec::new();
    let mut groups: Vec<ChromProcessed<A>> = Vec::new();
    assert(steps.take(0) + steps =~= steps);
    assert(chrom_views(chroms@) =~= table_after(steps, sizes, 0));
    loop
        invariant
            vals.ready(),
            options.valid(),
            sizes == chrom_sizes@,
            allow == vals.allows_any_order(),
            allow == old(vals).allows_any_order(),
            steps == stream_steps(old(vals).upcoming(), old(vals).last(), allow),
            groups@.len() <= steps.len(),
            steps == steps.take(groups@.len() as int) + stream_steps(
                vals.upcoming(),
                vals.last(),
                allow,
            ),
            chrom_views(chroms@) == table_after(steps, sizes, groups@.len() as nat),
            failing_step(steps, sizes, 0) == failing_step(steps, sizes, groups@.len() as int),
            forall|k: int|
                0 <= k < groups@.len() ==> step_matches(
                    #[trigger] groups@[k],
                    steps,
                    sizes,
                    k,
                    options,
                ),
        decreases vals.upcoming().len(),
    {
        let ghost k = groups@.len() as int;
        let ghost rest = stream_steps(vals.upcoming(), vals.last(), allow);
        let ghost before = groups@;
        proof {
            assert(steps.take(k).len() == k);
            if rest.len() > 0 {
                assert(steps[k] == rest[0]);
                assert(steps.take(k + 1) =~= steps.take(k).push(steps[k]));
                assert(steps =~= steps.take(k + 1) + rest.skip(1));
            } else {
                assert(steps =~= steps.take(k));
            }
        }
        match write_step::<S, A>(vals, &mut chroms, chrom_sizes, options) {
            StepResult::End => {
                return Ok(Processed { chroms, groups });
            },
            StepResult::Fail(e) => {
                return Err(e);
            },
            StepResult::Done(done) => {
                groups.push(done);
                proof {
                    assert forall|j: int| 0 <= j < groups@.len() implies step_matches(
                        #[trigger] groups@[j],
                        steps,
                        sizes,
                        j,
                        options,
                    ) by {
                        if j < before.len() {
                            assert(groups@[j] == before[j]);
                        }
                    }
                }
            },
        }
    }
}

/// The items of `items`, last first.
pub fn reversed<T>(items: Vec<T>) -> (r: Vec<T>)
    ensures
        r@ == items@.reverse(),
{
    let mut items = items;
    let mut r: Vec<T> = Vec::new();
    let ghost all = items@;
    loop
        invariant
            r@.len() + items@.len() == all.len(),
            forall|i: int| 0 <= i < items@.len() ==> #[trigger] items@[i] == all[i],
            forall|i: int| 0 <= i < r@.len() ==> #[trigger] r@[i] == all[all.len() - 1 - i],
        ensures
            r@ =~= all.reverse(),
        decreases items.len(),
    {
        match items.pop() {
            Some(item) => {
                r.push(item);
            },
            None => {
                break ;
            },
        }
    }
    r
}

/// The primary sections of all chromosomes, in the order of the stream.
pub open spec fn merged_sections<A>(groups: Seq<ChromProcessed<A>>) -> Seq<SectionView>
    decreases groups.len(),
{
    if groups.len() == 0 {
        Seq::empty()
    } else {
        merged_sections(groups.drop_last()) + section_views(groups.last().output.sections@)
    }
}

/// The sections of zoom level `level` of all chromosomes, in the order of the stream.
pub open spec fn merged_zoom<A>(groups: Seq<ChromProcessed<A>>, level: int) -> Seq<SectionView>
    decreases groups.len(),
{
    if groups.len() == 0 {
        Seq::empty()
    } else {
        merged_zoom(groups.drop_last(), level) + section_views(
            groups.last().output.zooms@[level].sections@,
        )
    }
}

/// The bases that the records of all chromosomes cover.
pub open spec fn merged_bases<A>(groups: Seq<ChromProcessed<A>>) -> int
    decreases groups.len(),
{
    if groups.len() == 0 {
        0
    } else {
        merged_bases(groups.drop_last()) + groups.last().output.summary.bases_covered
    }
}

/// The greatest size that a reader inflates a section of any chromosome to.
pub open spec fn merged_size<A>(groups: Seq<ChromProcessed<A>>) -> int
    decreases groups.len(),
{
    if groups.len() == 0 {
        0
    } else {
        let before = merged_size(groups.drop_last());
        if groups.last().output.uncompress_buf_size > before {
            groups.last().output.uncompress_buf_size as int
        } else {
            before
        }
    }
}

/// Whether any chromosome has a record.
pub open spec fn any_values<A>(groups: Seq<ChromProcessed<A>>) -> bool
    decreases groups.len(),
{
    groups.len() > 0 && (any_values(groups.drop_last()) || groups.last().output.summary.stats
        is Some)
}

/// Whether `track` holds what `groups` add to a file, with `chroms` as its chromosomes.
/// The extremes and sums of the values are whatever the statistics of the chromosomes
/// amount to; a track without a record has zeros there.
pub open spec fn track_matches<A>(
    track: TrackData,
    chroms: Seq<ChromInfo>,
    groups: Seq<ChromProcessed<A>>,
    options: BigWigWriteOptions,
) -> bool {
    &&& track@.chroms == chrom_views(chroms)
    &&& track@.sections == merged_sections(groups)
    &&& track@.zooms.len() == options.max_zooms
    &&& forall|l: int|
        0 <= l < options.max_zooms ==> (#[trigger] track@.zooms[l]) == (ZoomView {
            resolution: zoom_size(options.initial_zoom_size as int, l as nat) as u32,
            sections: merged_zoom(groups, l),
        })
    &&& track.bases_covered == merged_bases(groups)
    &&& track.uncompress_buf_size == merged_size(groups)
    &&& !any_values(groups) ==> track.stats == (DoubleBits {
        min_val: 0,
        max_val: 0,
        sum: 0,
        sum_squares: 0,
    })
}

/// The zoom levels of a track without sections.
pub fn empty_zooms(options: BigWigWriteOptions) -> (zooms: Vec<ZoomData>)
    requires
        options.valid(),
    ensures
        zooms@.len() == options.max_zooms,
        forall|l: int|
            0 <= l < zooms@.len() ==> (#[trigger] zooms@[l])@ == (ZoomView {
                resolution: zoom_size(options.initial_zoom_size as int, l as nat) as u32,
                sections: Seq::empty(),
            }),
{
    let mut zooms: Vec<ZoomData> = Vec::new();
    let mut resolution: u32 = options.initial_zoom_size;
    let mut level: u16 = 0;
    while level < options.max_zooms
        invariant
            level <= options.max_zooms,
            options.valid(),
            zooms@.len() == level,
            level < options.max_zooms ==> resolution == zoom_size(
                options.initial_zoom_size as int,
                level as nat,
            ),
            forall|l: int|
                0 <= l < zooms@.len() ==> (#[trigger] zooms@[l])@ == (ZoomView {
                    resolution: zoom_size(options.initial_zoom_size as int, l as nat) as u32,
                    sections: Seq::empty(),
                }),
        decreases options.max_zooms - level,
    {
        let ghost before = zooms@;
        let zoom = ZoomData { resolution, sections: Vec::new() };
        assert(zoom@.sections =~= Seq::<SectionView>::empty());
        zooms.push(zoom);
        assert forall|l: int| 0 <= l < zooms@.len() implies (#[trigger] zooms@[l])@ == (ZoomView {
            resolution: zoom_size(options.initial_zoom_size as int, l as nat) as u32,
            sections: Seq::empty(),
        }) by {
            if l < before.len() {
                assert(zooms@[l] == before[l]);
            }
        }
        level = level + 1;
        if level < options.max_zooms {
            proof {
                lemma_zoom_size_monotonic(
                    options.initial_zoom_size as int,
                    level as nat,
                    (options.max_zooms - 1) as nat,
                );
            }
            resolution = resolution * 4;
        }
    }
    zooms
}

/// Adds the zoom sections of one chromosome to those of the track, level by level.
pub fn append_levels(zooms: Vec<ZoomData>, add: Vec<ZoomOutput>) -> (r: Vec<ZoomData>)
    requires
        zooms@.len() == add@.len(),
    ensures
        r@.len() == zooms@.len(),
        forall|l: int|
            0 <= l < r@.len() ==> (#[trigger] r@[l])@ == (ZoomView {
                resolution: zooms@[l].resolution,
                sections: zooms@[l]@.sections + section_views(add@[l].sections@),
            }),
{
    let n = zooms.len();
    let ghost old_zooms = zooms@;
    let ghost old_add = add@;
    let mut left = reversed(zooms);
    let mut right = reversed(add);
    let mut r: Vec<ZoomData> = Vec::new();
    while r.len() < n
        invariant
            n == old_zooms.len(),
            n == old_add.len(),
            r@.len() <= n,
            left@.len() == n - r@.len(),
            right@.len() == n - r@.len(),
            forall|i: int| 0 <= i < left@.len() ==> #[trigger] left@[i] == old_zooms[n - 1 - i],
            forall|i: int| 0 <= i < right@.len() ==> #[trigger] right@[i] == old_add[n - 1 - i],
            forall|l: int|
                0 <= l < r@.len() ==> (#[trigger] r@[l])@ == (ZoomView {
                    resolution: old_zooms[l].resolution,
                    sections: old_zooms[l]@.sections + section_views(old_add[l].sections@),
                }),
        decreases n - r.len(),
    {
        let ghost l = r@.len() as int;
        let ghost before = r@;
        let mut zoom = left.pop().unwrap();
        let mut more = right.pop().unwrap();
        assert(zoom == old_zooms[l]);
        assert(more == old_add[l]);
        let ghost had = zoom.sections@;
        let ghost added = more.sections@;
        zoom.sections.append(&mut more.sections);
        assert(section_views(zoom.sections@) =~= section_views(had) + section_views(added));
        r.push(zoom);
        assert forall|j: int| 0 <= j < r@.len() implies (#[trigger] r@[j])@ == (ZoomView {
            resolution: old_zooms[j].resolution,
            sections: old_zooms[j]@.sections + section_views(old_add[j].sections@),
        }) by {
            if j < before.len() {
                assert(r@[j] == before[j]);
            }
        }
    }
    r
}

/// Whether each of `groups` has all zoom levels and no section that inflates to more
/// than the header can say.
pub open spec fn groups_fit<A>(groups: Seq<ChromProcessed<A>>, options: BigWigWriteOptions)
    -> bool {
    forall|k: int|
        0 <= k < groups.len() ==> (#[trigger] groups[k]).output.zooms@.len() == options.max_zooms
            && groups[k].output.uncompress_buf_size <= largest_section()
}

/// Gathers what the chromosomes add to a file: their sections one after the other, level
/// by level, and their summaries folded into one.
///
/// There is no track where the chromosomes cover more bases than a 64-bit number counts.
pub fn merge_groups<A: ValueStats>(done: Processed<A>, options: BigWigWriteOptions) -> (r: Result<
    TrackData,
    ProcessChromError,
>)
    requires
        options.valid(),
        groups_fit(done.groups@, options),
    ensures
        r is Ok <==> merged_bases(done.groups@) <= u64::MAX,
        r matches Ok(track) ==> track_matches(track, done.chroms@, done.groups@, options),
        r matches Err(e) ==> e matches ProcessChromError::InvalidInput(text) && text@
            == too_large_message(),
{
    let ghost all = done.groups@;
    let n = done.groups.len();
    let chroms = done.chroms;
    let mut rest = reversed(done.groups);
    let mut sections: Vec<SectionData> = Vec::new();
    let mut zooms = empty_zooms(options);
    let mut bases_covered: u64 = 0;
    let mut largest: usize = 0;
    let mut total: Option<A> = None;
    let mut k: usize = 0;
    assert(all.take(0) =~= Seq::<ChromProcessed<A>>::empty());
    assert(section_views(sections@) =~= merged_sections(all.take(0)));
    proof {
        lemma_merged_bases_grows(all, 0);
    }
    while k < n
        invariant
            k <= n,
            n == all.len(),
            all == done.groups@,
            options.valid(),
            groups_fit(all, options),
            rest@.len() == n - k,
            forall|i: int| 0 <= i < rest@.len() ==> #[trigger] rest@[i] == all[n - 1 - i],
            section_views(sections@) == merged_sections(all.take(k as int)),
            zooms@.len() == options.max_zooms,
            forall|l: int|
                0 <= l < zooms@.len() ==> (#[trigger] zooms@[l])@ == (ZoomView {
                    resolution: zoom_size(options.initial_zoom_size as int, l as nat) as u32,
                    sections: merged_zoom(all.take(k as int), l),
                }),
            bases_covered == merged_bases(all.take(k as int)),
            largest == merged_size(all.take(k as int)),
            largest <= largest_section(),
            total is Some <==> any_values(all.take(k as int)),
            0 <= merged_bases(all.take(k as int)) <= merged_bases(all),
        decreases n - k,
    {
        let group = rest.pop().unwrap();
        let ghost before = all.take(k as int);
        let ghost after = all.take(k + 1);
        proof {
            assert(group == all[k as int]);
            assert(after.drop_last() =~= before);
            assert(after.last() == group);
            lemma_merged_bases_grows(all, k + 1);
        }
        let ChromProcessed { chrom_id, output } = group;
        let mut output = output;
        let ghost had = sections@;
        let ghost added = output.sections@;
        sections.append(&mut output.sections);
        assert(section_views(sections@) =~= section_views(had) + section_views(added));
        let ghost old_zooms = zooms@;
        zooms = append_levels(zooms, output.zooms);
        assert forall|l: int| 0 <= l < zooms@.len() implies (#[trigger] zooms@[l])@ == (ZoomView {
            resolution: zoom_size(options.initial_zoom_size as int, l as nat) as u32,
            sections: merged_zoom(after, l),
        }) by {
            assert(old_zooms[l]@.sections == merged_zoom(before, l));
        }
        bases_covered = match bases_covered.checked_add(output.summary.bases_covered) {
            Some(sum) => sum,
            None => {
                return Err(say_too_large());
            },
        };
        if output.uncompress_buf_size > largest {
            largest = output.uncompress_buf_size;
        }
        total = match (total, output.summary.stats) {
            (Some(mut sum), Some(stats)) => {
                sum.merge(&stats);
                Some(sum)
            },
            (Some(sum), None) => Some(sum),
            (None, stats) => stats,
        };
        k = k + 1;
    }
    assert(all.take(n as int) =~= all);
    let stats = match total {
        Some(sum) => sum.double(),
        None => DoubleBits { min_val: 0, max_val: 0, sum: 0, sum_squares: 0 },
    };
    Ok(
        TrackData {
            chroms,
            sections,
            zooms,
            bases_covered,
            stats,
            uncompress_buf_size: largest as u32,
        },
    )
}

/// The bases of the first chromosomes are no more than those of all.
pub proof fn lemma_merged_bases_grows<A>(groups: Seq<ChromProcessed<A>>, n: int)
    requires
        0 <= n <= groups.len(),
    ensures
        0 <= merged_bases(groups.take(n)) <= merged_bases(groups),
    decreases groups.len() - n,
{
    if n < groups.len() {
        lemma_merged_bases_grows(groups, n + 1);
        assert(groups.take(n + 1).drop_last() =~= groups.take(n));
    } else {
        assert(groups.take(n) =~= groups);
    }
    lemma_merged_bases_nonnegative(groups.take(n));
}

/// Chromosomes cover no negative number of bases.
pub proof fn lemma_merged_bases_nonnegative<A>(groups: Seq<ChromProcessed<A>>)
    ensures
        0 <= merged_bases(groups),
    decreases groups.len(),
{
    if groups.len() > 0 {
        lemma_merged_bases_nonnegative(groups.drop_last());
    }
}

/// Whether `done` is what the steps of a stream add to a file: the table lists the
/// chromosomes in the order in which the stream first names them, and each step has its
/// sections and summaries.
pub open spec fn processed_matches<A>(
    done: Processed<A>,
    steps: Seq<Step>,
    sizes: Seq<ChromSize>,
    options: BigWigWriteOptions,
) -> bool {
    &&& chrom_views(done.chroms@) == table_after(steps, sizes, steps.len())
    &&& done.groups@.len() == steps.len()
    &&& forall|k: int|
        0 <= k < steps.len() ==> step_matches(#[trigger] done.groups@[k], steps, sizes, k, options)
}

/// Whether `file` holds the track that the steps of a stream make: `done` is what the
/// steps add, `track` gathers it, and `file` is the track laid out.
pub open spec fn written<A>(
    done: Processed<A>,
    track: TrackData,
    steps: Seq<Step>,
    sizes: Seq<ChromSize>,
    options: BigWigWriteOptions,
    file: Seq<u8>,
) -> bool {
    &&& processed_matches(done, steps, sizes, options)
    &&& track_matches(track, done.chroms@, done.groups@, options)
    &&& track_fits(track@, options)
    &&& file == file_bytes(track@, options)
}

/// The bases that the records of all steps cover.
pub open spec fn steps_bases(steps: Seq<Step>) -> int
    decreases steps.len(),
{
    if steps.len() == 0 {
        0
    } else {
        steps_bases(steps.drop_last()) + match steps.last() {
            Step::Group { chrom, values, failure } => records_bases(values),
            _ => 0,
        }
    }
}

/// What the first steps of a stream add covers the bases that their records cover.
pub proof fn lemma_merged_bases<A>(
    done: Processed<A>,
    steps: Seq<Step>,
    sizes: Seq<ChromSize>,
    options: BigWigWriteOptions,
    n: int,
)
    requires
        processed_matches(done, steps, sizes, options),
        0 <= n <= steps.len(),
    ensures
        merged_bases(done.groups@.take(n)) == steps_bases(steps.take(n)),
        n == steps.len() ==> merged_bases(done.groups@) == steps_bases(steps),
    decreases n,
{
    if n > 0 {
        lemma_merged_bases(done, steps, sizes, options, n - 1);
        reveal(local_matches);
        assert(step_matches(done.groups@[n - 1], steps, sizes, n - 1, options));
        assert(done.groups@.take(n).drop_last() =~= done.groups@.take(n - 1));
        assert(steps.take(n).drop_last() =~= steps.take(n - 1));
        assert(done.groups@.take(n).last() == done.groups@[n - 1]);
        assert(steps.take(n).last() == steps[n - 1]);
    }
    if n == steps.len() {
        assert(done.groups@.take(n) =~= done.groups@);
        assert(steps.take(n) =~= steps);
    }
}

/// Whether no file can hold what the steps of a stream make, with `done` as what the
/// steps add: the track that gathers it does not fit a file.
pub open spec fn refused<A>(
    done: Processed<A>,
    steps: Seq<Step>,
    sizes: Seq<ChromSize>,
    options: BigWigWriteOptions,
) -> bool {
    &&& processed_matches(done, steps, sizes, options)
    &&& exists|track: TrackData| #[trigger] unfit(track, done, options)
}

/// Whether `track` gathers what `done` holds and does not fit a file.
pub open spec fn unfit<A>(track: TrackData, done: Processed<A>, options: BigWigWriteOptions)
    -> bool {
    track_matches(track, done.chroms@, done.groups@, options) && !track_fits(track@, options)
}

/// A track is refused for its size alone: one that does not fit a file has more
/// chromosomes or a longer name than the chromosome index can hold, or its file would
/// have 2^64 bytes or more.
pub proof fn lemma_unfit_is_large<A>(
    track: TrackData,
    done: Processed<A>,
    options: BigWigWriteOptions,
)
    requires
        options.valid(),
        unfit(track, done, options),
    ensures
        !chroms_fit(track@.chroms) || file_bytes(track@, options).len() > u64::MAX,
{
    if chroms_fit(track@.chroms) && file_bytes(track@, options).len() <= u64::MAX {
        lemma_track_fits(track@, options);
    }
}

/// What the steps of a stream add to a file has all zoom levels, and no section that
/// inflates to more than the header can say.
pub proof fn lemma_processed_fits<A>(
    done: Processed<A>,
    steps: Seq<Step>,
    sizes: Seq<ChromSize>,
    options: BigWigWriteOptions,
)
    requires
        options.valid(),
        processed_matches(done, steps, sizes, options),
    ensures
        groups_fit(done.groups@, options),
{
    reveal(local_matches);
    assert forall|k: int| 0 <= k < done.groups@.len() implies (
    #[trigger] done.groups@[k]).output.zooms@.len() == options.max_zooms
        && done.groups@[k].output.uncompress_buf_size <= largest_section() by {
        assert(step_matches(done.groups@[k], steps, sizes, k, options));
        match steps[k] {
            Step::Group { chrom, values, failure } => {
                lemma_output_size_bound(
                    done.groups@[k].output,
                    values,
                    done.groups@[k].chrom_id,
                    options,
                );
            },
            _ => {},
        }
    }
}

/// What is said of options that the file format cannot hold.
pub open spec fn invalid_options_message() -> Seq<char> {
    "Invalid options: a section holds 1 to 65535 records, an index node 2 to 65535 children, and every zoom window fewer than 4294967296 bases"@
}

/// Looking a name up in a table with one more chromosome finds what it found before, or
/// else the new chromosome, if that is its name.
pub proof fn lemma_chrom_from_push(table: Seq<ChromView>, x: ChromView, name: Seq<char>, from: int)
    requires
        0 <= from <= table.len(),
    ensures
        chrom_from(table.push(x), name, from) == match chrom_from(table, name, from) {
            Some(i) => Some(i),
            None => if x.name == name {
                Some(table.len() as int)
            } else {
                None
            },
        },
    decreases table.len() - from,
{
    let more = table.push(x);
    if from < table.len() {
        assert(more[from] == table[from]);
        if table[from].name != name {
            lemma_chrom_from_push(table, x, name, from + 1);
            assert(chrom_from(more, name, from) == chrom_from(more, name, from + 1));
            assert(chrom_from(table, name, from) == chrom_from(table, name, from + 1));
        } else {
            assert(chrom_from(more, name, from) == Some(from));
        }
    } else {
        assert(more[from] == x);
        assert(chrom_from(table, name, from) is None);
        assert(chrom_from(more, name, from + 1) is None);
    }
}

/// What a lookup finds is a place of the table that holds the name.
pub proof fn lemma_chrom_from_found(table: Seq<ChromView>, name: Seq<char>, from: int)
    requires
        0 <= from,
    ensures
        chrom_from(table, name, from) matches Some(i) ==> from <= i < table.len() && table[i].name
            == name,
    decreases table.len() - from,
{
    if from < table.len() && table[from].name != name {
        lemma_chrom_from_found(table, name, from + 1);
    }
}

/// Whether each chromosome of `table` has its place as its id and is the first of its
/// name.
pub open spec fn table_dense(table: Seq<ChromView>) -> bool {
    forall|i: int|
        0 <= i < table.len() ==> (#[trigger] table[i]).id == i && chrom_from(
            table,
            table[i].name,
            0,
        ) == Some(i)
}

/// Ids are given in the order in which a stream first names its chromosomes: after any
/// number of steps, the chromosome with id `i` is the `i`-th new name, no name has two
/// ids, and no later step takes an id back.
pub proof fn lemma_table_after(steps: Seq<Step>, sizes: Seq<ChromSize>, k: nat)
    ensures
        table_dense(table_after(steps, sizes, k)),
        table_after(steps, sizes, k).len() <= k,
        k > 0 ==> table_after(steps, sizes, (k - 1) as nat) == table_after(steps, sizes, k).take(
            table_after(steps, sizes, (k - 1) as nat).len() as int,
        ),
    decreases k,
{
    if k > 0 {
        lemma_table_after(steps, sizes, (k - 1) as nat);
        let before = table_after(steps, sizes, (k - 1) as nat);
        let after = table_after(steps, sizes, k);
        assert(before =~= after.take(before.len() as int)) by {
            if after != before {
                assert(after.drop_last() =~= before);
            }
        }
        match steps[k - 1] {
            Step::Group { chrom, values, failure } => {
                match enrolment(before, sizes, chrom) {
                    Enrolment::Known { id, length, fresh } => {
                        if fresh {
                            let x = ChromView { name: chrom, id, length };
                            assert forall|i: int| 0 <= i < after.len() implies (
                            #[trigger] after[i]).id == i && chrom_from(after, after[i].name, 0)
                                == Some(i) by {
                                lemma_chrom_from_push(before, x, after[i].name, 0);
                                if i < before.len() {
                                    assert(after[i] == before[i]);
                                }
                            }
                        }
                    },
                    _ => {},
                }
            },
            _ => {},
        }
    }
}

/// The id under which a step's chromosome is processed is the place of its name in the
/// table.
pub proof fn lemma_step_id(steps: Seq<Step>, sizes: Seq<ChromSize>, k: int)
    requires
        0 <= k < steps.len(),
        steps[k] is Group,
        enrolment(table_after(steps, sizes, k as nat), sizes, steps[k]->chrom) is Known,
    ensures
        ({
            let id = enrolment(table_after(steps, sizes, k as nat), sizes, steps[k]->chrom)->id;
            let table = table_after(steps, sizes, (k + 1) as nat);
            id < table.len() && table[id as int].name == steps[k]->chrom && table[id as int].id
                == id
        }),
{
    let before = table_after(steps, sizes, k as nat);
    lemma_table_after(steps, sizes, k as nat);
    lemma_table_after(steps, sizes, (k + 1) as nat);
    lemma_chrom_from_found(before, steps[k]->chrom, 0);
}

/// A batch of records with the id of their chromosome.
pub ghost struct Batch {
    pub chrom_id: u32,
    pub items: Seq<Value>,
}

/// The batches that step `k` of a stream is cut into: those of its records, `size` to a
/// batch, under the id of its chromosome.
pub open spec fn step_batches(steps: Seq<Step>, sizes: Seq<ChromSize>, size: int, k: int) -> Seq<
    Batch,
> {
    match steps[k] {
        Step::Group { chrom, values, failure } => match enrolment(
            table_after(steps, sizes, k as nat),
            sizes,
            chrom,
        ) {
            Enrolment::Known { id, length, fresh } => Seq::new(
                chunks(values, size).len(),
                |b: int| (Batch { chrom_id: id, items: chunks(values, size)[b] }),
            ),
            _ => Seq::empty(),
        },
        _ => Seq::empty(),
    }
}

/// The batches that the first `n` steps of a stream are cut into, in the order of the
/// stream.
pub open spec fn stream_batches(steps: Seq<Step>, sizes: Seq<ChromSize>, size: int, n: nat) -> Seq<
    Batch,
>
    decreases n,
{
    if n == 0 {
        Seq::empty()
    } else {
        stream_batches(steps, sizes, size, (n - 1) as nat) + step_batches(
            steps,
            sizes,
            size,
            n - 1,
        )
    }
}

/// Whether `sections` are the primary sections of `batches`, one for one.
pub open spec fn sections_hold(sections: Seq<SectionView>, batches: Seq<Batch>, compress: bool)
    -> bool {
    &&& sections.len() == batches.len()
    &&& forall|j: int|
        0 <= j < batches.len() ==> is_primary_section(
            #[trigger] sections[j],
            batches[j].items,
            batches[j].chrom_id,
            compress,
        )
}

/// Every batch of a stream holds at least one record and at most `size`.
pub proof fn lemma_stream_batches(steps: Seq<Step>, sizes: Seq<ChromSize>, size: int, n: nat)
    requires
        1 <= size,
        n <= steps.len(),
    ensures
        forall|j: int|
            0 <= j < stream_batches(steps, sizes, size, n).len() ==> 1 <= (
            #[trigger] stream_batches(steps, sizes, size, n)[j]).items.len() <= size,
    decreases n,
{
    if n > 0 {
        lemma_stream_batches(steps, sizes, size, (n - 1) as nat);
        let before = stream_batches(steps, sizes, size, (n - 1) as nat);
        let own = step_batches(steps, sizes, size, n - 1);
        let all = stream_batches(steps, sizes, size, n);
        assert forall|j: int| 0 <= j < all.len() implies 1 <= (#[trigger] all[j]).items.len()
            <= size by {
            if j >= before.len() {
                let b = j - before.len();
                assert(all[j] == own[b]);
                match steps[n - 1] {
                    Step::Group { chrom, values, failure } => {
                        lemma_chunks(values, size);
                        assert(own[b].items == chunks(values, size)[b]);
                    },
                    _ => {},
                }
            } else {
                assert(all[j] == before[j]);
            }
        }
    }
}

proof fn lemma_sections_upto<A>(
    groups: Seq<ChromProcessed<A>>,
    steps: Seq<Step>,
    sizes: Seq<ChromSize>,
    options: BigWigWriteOptions,
    n: nat,
)
    requires
        n <= steps.len(),
        groups.len() == steps.len(),
        forall|k: int|
            0 <= k < steps.len() ==> step_matches(#[trigger] groups[k], steps, sizes, k, options),
    ensures
        sections_hold(
            merged_sections(groups.take(n as int)),
            stream_batches(steps, sizes, options.items_per_slot as int, n),
            options.compress,
        ),
    decreases n,
{
    let size = options.items_per_slot as int;
    if n > 0 {
        lemma_sections_upto(groups, steps, sizes, options, (n - 1) as nat);
        let k = n - 1;
        let before = merged_sections(groups.take(k));
        let own = groups[k].output.sections@;
        let batches = stream_batches(steps, sizes, size, n);
        assert(groups.take(n as int).drop_last() =~= groups.take(k));
        assert(groups.take(n as int).last() == groups[k]);
        assert(merged_sections(groups.take(n as int)) == before + section_views(own));
        reveal(local_matches);
        assert(step_matches(groups[k], steps, sizes, k, options));
        match steps[k] {
            Step::Group { chrom, values, failure } => {
                assert(sections_match(own, values, groups[k].chrom_id, options));
                assert forall|j: int| 0 <= j < batches.len() implies is_primary_section(
                    #[trigger] merged_sections(groups.take(n as int))[j],
                    batches[j].items,
                    batches[j].chrom_id,
                    options.compress,
                ) by {
                    if j >= before.len() {
                        let b = j - before.len();
                        assert(section_views(own)[b] == own[b]@);
                    }
                }
            },
            _ => {},
        }
    }
}

/// The primary sections of the track that a stream makes are those of the batches of the
/// stream, one for one and in their order: each has the id of its chromosome and the
/// extent of its batch, and a reader gets the bytes of the batch back from its payload.
pub proof fn lemma_written_sections<A>(
    done: Processed<A>,
    track: TrackData,
    steps: Seq<Step>,
    sizes: Seq<ChromSize>,
    options: BigWigWriteOptions,
)
    requires
        processed_matches(done, steps, sizes, options),
        track_matches(track, done.chroms@, done.groups@, options),
    ensures
        sections_hold(
            track@.sections,
            stream_batches(steps, sizes, options.items_per_slot as int, steps.len()),
            options.compress,
        ),
{
    lemma_sections_upto(done.groups@, steps, sizes, options, steps.len());
    assert(done.groups@.take(steps.len() as int) =~= done.groups@);
}

proof fn lemma_size_upto<A>(
    groups: Seq<ChromProcessed<A>>,
    steps: Seq<Step>,
    sizes: Seq<ChromSize>,
    options: BigWigWriteOptions,
    n: nat,
)
    requires
        n <= steps.len(),
        groups.len() == steps.len(),
        forall|k: int|
            0 <= k < steps.len() ==> step_matches(#[trigger] groups[k], steps, sizes, k, options),
    ensures
        !options.compress ==> merged_size(groups.take(n as int)) == 0,
        options.compress && merged_sections(groups.take(n as int)).len() > 0 ==> merged_size(
            groups.take(n as int),
        ) > 0,
    decreases n,
{
    if n > 0 {
        lemma_size_upto(groups, steps, sizes, options, (n - 1) as nat);
        let k = n - 1;
        let own = groups[k].output;
        assert(groups.take(n as int).drop_last() =~= groups.take(k));
        assert(groups.take(n as int).last() == groups[k]);
        reveal(local_matches);
        assert(step_matches(groups[k], steps, sizes, k, options));
        match steps[k] {
            Step::Group { chrom, values, failure } => {
                let id = groups[k].chrom_id;
                let batches = chunks(values, options.items_per_slot as int);
                let inflated = primary_sizes(batches, id, options.compress);
                assert(chrom_output_matches(own, values, id, options));
                assert(sections_match(own.sections@, values, id, options));
                if !options.compress {
                    lemma_greatest_bound(inflated, 0);
                    lemma_zooms_greatest_plain(own.zooms@, options);
                } else if own.sections@.len() > 0 {
                    lemma_greatest_reaches(inflated, 0);
                    lemma_section_bytes_len(batches[0], id);
                }
            },
            _ => {},
        }
    }
}

/// The header of a track says whether its sections are compressed: the size that it gives
/// for inflating a section is zero where they are not, and where they are and the track
/// has a section it is not.
pub proof fn lemma_size_tells_compression<A>(
    done: Processed<A>,
    track: TrackData,
    steps: Seq<Step>,
    sizes: Seq<ChromSize>,
    options: BigWigWriteOptions,
)
    requires
        processed_matches(done, steps, sizes, options),
        track_matches(track, done.chroms@, done.groups@, options),
        track@.sections.len() > 0,
    ensures
        track.uncompress_buf_size != 0 <==> options.compress,
{
    lemma_size_upto(done.groups@, steps, sizes, options, steps.len());
    assert(done.groups@.take(steps.len() as int) =~= done.groups@);
}

} // verus!
