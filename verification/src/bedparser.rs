//! From one stream of records to the records of each chromosome in turn.
//!
//! A [`BedParser`] looks one record ahead. The chromosome of that record is the current
//! one as soon as it is asked for; a [`BedChromData`] then hands out records while they
//! lie on that chromosome, and stops, without taking it, at the first that does not.

use vstd::prelude::*;
use crate::bbi::BedParseError;
use crate::chromtree::name_lt;
use crate::chromtree::str_lt;
use crate::text::say_unsorted;
use crate::text::unsorted_message;

verus! {

/// A source of records, each with the name of its chromosome.
pub trait StreamingBedValues {
    /// What a record holds besides its chromosome.
    type Value;

    /// The records that are still to come, in order.
    spec fn pending(&self) -> Seq<Result<(String, Self::Value), BedParseError>>;

    /// Takes the next record, if there is one.
    fn next(&mut self) -> (r: Option<Result<(String, Self::Value), BedParseError>>)
        ensures
            old(self).pending().len() == 0 ==> r is None && final(self).pending() == old(self).pending(),
            old(self).pending().len() > 0 ==> r == Some(old(self).pending()[0]) && final(self).pending() == old(self).pending().skip(1),
    ;
}

/// Records that are held in memory.
pub struct BedIteratorStream<V> {
    /// The records still to come, the next one last.
    rest: Vec<Result<(String, V), BedParseError>>,
}

impl<V> BedIteratorStream<V> {
    /// A stream of `records`, in their order.
    pub fn new(records: Vec<Result<(String, V), BedParseError>>) -> (stream: Self)
        ensures
            stream.pending() == records@,
    {
        let mut records = records;
        let mut rest: Vec<Result<(String, V), BedParseError>> = Vec::new();
        let ghost all = records@;
        loop
            invariant
                all =~= records@ + rest@.reverse(),
            ensures
                rest@.reverse() =~= all,
            decreases records.len(),
        {
            match records.pop() {
                Some(record) => {
                    rest.push(record);
                },
                None => {
                    break ;
                },
            }
        }
        BedIteratorStream { rest }
    }
}

impl<V> StreamingBedValues for BedIteratorStream<V> {
    type Value = V;

    closed spec fn pending(&self) -> Seq<Result<(String, V), BedParseError>> {
        self.rest@.reverse()
    }

    fn next(&mut self) -> (r: Option<Result<(String, V), BedParseError>>) {
        let r = self.rest.pop();
        assert(old(self).rest@.len() > 0 ==> self.rest@.reverse() =~= old(self).rest@.reverse().skip(1));
        r
    }
}

/// What a parser knows between two calls: the source, the chromosome that is being
/// handed out, and the record it has looked ahead to.
pub struct BedParserState<S: StreamingBedValues> {
    stream: S,
    active_chrom: Option<String>,
    next_val: Option<Result<(String, S::Value), BedParseError>>,
}

impl<S: StreamingBedValues> BedParserState<S> {
    /// The records that are still to come, the one looked ahead to first.
    pub closed spec fn upcoming(&self) -> Seq<Result<(String, S::Value), BedParseError>> {
        match self.next_val {
            Some(record) => seq![record] + self.stream.pending(),
            None => self.stream.pending(),
        }
    }

    /// The name of the chromosome that is being handed out.
    pub closed spec fn active(&self) -> Option<Seq<char>> {
        match self.active_chrom {
            Some(name) => Some(name@),
            None => None,
        }
    }

    /// Whether the next record, if any, has been looked at.
    pub closed spec fn loaded(&self) -> bool {
        self.next_val is Some || self.stream.pending().len() == 0
    }

    /// Looks ahead to the next record, without taking it. With `switch_chrom`, the
    /// chromosome of that record becomes the current one, and none does where a record
    /// is missing or unreadable.
    pub fn load_state(&mut self, switch_chrom: bool)
        ensures
            final(self).upcoming() == old(self).upcoming(),
            final(self).loaded(),
            final(self).active() == if switch_chrom {
                next_chrom_of(old(self).upcoming())
            } else {
                old(self).active()
            },
    {
        if self.next_val.is_none() {
            self.next_val = self.stream.next();
            assert(self.upcoming() =~= old(self).upcoming());
        }
        if switch_chrom {
            self.active_chrom = match &self.next_val {
                Some(Ok(record)) => Some(record.0.clone()),
                _ => None,
            };
        }
    }
}

/// The chromosome of the first of `records`, where that is a record.
pub open spec fn next_chrom_of<V>(records: Seq<Result<(String, V), BedParseError>>) -> Option<
    Seq<char>,
> {
    if records.len() > 0 {
        match records[0] {
            Ok(record) => Some(record.0@),
            Err(_) => None,
        }
    } else {
        None
    }
}

impl<V> BedParser<BedIteratorStream<V>> {
    /// A parser of `records`, in their order.
    pub fn wrap_iter(records: Vec<Result<(String, V), BedParseError>>) -> (parser: Self)
        ensures
            parser.ready(),
            parser.upcoming() == records@,
    {
        BedParser::new(BedIteratorStream::new(records))
    }
}

/// What a chromosome's records make of the first of `records`: nothing where there is
/// none or where it lies on another chromosome; else that record, or the error in its
/// place.
pub open spec fn group_head<V>(
    records: Seq<Result<(String, V), BedParseError>>,
    chrom: Option<Seq<char>>,
) -> Option<Result<V, BedParseError>> {
    if records.len() == 0 {
        None
    } else {
        match records[0] {
            Ok(record) => if chrom == Some(record.0@) {
                Some(Ok(record.1))
            } else {
                None
            },
            Err(e) => Some(Err(e)),
        }
    }
}

/// The records that remain once a chromosome's records have given their first.
pub open spec fn group_rest<V>(
    records: Seq<Result<(String, V), BedParseError>>,
    chrom: Option<Seq<char>>,
) -> Seq<Result<(String, V), BedParseError>> {
    if group_head(records, chrom) is Some {
        records.skip(1)
    } else {
        records
    }
}

/// A stream of records, cut into chromosomes.
pub struct BedParser<S: StreamingBedValues> {
    /// Absent while a [`BedChromData`] holds it.
    state: Option<BedParserState<S>>,
}

/// The records of one chromosome, as long as they last.
pub struct BedChromData<S: StreamingBedValues> {
    state: BedParserState<S>,
}

impl<S: StreamingBedValues> BedParser<S> {
    /// Whether the parser holds its state, and no [`BedChromData`] does.
    pub closed spec fn ready(&self) -> bool {
        self.state is Some
    }

    /// The records that are still to come.
    pub closed spec fn upcoming(&self) -> Seq<Result<(String, S::Value), BedParseError>> {
        self.state->0.upcoming()
    }

    /// A parser of the records of `stream`.
    pub fn new(stream: S) -> (parser: Self)
        ensures
            parser.ready(),
            parser.upcoming() == stream.pending(),
    {
        BedParser { state: Some(BedParserState { stream, active_chrom: None, next_val: None }) }
    }

    /// Starts on the chromosome of the next record: gives its name and a handle on its
    /// records, to which the state passes. Gives nothing once the records are used up,
    /// and the error where the next record could not be had, which it then skips.
    ///
    /// This may be called again for a chromosome whose records have not all been taken:
    /// it gives the same chromosome with the records that are left.
    pub fn next_chrom(&mut self) -> (r: Result<Option<(String, BedChromData<S>)>, BedParseError>)
        requires
            old(self).ready(),
        ensures
            old(self).upcoming().len() == 0 ==> {
                &&& r matches Ok(None)
                &&& final(self).ready()
                &&& final(self).upcoming() == old(self).upcoming()
            },
            old(self).upcoming().len() > 0 ==> match old(self).upcoming()[0] {
                Ok(record) => {
                    &&& r matches Ok(Some(started))
                    &&& started.0@ == record.0@
                    &&& started.1.chrom() == Some(record.0@)
                    &&& started.1.upcoming() == old(self).upcoming()
                    &&& !final(self).ready()
                },
                Err(e) => {
                    &&& r == Err::<Option<(String, BedChromData<S>)>, BedParseError>(e)
                    &&& final(self).ready()
                    &&& final(self).upcoming() == old(self).upcoming().skip(1)
                },
            },
    {
        let mut state = self.state.take().unwrap();
        state.load_state(true);
        let chrom = match &state.next_val {
            Some(Ok(record)) => Some(record.0.clone()),
            _ => None,
        };
        match chrom {
            Some(chrom) => Ok(Some((chrom, BedChromData { state }))),
            None => {
                let failed = match state.next_val.take() {
                    Some(Err(e)) => Some(e),
                    _ => None,
                };
                assert(failed is Some ==> state.upcoming() =~= old(self).upcoming().skip(1));
                self.state = Some(state);
                match failed {
                    Some(e) => Err(e),
                    None => Ok(None),
                }
            },
        }
    }

    /// Takes the state back from the handle on a chromosome.
    pub fn release(&mut self, group: BedChromData<S>)
        requires
            !old(self).ready(),
        ensures
            final(self).ready(),
            final(self).upcoming() == group.upcoming(),
    {
        self.state = Some(group.state);
    }
}

impl<S: StreamingBedValues> BedChromData<S> {
    /// The records that are still to come, on this chromosome and after it.
    pub closed spec fn upcoming(&self) -> Seq<Result<(String, S::Value), BedParseError>> {
        self.state.upcoming()
    }

    /// The name of the chromosome.
    pub closed spec fn chrom(&self) -> Option<Seq<char>> {
        self.state.active()
    }

    /// Takes the next record of the chromosome. There is none where the records are used
    /// up or the next one lies on another chromosome.
    pub fn next(&mut self) -> (r: Option<Result<S::Value, BedParseError>>)
        ensures
            r == group_head(old(self).upcoming(), old(self).chrom()),
            final(self).upcoming() == group_rest(old(self).upcoming(), old(self).chrom()),
            final(self).chrom() == old(self).chrom(),
    {
        self.state.load_state(false);
        match self.state.next_val.take() {
            Some(Ok(record)) => {
                let same = match &self.state.active_chrom {
                    Some(active) => *active == record.0,
                    None => false,
                };
                if same {
                    assert(self.state.upcoming() =~= old(self).upcoming().skip(1));
                    Some(Ok(record.1))
                } else {
                    self.state.next_val = Some(Ok(record));
                    None
                }
            },
            Some(Err(e)) => {
                assert(self.state.upcoming() =~= old(self).upcoming().skip(1));
                Some(Err(e))
            },
            None => None,
        }
    }

    /// Looks at the next record of the chromosome without taking it.
    pub fn peek(&mut self) -> (r: Option<Result<&S::Value, &BedParseError>>)
        ensures
            match group_head(old(self).upcoming(), old(self).chrom()) {
                Some(Ok(v)) => {
                    &&& r matches Some(Ok(seen))
                    &&& *seen == v
                },
                Some(Err(e)) => {
                    &&& r matches Some(Err(seen))
                    &&& *seen == e
                },
                None => r is None,
            },
            final(self).upcoming() == old(self).upcoming(),
            final(self).chrom() == old(self).chrom(),
    {
        self.state.load_state(false);
        let same = match (&self.state.active_chrom, &self.state.next_val) {
            (Some(active), Some(Ok(record))) => *active == record.0,
            _ => false,
        };
        match &self.state.next_val {
            Some(Ok(record)) => if same {
                Some(Ok(&record.1))
            } else {
                None
            },
            Some(Err(e)) => Some(Err(e)),
            None => None,
        }
    }
}

/// The records of one chromosome, as a stream gave them.
pub struct ChromGroup<V> {
    /// The name of the chromosome.
    pub chrom: String,
    /// The records, in order.
    pub values: Vec<V>,
    /// Why the records end where they do, if the source failed.
    pub failure: Option<BedParseError>,
}

/// The records with which `records` start that lie on `chrom`.
pub open spec fn group_values<V>(
    records: Seq<Result<(String, V), BedParseError>>,
    chrom: Seq<char>,
) -> Seq<V>
    decreases records.len(),
{
    match group_head(records, Some(chrom)) {
        Some(Ok(v)) => seq![v] + group_values(records.skip(1), chrom),
        _ => Seq::empty(),
    }
}

/// The error that ends the records of `chrom` with which `records` start, if one does.
pub open spec fn group_failure<V>(
    records: Seq<Result<(String, V), BedParseError>>,
    chrom: Seq<char>,
) -> Option<BedParseError>
    decreases records.len(),
{
    match group_head(records, Some(chrom)) {
        Some(Ok(v)) => group_failure(records.skip(1), chrom),
        Some(Err(e)) => Some(e),
        None => None,
    }
}

/// What is left of `records` after the records of `chrom` with which they start, and
/// after the error that ends them, if one does.
pub open spec fn after_group<V>(
    records: Seq<Result<(String, V), BedParseError>>,
    chrom: Seq<char>,
) -> Seq<Result<(String, V), BedParseError>>
    decreases records.len(),
{
    match group_head(records, Some(chrom)) {
        Some(Ok(v)) => after_group(records.skip(1), chrom),
        Some(Err(e)) => records.skip(1),
        None => records,
    }
}

impl<S: StreamingBedValues> BedChromData<S> {
    /// Takes all records of the chromosome, up to the first that the source fails on.
    pub fn collect(&mut self) -> (r: (Vec<S::Value>, Option<BedParseError>))
        requires
            old(self).chrom() is Some,
        ensures
            r.0@ == group_values(old(self).upcoming(), old(self).chrom()->0),
            r.1 == group_failure(old(self).upcoming(), old(self).chrom()->0),
            final(self).upcoming() == after_group(old(self).upcoming(), old(self).chrom()->0),
            final(self).chrom() == old(self).chrom(),
    {
        let mut values: Vec<S::Value> = Vec::new();
        let ghost chrom = self.chrom()->0;
        let ghost all = self.upcoming();
        assert(values@ + group_values(all, chrom) =~= group_values(all, chrom));
        loop
            invariant
                self.chrom() == Some(chrom),
                old(self).chrom() == Some(chrom),
                all == old(self).upcoming(),
                values@ + group_values(self.upcoming(), chrom) == group_values(all, chrom),
                group_failure(self.upcoming(), chrom) == group_failure(all, chrom),
                after_group(self.upcoming(), chrom) == after_group(all, chrom),
            decreases self.upcoming().len(),
        {
            let ghost before = self.upcoming();
            let ghost taken = values@;
            match self.next() {
                Some(Ok(v)) => {
                    values.push(v);
                    assert(values@ + group_values(self.upcoming(), chrom) =~= taken + (seq![v]
                        + group_values(before.skip(1), chrom)));
                },
                Some(Err(e)) => {
                    assert(values@ =~= values@ + Seq::<S::Value>::empty());
                    return (values, Some(e));
                },
                None => {
                    assert(values@ =~= values@ + Seq::<S::Value>::empty());
                    return (values, None);
                },
            }
        }
    }
}

/// One step of a stream that is read chromosome by chromosome.
pub enum ChromDataState<V> {
    /// The records of the next chromosome.
    NewChrom(ChromGroup<V>),
    /// The stream has no more records.
    Finished,
    /// The next record could not be had, or its chromosome is out of order.
    Error(BedParseError),
}

/// A parser that hands out whole chromosomes and, unless told otherwise, insists that
/// they come in the order of their names.
pub struct BedParserStreamingIterator<S: StreamingBedValues> {
    bed_data: BedParser<S>,
    allow_out_of_order_chroms: bool,
    last_chrom: Option<String>,
}

/// Whether a chromosome named `chrom` may follow one named `last`.
pub open spec fn in_order(last: Option<Seq<char>>, chrom: Seq<char>, allow: bool) -> bool {
    allow || match last {
        Some(last) => name_lt(last, chrom),
        None => true,
    }
}

impl<S: StreamingBedValues> BedParserStreamingIterator<S> {
    /// The records that are still to come.
    pub closed spec fn upcoming(&self) -> Seq<Result<(String, S::Value), BedParseError>> {
        self.bed_data.upcoming()
    }

    /// The name of the chromosome that was started last.
    pub closed spec fn last(&self) -> Option<Seq<char>> {
        match self.last_chrom {
            Some(name) => Some(name@),
            None => None,
        }
    }

    /// Whether chromosomes may come in any order.
    pub closed spec fn allows_any_order(&self) -> bool {
        self.allow_out_of_order_chroms
    }

    /// Whether the parser within holds its state.
    pub closed spec fn ready(&self) -> bool {
        self.bed_data.ready()
    }

    /// Chromosomes of `bed_data`, in the order of their names unless
    /// `allow_out_of_order_chroms`.
    pub fn new(bed_data: BedParser<S>, allow_out_of_order_chroms: bool) -> (it: Self)
        requires
            bed_data.ready(),
        ensures
            it.ready(),
            it.upcoming() == bed_data.upcoming(),
            it.last() is None,
            it.allows_any_order() == allow_out_of_order_chroms,
    {
        BedParserStreamingIterator { bed_data, allow_out_of_order_chroms, last_chrom: None }
    }

    /// Reads the next chromosome. A chromosome whose name does not come after that of the
    /// one before is rejected, unless any order is allowed; none of its records is taken.
    pub fn advance(&mut self) -> (r: ChromDataState<S::Value>)
        requires
            old(self).ready(),
        ensures
            final(self).ready(),
            final(self).allows_any_order() == old(self).allows_any_order(),
            old(self).upcoming().len() == 0 ==> r is Finished && final(self).upcoming() == old(
                self,
            ).upcoming() && final(self).last() == old(self).last(),
            old(self).upcoming().len() > 0 ==> match old(self).upcoming()[0] {
                Err(e) => r == ChromDataState::<S::Value>::Error(e) && final(self).upcoming()
                    == old(self).upcoming().skip(1) && final(self).last() == old(self).last(),
                Ok(record) => if in_order(
                    old(self).last(),
                    record.0@,
                    old(self).allows_any_order(),
                ) {
                    &&& r matches ChromDataState::NewChrom(group)
                    &&& group.chrom@ == record.0@
                    &&& group.values@ == group_values(old(self).upcoming(), record.0@)
                    &&& group.failure == group_failure(old(self).upcoming(), record.0@)
                    &&& final(self).upcoming() == after_group(old(self).upcoming(), record.0@)
                    &&& final(self).last() == Some(record.0@)
                } else {
                    &&& r matches ChromDataState::Error(BedParseError::InvalidInput(text))
                    &&& text@ == unsorted_message()
                    &&& final(self).upcoming() == old(self).upcoming()
                    &&& final(self).last() == old(self).last()
                },
            },
    {
        match self.bed_data.next_chrom() {
            Err(e) => ChromDataState::Error(e),
            Ok(None) => ChromDataState::Finished,
            Ok(Some((chrom, mut group))) => {
                let sorted = self.allow_out_of_order_chroms || match &self.last_chrom {
                    Some(last) => str_lt(last.as_str(), chrom.as_str()),
                    None => true,
                };
                if !sorted {
                    self.bed_data.release(group);
                    return ChromDataState::Error(BedParseError::InvalidInput(say_unsorted()));
                }
                self.last_chrom = Some(chrom.clone());
                let (values, failure) = group.collect();
                self.bed_data.release(group);
                ChromDataState::NewChrom(ChromGroup { chrom, values, failure })
            },
        }
    }
}

} // verus!
