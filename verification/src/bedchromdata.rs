//! Streams over the lines of a file: all of them in turn, or chromosome by chromosome from
//! the places at which the chromosomes start.

use vstd::prelude::*;
use vstd::string::StringExecFns;
use vstd::utf8::decode_utf8;
use vstd::utf8::encode_utf8;
use vstd::utf8::encode_utf8_decode_utf8;
use crate::bbi::BedParseError;
use crate::bbiwrite::reversed;
use crate::bedparser::BedIteratorStream;
use crate::bedparser::BedParser;
use crate::bedparser::in_order;
use crate::bedparser::StreamingBedValues;
use crate::chromtree::str_lt;
use crate::lineparser::BedEntry;
use crate::lineparser::bedgraph_parts;
use crate::lineparser::fault_text;
use crate::lineparser::line_parts;
use crate::lineparser::read_bed_line;
use crate::lineparser::read_bedgraph_line;
use crate::lineparser::rest_bytes;
use crate::text::say_unsorted;
use crate::text::unsorted_message;

verus! {

/// Whether `c` is white space: one of the 25 characters that Unicode gives the property
/// White_Space.
pub open spec fn is_white_space(c: char) -> bool {
    let u = c as u32;
    ||| 0x09 <= u <= 0x0d
    ||| u == 0x20
    ||| u == 0x85
    ||| u == 0xa0
    ||| u == 0x1680
    ||| 0x2000 <= u <= 0x200a
    ||| u == 0x2028
    ||| u == 0x2029
    ||| u == 0x202f
    ||| u == 0x205f
    ||| u == 0x3000
}

/// A line without the white space that ends it.
pub open spec fn trimmed_end(line: Seq<char>) -> Seq<char>
    decreases line.len(),
{
    if line.len() > 0 && is_white_space(line.last()) {
        trimmed_end(line.drop_last())
    } else {
        line
    }
}

/// A line without the white space that ends it is the line up to some place, and does
/// not end in white space.
pub proof fn lemma_trimmed_end(line: Seq<char>)
    ensures
        trimmed_end(line).len() <= line.len(),
        trimmed_end(line) == line.take(trimmed_end(line).len() as int),
        trimmed_end(line).len() > 0 ==> !is_white_space(trimmed_end(line).last()),
    decreases line.len(),
{
    if line.len() > 0 && is_white_space(line.last()) {
        lemma_trimmed_end(line.drop_last());
        let n = trimmed_end(line).len() as int;
        assert(line.drop_last().take(n) =~= line.take(n));
    } else {
        assert(line.take(line.len() as int) =~= line);
    }
}

/// Takes the white space off the end of a line.
///
/// Rests on `str::trim_end`, which gives the slice of the line without its trailing
/// white space, as the Unicode property White_Space defines it.
#[verifier::external_body]
pub(crate) fn trim_end<'a>(line: &'a str) -> (r: &'a str)
    ensures
        r@ == trimmed_end(line@),
{
    line.trim_end()
}

/// Whether `record` is what the line `text` says: its chromosome, its interval and the
/// rest of it, or the rejection of a line that is no record.
pub open spec fn record_of_line(record: Result<(String, BedEntry), BedParseError>, text: Seq<char>)
    -> bool {
    match record {
        Ok(read) => {
            &&& line_parts(encode_utf8(text)) matches Ok(parts)
            &&& read.0@ == decode_utf8(parts.chrom)
            &&& read.1.start == parts.start
            &&& read.1.end == parts.end
            &&& read.1.rest@ == decode_utf8(rest_bytes(parts.rest))
        },
        Err(e) => {
            &&& line_parts(encode_utf8(text)) matches Err(fault)
            &&& e matches BedParseError::InvalidInput(words)
            &&& words@ == fault_text(fault)
        },
    }
}

/// The records of the lines of a bed file.
pub struct BedFileStream {
    records: BedIteratorStream<BedEntry>,
}

impl BedFileStream {
    /// A stream of the records that `lines` spell, each line read without the whitespace
    /// that ends it.
    pub fn new(lines: &Vec<String>) -> (stream: Self)
        ensures
            stream.pending().len() == lines@.len(),
            forall|i: int|
                0 <= i < lines@.len() ==> record_of_line(
                    #[trigger] stream.pending()[i],
                    trimmed_end(lines@[i]@),
                ),
    {
        let mut records: Vec<Result<(String, BedEntry), BedParseError>> = Vec::new();
        let mut i: usize = 0;
        while i < lines.len()
            invariant
                i <= lines.len(),
                records@.len() == i,
                forall|k: int|
                    0 <= k < i ==> record_of_line(#[trigger] records@[k], trimmed_end(lines@[k]@)),
            decreases lines.len() - i,
        {
            let line = trim_end(lines[i].as_str());
            let ghost before = records@;
            let record = match read_bed_line(line) {
                Ok((chrom, entry)) => {
                    proof {
                        encode_utf8_decode_utf8(chrom@);
                    }
                    Ok((String::from_str(chrom), entry))
                },
                Err(e) => Err(e),
            };
            assert(record_of_line(record, trimmed_end(lines@[i as int]@)));
            records.push(record);
            assert forall|k: int| 0 <= k < i + 1 implies record_of_line(
                #[trigger] records@[k],
                trimmed_end(lines@[k]@),
            ) by {
                if k < i {
                    assert(records@[k] == before[k]);
                }
            }
            i = i + 1;
        }
        BedFileStream { records: BedIteratorStream::new(records) }
    }
}

impl StreamingBedValues for BedFileStream {
    type Value = BedEntry;

    closed spec fn pending(&self) -> Seq<Result<(String, BedEntry), BedParseError>> {
        self.records.pending()
    }

    fn next(&mut self) -> (r: Option<Result<(String, BedEntry), BedParseError>>) {
        self.records.next()
    }
}

impl BedParser<BedFileStream> {
    /// A parser of the records that the lines of a bed file spell.
    pub fn from_bed_file(lines: &Vec<String>) -> (parser: Self)
        ensures
            parser.ready(),
            parser.upcoming().len() == lines@.len(),
            forall|i: int|
                0 <= i < lines@.len() ==> record_of_line(
                    #[trigger] parser.upcoming()[i],
                    trimmed_end(lines@[i]@),
                ),
    {
        BedParser::new(BedFileStream::new(lines))
    }
}

/// An interval of a bedGraph file with its value as the line spells it.
#[derive(Clone, Debug)]
pub struct BedGraphLine {
    pub start: u32,
    pub end: u32,
    /// The fourth field of the line.
    pub value: String,
}

/// Whether `record` is what the bedGraph line `text` says: its chromosome, its interval
/// and the field that spells its value, or the rejection of a line that is no record.
pub open spec fn record_of_bedgraph_line(
    record: Result<(String, BedGraphLine), BedParseError>,
    text: Seq<char>,
) -> bool {
    match record {
        Ok(read) => {
            &&& bedgraph_parts(encode_utf8(text)) matches Ok(parts)
            &&& read.0@ == decode_utf8(parts.0.chrom)
            &&& read.1.start == parts.0.start
            &&& read.1.end == parts.0.end
            &&& read.1.value@ == decode_utf8(parts.1)
        },
        Err(e) => {
            &&& bedgraph_parts(encode_utf8(text)) matches Err(fault)
            &&& e matches BedParseError::InvalidInput(words)
            &&& words@ == fault_text(fault)
        },
    }
}

/// The records of the lines of a bedGraph file, their values unread.
pub struct BedGraphStream {
    records: BedIteratorStream<BedGraphLine>,
}

impl BedGraphStream {
    /// A stream of the records that `lines` spell, each line read without the whitespace
    /// that ends it.
    pub fn new(lines: &Vec<String>) -> (stream: Self)
        ensures
            stream.pending().len() == lines@.len(),
            forall|i: int|
                0 <= i < lines@.len() ==> record_of_bedgraph_line(
                    #[trigger] stream.pending()[i],
                    trimmed_end(lines@[i]@),
                ),
    {
        let mut records: Vec<Result<(String, BedGraphLine), BedParseError>> = Vec::new();
        let mut i: usize = 0;
        while i < lines.len()
            invariant
                i <= lines.len(),
                records@.len() == i,
                forall|k: int|
                    0 <= k < i ==> record_of_bedgraph_line(
                        #[trigger] records@[k],
                        trimmed_end(lines@[k]@),
                    ),
            decreases lines.len() - i,
        {
            let line = trim_end(lines[i].as_str());
            let ghost before = records@;
            let record = match read_bedgraph_line(line) {
                Ok((chrom, entry)) => {
                    proof {
                        encode_utf8_decode_utf8(chrom@);
                        encode_utf8_decode_utf8(entry.value@);
                    }
                    Ok(
                        (
                            String::from_str(chrom),
                            BedGraphLine {
                                start: entry.start,
                                end: entry.end,
                                value: String::from_str(entry.value),
                            },
                        ),
                    )
                },
                Err(e) => Err(e),
            };
            assert(record_of_bedgraph_line(record, trimmed_end(lines@[i as int]@)));
            records.push(record);
            assert forall|k: int| 0 <= k < i + 1 implies record_of_bedgraph_line(
                #[trigger] records@[k],
                trimmed_end(lines@[k]@),
            ) by {
                if k < i {
                    assert(records@[k] == before[k]);
                }
            }
            i = i + 1;
        }
        BedGraphStream { records: BedIteratorStream::new(records) }
    }
}

impl StreamingBedValues for BedGraphStream {
    type Value = BedGraphLine;

    closed spec fn pending(&self) -> Seq<Result<(String, BedGraphLine), BedParseError>> {
        self.records.pending()
    }

    fn next(&mut self) -> (r: Option<Result<(String, BedGraphLine), BedParseError>>) {
        self.records.next()
    }
}

impl BedParser<BedGraphStream> {
    /// A parser of the records that the lines of a bedGraph file spell, their values
    /// unread.
    pub fn from_bedgraph_file(lines: &Vec<String>) -> (parser: Self)
        ensures
            parser.ready(),
            parser.upcoming().len() == lines@.len(),
            forall|i: int|
                0 <= i < lines@.len() ==> record_of_bedgraph_line(
                    #[trigger] parser.upcoming()[i],
                    trimmed_end(lines@[i]@),
                ),
    {
        BedParser::new(BedGraphStream::new(lines))
    }
}

/// The chromosomes of a file by the places at which their lines start, for a reader that
/// opens the file once for each of them.
pub struct BedParserParallelStreamingIterator {
    allow_out_of_order_chroms: bool,
    last_chrom: Option<String>,
    /// The places still to come, the next one last.
    chrom_indices: Vec<(u64, String)>,
    path: String,
}

impl BedParserParallelStreamingIterator {
    /// The places that are still to come, in order.
    pub closed spec fn remaining(&self) -> Seq<(u64, String)> {
        self.chrom_indices@.reverse()
    }

    /// The name of the chromosome that was started last.
    pub closed spec fn last(&self) -> Option<Seq<char>> {
        match self.last_chrom {
            Some(name) => Some(name@),
            None => None,
        }
    }

    /// Whether chromosomes may come in any order.
    pub closed spec fn allows_any_order(&self) -> bool {
        self.allow_out_of_order_chroms
    }

    /// The file that the places lie in.
    pub closed spec fn file(&self) -> Seq<char> {
        self.path@
    }

    /// The chromosomes that start at `chrom_indices` in the file at `path`, to be taken
    /// in that order.
    pub fn new(chrom_indices: Vec<(u64, String)>, allow_out_of_order_chroms: bool, path: String)
        -> (it: Self)
        ensures
            it.remaining() == chrom_indices@,
            it.last() is None,
            it.allows_any_order() == allow_out_of_order_chroms,
            it.file() == path@,
    {
        let it = BedParserParallelStreamingIterator {
            allow_out_of_order_chroms,
            last_chrom: None,
            chrom_indices: reversed(chrom_indices),
            path,
        };
        assert(it.chrom_indices@.reverse() =~= chrom_indices@);
        it
    }

    /// The path of the file.
    pub fn path(&self) -> (path: &String)
        ensures
            path@ == self.file(),
    {
        &self.path
    }

    /// Takes the place at which the next chromosome starts, if one is left.
    pub fn next_start(&mut self) -> (r: Option<(u64, String)>)
        ensures
            final(self).last() == old(self).last(),
            final(self).allows_any_order() == old(self).allows_any_order(),
            final(self).file() == old(self).file(),
            match r {
                Some(place) => old(self).remaining().len() > 0 && place == old(
                    self,
                ).remaining()[0] && final(self).remaining() == old(self).remaining().skip(1),
                None => old(self).remaining().len() == 0 && final(self).remaining() == old(
                    self,
                ).remaining(),
            },
    {
        let r = self.chrom_indices.pop();
        assert(old(self).chrom_indices@.len() > 0 ==> self.chrom_indices@.reverse() =~= old(
            self,
        ).chrom_indices@.reverse().skip(1));
        r
    }

    /// Notes that the chromosome `chrom` is started on, and rejects it where it does not
    /// come after the one before, unless any order is allowed.
    pub fn start_chrom(&mut self, chrom: &String) -> (r: Result<(), BedParseError>)
        ensures
            final(self).last() == Some(chrom@),
            final(self).remaining() == old(self).remaining(),
            final(self).allows_any_order() == old(self).allows_any_order(),
            final(self).file() == old(self).file(),
            match r {
                Ok(()) => in_order(old(self).last(), chrom@, old(self).allows_any_order()),
                Err(e) => {
                    &&& !in_order(old(self).last(), chrom@, old(self).allows_any_order())
                    &&& e matches BedParseError::InvalidInput(text)
                    &&& text@ == unsorted_message()
                },
            },
    {
        let sorted = self.allow_out_of_order_chroms || match &self.last_chrom {
            Some(last) => str_lt(last.as_str(), chrom.as_str()),
            None => true,
        };
        self.last_chrom = Some(chrom.clone());
        if sorted {
            Ok(())
        } else {
            Err(BedParseError::InvalidInput(say_unsorted()))
        }
    }
}

} // verus!
