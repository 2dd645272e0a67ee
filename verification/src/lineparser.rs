//! Lines of bed-like text: fields between tabs, of which the first names the chromosome
//! and the next two give the interval.

use vstd::prelude::*;
use vstd::string::StringExecFns;
use vstd::string::StringSliceAdditionalSpecFns;
use vstd::utf8::decode_utf8;
use vstd::utf8::encode_utf8;
use vstd::utf8::encode_utf8_decode_utf8;
use vstd::utf8::encode_utf8_valid_utf8;
use vstd::utf8::is_char_boundary;
use vstd::utf8::is_char_boundary_iff_not_is_continuation_byte;
use vstd::utf8::is_char_boundary_start_end_of_seq;
use vstd::utf8::valid_utf8;
use vstd::utf8::valid_utf8_split;
use crate::bbi::BedParseError;

verus! {

/// The byte that parts the fields of a line.
pub const TAB: u8 = 9;

/// The first place from `from` on at which `bytes` hold a tab, or their length.
pub open spec fn find_tab(bytes: Seq<u8>, from: int) -> int
    decreases bytes.len() - from,
{
    if from < 0 || from >= bytes.len() {
        bytes.len() as int
    } else if bytes[from] == TAB {
        from
    } else {
        find_tab(bytes, from + 1)
    }
}

/// The first field of `bytes`, and what follows its tab, if it has one.
pub open spec fn cut(bytes: Seq<u8>) -> (Seq<u8>, Option<Seq<u8>>) {
    let t = find_tab(bytes, 0);
    (
        bytes.subrange(0, t),
        if t < bytes.len() {
            Some(bytes.subrange(t + 1, bytes.len() as int))
        } else {
            None
        },
    )
}

/// The first tab lies within the bytes, or at their end.
pub proof fn lemma_find_tab(bytes: Seq<u8>, from: int)
    requires
        0 <= from <= bytes.len(),
    ensures
        from <= find_tab(bytes, from) <= bytes.len(),
        find_tab(bytes, from) < bytes.len() ==> bytes[find_tab(bytes, from)] == TAB,
    decreases bytes.len() - from,
{
    if from < bytes.len() && bytes[from] != TAB {
        lemma_find_tab(bytes, from + 1);
    }
}

/// Parts a line at its first tab.
pub fn cut_field<'a>(s: &'a str) -> (r: (&'a str, Option<&'a str>))
    ensures
        r.0.spec_bytes() == cut(s.spec_bytes()).0,
        match r.1 {
            Some(rest) => cut(s.spec_bytes()).1 == Some(rest.spec_bytes()),
            None => cut(s.spec_bytes()).1 is None,
        },
{
    let bytes = s.as_bytes();
    let ghost b = s.spec_bytes();
    let mut t: usize = 0;
    while t < bytes.len() && bytes[t] != TAB
        invariant
            t <= bytes.len(),
            bytes@ == b,
            find_tab(b, 0) == find_tab(b, t as int),
        decreases bytes.len() - t,
    {
        t = t + 1;
    }
    proof {
        encode_utf8_valid_utf8(s@);
        lemma_find_tab(b, 0);
        if t < b.len() {
            is_char_boundary_iff_not_is_continuation_byte(b, t as int);
        } else {
            is_char_boundary_start_end_of_seq(b);
        }
    }
    let (field, tail) = s.split_at(t);
    if t < bytes.len() {
        proof {
            let tb = tail.spec_bytes();
            valid_utf8_split(b, t as int);
            assert(tb[0] == TAB);
            assert(is_char_boundary(tb, 1)) by {
                reveal_with_fuel(is_char_boundary, 2);
                reveal_with_fuel(valid_utf8, 2);
            }
            assert(tb.subrange(1, tb.len() as int) =~= b.subrange(t + 1, b.len() as int));
        }
        let (_, rest) = tail.split_at(1);
        (field, Some(rest))
    } else {
        (field, None)
    }
}

/// Whether `b` is the byte of a decimal digit.
pub open spec fn is_digit(b: u8) -> bool {
    48 <= b <= 57
}

/// Whether all of `bytes` are digits.
pub open spec fn all_digits(bytes: Seq<u8>) -> bool {
    forall|i: int| 0 <= i < bytes.len() ==> is_digit(#[trigger] bytes[i])
}

/// The number that digits spell.
pub open spec fn digits_value(bytes: Seq<u8>) -> nat
    decreases bytes.len(),
{
    if bytes.len() == 0 {
        0
    } else {
        10 * digits_value(bytes.drop_last()) + (bytes.last() - 48) as nat
    }
}

/// A field without the plus sign that may lead it.
pub open spec fn unsigned_part(bytes: Seq<u8>) -> Seq<u8> {
    if bytes.len() > 0 && bytes[0] == 43 {
        bytes.skip(1)
    } else {
        bytes
    }
}

/// The 32-bit number that a field spells: digits, at least one, after a plus sign or
/// none, that do not pass the greatest such number.
pub open spec fn parsed_u32(bytes: Seq<u8>) -> Option<u32> {
    let digits = unsigned_part(bytes);
    if digits.len() > 0 && all_digits(digits) && digits_value(digits) <= u32::MAX {
        Some(digits_value(digits) as u32)
    } else {
        None
    }
}

/// Digits spell no less than their first ones do.
pub proof fn lemma_digits_value_grows(bytes: Seq<u8>, n: int)
    requires
        0 <= n <= bytes.len(),
        all_digits(bytes),
    ensures
        digits_value(bytes.take(n)) <= digits_value(bytes),
    decreases bytes.len() - n,
{
    if n < bytes.len() {
        lemma_digits_value_grows(bytes, n + 1);
        assert(bytes.take(n + 1).drop_last() =~= bytes.take(n));
        assert(is_digit(bytes.take(n + 1).last()));
    } else {
        assert(bytes.take(n) =~= bytes);
    }
}

/// Reads a field as a 32-bit number.
pub fn parse_u32(field: &str) -> (r: Option<u32>)
    ensures
        r == parsed_u32(field.spec_bytes()),
{
    let bytes = field.as_bytes();
    let n = bytes.len();
    let first: usize = if n > 0 && bytes[0] == 43 {
        1
    } else {
        0
    };
    if first == n {
        return None;
    }
    let ghost digits = unsigned_part(bytes@);
    assert(digits =~= bytes@.skip(first as int));
    let mut value: u32 = 0;
    let mut i: usize = first;
    assert(digits.take(0) =~= Seq::<u8>::empty());
    while i < n
        invariant
            first <= i <= n,
            first < n,
            n == bytes.len(),
            bytes@ == field.spec_bytes(),
            digits == unsigned_part(bytes@),
            digits == bytes@.skip(first as int),
            all_digits(digits.take(i - first)),
            value == digits_value(digits.take(i - first)),
        decreases n - i,
    {
        let b = bytes[i];
        let ghost before = digits.take(i - first);
        let ghost after = digits.take(i - first + 1);
        proof {
            assert(after.drop_last() =~= before);
            assert(after.last() == b);
            assert(digits[i - first] == b);
        }
        if b < 48 || b > 57 {
            assert(!is_digit(digits[i - first]));
            return None;
        }
        assert(all_digits(after)) by {
            assert forall|k: int| 0 <= k < after.len() implies is_digit(#[trigger] after[k]) by {
                if k < before.len() {
                    assert(after[k] == before[k]);
                }
            }
        }
        let next = match value.checked_mul(10) {
            Some(tens) => tens.checked_add((b - 48) as u32),
            None => None,
        };
        value = match next {
            Some(v) => v,
            None => {
                proof {
                    if all_digits(digits) {
                        lemma_digits_value_grows(digits, i - first + 1);
                    }
                }
                return None;
            },
        };
        i = i + 1;
    }
    assert(digits.take(n - first) =~= digits);
    Some(value)
}

/// An interval of a bed file, with all that its line says after the interval.
#[derive(Clone, Debug)]
pub struct BedEntry {
    pub start: u32,
    pub end: u32,
    /// The rest of the line, tabs and all.
    pub rest: String,
}

/// What can be wrong with a line.
pub enum LineFault {
    /// It has no second field.
    MissingStart,
    /// Its second field is no 32-bit number.
    InvalidStart,
    /// It has no third field.
    MissingEnd,
    /// Its third field is no 32-bit number.
    InvalidEnd,
    /// It has no fourth field.
    MissingValue,
}

/// A line in parts: the name of the chromosome, the interval, and what follows it.
pub struct LineParts {
    pub chrom: Seq<u8>,
    pub start: u32,
    pub end: u32,
    pub rest: Option<Seq<u8>>,
}

/// The parts of a line, or what is wrong with it and the text that shows it: the line
/// where the start is missing, else the field last read.
pub open spec fn line_parts(line: Seq<u8>) -> Result<LineParts, (LineFault, Seq<u8>)> {
    let first = cut(line);
    match first.1 {
        None => Err((LineFault::MissingStart, line)),
        Some(after_chrom) => {
            let second = cut(after_chrom);
            match parsed_u32(second.0) {
                None => Err((LineFault::InvalidStart, second.0)),
                Some(start) => match second.1 {
                    None => Err((LineFault::MissingEnd, second.0)),
                    Some(after_start) => {
                        let third = cut(after_start);
                        match parsed_u32(third.0) {
                            None => Err((LineFault::InvalidEnd, third.0)),
                            Some(end) => Ok(
                                LineParts { chrom: first.0, start, end, rest: third.1 },
                            ),
                        }
                    },
                },
            }
        },
    }
}

/// The words that name a fault.
pub open spec fn fault_words(fault: LineFault) -> Seq<char> {
    match fault {
        LineFault::MissingStart => "Missing start: "@,
        LineFault::InvalidStart => "Invalid start: "@,
        LineFault::MissingEnd => "Missing end: "@,
        LineFault::InvalidEnd => "Invalid end: "@,
        LineFault::MissingValue => "Missing value: "@,
    }
}

/// What is said of a line with a fault.
pub open spec fn fault_text(fault: (LineFault, Seq<u8>)) -> Seq<char> {
    fault_words(fault.0) + decode_utf8(fault.1)
}

/// Words a fault: the words `words`, then the text `shown`.
fn say_fault(words: &str, shown: &str) -> (e: BedParseError)
    ensures
        e matches BedParseError::InvalidInput(text) && text@ == words@ + decode_utf8(
            shown.spec_bytes(),
        ),
{
    proof {
        encode_utf8_decode_utf8(shown@);
    }
    let mut text = String::from_str(words);
    text.append(shown);
    BedParseError::InvalidInput(text)
}

/// The first three fields of a line and what follows them.
struct Fields<'a> {
    chrom: &'a str,
    start: u32,
    end: u32,
    /// The third field as text.
    end_text: &'a str,
    rest: Option<&'a str>,
}

/// Reads the chromosome and the interval of a line.
fn parse_interval<'a>(s: &'a str) -> (r: Result<Fields<'a>, BedParseError>)
    ensures
        match r {
            Ok(fields) => {
                &&& line_parts(s.spec_bytes()) matches Ok(parts)
                &&& fields.chrom.spec_bytes() == parts.chrom
                &&& fields.start == parts.start
                &&& fields.end == parts.end
                &&& fields.end_text.spec_bytes() == cut(
                    cut(cut(s.spec_bytes()).1->0).1->0,
                ).0
                &&& match fields.rest {
                    Some(rest) => parts.rest == Some(rest.spec_bytes()),
                    None => parts.rest is None,
                }
            },
            Err(e) => {
                &&& line_parts(s.spec_bytes()) matches Err(fault)
                &&& e matches BedParseError::InvalidInput(text)
                &&& text@ == fault_text(fault)
            },
        },
{
    let (chrom, after_chrom) = cut_field(s);
    let after_chrom = match after_chrom {
        Some(rest) => rest,
        None => {
            return Err(say_fault("Missing start: ", s));
        },
    };
    let (start_text, after_start) = cut_field(after_chrom);
    let start = match parse_u32(start_text) {
        Some(start) => start,
        None => {
            return Err(say_fault("Invalid start: ", start_text));
        },
    };
    let after_start = match after_start {
        Some(rest) => rest,
        None => {
            return Err(say_fault("Missing end: ", start_text));
        },
    };
    let (end_text, rest) = cut_field(after_start);
    let end = match parse_u32(end_text) {
        Some(end) => end,
        None => {
            return Err(say_fault("Invalid end: ", end_text));
        },
    };
    Ok(Fields { chrom, start, end, end_text, rest })
}

/// The bytes of the rest of a line, none where it has no rest.
pub open spec fn rest_bytes(rest: Option<Seq<u8>>) -> Seq<u8> {
    match rest {
        Some(bytes) => bytes,
        None => Seq::empty(),
    }
}

/// Reads a line of a bed file: the chromosome, the interval, and the rest of the line.
pub fn read_bed_line<'a>(s: &'a str) -> (r: Result<(&'a str, BedEntry), BedParseError>)
    ensures
        match r {
            Ok(read) => {
                &&& line_parts(s.spec_bytes()) matches Ok(parts)
                &&& read.0.spec_bytes() == parts.chrom
                &&& read.1.start == parts.start
                &&& read.1.end == parts.end
                &&& read.1.rest@ == decode_utf8(rest_bytes(parts.rest))
            },
            Err(e) => {
                &&& line_parts(s.spec_bytes()) matches Err(fault)
                &&& e matches BedParseError::InvalidInput(text)
                &&& text@ == fault_text(fault)
            },
        },
{
    match parse_interval(s) {
        Ok(fields) => {
            let rest = match fields.rest {
                Some(rest) => {
                    proof {
                        encode_utf8_decode_utf8(rest@);
                    }
                    String::from_str(rest)
                },
                None => {
                    proof {
                        encode_utf8_decode_utf8(Seq::<char>::empty());
                        assert(encode_utf8(Seq::<char>::empty()) =~= Seq::<u8>::empty());
                    }
                    String::new()
                },
            };
            Ok((fields.chrom, BedEntry { start: fields.start, end: fields.end, rest }))
        },
        Err(e) => Err(e),
    }
}

/// Reads a line of a bed file, as a stream of lines does: every line is read or
/// rejected, none is passed over.
pub fn parse_bed<'a>(s: &'a str) -> (r: Option<Result<(&'a str, BedEntry), BedParseError>>)
    ensures
        match r {
            Some(Ok(read)) => {
                &&& line_parts(s.spec_bytes()) matches Ok(parts)
                &&& read.0.spec_bytes() == parts.chrom
                &&& read.1.start == parts.start
                &&& read.1.end == parts.end
                &&& read.1.rest@ == decode_utf8(rest_bytes(parts.rest))
            },
            Some(Err(e)) => {
                &&& line_parts(s.spec_bytes()) matches Err(fault)
                &&& e matches BedParseError::InvalidInput(text)
                &&& text@ == fault_text(fault)
            },
            None => false,
        },
{
    Some(read_bed_line(s))
}

/// An interval of a bedGraph file with its value as the line spells it.
#[derive(Clone, Copy, Debug)]
pub struct BedGraphEntry<'a> {
    pub start: u32,
    pub end: u32,
    /// The fourth field of the line.
    pub value: &'a str,
}

/// The parts of a bedGraph line: those of any line, and the field that spells the value.
pub open spec fn bedgraph_parts(line: Seq<u8>) -> Result<(LineParts, Seq<u8>), (LineFault, Seq<u8>)> {
    match line_parts(line) {
        Err(fault) => Err(fault),
        Ok(parts) => match parts.rest {
            None => Err(
                (LineFault::MissingValue, cut(cut(cut(line).1->0).1->0).0),
            ),
            Some(rest) => Ok((parts, cut(rest).0)),
        },
    }
}

/// Reads a line of a bedGraph file: the chromosome, the interval, and the field that
/// spells the value, which it leaves unread. What follows that field is ignored.
pub fn read_bedgraph_line<'a>(s: &'a str) -> (r: Result<
    (&'a str, BedGraphEntry<'a>),
    BedParseError,
>)
    ensures
        match r {
            Ok(read) => {
                &&& bedgraph_parts(s.spec_bytes()) matches Ok(parts)
                &&& read.0.spec_bytes() == parts.0.chrom
                &&& read.1.start == parts.0.start
                &&& read.1.end == parts.0.end
                &&& read.1.value.spec_bytes() == parts.1
            },
            Err(e) => {
                &&& bedgraph_parts(s.spec_bytes()) matches Err(fault)
                &&& e matches BedParseError::InvalidInput(text)
                &&& text@ == fault_text(fault)
            },
        },
{
    match parse_interval(s) {
        Ok(fields) => match fields.rest {
            Some(rest) => {
                let (value, _) = cut_field(rest);
                Ok((fields.chrom, BedGraphEntry { start: fields.start, end: fields.end, value }))
            },
            None => Err(say_fault("Missing value: ", fields.end_text)),
        },
        Err(e) => Err(e),
    }
}

/// Reads a line of a bedGraph file, as a stream of lines does: every line is read or
/// rejected, none is passed over.
pub fn parse_bedgraph<'a>(s: &'a str) -> (r: Option<
    Result<(&'a str, BedGraphEntry<'a>), BedParseError>,
>)
    ensures
        match r {
            Some(Ok(read)) => {
                &&& bedgraph_parts(s.spec_bytes()) matches Ok(parts)
                &&& read.0.spec_bytes() == parts.0.chrom
                &&& read.1.start == parts.0.start
                &&& read.1.end == parts.0.end
                &&& read.1.value.spec_bytes() == parts.1
            },
            Some(Err(e)) => {
                &&& bedgraph_parts(s.spec_bytes()) matches Err(fault)
                &&& e matches BedParseError::InvalidInput(text)
                &&& text@ == fault_text(fault)
            },
            None => false,
        },
{
    Some(read_bedgraph_line(s))
}

} // verus!
