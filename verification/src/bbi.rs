//! The records, summaries and options that the writer works on.
//!
//! A track's values are single-precision numbers. The library never does arithmetic on
//! them: it carries each as the 32 bits of its IEEE 754 encoding, writes those bits to the
//! file, and leaves sums and extremes to a [`ValueStats`] that the caller supplies.

use vstd::prelude::*;
use vstd::string::StringExecFns;

verus! {

/// One interval of a track, `[start, end)`, at one value.
#[derive(Clone, Copy, Debug, PartialEq, Eq, Structural)]
pub struct Value {
    pub start: u32,
    pub end: u32,
    /// The bits of the single-precision value.
    pub value: u32,
}

/// An interval with the chromosome it lies on.
#[derive(Clone, Debug)]
pub struct ValueWithChrom {
    pub chrom: String,
    pub start: u32,
    pub end: u32,
    /// The bits of the single-precision value.
    pub value: u32,
}

/// A chromosome's name and its length in bases.
#[derive(Clone, Debug)]
pub struct ChromSize {
    pub name: String,
    pub length: u32,
}

/// A chromosome as a reader lists it. Two of them are the same where their names are.
#[derive(Clone, Debug)]
pub struct ChromAndSize {
    pub name: String,
    pub length: u32,
}

impl PartialEq for ChromAndSize {
    fn eq(&self, other: &ChromAndSize) -> (r: bool) {
        self.name == other.name
    }
}

impl vstd::std_specs::cmp::PartialEqSpecImpl for ChromAndSize {
    open spec fn obeys_eq_spec() -> bool {
        true
    }

    open spec fn eq_spec(&self, other: &ChromAndSize) -> bool {
        self.name@ == other.name@
    }
}

/// A chromosome of the file: its name, the id that the writer gave it, its length.
#[derive(Clone, Debug)]
pub struct ChromInfo {
    pub name: String,
    pub id: u32,
    pub length: u32,
}

/// A chromosome of the file as a plain value.
pub struct ChromView {
    pub name: Seq<char>,
    pub id: u32,
    pub length: u32,
}

impl View for ChromInfo {
    type V = ChromView;

    open spec fn view(&self) -> ChromView {
        ChromView { name: self.name@, id: self.id, length: self.length }
    }
}

/// Chromosomes as plain values.
pub open spec fn chrom_views(chroms: Seq<ChromInfo>) -> Seq<ChromView> {
    chroms.map_values(|c: ChromInfo| c@)
}

/// Where one section lies in the file, and the interval it covers.
#[derive(Clone, Copy, Debug, PartialEq, Eq, Structural)]
pub struct Section {
    pub offset: u64,
    pub size: u64,
    pub chrom: u32,
    pub start: u32,
    pub end: u32,
}

/// One section before it has a place in the file: its interval and its payload.
#[derive(Debug)]
pub struct SectionData {
    pub chrom: u32,
    pub start: u32,
    pub end: u32,
    pub data: Vec<u8>,
}

/// A zoom level's entry in the file header.
#[derive(Clone, Copy, Debug, PartialEq, Eq, Structural)]
pub struct ZoomHeader {
    pub reduction_level: u32,
    pub data_offset: u64,
    pub index_offset: u64,
}

/// A section as plain values.
pub struct SectionView {
    pub chrom: u32,
    pub start: u32,
    pub end: u32,
    pub data: Seq<u8>,
}

impl View for SectionData {
    type V = SectionView;

    open spec fn view(&self) -> SectionView {
        SectionView { chrom: self.chrom, start: self.start, end: self.end, data: self.data@ }
    }
}

/// Why a source of records gave none.
#[derive(Debug)]
pub enum BedParseError {
    /// A line that is no record, or records out of order; the text says which.
    InvalidInput(String),
    /// The source could not be read; the text is the cause.
    IoError(String),
}

/// Why a track was not written.
#[derive(Debug)]
pub enum ProcessChromError {
    /// The records break a rule of the format; the text says which, and where.
    InvalidInput(String),
    /// A file could not be read or written; the text is the cause.
    IoError(String),
    /// The compressor refused a section.
    CompressionError,
    /// The source of the records failed.
    SourceError(BedParseError),
}

impl BedParseError {
    /// What the error says.
    pub open spec fn words(&self) -> Seq<char> {
        match self {
            BedParseError::InvalidInput(text) => text@,
            BedParseError::IoError(text) => text@,
        }
    }

    /// What the error says, as text.
    pub fn message(&self) -> (text: String)
        ensures
            text@ == self.words(),
    {
        match self {
            BedParseError::InvalidInput(text) => text.clone(),
            BedParseError::IoError(text) => text.clone(),
        }
    }
}

impl ProcessChromError {
    /// What the error says.
    pub open spec fn words(&self) -> Seq<char> {
        match self {
            ProcessChromError::InvalidInput(text) => text@,
            ProcessChromError::IoError(text) => text@,
            ProcessChromError::CompressionError => "A section could not be compressed"@,
            ProcessChromError::SourceError(e) => e.words(),
        }
    }

    /// What the error says, as text.
    pub fn message(&self) -> (text: String)
        ensures
            text@ == self.words(),
    {
        match self {
            ProcessChromError::InvalidInput(text) => text.clone(),
            ProcessChromError::IoError(text) => text.clone(),
            ProcessChromError::CompressionError => String::from_str(
                "A section could not be compressed",
            ),
            ProcessChromError::SourceError(e) => e.message(),
        }
    }
}

/// Sums and extremes of values as a zoom record stores them: four single-precision
/// numbers, each as its bits.
#[derive(Clone, Copy, Debug, PartialEq, Eq, Structural)]
pub struct SingleBits {
    pub min_val: u32,
    pub max_val: u32,
    pub sum: u32,
    pub sum_squares: u32,
}

/// Sums and extremes of values as the total summary stores them: four double-precision
/// numbers, each as its bits.
#[derive(Clone, Copy, Debug, PartialEq, Eq, Structural)]
pub struct DoubleBits {
    pub min_val: u64,
    pub max_val: u64,
    pub sum: u64,
    pub sum_squares: u64,
}

/// Running statistics over values. The library decides what is added and when; the
/// arithmetic on the values themselves belongs to the implementation.
pub trait ValueStats: Sized {
    /// Statistics of no bases yet, with `value` as both extremes.
    fn start(value: u32) -> Self;

    /// Counts `bases` more bases at `value`.
    fn add_bases(&mut self, bases: u32, value: u32);

    /// Takes in what `other` has counted.
    fn merge(&mut self, other: &Self);

    /// The statistics in single precision.
    fn single(&self) -> SingleBits;

    /// The statistics in double precision.
    fn double(&self) -> DoubleBits;
}

/// What is known of the values seen so far.
pub struct Summary<A> {
    pub total_items: u64,
    pub bases_covered: u64,
    /// Absent until the first value.
    pub stats: Option<A>,
}

/// The aggregate over one zoom window, closed and ready to be written.
#[derive(Clone, Copy, Debug, PartialEq, Eq, Structural)]
pub struct ZoomRecord {
    pub chrom: u32,
    pub start: u32,
    pub end: u32,
    pub total_items: u64,
    pub bases_covered: u64,
    pub stats: SingleBits,
}

/// How a track is written.
#[derive(Clone, Copy, Debug, PartialEq, Eq, Structural)]
pub struct BigWigWriteOptions {
    /// Whether section payloads are zlib-compressed.
    pub compress: bool,
    /// The most records that one section holds.
    pub items_per_slot: u32,
    /// The most children that one index node holds.
    pub block_size: u32,
    /// The window width of the finest zoom level, in bases.
    pub initial_zoom_size: u32,
    /// How many zoom levels are computed.
    pub max_zooms: u16,
}

/// The widest zoom window that the file format can name.
pub open spec fn max_zoom_size() -> int {
    u32::MAX as int
}

/// The window width of zoom level `level`: four times that of the level below.
pub open spec fn zoom_size(initial: int, level: nat) -> int
    decreases level,
{
    if level == 0 {
        initial
    } else {
        4 * zoom_size(initial, (level - 1) as nat)
    }
}

impl BigWigWriteOptions {
    /// Options that the file format can hold: a section's record count and a node's child
    /// count are 16-bit fields, a node with fewer than two children never narrows the
    /// index, and every zoom window width is a 32-bit field.
    pub open spec fn valid(&self) -> bool {
        &&& 1 <= self.items_per_slot <= u16::MAX
        &&& 2 <= self.block_size <= u16::MAX
        &&& 1 <= self.initial_zoom_size
        &&& self.max_zooms > 0 ==> zoom_size(
            self.initial_zoom_size as int,
            (self.max_zooms - 1) as nat,
        ) <= max_zoom_size()
    }
}

impl BigWigWriteOptions {
    /// Checks that the file format can hold these options.
    pub fn is_valid(&self) -> (r: bool)
        ensures
            r == self.valid(),
    {
        if self.items_per_slot < 1 || self.items_per_slot > 65535 || self.block_size < 2
            || self.block_size > 65535 || self.initial_zoom_size < 1 {
            return false;
        }
        if self.max_zooms == 0 {
            return true;
        }
        let mut size: u32 = self.initial_zoom_size;
        let mut level: u16 = 0;
        while level < self.max_zooms - 1
            invariant
                level < self.max_zooms,
                1 <= self.initial_zoom_size,
                size == zoom_size(self.initial_zoom_size as int, level as nat),
            decreases self.max_zooms - level,
        {
            proof {
                lemma_zoom_size_monotonic(
                    self.initial_zoom_size as int,
                    (level + 1) as nat,
                    (self.max_zooms - 1) as nat,
                );
            }
            size = match size.checked_mul(4) {
                Some(next) => next,
                None => {
                    return false;
                },
            };
            level = level + 1;
        }
        true
    }
}

impl Default for BigWigWriteOptions {
    /// Compressed sections of 1024 records, index nodes of 256 children, ten zoom levels
    /// from 10 bases up.
    fn default() -> (o: Self)
        ensures
            o == (BigWigWriteOptions {
                compress: true,
                items_per_slot: 1024,
                block_size: 256,
                initial_zoom_size: 10,
                max_zooms: 10,
            }),
            o.valid(),
    {
        proof {
            lemma_default_options_valid();
        }
        BigWigWriteOptions {
            compress: true,
            items_per_slot: 1024,
            block_size: 256,
            initial_zoom_size: 10,
            max_zooms: 10,
        }
    }
}

/// Valid options have at most 16 zoom levels: the windows of a seventeenth would be wider
/// than a 32-bit field can say.
pub proof fn lemma_few_zoom_levels(options: BigWigWriteOptions)
    requires
        options.valid(),
    ensures
        options.max_zooms <= 16,
{
    let initial = options.initial_zoom_size as int;
    if options.max_zooms > 16 {
        lemma_zoom_size_monotonic(initial, 16, (options.max_zooms - 1) as nat);
        assert(zoom_size(initial, 16) == 4294967296 * initial) by {
            reveal_with_fuel(zoom_size, 17);
        }
    }
}

/// The widths grow with the level.
pub proof fn lemma_zoom_size_monotonic(initial: int, a: nat, b: nat)
    requires
        1 <= initial,
        a <= b,
    ensures
        1 <= zoom_size(initial, a) <= zoom_size(initial, b),
    decreases b,
{
    if a < b {
        lemma_zoom_size_monotonic(initial, a, (b - 1) as nat);
    } else if a > 0 {
        lemma_zoom_size_monotonic(initial, (a - 1) as nat, (a - 1) as nat);
    }
}

/// The default options are valid.
pub proof fn lemma_default_options_valid()
    ensures
        (BigWigWriteOptions {
            compress: true,
            items_per_slot: 1024,
            block_size: 256,
            initial_zoom_size: 10,
            max_zooms: 10,
        }).valid(),
{
    reveal_with_fuel(zoom_size, 10);
}

} // verus!
