use bigtools::bbi::{
    BedParseError, BigWigWriteOptions, ChromSize, DoubleBits, ProcessChromError, SingleBits, Value,
    ValueStats,
};
use bigtools::bedparser::{BedIteratorStream, BedParser, BedParserStreamingIterator};
use bigtools::bigwigread::{get_block_values, Endianness};
use bigtools::bigwigwrite::BigWigWrite;

struct Stats {
    min: f64,
    max: f64,
    sum: f64,
    sum_squares: f64,
}

impl ValueStats for Stats {
    fn start(value: u32) -> Self {
        let v = f64::from(f32::from_bits(value));
        Stats { min: v, max: v, sum: 0.0, sum_squares: 0.0 }
    }

    fn add_bases(&mut self, bases: u32, value: u32) {
        let v = f64::from(f32::from_bits(value));
        self.min = self.min.min(v);
        self.max = self.max.max(v);
        self.sum += f64::from(bases) * v;
        self.sum_squares += f64::from(bases) * v * v;
    }

    fn merge(&mut self, other: &Self) {
        self.min = self.min.min(other.min);
        self.max = self.max.max(other.max);
        self.sum += other.sum;
        self.sum_squares += other.sum_squares;
    }

    fn single(&self) -> SingleBits {
        SingleBits {
            min_val: (self.min as f32).to_bits(),
            max_val: (self.max as f32).to_bits(),
            sum: (self.sum as f32).to_bits(),
            sum_squares: (self.sum_squares as f32).to_bits(),
        }
    }

    fn double(&self) -> DoubleBits {
        DoubleBits {
            min_val: self.min.to_bits(),
            max_val: self.max.to_bits(),
            sum: self.sum.to_bits(),
            sum_squares: self.sum_squares.to_bits(),
        }
    }
}

type Record = Result<(String, Value), BedParseError>;

fn record(chrom: &str, start: u32, end: u32, value: f32) -> Record {
    Ok((chrom.to_string(), Value { start, end, value: value.to_bits() }))
}

fn sizes(names: &[&str], length: u32) -> Vec<ChromSize> {
    names.iter().map(|n| ChromSize { name: n.to_string(), length }).collect()
}

fn write_with(
    records: Vec<Record>,
    chrom_sizes: &Vec<ChromSize>,
    options: BigWigWriteOptions,
    allow_out_of_order_chroms: bool,
) -> Result<Vec<u8>, ProcessChromError> {
    let mut writer = BigWigWrite::create_file("out.bw".to_string());
    writer.options = options;
    let vals = BedParserStreamingIterator::new(
        BedParser::new(BedIteratorStream::new(records)),
        allow_out_of_order_chroms,
    );
    writer.write::<_, Stats>(chrom_sizes, vals)
}

fn plain() -> BigWigWriteOptions {
    BigWigWriteOptions { compress: false, ..BigWigWriteOptions::default() }
}

fn write(records: Vec<Record>, chrom_sizes: &Vec<ChromSize>, compress: bool) -> Result<Vec<u8>, ProcessChromError> {
    write_with(
        records,
        chrom_sizes,
        BigWigWriteOptions { compress, ..BigWigWriteOptions::default() },
        false,
    )
}

fn u16_at(file: &[u8], at: usize) -> u16 {
    u16::from_le_bytes([file[at], file[at + 1]])
}

fn u32_at(file: &[u8], at: usize) -> u32 {
    u32::from_le_bytes([file[at], file[at + 1], file[at + 2], file[at + 3]])
}

fn u64_at(file: &[u8], at: usize) -> u64 {
    let mut b = [0u8; 8];
    b.copy_from_slice(&file[at..at + 8]);
    u64::from_le_bytes(b)
}

fn f64_at(file: &[u8], at: usize) -> f64 {
    f64::from_bits(u64_at(file, at))
}

/// A leaf of an index: the interval, the offset and the size of the section.
#[derive(Debug, PartialEq, Clone, Copy)]
struct Leaf {
    chrom: u32,
    start: u32,
    end_chrom: u32,
    end: u32,
    offset: u64,
    size: u64,
}

/// Walks the block at `at` and all below it, checking on the way that every node above
/// the leaves spans the nodes of the block it points at.
fn walk(file: &[u8], at: usize, leaves: &mut Vec<Leaf>) -> Option<(u32, u32, u32, u32)> {
    let is_leaf = file[at];
    assert_eq!(file[at + 1], 0);
    let count = u16_at(file, at + 2) as usize;
    let mut span: Option<(u32, u32, u32, u32)> = None;
    let mut widen = |s: (u32, u32, u32, u32)| {
        span = Some(match span {
            None => s,
            Some(a) => (
                a.0.min(s.0),
                a.1.min(s.1),
                a.2.max(s.2),
                if s.2 > a.2 { s.3 } else if s.2 == a.2 { a.3.max(s.3) } else { a.3 },
            ),
        });
    };
    for i in 0..count {
        if is_leaf == 1 {
            let e = at + 4 + 32 * i;
            let leaf = Leaf {
                chrom: u32_at(file, e),
                start: u32_at(file, e + 4),
                end_chrom: u32_at(file, e + 8),
                end: u32_at(file, e + 12),
                offset: u64_at(file, e + 16),
                size: u64_at(file, e + 24),
            };
            leaves.push(leaf);
            widen((leaf.chrom, leaf.start, leaf.end_chrom, leaf.end));
        } else {
            let e = at + 4 + 24 * i;
            let here = (u32_at(file, e), u32_at(file, e + 4), u32_at(file, e + 8), u32_at(file, e + 12));
            let child = u64_at(file, e + 16) as usize;
            let below = walk(file, child, leaves).unwrap();
            assert_eq!(here, below);
            widen(here);
        }
    }
    span
}

/// Reads the index at `at`: its header and its leaves, in order.
fn read_index(file: &[u8], at: usize) -> (u32, u64, (u32, u32, u32, u32), u64, u32, Vec<Leaf>) {
    assert_eq!(u32_at(file, at), 0x2468_ACE0);
    let block_size = u32_at(file, at + 4);
    let count = u64_at(file, at + 8);
    let root = (u32_at(file, at + 16), u32_at(file, at + 20), u32_at(file, at + 24), u32_at(file, at + 28));
    let end_of_data = u64_at(file, at + 32);
    let items_per_slot = u32_at(file, at + 40);
    assert_eq!(u32_at(file, at + 44), 0);
    let mut leaves = Vec::new();
    let span = walk(file, at + 48, &mut leaves);
    assert_eq!(root, span.unwrap_or((0, 0, 0, 0)));
    (block_size, count, root, end_of_data, items_per_slot, leaves)
}

fn three_chroms() -> Vec<Record> {
    vec![
        record("chr17", 1, 100, 0.5),
        record("chr17", 101, 200, 0.5),
        record("chr17", 201, 300, 0.5),
        record("chr18", 1, 100, 0.5),
        record("chr18", 101, 200, 0.5),
        record("chr19", 1, 100, 0.5),
    ]
}

#[test]
fn three_chrom_bedgraph() {
    let names = ["chr17", "chr18", "chr19"];
    let file = write(three_chroms(), &sizes(&names, 1000), false).ok().unwrap();
    assert_eq!(u32_at(&file, 0), 0x888F_FC26);
    assert_eq!(u16_at(&file, 4), 4);
    assert_eq!(u16_at(&file, 32), 0);
    assert_eq!(u16_at(&file, 34), 0);
    assert_eq!(u64_at(&file, 36), 0);
    assert_eq!(u32_at(&file, 52), 0);
    assert_eq!(u64_at(&file, 56), 0);
    let summary_at = u64_at(&file, 44) as usize;
    assert_eq!(summary_at, 64 + 24 * 10);
    // Six records of 99 bases each at 0.5.
    assert_eq!(u64_at(&file, summary_at), 594);
    assert_eq!(f64_at(&file, summary_at + 8), 0.5);
    assert_eq!(f64_at(&file, summary_at + 16), 0.5);
    assert_eq!(f64_at(&file, summary_at + 24), 297.0);
    assert_eq!(f64_at(&file, summary_at + 32), 148.5);
    let data_at = u64_at(&file, 16) as usize;
    assert_eq!(data_at, summary_at + 40);
    // One primary section for each chromosome.
    assert_eq!(u64_at(&file, data_at), 3);
    let index_at = u64_at(&file, 24) as usize;
    let (block_size, count, root, end_of_data, items_per_slot, leaves) = read_index(&file, index_at);
    assert_eq!(block_size, 256);
    assert_eq!(count, 3);
    assert_eq!(items_per_slot, 1024);
    assert_eq!(end_of_data, index_at as u64);
    assert_eq!(root, (0, 1, 2, 100));
    assert_eq!(leaves.len(), 3);
    let expected = [(0u32, 1u32, 300u32, 3usize), (1, 1, 200, 2), (2, 1, 100, 1)];
    let mut at = data_at as u64 + 8;
    for (leaf, (chrom, start, end, items)) in leaves.iter().zip(expected) {
        assert_eq!((leaf.chrom, leaf.start, leaf.end_chrom, leaf.end), (chrom, start, chrom, end));
        assert_eq!(leaf.offset, at);
        assert_eq!(leaf.size, 24 + 12 * items as u64);
        at += leaf.size;
        let payload = file[leaf.offset as usize..(leaf.offset + leaf.size) as usize].to_vec();
        assert_eq!(u32_at(&payload, 0), chrom);
        assert_eq!(u32_at(&payload, 4), start);
        assert_eq!(u32_at(&payload, 8), end);
        let values = get_block_values(&payload, 0, Endianness::Little).ok().unwrap();
        assert_eq!(values.len(), items);
    }
    assert_eq!(u64_at(&file, 8), at);
    assert_eq!(u32_at(&file, file.len() - 4), 0x888F_FC26);
}

#[test]
fn chromosome_index_lists_names_in_order() {
    let records = vec![record("chrB", 0, 10, 1.0), record("chrA", 0, 10, 1.0), record("chrCC", 5, 6, 1.0)];
    let chrom_sizes = vec![
        ChromSize { name: "chrA".to_string(), length: 11 },
        ChromSize { name: "chrB".to_string(), length: 22 },
        ChromSize { name: "chrCC".to_string(), length: 33 },
    ];
    let file = write_with(records, &chrom_sizes, plain(), true).ok().unwrap();
    let at = u64_at(&file, 8) as usize;
    assert_eq!(u32_at(&file, at), 0x78CA_8C91);
    assert_eq!(u32_at(&file, at + 4), 256);
    assert_eq!(u32_at(&file, at + 8), 5);
    assert_eq!(u32_at(&file, at + 12), 8);
    assert_eq!(u64_at(&file, at + 16), 3);
    assert_eq!(u64_at(&file, at + 24), 0);
    assert_eq!(file[at + 32], 1);
    assert_eq!(file[at + 33], 0);
    assert_eq!(u16_at(&file, at + 34), 3);
    let entries = at + 36;
    // Ids follow the order of the stream, the entries the order of the names.
    let expected: [(&[u8], u32, u32); 3] =
        [(b"chrA\0", 1, 11), (b"chrB\0", 0, 22), (b"chrCC", 2, 33)];
    for (i, (key, id, length)) in expected.iter().enumerate() {
        let e = entries + 13 * i;
        assert_eq!(&file[e..e + 5], *key);
        assert_eq!(u32_at(&file, e + 5), *id);
        assert_eq!(u32_at(&file, e + 9), *length);
    }
    assert_eq!(u64_at(&file, 24) as usize, entries + 13 * 3);
}

#[test]
fn overlap_rejection() {
    let records = vec![record("chr1", 1, 100, 0.5), record("chr1", 50, 150, 0.5)];
    match write(records, &sizes(&["chr1"], 1000), true) {
        Err(ProcessChromError::InvalidInput(text)) => {
            assert_eq!(
                text,
                "Invalid bed graph: overlapping values on chromosome chr1 at 1-100 and 50-150"
            );
        }
        _ => panic!("expected a rejection"),
    }
}

#[test]
fn out_of_order_chromosome_rejection() {
    let records = vec![record("chr2", 1, 100, 0.5), record("chr1", 1, 100, 0.5)];
    match write(records, &sizes(&["chr1", "chr2"], 1000), true) {
        Err(ProcessChromError::InvalidInput(text)) => {
            assert_eq!(
                text,
                "Input bedGraph not sorted by chromosome. Sort with `sort -k1,1 -k2,2n`."
            );
        }
        _ => panic!("expected a rejection"),
    }
}

#[test]
fn out_of_order_chromosomes_allowed() {
    let records = vec![record("chr2", 1, 100, 0.5), record("chr1", 1, 100, 0.5)];
    let file = write_with(records, &sizes(&["chr1", "chr2"], 1000), plain(), true).ok().unwrap();
    let data_at = u64_at(&file, 16) as usize;
    assert_eq!(u64_at(&file, data_at), 2);
    let (_, _, _, _, _, leaves) = read_index(&file, u64_at(&file, 24) as usize);
    // The blocks come in the order of the stream, under the ids 0 and 1.
    assert_eq!(leaves.iter().map(|l| l.chrom).collect::<Vec<_>>(), vec![0, 1]);
}

#[test]
fn repeated_chromosome_is_rejected_unless_allowed() {
    let records = || vec![record("chr1", 1, 10, 0.5), record("chr2", 1, 10, 0.5), record("chr1", 20, 30, 0.5)];
    assert!(matches!(
        write(records(), &sizes(&["chr1", "chr2"], 1000), false),
        Err(ProcessChromError::InvalidInput(_))
    ));
    let file = write_with(records(), &sizes(&["chr1", "chr2"], 1000), plain(), true).ok().unwrap();
    let (_, _, _, _, _, leaves) = read_index(&file, u64_at(&file, 24) as usize);
    // The chromosome keeps its id when it comes back.
    assert_eq!(leaves.iter().map(|l| l.chrom).collect::<Vec<_>>(), vec![0, 1, 0]);
    let tree_at = u64_at(&file, 8) as usize;
    assert_eq!(u64_at(&file, tree_at + 16), 2);
}

#[test]
fn chromosome_length_violation() {
    let records = vec![record("chr1", 1, 1500, 0.5)];
    match write(records, &sizes(&["chr1"], 1000), true) {
        Err(ProcessChromError::InvalidInput(text)) => {
            assert!(text.contains("1500 > 1000"));
            assert_eq!(
                text,
                "Invalid bed graph: `1500` is greater than the chromosome (chr1) length (1000): 1500 > 1000"
            );
        }
        _ => panic!("expected a rejection"),
    }
}

#[test]
fn backwards_record_rejection() {
    let records = vec![record("chr1", 7, 3, 0.5)];
    match write(records, &sizes(&["chr1"], 1000), false) {
        Err(ProcessChromError::InvalidInput(text)) => assert_eq!(text, "Invalid bed graph: 7 > 3"),
        _ => panic!("expected a rejection"),
    }
}

#[test]
fn unknown_chromosome_rejection() {
    let records = vec![record("chr1", 1, 10, 0.5), record("chrX", 1, 10, 0.5)];
    match write(records, &sizes(&["chr1"], 1000), false) {
        Err(ProcessChromError::InvalidInput(text)) => assert_eq!(
            text,
            "Input bedGraph contains chromosome that isn't in the input chrom sizes: chrX"
        ),
        _ => panic!("expected a rejection"),
    }
}

#[test]
fn first_failing_step_decides() {
    // The overlap on chr1 comes before the unknown chromosome.
    let records = vec![record("chr1", 1, 10, 0.5), record("chr1", 5, 20, 0.5), record("chrX", 1, 10, 0.5)];
    match write(records, &sizes(&["chr1"], 1000), false) {
        Err(ProcessChromError::InvalidInput(text)) => assert!(text.contains("overlapping")),
        _ => panic!("expected a rejection"),
    }
}

#[test]
fn source_failure_is_passed_on() {
    let failing = || -> Record { Err(BedParseError::IoError("disk gone".to_string())) };
    // Where a chromosome should start.
    match write(vec![failing()], &sizes(&["chr1"], 1000), false) {
        Err(ProcessChromError::SourceError(BedParseError::IoError(text))) => assert_eq!(text, "disk gone"),
        _ => panic!("expected the failure of the source"),
    }
    // Among the records of a chromosome.
    match write(vec![record("chr1", 1, 10, 0.5), failing()], &sizes(&["chr1"], 1000), false) {
        Err(ProcessChromError::SourceError(BedParseError::IoError(text))) => assert_eq!(text, "disk gone"),
        _ => panic!("expected the failure of the source"),
    }
    // A record that breaks a rule is found first.
    match write(vec![record("chr1", 10, 1, 0.5), failing()], &sizes(&["chr1"], 1000), false) {
        Err(ProcessChromError::InvalidInput(text)) => assert_eq!(text, "Invalid bed graph: 10 > 1"),
        _ => panic!("expected a rejection"),
    }
    // A line that is no record stays a rejection.
    let malformed: Record = Err(BedParseError::InvalidInput("Missing start: chr1".to_string()));
    match write(vec![malformed], &sizes(&["chr1"], 1000), false) {
        Err(ProcessChromError::InvalidInput(text)) => assert_eq!(text, "Missing start: chr1"),
        _ => panic!("expected a rejection"),
    }
}

#[test]
fn invalid_options_are_rejected() {
    for options in [
        BigWigWriteOptions { items_per_slot: 0, ..plain() },
        BigWigWriteOptions { items_per_slot: 65536, ..plain() },
        BigWigWriteOptions { block_size: 1, ..plain() },
        BigWigWriteOptions { block_size: 65536, ..plain() },
        BigWigWriteOptions { initial_zoom_size: 0, ..plain() },
        BigWigWriteOptions { initial_zoom_size: 1 << 31, max_zooms: 2, ..plain() },
    ] {
        assert!(!options.is_valid());
        match write_with(three_chroms(), &sizes(&["chr17", "chr18", "chr19"], 1000), options, false) {
            Err(ProcessChromError::InvalidInput(text)) => assert!(text.starts_with("Invalid options")),
            _ => panic!("expected a rejection"),
        }
    }
    assert!(BigWigWriteOptions::default().is_valid());
    assert!(BigWigWriteOptions { initial_zoom_size: 1 << 31, max_zooms: 1, ..plain() }.is_valid());
    assert!(BigWigWriteOptions { max_zooms: 0, ..plain() }.is_valid());
}

#[test]
fn default_options() {
    let writer = BigWigWrite::create_file("some.bw".to_string());
    assert_eq!(writer.path, "some.bw");
    assert_eq!(
        writer.options,
        BigWigWriteOptions {
            compress: true,
            items_per_slot: 1024,
            block_size: 256,
            initial_zoom_size: 10,
            max_zooms: 10,
        }
    );
}

#[test]
fn empty_stream_gives_an_empty_track() {
    let file = write(Vec::new(), &sizes(&["chr1"], 1000), true).ok().unwrap();
    let summary_at = 64 + 24 * 10;
    assert_eq!(u16_at(&file, 6), 10);
    assert_eq!(u64_at(&file, 44) as usize, summary_at);
    for at in (summary_at..summary_at + 48).step_by(8) {
        assert_eq!(u64_at(&file, at), 0);
    }
    let tree_at = u64_at(&file, 8) as usize;
    assert_eq!(tree_at, summary_at + 48);
    assert_eq!(u64_at(&file, tree_at + 16), 0);
    let index_at = u64_at(&file, 24) as usize;
    assert_eq!(index_at, tree_at + 36);
    let (_, count, root, _, _, leaves) = read_index(&file, index_at);
    assert_eq!(count, 0);
    assert_eq!(root, (0, 0, 0, 0));
    assert!(leaves.is_empty());
    // One empty block stands for the root.
    assert_eq!(&file[index_at + 48..index_at + 52], &[0, 0, 0, 0]);
    assert_eq!(u32_at(&file, file.len() - 4), 0x888F_FC26);
}

#[test]
fn round_trip_sum() {
    let mut records = Vec::new();
    let mut expected = 0.0f64;
    let mut bases = 0u64;
    for i in 0..1000u32 {
        let value = (i % 17) as f32 * 0.25 - 1.5;
        let (start, end) = (i * 20, i * 20 + 1 + i % 13);
        records.push(record(if i < 400 { "chr1" } else { "chr2" }, start, end, value));
        expected += f64::from(end - start) * f64::from(value);
        bases += u64::from(end - start);
    }
    let options = BigWigWriteOptions { items_per_slot: 64, block_size: 4, ..BigWigWriteOptions::default() };
    let file = write_with(records, &sizes(&["chr1", "chr2"], 100_000), options, false).ok().unwrap();
    let summary_at = u64_at(&file, 44) as usize;
    assert_eq!(u64_at(&file, summary_at), bases);
    assert_eq!(f64_at(&file, summary_at + 24), expected);
    assert_eq!(f64_at(&file, summary_at + 8), -1.5);
    assert_eq!(f64_at(&file, summary_at + 16), 2.5);
    // What a reader adds up from the sections is the same.
    let inflate_to = u32_at(&file, 52);
    // The zoom sections are the largest: 64 windows of 32 bytes.
    assert_eq!(inflate_to, 32 * 64);
    let (_, count, _, _, _, leaves) = read_index(&file, u64_at(&file, 24) as usize);
    // 400 records in 7 sections, 600 in 10.
    assert_eq!(count, 17);
    let mut read = 0.0f64;
    for leaf in &leaves {
        let payload = file[leaf.offset as usize..(leaf.offset + leaf.size) as usize].to_vec();
        for v in get_block_values(&payload, inflate_to, Endianness::Little).ok().unwrap() {
            read += f64::from(v.end - v.start) * f64::from(f32::from_bits(v.value));
        }
    }
    assert_eq!(read, expected);
}

#[test]
fn index_spans_and_points_at_sections() {
    // 40 sections under nodes of at most 3 children: four levels of index.
    let mut records = Vec::new();
    for i in 0..40u32 {
        let chrom = if i < 25 { "chr1" } else { "chr2" };
        records.push(record(chrom, i * 10, i * 10 + 5, 1.0));
    }
    let options = BigWigWriteOptions { items_per_slot: 1, block_size: 3, ..plain() };
    let file = write_with(records, &sizes(&["chr1", "chr2"], 1000), options, false).ok().unwrap();
    let index_at = u64_at(&file, 24) as usize;
    let (block_size, count, root, _, items_per_slot, leaves) = read_index(&file, index_at);
    assert_eq!((block_size, count, items_per_slot), (3, 40, 1));
    assert_eq!(root, (0, 0, 1, 395));
    assert_eq!(leaves.len(), 40);
    // 40 leaves, then 14, 5 and 2 nodes: the root block holds two.
    assert_eq!(file[index_at + 48], 0);
    assert_eq!(u16_at(&file, index_at + 50), 2);
    let first = u64_at(&file, 16) + 8;
    for (i, leaf) in leaves.iter().enumerate() {
        let i = i as u32;
        let chrom = if i < 25 { 0 } else { 1 };
        assert_eq!((leaf.chrom, leaf.start, leaf.end_chrom, leaf.end), (chrom, i * 10, chrom, i * 10 + 5));
        assert_eq!(leaf.size, 36);
        assert_eq!(leaf.offset, first + 36 * u64::from(i));
        let payload = file[leaf.offset as usize..(leaf.offset + leaf.size) as usize].to_vec();
        let values = get_block_values(&payload, 0, Endianness::Little).ok().unwrap();
        assert_eq!(values, vec![Value { start: i * 10, end: i * 10 + 5, value: 1.0f32.to_bits() }]);
        // The root spans the section.
        assert!((root.0, root.1) <= (leaf.chrom, leaf.start));
        assert!((leaf.end_chrom, leaf.end) <= (root.2, root.3));
    }
}

#[test]
fn zoom_levels_that_take_too_much_are_skipped() {
    // Two records far apart: every zoom level has two sections' worth of windows, more
    // than half of what the records themselves take.
    let records = vec![record("chr1", 0, 5, 1.0), record("chr1", 90_000_000, 90_000_005, 2.0)];
    let file = write_with(records, &sizes(&["chr1"], 100_000_000), plain(), false).ok().unwrap();
    assert_eq!(u16_at(&file, 6), 0);
    for at in 64..64 + 24 * 10 {
        assert_eq!(file[at], 0);
    }
    // The file ends after the primary index.
    let index_at = u64_at(&file, 24) as usize;
    assert_eq!(file.len(), index_at + 48 + 4 + 32 + 4);
}

#[test]
fn zoom_levels_that_are_kept_follow_the_index() {
    // 200 records of 10 bases back to back: the levels of 10 and 40 bases take more than
    // half of the 2424 bytes of the records, the coarser ones less.
    let records: Vec<Record> = (0..200u32).map(|i| record("chr1", i * 10, i * 10 + 10, 1.0)).collect();
    let file = write_with(records, &sizes(&["chr1"], 100_000), plain(), false).ok().unwrap();
    let kept = u16_at(&file, 6) as usize;
    assert_eq!(kept, 8);
    let data_size = u64_at(&file, 8) - (u64_at(&file, 16) + 8);
    assert_eq!(data_size, 24 + 12 * 200);
    let mut resolution = 160;
    let mut at = {
        let index_at = u64_at(&file, 24) as usize;
        // One block of one leaf.
        index_at + 48 + 4 + 32
    };
    for level in 0..kept {
        let header = 64 + 24 * level;
        assert_eq!(u32_at(&file, header), resolution);
        assert_eq!(u32_at(&file, header + 4), 0);
        let data_offset = u64_at(&file, header + 8) as usize;
        let index_offset = u64_at(&file, header + 16) as usize;
        assert_eq!(data_offset, at);
        let windows = (2000 + resolution - 1) / resolution;
        assert_eq!(index_offset - data_offset, 32 * windows as usize);
        assert!((index_offset - data_offset) as u64 <= data_size / 2);
        let (_, count, root, _, _, leaves) = read_index(&file, index_offset);
        assert_eq!(count, 1);
        assert_eq!(root, (0, 0, 0, 2000));
        assert_eq!(leaves[0].offset, data_offset as u64);
        assert_eq!(leaves[0].size, (index_offset - data_offset) as u64);
        // The first window: all its bases at 1.0.
        let w = &file[data_offset..data_offset + 32];
        let bases = resolution.min(2000);
        assert_eq!((u32_at(w, 0), u32_at(w, 4), u32_at(w, 8)), (0, 0, bases));
        assert_eq!(u32_at(w, 12), bases / 10);
        assert_eq!(f32::from_bits(u32_at(w, 16)), 1.0);
        assert_eq!(f32::from_bits(u32_at(w, 20)), 1.0);
        assert_eq!(f32::from_bits(u32_at(w, 24)), bases as f32);
        assert_eq!(f32::from_bits(u32_at(w, 28)), bases as f32);
        at = index_offset + 48 + 4 + 32;
        resolution *= 4;
    }
    for rest in 64 + 24 * kept..64 + 24 * 10 {
        assert_eq!(file[rest], 0);
    }
    assert_eq!(file.len(), at + 4);
}

#[test]
fn compression_changes_no_record() {
    let names = ["chr17", "chr18", "chr19"];
    let plain_file = write(three_chroms(), &sizes(&names, 1000), false).ok().unwrap();
    let packed_file = write(three_chroms(), &sizes(&names, 1000), true).ok().unwrap();
    assert_eq!(u32_at(&plain_file, 52), 0);
    // The largest section holds the 30 windows of 10 bases over chr17.
    assert_eq!(u32_at(&packed_file, 52), 30 * 32);
    let read = |file: &Vec<u8>| {
        let inflate_to = u32_at(file, 52);
        let (_, _, _, _, _, leaves) = read_index(file, u64_at(file, 24) as usize);
        let mut all = Vec::new();
        for leaf in leaves {
            let payload = file[leaf.offset as usize..(leaf.offset + leaf.size) as usize].to_vec();
            all.push((leaf.chrom, get_block_values(&payload, inflate_to, Endianness::Little).ok().unwrap()));
        }
        all
    };
    let records = read(&plain_file);
    assert_eq!(records, read(&packed_file));
    assert_eq!(records.len(), 3);
    assert_eq!(
        records[0],
        (
            0,
            vec![
                Value { start: 1, end: 100, value: 0.5f32.to_bits() },
                Value { start: 101, end: 200, value: 0.5f32.to_bits() },
                Value { start: 201, end: 300, value: 0.5f32.to_bits() },
            ]
        )
    );
    assert_ne!(plain_file, packed_file);
}

#[test]
fn errors_say_what_is_wrong() {
    assert_eq!(ProcessChromError::InvalidInput("a".to_string()).message(), "a");
    assert_eq!(ProcessChromError::IoError("b".to_string()).message(), "b");
    assert_eq!(ProcessChromError::CompressionError.message(), "A section could not be compressed");
    assert_eq!(ProcessChromError::SourceError(BedParseError::IoError("c".to_string())).message(), "c");
    assert_eq!(BedParseError::InvalidInput("d".to_string()).message(), "d");
    let records = vec![record("chr1", 1, 100, 0.5), record("chr1", 50, 150, 0.5)];
    let e = write(records, &sizes(&["chr1"], 1000), false).err().unwrap();
    assert!(e.message().contains("1-100 and 50-150"));
}
