use bigtools::bbi::{BigWigWriteOptions, DoubleBits, ProcessChromError, SingleBits, Value, ValueStats, ZoomRecord};
use bigtools::bigwigread::{decode_block, get_block_values, BigWigReadError, Endianness};
use bigtools::bigwigwrite::{check_values, process_chrom, ChromOutput};
use bigtools::encode::{encode_section, encode_sections, encode_zoom_section};
use bigtools::zoom::ZoomItem;

#[derive(Debug, Clone, PartialEq)]
struct Stats {
    min: f64,
    max: f64,
    sum: f64,
    sum_squares: f64,
}

impl ValueStats for Stats {
    fn start(value: u32) -> Self {
        let v = f64::from(f32::from_bits(value));
        Stats { min: v, max: v, sum: 0.0, sum_squares: 0.0 }
    }

    fn add_bases(&mut self, bases: u32, value: u32) {
        let v = f64::from(f32::from_bits(value));
        self.min = self.min.min(v);
        self.max = self.max.max(v);
        self.sum += f64::from(bases) * v;
        self.sum_squares += f64::from(bases) * v * v;
    }

    fn merge(&mut self, other: &Self) {
        self.min = self.min.min(other.min);
        self.max = self.max.max(other.max);
        self.sum += other.sum;
        self.sum_squares += other.sum_squares;
    }

    fn single(&self) -> SingleBits {
        SingleBits {
            min_val: (self.min as f32).to_bits(),
            max_val: (self.max as f32).to_bits(),
            sum: (self.sum as f32).to_bits(),
            sum_squares: (self.sum_squares as f32).to_bits(),
        }
    }

    fn double(&self) -> DoubleBits {
        DoubleBits {
            min_val: self.min.to_bits(),
            max_val: self.max.to_bits(),
            sum: self.sum.to_bits(),
            sum_squares: self.sum_squares.to_bits(),
        }
    }
}

fn value(start: u32, end: u32, v: f32) -> Value {
    Value { start, end, value: v.to_bits() }
}

fn plain(items_per_slot: u32) -> BigWigWriteOptions {
    BigWigWriteOptions { compress: false, items_per_slot, ..BigWigWriteOptions::default() }
}

fn process(values: &Vec<Value>, options: BigWigWriteOptions, length: u32) -> Result<ChromOutput<Stats>, ProcessChromError> {
    process_chrom::<Stats>(0, options, values, "chr1", length)
}

fn window(z: &ZoomRecord) -> (u32, u32, u64, u64) {
    (z.start, z.end, z.total_items, z.bases_covered)
}

fn sums(z: &ZoomRecord) -> (f32, f32, f32, f32) {
    (
        f32::from_bits(z.stats.min_val),
        f32::from_bits(z.stats.max_val),
        f32::from_bits(z.stats.sum),
        f32::from_bits(z.stats.sum_squares),
    )
}

#[test]
fn multi_section_chromosome() {
    let values: Vec<Value> = (0..8).map(|i| value(i * 10, i * 10 + 10, 1.0)).collect();
    let out = process(&values, plain(4), 1000).ok().unwrap();
    assert_eq!(out.sections.len(), 2);
    for (k, section) in out.sections.iter().enumerate() {
        let k = k as u32;
        assert_eq!((section.chrom, section.start, section.end), (0, 40 * k, 40 * k + 40));
        assert_eq!(section.data.len(), 24 + 12 * 4);
        assert_eq!(u16::from_le_bytes([section.data[22], section.data[23]]), 4);
        let read = decode_block(&section.data, Endianness::Little).ok().unwrap();
        assert_eq!(read, values[4 * k as usize..4 * k as usize + 4].to_vec());
    }
    assert_eq!(out.zooms.len(), 10);
    assert_eq!(out.zooms[0].resolution, 10);
    assert_eq!(out.zooms[0].records.len(), 8);
    for (i, z) in out.zooms[0].records.iter().enumerate() {
        let i = i as u32;
        assert_eq!(z.chrom, 0);
        assert_eq!(window(z), (i * 10, i * 10 + 10, 1, 10));
        assert_eq!(sums(z), (1.0, 1.0, 10.0, 10.0));
    }
    // Eight zoom records in sections of four.
    assert_eq!(out.zooms[0].sections.len(), 2);
    assert_eq!(out.zooms[0].sections[1].data.len(), 4 * 32);
    assert_eq!((out.zooms[0].sections[1].start, out.zooms[0].sections[1].end), (40, 80));
    assert_eq!(out.summary.total_items, 8);
    assert_eq!(out.summary.bases_covered, 80);
    assert_eq!(out.summary.stats, Some(Stats { min: 1.0, max: 1.0, sum: 80.0, sum_squares: 80.0 }));
    assert_eq!(out.uncompress_buf_size, 0);
}

#[test]
fn zoom_ladder_widths() {
    let out = process(&vec![value(0, 1, 1.0)], plain(1024), 10).ok().unwrap();
    let widths: Vec<u32> = out.zooms.iter().map(|z| z.resolution).collect();
    assert_eq!(widths, vec![10, 40, 160, 640, 2560, 10240, 40960, 163840, 655360, 2621440]);
    let options = BigWigWriteOptions { initial_zoom_size: 3, max_zooms: 3, ..plain(1024) };
    let out = process(&vec![value(0, 1, 1.0)], options, 10).ok().unwrap();
    assert_eq!(out.zooms.iter().map(|z| z.resolution).collect::<Vec<_>>(), vec![3, 12, 48]);
}

#[test]
fn record_across_zoom_windows() {
    // One record over two and a half windows of 10, then one that starts in the third.
    let values = vec![value(5, 30, 2.0), value(32, 33, 4.0)];
    let out = process(&values, plain(1024), 100).ok().unwrap();
    let fine = &out.zooms[0].records;
    assert_eq!(fine.iter().map(window).collect::<Vec<_>>(), vec![(5, 15, 1, 10), (15, 25, 1, 10), (25, 33, 2, 6)]);
    assert_eq!(sums(&fine[0]), (2.0, 2.0, 20.0, 40.0));
    assert_eq!(sums(&fine[2]), (2.0, 4.0, 14.0, 36.0));
    let coarse = &out.zooms[1].records;
    assert_eq!(coarse.iter().map(window).collect::<Vec<_>>(), vec![(5, 33, 2, 26)]);
    assert_eq!(sums(&coarse[0]), (2.0, 4.0, 54.0, 116.0));
    for level in &out.zooms {
        assert_eq!(level.records.iter().map(|z| z.bases_covered).sum::<u64>(), 26);
        for z in &level.records {
            assert!(z.end - z.start <= level.resolution);
        }
    }
    assert_eq!(out.summary.bases_covered, 26);
    assert_eq!(out.summary.stats, Some(Stats { min: 2.0, max: 4.0, sum: 54.0, sum_squares: 116.0 }));
}

#[test]
fn window_left_behind_closes_without_bases() {
    // The window of the first record ends long before the second record starts.
    let values = vec![value(0, 5, 1.0), value(100, 105, 3.0)];
    let out = process(&values, plain(1024), 1000).ok().unwrap();
    assert_eq!(out.zooms[0].records.iter().map(window).collect::<Vec<_>>(), vec![(0, 5, 1, 5), (100, 105, 1, 5)]);
    assert_eq!(sums(&out.zooms[0].records[1]), (3.0, 3.0, 15.0, 45.0));
    // At 160 bases one window holds both.
    assert_eq!(out.zooms[2].records.iter().map(window).collect::<Vec<_>>(), vec![(0, 105, 2, 10)]);
}

#[test]
fn record_at_the_end_of_a_window() {
    // The second record starts where the window of the first ends: it is counted, closes
    // the window at its start, and opens the next.
    let values = vec![value(0, 5, 1.0), value(10, 12, 3.0)];
    let out = process(&values, plain(1024), 1000).ok().unwrap();
    let fine = &out.zooms[0].records;
    assert_eq!(fine.iter().map(window).collect::<Vec<_>>(), vec![(0, 10, 2, 5), (10, 12, 1, 2)]);
    assert_eq!(sums(&fine[0]), (1.0, 3.0, 5.0, 5.0));
}

#[test]
fn empty_records_add_nothing_to_windows() {
    let values = vec![value(3, 3, 9.0), value(3, 7, 1.0), value(7, 7, 5.0)];
    let out = process(&values, plain(2), 10).ok().unwrap();
    assert_eq!(out.zooms[0].records.iter().map(window).collect::<Vec<_>>(), vec![(3, 7, 1, 4)]);
    assert_eq!(out.summary.total_items, 3);
    assert_eq!(out.summary.bases_covered, 4);
    assert_eq!(out.summary.stats, Some(Stats { min: 1.0, max: 9.0, sum: 4.0, sum_squares: 4.0 }));
    // Two sections: sections hold records, not bases. They start in order.
    assert_eq!(out.sections.iter().map(|s| (s.start, s.end)).collect::<Vec<_>>(), vec![(3, 7), (7, 7)]);
}

#[test]
fn chromosome_without_records() {
    let out = process(&Vec::new(), plain(4), 10).ok().unwrap();
    assert!(out.sections.is_empty());
    assert_eq!(out.zooms.len(), 10);
    assert!(out.zooms.iter().all(|z| z.records.is_empty() && z.sections.is_empty()));
    assert_eq!((out.summary.total_items, out.summary.bases_covered), (0, 0));
    assert_eq!(out.summary.stats, None);
}

#[test]
fn records_are_checked_in_order() {
    let check = |values: Vec<Value>, length: u32| match check_values(&values, "chrQ", length) {
        Ok(()) => String::new(),
        Err(ProcessChromError::InvalidInput(text)) => text,
        Err(_) => panic!("a rejection is the only error"),
    };
    assert_eq!(check(vec![value(0, 10, 1.0), value(10, 20, 1.0)], 20), "");
    assert_eq!(check(vec![value(5, 4, 1.0)], 20), "Invalid bed graph: 5 > 4");
    assert_eq!(
        check(vec![value(0, 21, 1.0)], 20),
        "Invalid bed graph: `21` is greater than the chromosome (chrQ) length (20): 21 > 20"
    );
    assert_eq!(
        check(vec![value(0, 10, 1.0), value(9, 20, 1.0)], 20),
        "Invalid bed graph: overlapping values on chromosome chrQ at 0-10 and 9-20"
    );
    // A record that ends before it starts is said so, though it ends past the chromosome.
    assert_eq!(check(vec![value(4000000000, 30, 1.0)], 20), "Invalid bed graph: 4000000000 > 30");
    // The first record at fault decides.
    assert_eq!(
        check(vec![value(0, 10, 1.0), value(5, 6, 1.0), value(9, 8, 1.0)], 20),
        "Invalid bed graph: overlapping values on chromosome chrQ at 0-10 and 5-6"
    );
    assert!(matches!(
        process(&vec![value(0, 10, 1.0), value(9, 20, 1.0)], plain(4), 20),
        Err(ProcessChromError::InvalidInput(_))
    ));
}

#[test]
fn compressed_sections_inflate_to_the_plain_ones() {
    let values: Vec<Value> = (0..100).map(|i| value(i * 3, i * 3 + 2, 0.25 * i as f32)).collect();
    let (packed, inflated) = encode_section(true, values.clone(), 5).ok().unwrap();
    let (plain, none) = encode_section(false, values.clone(), 5).ok().unwrap();
    assert_eq!(inflated, 24 + 12 * 100);
    assert_eq!(none, 0);
    assert_ne!(packed.data, plain.data);
    assert!(packed.data.len() < plain.data.len());
    assert_eq!((packed.chrom, packed.start, packed.end), (5, 0, 299));
    assert_eq!(get_block_values(&packed.data, inflated as u32, Endianness::Little).ok().unwrap(), values);
    assert_eq!(get_block_values(&plain.data, 0, Endianness::Little).ok().unwrap(), values);
    // A plain payload is no zlib stream.
    assert_eq!(get_block_values(&plain.data, 1224, Endianness::Little), Err(BigWigReadError::BadCompression));
}

#[test]
fn sections_in_batches() {
    let values: Vec<Value> = (0..10).map(|i| value(i, i + 1, 1.0)).collect();
    let (sections, largest) = encode_sections(true, &values, 3, 4).ok().unwrap();
    assert_eq!(sections.iter().map(|s| (s.chrom, s.start, s.end)).collect::<Vec<_>>(), vec![(3, 0, 4), (3, 4, 8), (3, 8, 10)]);
    assert_eq!(largest, 24 + 12 * 4);
    let (none, largest) = encode_sections(true, &Vec::new(), 3, 4).ok().unwrap();
    assert!(none.is_empty());
    assert_eq!(largest, 0);
}

#[test]
fn zoom_section_layout() {
    let stats = SingleBits {
        min_val: 0.5f32.to_bits(),
        max_val: 2.0f32.to_bits(),
        sum: 7.0f32.to_bits(),
        sum_squares: 9.5f32.to_bits(),
    };
    let records = vec![
        ZoomRecord { chrom: 2, start: 10, end: 20, total_items: 3, bases_covered: 8, stats },
        ZoomRecord { chrom: 2, start: 20, end: 25, total_items: (1 << 32) + 7, bases_covered: 5, stats },
    ];
    let (section, inflated) = encode_zoom_section(false, records).ok().unwrap();
    assert_eq!(inflated, 0);
    assert_eq!((section.chrom, section.start, section.end), (2, 10, 25));
    let mut expected: Vec<u8> = Vec::new();
    for (start, end, count) in [(10u32, 20u32, 3u32), (20, 25, 7)] {
        for word in [2, start, end, count] {
            expected.extend_from_slice(&word.to_le_bytes());
        }
        for number in [0.5f32, 2.0, 7.0, 9.5] {
            expected.extend_from_slice(&number.to_le_bytes());
        }
    }
    assert_eq!(section.data, expected);
}

#[test]
fn zoom_item_takes_records_in_turn() {
    let mut item: ZoomItem<Stats> = ZoomItem::new(40);
    item.add_value(1, value(0, 30, 1.0));
    assert!(item.records.is_empty());
    assert_eq!(item.live_info.as_ref().map(|l| (l.start, l.end, l.total_items, l.bases_covered)), Some((0, 30, 1, 30)));
    item.add_value(1, value(35, 50, 2.0));
    assert_eq!(item.records.iter().map(window).collect::<Vec<_>>(), vec![(0, 40, 2, 35)]);
    assert_eq!(item.live_info.as_ref().map(|l| (l.start, l.end)), Some((40, 50)));
    item.finish(1);
    assert!(item.live_info.is_none());
    assert_eq!(item.records.iter().map(window).collect::<Vec<_>>(), vec![(0, 40, 2, 35), (40, 50, 1, 10)]);
    assert!(item.records.iter().all(|z| z.chrom == 1));
}
