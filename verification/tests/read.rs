use bigtools::bbi::{BedParseError, BigWigWriteOptions, ChromSize, DoubleBits, SingleBits, Value, ValueStats};
use bigtools::bedparser::{BedIteratorStream, BedParser, BedParserStreamingIterator};
use bigtools::bbi::{ChromAndSize, ZoomRecord};
use bigtools::bigwigread::{
    compare_position, decode_zoom_block, get_zoom_block_values, name_of_key, overlaps, read_header,
    read_info, search_cir_tree, BigWigRead, BigWigReadError, Block, Endianness, Query,
    ZoomBlockRecord,
};
use bigtools::encode::encode_zoom_section;
use bigtools::bigwigwrite::BigWigWrite;

struct Stats {
    min: f64,
    max: f64,
    sum: f64,
    sum_squares: f64,
}

impl ValueStats for Stats {
    fn start(value: u32) -> Self {
        let v = f64::from(f32::from_bits(value));
        Stats { min: v, max: v, sum: 0.0, sum_squares: 0.0 }
    }

    fn add_bases(&mut self, bases: u32, value: u32) {
        let v = f64::from(f32::from_bits(value));
        self.min = self.min.min(v);
        self.max = self.max.max(v);
        self.sum += f64::from(bases) * v;
        self.sum_squares += f64::from(bases) * v * v;
    }

    fn merge(&mut self, other: &Self) {
        self.min = self.min.min(other.min);
        self.max = self.max.max(other.max);
        self.sum += other.sum;
        self.sum_squares += other.sum_squares;
    }

    fn single(&self) -> SingleBits {
        SingleBits {
            min_val: (self.min as f32).to_bits(),
            max_val: (self.max as f32).to_bits(),
            sum: (self.sum as f32).to_bits(),
            sum_squares: (self.sum_squares as f32).to_bits(),
        }
    }

    fn double(&self) -> DoubleBits {
        DoubleBits {
            min_val: self.min.to_bits(),
            max_val: self.max.to_bits(),
            sum: self.sum.to_bits(),
            sum_squares: self.sum_squares.to_bits(),
        }
    }
}

fn value(start: u32, end: u32, v: f32) -> Value {
    Value { start, end, value: v.to_bits() }
}

/// A file of 30 records on chr1 and 12 on chr2, three to a section, three nodes to a block.
fn written(compress: bool) -> Vec<u8> {
    let mut records: Vec<Result<(String, Value), BedParseError>> = Vec::new();
    for i in 0..30u32 {
        records.push(Ok(("chr1".to_string(), value(i * 10, i * 10 + 5, i as f32))));
    }
    for i in 0..12u32 {
        records.push(Ok(("chr2".to_string(), value(i * 10, i * 10 + 5, -(i as f32)))));
    }
    let sizes = vec![
        ChromSize { name: "chr1".to_string(), length: 1000 },
        ChromSize { name: "chr2".to_string(), length: 2000 },
    ];
    let mut writer = BigWigWrite::create_file("t.bw".to_string());
    writer.options = BigWigWriteOptions { compress, items_per_slot: 3, block_size: 3, ..BigWigWriteOptions::default() };
    let vals = BedParserStreamingIterator::new(BedParser::new(BedIteratorStream::new(records)), false);
    writer.write::<_, Stats>(&sizes, vals).ok().unwrap()
}

#[test]
fn header_is_read_back() {
    let file = written(false);
    let header = read_header(&file).ok().unwrap();
    assert_eq!(header.endianness, Endianness::Little);
    assert_eq!(header.version, 4);
    assert_eq!(header.total_summary_offset, 64 + 240);
    assert_eq!(header.full_data_offset, 64 + 240 + 40);
    assert_eq!(header.chromosome_tree_offset, 64 + 240 + 48 + 14 * 60);
    // Two entries with keys of four bytes.
    assert_eq!(header.full_index_offset, header.chromosome_tree_offset + 36 + 2 * 12);
    assert_eq!((header.field_count, header.defined_field_count, header.auto_sql_offset, header.reserved), (0, 0, 0, 0));
    assert_eq!(header.uncompress_buf_size, 0);
    let info = read_info(&file).ok().unwrap();
    assert_eq!(info.header, header);
    assert_eq!(info.zoom_headers.len(), header.zoom_levels as usize);
    // At 10 bases every record is a window; from 40 bases on the windows take less room.
    assert_eq!(info.zoom_headers.iter().map(|z| z.reduction_level).collect::<Vec<_>>(), vec![40, 160, 640, 2560, 10240, 40960, 163840, 655360, 2621440]);
    assert_eq!(
        info.chrom_info.iter().map(|c| (c.name.as_str(), c.id, c.length)).collect::<Vec<_>>(),
        vec![("chr1", 0, 1000), ("chr2", 1, 2000)]
    );
    let reader = BigWigRead::from_file_and_attach("t.bw".to_string(), &file).ok().unwrap();
    assert_eq!(reader.path, "t.bw");
    assert_eq!(
        reader.get_chroms().iter().map(|c| (c.name.as_str(), c.length)).collect::<Vec<_>>(),
        vec![("chr1", 1000), ("chr2", 2000)]
    );
    assert_eq!(reader.chrom_id(&"chr2".to_string()), Some(1));
    assert_eq!(reader.chrom_id(&"chr3".to_string()), None);
}

#[test]
fn intervals_are_read_back() {
    for compress in [false, true] {
        let file = written(compress);
        let reader = BigWigRead::from_file_and_attach("t.bw".to_string(), &file).ok().unwrap();
        assert_eq!(reader.info.header.uncompress_buf_size != 0, compress);
        let chr1 = "chr1".to_string();
        let chr2 = "chr2".to_string();
        // All records of the sections that touch the bases asked for.
        let read = reader.get_interval(&file, &chr1, 42, 61).ok().unwrap();
        assert_eq!(read, (3..9).map(|i| value(i * 10, i * 10 + 5, i as f32)).collect::<Vec<_>>());
        let all = reader.get_interval(&file, &chr1, 0, 1000).ok().unwrap();
        assert_eq!(all, (0..30).map(|i| value(i * 10, i * 10 + 5, i as f32)).collect::<Vec<_>>());
        let second = reader.get_interval(&file, &chr2, 0, 2000).ok().unwrap();
        assert_eq!(second, (0..12).map(|i| value(i * 10, i * 10 + 5, -(i as f32))).collect::<Vec<_>>());
        assert_eq!(reader.get_interval(&file, &chr2, 500, 600).ok().unwrap(), Vec::new());
        assert_eq!(
            reader.get_interval(&file, &"chrM".to_string(), 0, 10),
            Err(BigWigReadError::UnknownChromosome)
        );
        let blocks = reader.get_overlapping_blocks(&file, &chr1, 0, 0).ok().unwrap();
        assert_eq!(blocks.len(), 1);
        assert_eq!(blocks[0].offset, reader.info.header.full_data_offset + 8);
        if !compress {
            assert_eq!(blocks[0], Block { offset: 352, size: 60 });
        }
        assert_eq!(reader.read_block(&file, blocks[0]).ok().unwrap().len(), 3);
        assert_eq!(
            reader.read_block(&file, Block { offset: file.len() as u64 - 3, size: 4 }),
            Err(BigWigReadError::Truncated)
        );
    }
}

#[test]
fn files_that_cannot_be_read() {
    let file = written(false);
    assert_eq!(read_header(&vec![1, 2, 3]), Err(BigWigReadError::Truncated));
    assert_eq!(read_header(&vec![0; 64]), Err(BigWigReadError::NotBigWig));
    assert_eq!(read_header(&file[..63].to_vec()), Err(BigWigReadError::Truncated));
    assert!(matches!(read_info(&file[..100].to_vec()), Err(BigWigReadError::Truncated)));
    let header = read_header(&file).ok().unwrap();
    let mut no_tree = file.clone();
    no_tree[header.chromosome_tree_offset as usize] ^= 1;
    assert!(matches!(read_info(&no_tree), Err(BigWigReadError::BadChromTree)));
    let mut odd_values = file.clone();
    odd_values[header.chromosome_tree_offset as usize + 12] = 9;
    assert!(matches!(read_info(&odd_values), Err(BigWigReadError::BadChromTree)));
    let mut bad_name = file.clone();
    bad_name[header.chromosome_tree_offset as usize + 36] = 0xff;
    assert!(matches!(read_info(&bad_name), Err(BigWigReadError::BadName)));
    let q = Query { chrom: 0, start: 0, end: 10 };
    let mut no_index = file.clone();
    no_index[header.full_index_offset as usize] ^= 1;
    assert_eq!(search_cir_tree(&no_index, header.full_index_offset, q, Endianness::Little), Err(BigWigReadError::BadIndex));
    let mut odd_block = file.clone();
    odd_block[header.full_index_offset as usize + 48] = 2;
    assert_eq!(search_cir_tree(&odd_block, header.full_index_offset, q, Endianness::Little), Err(BigWigReadError::BadIndex));
    assert_eq!(search_cir_tree(&file, file.len() as u64 - 10, q, Endianness::Little), Err(BigWigReadError::Truncated));
    // A block that points at itself is followed no deeper than an index can be.
    let mut looped = file.clone();
    let root = header.full_index_offset + 48;
    looped.splice(
        root as usize + 4 + 16..root as usize + 4 + 24,
        root.to_le_bytes(),
    );
    assert_eq!(search_cir_tree(&looped, header.full_index_offset, q, Endianness::Little), Err(BigWigReadError::TooDeep));
}

#[test]
fn big_endian_header() {
    let mut file = vec![0u8; 64];
    file[..4].copy_from_slice(&0x888F_FC26u32.to_be_bytes());
    file[4..6].copy_from_slice(&4u16.to_be_bytes());
    file[6..8].copy_from_slice(&2u16.to_be_bytes());
    file[8..16].copy_from_slice(&0x0102_0304_0506_0708u64.to_be_bytes());
    file[52..56].copy_from_slice(&0x0a0b_0c0du32.to_be_bytes());
    let header = read_header(&file).ok().unwrap();
    assert_eq!(header.endianness, Endianness::Big);
    assert_eq!((header.version, header.zoom_levels), (4, 2));
    assert_eq!(header.chromosome_tree_offset, 0x0102_0304_0506_0708);
    assert_eq!(header.uncompress_buf_size, 0x0a0b_0c0d);
    // The two zoom headers that it counts are missing.
    assert!(matches!(read_info(&file), Err(BigWigReadError::Truncated)));
}

#[test]
fn positions_and_overlaps() {
    assert_eq!(compare_position(1, 50, 2, 0), -1);
    assert_eq!(compare_position(2, 0, 1, 50), 1);
    assert_eq!(compare_position(1, 5, 1, 6), -1);
    assert_eq!(compare_position(1, 6, 1, 5), 1);
    assert_eq!(compare_position(1, 5, 1, 5), 0);
    // A query of chromosome 1, bases 10 to 20.
    assert!(overlaps(1, 10, 20, 1, 15, 1, 30));
    assert!(overlaps(1, 10, 20, 1, 20, 1, 30));
    assert!(overlaps(1, 10, 20, 1, 0, 1, 10));
    assert!(!overlaps(1, 10, 20, 1, 21, 1, 30));
    assert!(!overlaps(1, 10, 20, 1, 0, 1, 9));
    assert!(overlaps(1, 10, 20, 0, 500, 2, 3));
    assert!(!overlaps(1, 10, 20, 2, 0, 2, 30));
    assert!(!overlaps(1, 10, 20, 0, 0, 0, 30));
}

#[test]
fn names_of_keys() {
    assert_eq!(name_of_key(&b"chr1\0\0\0".to_vec()), Some("chr1".to_string()));
    assert_eq!(name_of_key(&b"\0\0chr1\0".to_vec()), Some("chr1".to_string()));
    assert_eq!(name_of_key(&b"a\0b".to_vec()), Some("a\0b".to_string()));
    assert_eq!(name_of_key(&b"\0\0\0".to_vec()), Some(String::new()));
    assert_eq!(name_of_key(&Vec::new()), Some(String::new()));
    assert_eq!(name_of_key(&vec![b'c', 0xff, 0]), None);
    assert_eq!(name_of_key(&"chr\u{e9}\0".as_bytes().to_vec()), Some("chr\u{e9}".to_string()));
}

#[test]
fn zoom_records_are_read_back() {
    let stats = SingleBits { min_val: 1, max_val: 2, sum: 3, sum_squares: 4 };
    let records = vec![
        ZoomRecord { chrom: 1, start: 0, end: 10, total_items: 2, bases_covered: 9, stats },
        ZoomRecord { chrom: 1, start: 10, end: 15, total_items: 1, bases_covered: 5, stats },
    ];
    let stored = |z: &ZoomRecord| ZoomBlockRecord {
        chrom: z.chrom,
        start: z.start,
        end: z.end,
        valid_count: z.total_items as u32,
        min_val: 1,
        max_val: 2,
        sum: 3,
        sum_squares: 4,
    };
    for compress in [false, true] {
        let (section, inflated) = encode_zoom_section(compress, records.clone()).ok().unwrap();
        assert_eq!(inflated, if compress { 64 } else { 0 });
        let read = get_zoom_block_values(&section.data, inflated as u32, Endianness::Little).ok().unwrap();
        assert_eq!(read, records.iter().map(stored).collect::<Vec<_>>());
    }
    assert_eq!(decode_zoom_block(&Vec::new(), Endianness::Big), Ok(Vec::new()));
    assert_eq!(decode_zoom_block(&vec![0; 33], Endianness::Little), Err(BigWigReadError::Truncated));
    assert_eq!(
        get_zoom_block_values(&vec![1, 2, 3], 64, Endianness::Little),
        Err(BigWigReadError::BadCompression)
    );
    let mut big = Vec::new();
    for word in 1u32..=8 {
        big.extend_from_slice(&word.to_be_bytes());
    }
    assert_eq!(
        decode_zoom_block(&big, Endianness::Big),
        Ok(vec![ZoomBlockRecord {
            chrom: 1,
            start: 2,
            end: 3,
            valid_count: 4,
            min_val: 5,
            max_val: 6,
            sum: 7,
            sum_squares: 8,
        }])
    );
}

#[test]
fn first_zoom_record_is_read() {
    for compress in [false, true] {
        let file = written(compress);
        let reader = BigWigRead::from_file_and_attach("t.bw".to_string(), &file).ok().unwrap();
        // The finest level that is kept has windows of 40 bases.
        let first = reader.test_read_zoom(&file, &"chr1".to_string(), 0, 1000).ok().unwrap().unwrap();
        // Four records lie in the first window; a fifth starts where the window ends, and
        // is counted with none of its bases.
        assert_eq!((first.chrom, first.start, first.end, first.valid_count), (0, 0, 40, 5));
        assert_eq!(f32::from_bits(first.min_val), 0.0);
        assert_eq!(f32::from_bits(first.max_val), 4.0);
        assert_eq!(f32::from_bits(first.sum), 30.0);
        assert_eq!(f32::from_bits(first.sum_squares), 70.0);
        let second = reader.test_read_zoom(&file, &"chr2".to_string(), 0, 10).ok().unwrap().unwrap();
        assert_eq!((second.chrom, second.start, second.end), (1, 0, 40));
        assert_eq!(reader.test_read_zoom(&file, &"chr2".to_string(), 1000, 1001), Ok(None));
        assert_eq!(
            reader.test_read_zoom(&file, &"chr9".to_string(), 0, 10),
            Err(BigWigReadError::UnknownChromosome)
        );
    }
}

#[test]
fn chromosomes_are_the_same_by_name() {
    let a = ChromAndSize { name: "chr1".to_string(), length: 10 };
    let b = ChromAndSize { name: "chr1".to_string(), length: 20 };
    let c = ChromAndSize { name: "chr2".to_string(), length: 10 };
    assert!(a == b);
    assert!(a != c);
}
