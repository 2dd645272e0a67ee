use bigtools::bbi::{Section, Value};
use bigtools::bigwigread::{decode_block, BigWigReadError, Endianness};
use bigtools::chromtree::{bytes_lt, sort_by_name, str_lt, write_chrom_tree};
use bigtools::cirtree::write_rtreeindex;
use bigtools::bbi::{BigWigWriteOptions, ChromInfo};
use bigtools::encode::{copy_range, encode_section};
use bigtools::rtree::{aggregate_nodes, get_rtreeindex, group_nodes, RTreeNode, RTreeNodeType};
use bigtools::layout::append_sections;
use bigtools::bbi::SectionData;
use bigtools::tempfilebuffer::TempFileBuffer;
use bigtools::text::push_decimal;

#[test]
fn plain_section_layout() {
    let items = vec![
        Value { start: 1, end: 100, value: 0.5f32.to_bits() },
        Value { start: 101, end: 200, value: 0.5f32.to_bits() },
    ];
    let (section, inflated) = encode_section(false, items, 7).ok().unwrap();
    assert_eq!(inflated, 0);
    assert_eq!(section.chrom, 7);
    assert_eq!(section.start, 1);
    assert_eq!(section.end, 200);
    let mut expected: Vec<u8> = Vec::new();
    expected.extend_from_slice(&7u32.to_le_bytes());
    expected.extend_from_slice(&1u32.to_le_bytes());
    expected.extend_from_slice(&200u32.to_le_bytes());
    expected.extend_from_slice(&0u32.to_le_bytes());
    expected.extend_from_slice(&0u32.to_le_bytes());
    expected.push(1);
    expected.push(0);
    expected.extend_from_slice(&2u16.to_le_bytes());
    for (start, end) in [(1u32, 100u32), (101, 200)] {
        expected.extend_from_slice(&start.to_le_bytes());
        expected.extend_from_slice(&end.to_le_bytes());
        expected.extend_from_slice(&0.5f32.to_le_bytes());
    }
    assert_eq!(section.data, expected);
}

#[test]
fn fields_are_little_endian() {
    let items = vec![Value { start: 0x0102_0304, end: 0x0506_0708, value: 0x090a_0b0c }];
    let (section, _) = encode_section(false, items, 0x0d0e_0f10).ok().unwrap();
    assert_eq!(&section.data[0..4], &[0x10, 0x0f, 0x0e, 0x0d]);
    assert_eq!(&section.data[22..24], &[1, 0]);
    assert_eq!(&section.data[24..36], &[4, 3, 2, 1, 8, 7, 6, 5, 0x0c, 0x0b, 0x0a, 9]);
}

fn block(kind: u8, count: u16, chrom_start: u32, step: u32, span: u32, items: &[u32], big: bool) -> Vec<u8> {
    let word = |x: u32| if big { x.to_be_bytes() } else { x.to_le_bytes() };
    let mut data = Vec::new();
    for x in [3, chrom_start, 0, step, span] {
        data.extend_from_slice(&word(x));
    }
    data.push(kind);
    data.push(0);
    data.extend_from_slice(&if big { count.to_be_bytes() } else { count.to_le_bytes() });
    for x in items {
        data.extend_from_slice(&word(*x));
    }
    data
}

#[test]
fn sections_of_every_type() {
    let v = |start, end, value| Value { start, end, value };
    for big in [false, true] {
        let order = if big { Endianness::Big } else { Endianness::Little };
        let bedgraph = block(1, 2, 0, 0, 0, &[5, 9, 70, 9, 12, 71], big);
        assert_eq!(decode_block(&bedgraph, order), Ok(vec![v(5, 9, 70), v(9, 12, 71)]));
        let variable = block(2, 2, 0, 0, 4, &[5, 70, 20, 71], big);
        assert_eq!(decode_block(&variable, order), Ok(vec![v(5, 9, 70), v(20, 24, 71)]));
        let fixed = block(3, 3, 100, 10, 2, &[70, 71, 72], big);
        assert_eq!(decode_block(&fixed, order), Ok(vec![v(100, 102, 70), v(110, 112, 71), v(120, 122, 72)]));
    }
}

#[test]
fn sections_that_cannot_be_read() {
    let little = Endianness::Little;
    assert_eq!(decode_block(&vec![0; 23], little), Err(BigWigReadError::Truncated));
    assert_eq!(decode_block(&block(1, 2, 0, 0, 0, &[5, 9, 70, 9, 12], false), little), Err(BigWigReadError::Truncated));
    assert_eq!(decode_block(&block(7, 1, 0, 0, 0, &[5, 9, 70], false), little), Err(BigWigReadError::UnknownSectionType(7)));
    // A section without records is read whatever its type.
    assert_eq!(decode_block(&block(7, 0, 0, 0, 0, &[], false), little), Ok(Vec::new()));
    assert_eq!(
        decode_block(&block(2, 1, 0, 0, 2, &[u32::MAX - 1, 70], false), little),
        Err(BigWigReadError::Overflow)
    );
    assert_eq!(
        decode_block(&block(3, 2, u32::MAX - 10, 8, 3, &[70, 71], false), little),
        Err(BigWigReadError::Overflow)
    );
    assert_eq!(
        decode_block(&block(3, 2, u32::MAX - 10, 7, 3, &[70, 71], false), little),
        Ok(vec![
            Value { start: u32::MAX - 10, end: u32::MAX - 7, value: 70 },
            Value { start: u32::MAX - 3, end: u32::MAX, value: 71 },
        ])
    );
}

fn leaf(chrom: u32, start: u32, end: u32) -> RTreeNode {
    RTreeNode {
        start_chrom_idx: chrom,
        start_base: start,
        end_chrom_idx: chrom,
        end_base: end,
        kind: RTreeNodeType::Leaf { offset: 0, size: 0 },
    }
}

fn span(n: &RTreeNode) -> (u32, u32, u32, u32) {
    (n.start_chrom_idx, n.start_base, n.end_chrom_idx, n.end_base)
}

#[test]
fn parent_spans_its_children() {
    assert_eq!(span(&aggregate_nodes(&Vec::new())), (0, 0, 0, 0));
    let one = aggregate_nodes(&vec![leaf(2, 5, 9)]);
    assert_eq!((span(&one), one.kind), ((2, 5, 2, 9), RTreeNodeType::NonLeaf));
    // All on one chromosome: the least start and the greatest end.
    assert_eq!(span(&aggregate_nodes(&vec![leaf(1, 10, 20), leaf(1, 5, 30), leaf(1, 25, 28)])), (1, 5, 1, 30));
    // Over chromosomes: the end is that of the nodes on the last chromosome.
    assert_eq!(span(&aggregate_nodes(&vec![leaf(1, 10, 900), leaf(2, 50, 60), leaf(2, 70, 80)])), (1, 10, 2, 80));
    assert_eq!(span(&aggregate_nodes(&vec![leaf(3, 10, 40), leaf(2, 50, 600)])), (2, 10, 3, 40));
}

#[test]
fn index_levels() {
    let sections = |n: u32| -> Vec<Section> {
        (0..n).map(|i| Section { offset: 1000 + 10 * i as u64, size: 10, chrom: 0, start: i, end: i + 1 }).collect()
    };
    let options = |block_size| BigWigWriteOptions { block_size, ..BigWigWriteOptions::default() };
    let lens = |n, block_size| -> Vec<usize> {
        get_rtreeindex(&sections(n), options(block_size)).levels.iter().map(|l| l.len()).collect()
    };
    assert_eq!(lens(0, 4), vec![0]);
    assert_eq!(lens(3, 4), vec![3]);
    // A level that fills one block is the root.
    assert_eq!(lens(4, 4), vec![4]);
    assert_eq!(lens(5, 4), vec![5, 2]);
    assert_eq!(lens(16, 4), vec![16, 4]);
    assert_eq!(lens(17, 4), vec![17, 5, 2]);
    assert_eq!(lens(9, 2), vec![9, 5, 3, 2]);
    let index = get_rtreeindex(&sections(5), options(4));
    assert_eq!(index.levels[0][4], RTreeNode {
        start_chrom_idx: 0,
        start_base: 4,
        end_chrom_idx: 0,
        end_base: 5,
        kind: RTreeNodeType::Leaf { offset: 1040, size: 10 },
    });
    assert_eq!(index.levels[1].iter().map(span).collect::<Vec<_>>(), vec![(0, 0, 0, 4), (0, 4, 0, 5)]);
    assert_eq!(group_nodes(&index.levels[0], 2).iter().map(span).collect::<Vec<_>>(), vec![(0, 0, 0, 2), (0, 2, 0, 4), (0, 4, 0, 5)]);
}

#[test]
fn index_bytes() {
    let sections: Vec<Section> =
        (0..3).map(|i| Section { offset: 500 + 7 * i as u64, size: 7, chrom: 1, start: 10 * i, end: 10 * i + 4 }).collect();
    let options = BigWigWriteOptions { block_size: 2, items_per_slot: 9, ..BigWigWriteOptions::default() };
    let index = get_rtreeindex(&sections, options);
    let mut file = vec![0xAAu8; 100];
    write_rtreeindex(&mut file, &index, 3, options);
    let mut expected = vec![0xAAu8; 100];
    let u32s = |out: &mut Vec<u8>, words: &[u32]| words.iter().for_each(|w| out.extend_from_slice(&w.to_le_bytes()));
    let u64s = |out: &mut Vec<u8>, words: &[u64]| words.iter().for_each(|w| out.extend_from_slice(&w.to_le_bytes()));
    u32s(&mut expected, &[0x2468_ACE0, 2]);
    u64s(&mut expected, &[3]);
    u32s(&mut expected, &[1, 0, 1, 24]);
    u64s(&mut expected, &[100]);
    u32s(&mut expected, &[9, 0]);
    // The root: two nodes. Their blocks start after it, a full block of leaves apart.
    let leaves_at = 100 + 48 + 4 + 2 * 24;
    expected.extend_from_slice(&[0, 0, 2, 0]);
    u32s(&mut expected, &[1, 0, 1, 14]);
    u64s(&mut expected, &[leaves_at]);
    u32s(&mut expected, &[1, 20, 1, 24]);
    u64s(&mut expected, &[leaves_at + 4 + 2 * 32]);
    expected.extend_from_slice(&[1, 0, 2, 0]);
    u32s(&mut expected, &[1, 0, 1, 4]);
    u64s(&mut expected, &[500, 7]);
    u32s(&mut expected, &[1, 10, 1, 14]);
    u64s(&mut expected, &[507, 7]);
    expected.extend_from_slice(&[1, 0, 1, 0]);
    u32s(&mut expected, &[1, 20, 1, 24]);
    u64s(&mut expected, &[514, 7]);
    assert_eq!(file, expected);
}

#[test]
fn names_in_order() {
    assert!(bytes_lt(b"chr1", b"chr2"));
    assert!(bytes_lt(b"chr1", b"chr10"));
    assert!(bytes_lt(b"chr10", b"chr2"));
    assert!(bytes_lt(b"", b"a"));
    assert!(!bytes_lt(b"a", b"a"));
    assert!(!bytes_lt(b"b", b"a"));
    assert!(!bytes_lt(b"a", b""));
    assert!(str_lt("chrX", "chrY"));
    assert!(!str_lt("chrY", "chrX"));
    let chrom = |name: &str, id| ChromInfo { name: name.to_string(), id, length: 100 + id };
    let chroms = vec![chrom("chr2", 0), chrom("chr10", 1), chrom("chr1", 2), chrom("chr10", 3)];
    // The order of the names; those of the same name in the order given.
    assert_eq!(sort_by_name(&chroms), vec![2, 1, 3, 0]);
    assert_eq!(sort_by_name(&Vec::new()), Vec::<usize>::new());
    let mut file = Vec::new();
    write_chrom_tree(&mut file, &vec![chrom("b", 0), chrom("a", 1)]);
    let mut expected = Vec::new();
    for w in [0x78CA_8C91u32, 256, 1, 8] {
        expected.extend_from_slice(&w.to_le_bytes());
    }
    expected.extend_from_slice(&2u64.to_le_bytes());
    expected.extend_from_slice(&0u64.to_le_bytes());
    expected.extend_from_slice(&[1, 0, 2, 0]);
    expected.push(b'a');
    expected.extend_from_slice(&1u32.to_le_bytes());
    expected.extend_from_slice(&101u32.to_le_bytes());
    expected.push(b'b');
    expected.extend_from_slice(&0u32.to_le_bytes());
    expected.extend_from_slice(&100u32.to_le_bytes());
    assert_eq!(file, expected);
}

#[test]
fn numbers_in_decimal() {
    for x in [0u32, 7, 10, 99, 100, 1500, 4294967295] {
        let mut text = "n=".to_string();
        push_decimal(&mut text, x);
        assert_eq!(text, format!("n={}", x));
    }
}

#[test]
fn ranges_are_copied() {
    let items = vec![1u8, 2, 3, 4, 5];
    assert_eq!(copy_range(&items, 1, 4), vec![2, 3, 4]);
    assert_eq!(copy_range(&items, 2, 2), Vec::<u8>::new());
    assert_eq!(copy_range(&items, 0, 5), items);
}

#[test]
fn buffer_keeps_the_order_of_its_bytes() {
    let mut buffer = TempFileBuffer::new();
    assert_eq!(buffer.len(), 0);
    buffer.write(&vec![1, 2, 3]);
    buffer.write(&Vec::new());
    buffer.write(&vec![4]);
    assert_eq!(buffer.len(), 4);
    // What was written before the switch lies behind what the output held, and before
    // what is written after it.
    buffer.switch(vec![9, 8]);
    assert_eq!(buffer.len(), 4);
    buffer.write(&vec![5, 6]);
    assert_eq!(buffer.len(), 6);
    assert_eq!(buffer.await_file(), vec![9, 8, 1, 2, 3, 4, 5, 6]);
    let mut detached = TempFileBuffer::new();
    detached.write(&vec![7, 7]);
    assert_eq!(detached.await_raw(), vec![7, 7]);
    let mut empty = TempFileBuffer::new();
    empty.switch(vec![1]);
    assert_eq!(empty.await_file(), vec![1]);
}

#[test]
fn sections_are_noted_with_their_places() {
    let section = |chrom, start, end, data: &[u8]| SectionData { chrom, start, end, data: data.to_vec() };
    let sections = vec![section(0, 1, 5, &[1, 2, 3]), section(0, 5, 9, &[]), section(1, 0, 2, &[4, 5])];
    let mut file = vec![0xEE; 10];
    let entries = append_sections(&mut file, &sections);
    assert_eq!(file, vec![0xEE, 0xEE, 0xEE, 0xEE, 0xEE, 0xEE, 0xEE, 0xEE, 0xEE, 0xEE, 1, 2, 3, 4, 5]);
    assert_eq!(
        entries,
        vec![
            Section { offset: 10, size: 3, chrom: 0, start: 1, end: 5 },
            Section { offset: 13, size: 0, chrom: 0, start: 5, end: 9 },
            Section { offset: 13, size: 2, chrom: 1, start: 0, end: 2 },
        ]
    );
    assert!(append_sections(&mut file, &Vec::new()).is_empty());
    assert_eq!(file.len(), 15);
}
