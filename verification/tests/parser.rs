use bigtools::bbi::{BedParseError, Value};
use bigtools::bedchromdata::{BedFileStream, BedGraphStream, BedParserParallelStreamingIterator};
use bigtools::bedparser::{
    BedIteratorStream, BedParser, BedParserStreamingIterator, ChromDataState, StreamingBedValues,
};
use bigtools::lineparser::{parse_bed, parse_bedgraph, parse_u32, BedEntry};

/// The lines of a small bed file.
const SMALL_BED: [&str; 6] = [
    "chr17\t1\t100\ttest1\t0",
    "chr17\t101\t200\ttest2\t0",
    "chr17\t201\t300\ttest3\t0",
    "chr18\t1\t100\ttest4\t0",
    "chr18\t101\t200\ttest5\t0",
    "chr19\t1\t100\ttest6\t0",
];

/// The lines of a small bedGraph file.
const SMALL_BEDGRAPH: [&str; 6] = [
    "chr17\t1\t100\t0.5",
    "chr17\t101\t200\t0.5",
    "chr17\t201\t300\t0.5",
    "chr18\t1\t100\t0.5",
    "chr18\t101\t200\t0.5",
    "chr19\t1\t100\t0.5",
];

fn entry(start: u32, end: u32, rest: &str) -> (u32, u32, String) {
    (start, end, rest.to_string())
}

fn fields(e: &BedEntry) -> (u32, u32, String) {
    (e.start, e.end, e.rest.clone())
}

fn bedgraph_records(lines: &[&str]) -> Vec<Result<(String, Value), BedParseError>> {
    lines
        .iter()
        .map(|line| match parse_bedgraph(line.trim_end()).unwrap() {
            Ok((chrom, e)) => match e.value.parse::<f32>() {
                Ok(v) => Ok((chrom.to_string(), Value { start: e.start, end: e.end, value: v.to_bits() })),
                Err(_) => Err(BedParseError::InvalidInput(format!("Invalid value: {}", e.value))),
            },
            Err(e) => Err(e),
        })
        .collect()
}

fn value(start: u32, end: u32, v: f32) -> Value {
    Value { start, end, value: v.to_bits() }
}

#[test]
fn test_bed_works() {
    let lines: Vec<String> = SMALL_BED.iter().map(|l| format!("{}\n", l)).collect();
    let mut bgp = BedParser::from_bed_file(&lines);
    {
        let (chrom, mut group) = bgp.next_chrom().unwrap().unwrap();
        assert_eq!(chrom, "chr17");
        assert_eq!(entry(1, 100, "test1\t0"), fields(group.peek().unwrap().unwrap()));
        bgp.release(group);
    }
    {
        let (chrom, mut group) = bgp.next_chrom().unwrap().unwrap();
        assert_eq!(chrom, "chr17");
        assert_eq!(entry(1, 100, "test1\t0"), fields(group.peek().unwrap().unwrap()));
        bgp.release(group);
    }
    {
        let (chrom, mut group) = bgp.next_chrom().unwrap().unwrap();
        assert_eq!(chrom, "chr17");
        assert_eq!(entry(1, 100, "test1\t0"), fields(group.peek().unwrap().unwrap()));
        assert_eq!(chrom, "chr17");
        assert_eq!(entry(1, 100, "test1\t0"), fields(&group.next().unwrap().unwrap()));
        assert_eq!(entry(101, 200, "test2\t0"), fields(group.peek().unwrap().unwrap()));
        assert_eq!(entry(101, 200, "test2\t0"), fields(group.peek().unwrap().unwrap()));

        assert_eq!(entry(101, 200, "test2\t0"), fields(&group.next().unwrap().unwrap()));
        assert_eq!(entry(201, 300, "test3\t0"), fields(group.peek().unwrap().unwrap()));

        assert_eq!(entry(201, 300, "test3\t0"), fields(&group.next().unwrap().unwrap()));
        assert!(group.peek().is_none());

        assert!(group.next().is_none());
        assert!(group.peek().is_none());
        bgp.release(group);
    }
    {
        let (chrom, mut group) = bgp.next_chrom().unwrap().unwrap();
        assert_eq!(chrom, "chr18");
        assert_eq!(entry(1, 100, "test4\t0"), fields(&group.next().unwrap().unwrap()));
        assert_eq!(entry(101, 200, "test5\t0"), fields(group.peek().unwrap().unwrap()));
        assert_eq!(entry(101, 200, "test5\t0"), fields(group.peek().unwrap().unwrap()));

        assert_eq!(entry(101, 200, "test5\t0"), fields(&group.next().unwrap().unwrap()));
        assert!(group.peek().is_none());

        assert!(group.next().is_none());
        assert!(group.peek().is_none());
        bgp.release(group);
    }
    {
        let (chrom, mut group) = bgp.next_chrom().unwrap().unwrap();
        assert_eq!(chrom, "chr19");
        assert_eq!(entry(1, 100, "test6\t0"), fields(&group.next().unwrap().unwrap()));
        assert!(group.peek().is_none());

        assert!(group.next().is_none());
        assert!(group.peek().is_none());
        bgp.release(group);
    }
    assert!(matches!(bgp.next_chrom(), Ok(None)));
}

fn check_bedgraph_groups(mut bgp: BedParser<BedIteratorStream<Value>>) {
    {
        let (chrom, mut group) = bgp.next_chrom().unwrap().unwrap();
        assert_eq!(chrom, "chr17");
        assert_eq!(value(1, 100, 0.5), group.next().unwrap().unwrap());
        assert_eq!(&value(101, 200, 0.5), group.peek().unwrap().unwrap());
        assert_eq!(&value(101, 200, 0.5), group.peek().unwrap().unwrap());

        assert_eq!(value(101, 200, 0.5), group.next().unwrap().unwrap());
        assert_eq!(&value(201, 300, 0.5), group.peek().unwrap().unwrap());

        assert_eq!(value(201, 300, 0.5), group.next().unwrap().unwrap());
        assert!(group.peek().is_none());

        assert!(group.next().is_none());
        assert!(group.peek().is_none());
        bgp.release(group);
    }
    {
        let (chrom, mut group) = bgp.next_chrom().unwrap().unwrap();
        assert_eq!(chrom, "chr18");
        assert_eq!(value(1, 100, 0.5), group.next().unwrap().unwrap());
        assert_eq!(&value(101, 200, 0.5), group.peek().unwrap().unwrap());
        assert_eq!(&value(101, 200, 0.5), group.peek().unwrap().unwrap());

        assert_eq!(value(101, 200, 0.5), group.next().unwrap().unwrap());
        assert!(group.peek().is_none());

        assert!(group.next().is_none());
        assert!(group.peek().is_none());
        bgp.release(group);
    }
    {
        let (chrom, mut group) = bgp.next_chrom().unwrap().unwrap();
        assert_eq!(chrom, "chr19");
        assert_eq!(value(1, 100, 0.5), group.next().unwrap().unwrap());
        assert!(group.peek().is_none());

        assert!(group.next().is_none());
        assert!(group.peek().is_none());
        bgp.release(group);
    }
    assert!(matches!(bgp.next_chrom(), Ok(None)));
}

#[test]
fn test_bedgraph_works() {
    check_bedgraph_groups(BedParser::wrap_iter(bedgraph_records(&SMALL_BEDGRAPH)));
}

#[test]
fn test_works() {
    let records = SMALL_BEDGRAPH
        .iter()
        .map(|line| {
            let mut split = line.split_whitespace();
            let chrom = split.next().unwrap().to_string();
            let start = split.next().unwrap().parse::<u32>().unwrap();
            let end = split.next().unwrap().parse::<u32>().unwrap();
            let v = split.next().unwrap().parse::<f32>().unwrap();
            Ok((chrom, value(start, end, v)))
        })
        .collect();
    check_bedgraph_groups(BedParser::new(BedIteratorStream::new(records)));
}

#[test]
fn test_bed_streamingiterator_works() {
    // The places at which the chromosomes of a file of six chromosomes start.
    let chrom_indices: Vec<(u64, String)> =
        (1..=6u64).map(|i| (100 * (i - 1), format!("chr{}", i))).collect();
    let mut chsi = BedParserParallelStreamingIterator::new(chrom_indices, true, "multi_chrom.bedGraph".to_string());
    assert_eq!(chsi.path(), "multi_chrom.bedGraph");
    for i in 1..=6u64 {
        let (at, chrom) = chsi.next_start().unwrap();
        assert_eq!((at, chrom.as_str()), (100 * (i - 1), format!("chr{}", i).as_str()));
        assert!(chsi.start_chrom(&chrom).is_ok());
    }
    assert!(chsi.next_start().is_none());
    assert!(chsi.next_start().is_none());
}

#[test]
fn chromosomes_read_in_parallel_are_checked_for_order() {
    let indices = || vec![(0u64, "chr2".to_string()), (50, "chr1".to_string()), (90, "chr1".to_string())];
    let mut strict = BedParserParallelStreamingIterator::new(indices(), false, "f".to_string());
    let (_, first) = strict.next_start().unwrap();
    assert!(strict.start_chrom(&first).is_ok());
    let (_, second) = strict.next_start().unwrap();
    match strict.start_chrom(&second) {
        Err(BedParseError::InvalidInput(text)) => {
            assert_eq!(text, "Input bedGraph not sorted by chromosome. Sort with `sort -k1,1 -k2,2n`.")
        }
        _ => panic!("expected a rejection"),
    }
    // The same name again is no later name.
    let (_, third) = strict.next_start().unwrap();
    assert!(strict.start_chrom(&third).is_err());
    let mut lax = BedParserParallelStreamingIterator::new(indices(), true, "f".to_string());
    while let Some((_, chrom)) = lax.next_start() {
        assert!(lax.start_chrom(&chrom).is_ok());
    }
}

#[test]
fn stream_hands_out_its_records_in_order() {
    let mut stream = BedIteratorStream::new(bedgraph_records(&SMALL_BEDGRAPH[..2]));
    assert_eq!(stream.next().unwrap().ok().unwrap(), ("chr17".to_string(), value(1, 100, 0.5)));
    assert_eq!(stream.next().unwrap().ok().unwrap(), ("chr17".to_string(), value(101, 200, 0.5)));
    assert!(stream.next().is_none());
    assert!(stream.next().is_none());
}

#[test]
fn group_stops_at_the_next_chromosome_and_at_errors() {
    let records = vec![
        Ok(("a".to_string(), value(0, 1, 1.0))),
        Err(BedParseError::IoError("lost".to_string())),
        Ok(("a".to_string(), value(1, 2, 1.0))),
        Ok(("b".to_string(), value(0, 1, 1.0))),
        Err(BedParseError::InvalidInput("Missing start: x".to_string())),
        Ok(("c".to_string(), value(0, 1, 1.0))),
    ];
    let mut parser = BedParser::new(BedIteratorStream::new(records));
    let (chrom, mut group) = parser.next_chrom().ok().unwrap().unwrap();
    assert_eq!(chrom, "a");
    assert_eq!(group.next().unwrap().ok().unwrap(), value(0, 1, 1.0));
    // An error is seen without being taken, then taken.
    assert!(matches!(group.peek(), Some(Err(BedParseError::IoError(_)))));
    assert!(matches!(group.peek(), Some(Err(BedParseError::IoError(_)))));
    match group.next() {
        Some(Err(BedParseError::IoError(text))) => assert_eq!(text, "lost"),
        _ => panic!("expected the error"),
    }
    // The records go on after it.
    let (values, failure) = group.collect();
    assert_eq!(values, vec![value(1, 2, 1.0)]);
    assert!(failure.is_none());
    assert!(group.next().is_none());
    parser.release(group);
    let (chrom, mut group) = parser.next_chrom().ok().unwrap().unwrap();
    assert_eq!(chrom, "b");
    let (values, failure) = group.collect();
    assert_eq!(values, vec![value(0, 1, 1.0)]);
    assert!(matches!(failure, Some(BedParseError::InvalidInput(_))));
    parser.release(group);
    let (chrom, group) = parser.next_chrom().ok().unwrap().unwrap();
    assert_eq!(chrom, "c");
    parser.release(group);
    // Where a chromosome should start, an error is given and passed over.
    let mut parser = BedParser::new(BedIteratorStream::<Value>::new(vec![
        Err(BedParseError::IoError("gone".to_string())),
        Ok(("d".to_string(), value(0, 1, 1.0))),
    ]));
    assert!(matches!(parser.next_chrom(), Err(BedParseError::IoError(_))));
    let (chrom, group) = parser.next_chrom().ok().unwrap().unwrap();
    assert_eq!(chrom, "d");
    parser.release(group);
}

#[test]
fn chromosomes_in_turn() {
    let records = || bedgraph_records(&["chr2\t0\t5\t1", "chr2\t5\t9\t2", "chr10\t1\t2\t3", "chr10\t2\t3\t4"]);
    let mut strict = BedParserStreamingIterator::new(BedParser::new(BedIteratorStream::new(records())), false);
    match strict.advance() {
        ChromDataState::NewChrom(group) => {
            assert_eq!(group.chrom, "chr2");
            assert_eq!(group.values, vec![value(0, 5, 1.0), value(5, 9, 2.0)]);
            assert!(group.failure.is_none());
        }
        _ => panic!("expected a chromosome"),
    }
    // "chr10" comes before "chr2" in the order of names.
    for _ in 0..2 {
        match strict.advance() {
            ChromDataState::Error(BedParseError::InvalidInput(text)) => {
                assert_eq!(text, "Input bedGraph not sorted by chromosome. Sort with `sort -k1,1 -k2,2n`.")
            }
            _ => panic!("expected a rejection"),
        }
    }
    let mut lax = BedParserStreamingIterator::new(BedParser::new(BedIteratorStream::new(records())), true);
    assert!(matches!(lax.advance(), ChromDataState::NewChrom(_)));
    match lax.advance() {
        ChromDataState::NewChrom(group) => {
            assert_eq!(group.chrom, "chr10");
            assert_eq!(group.values, vec![value(1, 2, 3.0), value(2, 3, 4.0)]);
        }
        _ => panic!("expected a chromosome"),
    }
    assert!(matches!(lax.advance(), ChromDataState::Finished));
    assert!(matches!(lax.advance(), ChromDataState::Finished));
}

fn rejection<T>(r: Option<Result<T, BedParseError>>) -> String {
    match r {
        Some(Err(BedParseError::InvalidInput(text))) => text,
        _ => panic!("expected a rejection"),
    }
}

#[test]
fn bed_lines() {
    let (chrom, e) = parse_bed("chr1\t5\t10\tname\t0\t+").unwrap().ok().unwrap();
    assert_eq!((chrom, fields(&e)), ("chr1", entry(5, 10, "name\t0\t+")));
    let (chrom, e) = parse_bed("chr1\t5\t10").unwrap().ok().unwrap();
    assert_eq!((chrom, fields(&e)), ("chr1", entry(5, 10, "")));
    let (chrom, e) = parse_bed("\t+5\t0010\t").unwrap().ok().unwrap();
    assert_eq!((chrom, fields(&e)), ("", entry(5, 10, "")));
    let (chrom, e) = parse_bed("chr\u{e9}\t0\t4294967295\t\u{2603}").unwrap().ok().unwrap();
    assert_eq!((chrom, fields(&e)), ("chr\u{e9}", entry(0, 4294967295, "\u{2603}")));
    assert_eq!(rejection(parse_bed("")), "Missing start: ");
    assert_eq!(rejection(parse_bed("chr1 5 10")), "Missing start: chr1 5 10");
    assert_eq!(rejection(parse_bed("chr1\tfive\t10")), "Invalid start: five");
    assert_eq!(rejection(parse_bed("chr1\t\t10")), "Invalid start: ");
    assert_eq!(rejection(parse_bed("chr1\t5")), "Missing end: 5");
    assert_eq!(rejection(parse_bed("chr1\t5\t-10")), "Invalid end: -10");
    assert_eq!(rejection(parse_bed("chr1\t5\t4294967296")), "Invalid end: 4294967296");
    assert_eq!(rejection(parse_bed("chr1\t5\t10 \tx")), "Invalid end: 10 ");
}

#[test]
fn bedgraph_lines() {
    let (chrom, e) = parse_bedgraph("chr1\t5\t10\t0.25").unwrap().ok().unwrap();
    assert_eq!((chrom, e.start, e.end, e.value), ("chr1", 5, 10, "0.25"));
    // What follows the value is ignored.
    let (chrom, e) = parse_bedgraph("chr1\t5\t10\t-1e3\tmore\tstill").unwrap().ok().unwrap();
    assert_eq!((chrom, e.start, e.end, e.value), ("chr1", 5, 10, "-1e3"));
    let (_, e) = parse_bedgraph("chr1\t5\t10\t").unwrap().ok().unwrap();
    assert_eq!(e.value, "");
    assert_eq!(rejection(parse_bedgraph("chr1")), "Missing start: chr1");
    assert_eq!(rejection(parse_bedgraph("chr1\tx")), "Invalid start: x");
    assert_eq!(rejection(parse_bedgraph("chr1\t5")), "Missing end: 5");
    assert_eq!(rejection(parse_bedgraph("chr1\t5\ty\t1")), "Invalid end: y");
    assert_eq!(rejection(parse_bedgraph("chr1\t5\t10")), "Missing value: 10");
    assert_eq!(
        rejection(bedgraph_records(&["chr1\t5\t10\tmuch"]).pop()),
        "Invalid value: much"
    );
}

#[test]
fn numbers_of_32_bits() {
    assert_eq!(parse_u32("0"), Some(0));
    assert_eq!(parse_u32("007"), Some(7));
    assert_eq!(parse_u32("+12"), Some(12));
    assert_eq!(parse_u32("4294967295"), Some(4294967295));
    assert_eq!(parse_u32("00000000004294967295"), Some(4294967295));
    assert_eq!(parse_u32("4294967296"), None);
    assert_eq!(parse_u32("42949672950"), None);
    assert_eq!(parse_u32(""), None);
    assert_eq!(parse_u32("+"), None);
    assert_eq!(parse_u32("++1"), None);
    assert_eq!(parse_u32("-1"), None);
    assert_eq!(parse_u32("1 "), None);
    assert_eq!(parse_u32("1.0"), None);
    assert_eq!(parse_u32("\u{663}"), None);
    for text in ["0", "+0", "12", "99999999999", "x", "", "+", "4294967295", "4294967296"] {
        assert_eq!(parse_u32(text), text.parse::<u32>().ok());
    }
}

#[test]
fn lines_lose_their_trailing_whitespace() {
    let lines = vec!["chr1\t5\t10\tname \t \r\n".to_string(), "chr1\t5\n".to_string()];
    let mut stream = BedFileStream::new(&lines);
    let (chrom, e) = stream.next().unwrap().ok().unwrap();
    assert_eq!((chrom.as_str(), fields(&e)), ("chr1", entry(5, 10, "name")));
    assert_eq!(rejection(stream.next()), "Missing end: 5");
    assert!(stream.next().is_none());
}

#[test]
fn white_space_of_every_kind_is_trimmed() {
    let white: Vec<u32> = vec![
        0x09, 0x0a, 0x0b, 0x0c, 0x0d, 0x20, 0x85, 0xa0, 0x1680, 0x2000, 0x2001, 0x2002, 0x2003, 0x2004, 0x2005,
        0x2006, 0x2007, 0x2008, 0x2009, 0x200a, 0x2028, 0x2029, 0x202f, 0x205f, 0x3000,
    ];
    for code in (0..0x3100u32).chain([0xfeff, 0x1d173, 0xe0020]) {
        let Some(c) = char::from_u32(code) else {
            continue;
        };
        let lines = vec![format!("chr1\t5\t10\tname{}{}", c, c)];
        let mut stream = BedFileStream::new(&lines);
        let (_, e) = stream.next().unwrap().ok().unwrap();
        let kept = if white.contains(&code) { "name".to_string() } else { format!("name{}{}", c, c) };
        assert_eq!(fields(&e), entry(5, 10, &kept), "U+{:04X}", code);
    }
    let lines = vec!["chr1\t5\t10\ta \u{3000}b\u{a0}\u{2003} \u{3000}\n".to_string()];
    let mut stream = BedFileStream::new(&lines);
    let (_, e) = stream.next().unwrap().ok().unwrap();
    assert_eq!(fields(&e), entry(5, 10, "a \u{3000}b"));
    let lines = vec!["chr1\t5\t10\t0.5\u{2028}\u{85}".to_string()];
    let mut stream = BedGraphStream::new(&lines);
    let (_, line) = stream.next().unwrap().ok().unwrap();
    assert_eq!(line.value.as_str(), "0.5");
}

#[test]
fn bedgraph_lines_in_turn() {
    let lines: Vec<String> = vec!["chr1\t5\t10\t0.5\tmore\n".to_string(), "chr1\t5\t10\n".to_string(), "chr2\t1\t2\t-3\r\n".to_string()];
    let mut stream = BedGraphStream::new(&lines);
    let (chrom, line) = stream.next().unwrap().ok().unwrap();
    assert_eq!((chrom.as_str(), line.start, line.end, line.value.as_str()), ("chr1", 5, 10, "0.5"));
    assert_eq!(rejection(stream.next()), "Missing value: 10");
    let (chrom, line) = stream.next().unwrap().ok().unwrap();
    assert_eq!((chrom.as_str(), line.start, line.end, line.value.as_str()), ("chr2", 1, 2, "-3"));
    assert!(stream.next().is_none());
}

#[test]
fn bedgraph_file_in_chromosomes() {
    let lines: Vec<String> = SMALL_BEDGRAPH.iter().map(|l| format!("{}\n", l)).collect();
    let mut parser = BedParser::from_bedgraph_file(&lines);
    let mut seen = Vec::new();
    while let Some((chrom, mut group)) = parser.next_chrom().ok().unwrap() {
        let (lines, failure) = group.collect();
        assert!(failure.is_none());
        assert!(lines.iter().all(|l| l.value == "0.5"));
        seen.push((chrom, lines.iter().map(|l| (l.start, l.end)).collect::<Vec<_>>()));
        parser.release(group);
    }
    assert_eq!(
        seen,
        vec![
            ("chr17".to_string(), vec![(1, 100), (101, 200), (201, 300)]),
            ("chr18".to_string(), vec![(1, 100), (101, 200)]),
            ("chr19".to_string(), vec![(1, 100)]),
        ]
    );
}
