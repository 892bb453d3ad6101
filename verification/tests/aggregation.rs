use record_stats::decimal::parse_value;
use record_stats::record::{classify, only_padding, parse_chunk, Line};
use record_stats::reduce::{aggregate_chunks, aggregate_reads, aggregate_region, append_shifted, Reducer};
use record_stats::region::{split_chunks, Span};
use record_stats::stats::Stats;
use record_stats::table::Table;

fn as_float(units: i128) -> f64 {
    units as f64 / record_stats::decimal::UNITS_PER_ONE as f64
}

fn sorted(table: &Table) -> Vec<(Vec<u8>, Stats)> {
    let mut all: Vec<(Vec<u8>, Stats)> =
        table.entries().into_iter().map(|e| (e.key, e.stats)).collect();
    all.sort_by(|a, b| a.0.cmp(&b.0));
    all
}

fn one(value: i64) -> Stats {
    Stats { min: value, max: value, sum: value as i128, count: 1 }
}

#[test]
fn parse_value_exact_thousandths() {
    assert_eq!(parse_value(b"1.5"), Some(1500));
    assert_eq!(parse_value(b"-0.25"), Some(-250));
    assert_eq!(parse_value(b"+3"), Some(3000));
    assert_eq!(parse_value(b"5."), Some(5000));
    assert_eq!(parse_value(b"0"), Some(0));
    assert_eq!(parse_value(b"-0"), Some(0));
    assert_eq!(parse_value(b"123.0"), Some(123000));
    assert_eq!(parse_value(b"007.010"), Some(7010));
}

#[test]
fn parse_value_drops_digits_past_the_third() {
    assert_eq!(parse_value(b"1.23456"), Some(1234));
    assert_eq!(parse_value(b"-1.9999"), Some(-1999));
}

#[test]
fn parse_value_rejects_what_is_no_number() {
    assert_eq!(parse_value(b""), None);
    assert_eq!(parse_value(b"-"), None);
    assert_eq!(parse_value(b".5"), None);
    assert_eq!(parse_value(b"xx"), None);
    assert_eq!(parse_value(b"1e5"), None);
    assert_eq!(parse_value(b"1.2.3"), None);
    assert_eq!(parse_value(b"1.2x"), None);
    assert_eq!(parse_value(b"1.2345x"), None);
    assert_eq!(parse_value(b"--1"), None);
    assert_eq!(parse_value(b" 1"), None);
}

#[test]
fn parse_value_limits() {
    assert_eq!(parse_value(b"9223372036854775.807"), Some(i64::MAX));
    assert_eq!(parse_value(b"-9223372036854775.807"), Some(-i64::MAX));
    assert_eq!(parse_value(b"9223372036854775.808"), None);
    assert_eq!(parse_value(b"99999999999999999999"), None);
}

#[test]
fn classify_lines() {
    assert_eq!(classify(b"A;1.0"), Line::Record { key_len: 1, value: 1000 });
    assert_eq!(classify(b"city name;-12.3"), Line::Record { key_len: 9, value: -12300 });
    assert_eq!(classify(b";2"), Line::Record { key_len: 0, value: 2000 });
    assert_eq!(classify(b"A;xx"), Line::Malformed);
    assert_eq!(classify(b"A"), Line::Malformed);
    assert_eq!(classify(b"A;"), Line::Malformed);
    assert_eq!(classify(b"A;1;2"), Line::Malformed);
    assert_eq!(classify(b""), Line::Padding);
    assert_eq!(classify(&[0, 0, 0]), Line::Padding);
    assert!(only_padding(&[0, 0]));
    assert!(!only_padding(&[0, b'A']));
}

#[test]
fn stats_fold_exact() {
    let s = Stats::new().record(1500).record(-250).record(4000);
    assert_eq!(s, Stats { min: -250, max: 4000, sum: 5250, count: 3 });
    assert_eq!(Stats::new(), Stats { min: i64::MAX, max: i64::MIN, sum: 0, count: 0 });
}

#[test]
fn fold_of_groups_equals_fold_of_all() {
    let values: Vec<i64> = vec![1500, -250, 4000, 0, 77, -9000, 12, 4000];
    let mut all = Stats::new();
    for v in &values {
        all = all.record(*v);
    }
    for cut1 in 0..values.len() + 1 {
        for cut2 in cut1..values.len() + 1 {
            let mut a = Stats::new();
            let mut b = Stats::new();
            let mut c = Stats::new();
            for v in &values[..cut1] {
                a = a.record(*v);
            }
            for v in &values[cut1..cut2] {
                b = b.record(*v);
            }
            for v in &values[cut2..] {
                c = c.record(*v);
            }
            assert_eq!(a.merge(b).merge(c), all);
            assert_eq!(a.merge(b.merge(c)), all);
            assert_eq!(c.merge(a).merge(b), all);
        }
    }
}

#[test]
fn table_record_and_get() {
    let mut table = Table::new();
    assert_eq!(table.get(b"A"), None);
    assert_eq!(table.entries().len(), 0);
    table.record(b"A", 10);
    table.record(b"B", 20);
    table.record(b"A", 30);
    assert_eq!(table.get(b"A"), Some(Stats { min: 10, max: 30, sum: 40, count: 2 }));
    assert_eq!(table.get(b"B"), Some(one(20)));
    assert_eq!(table.get(b"C"), None);
    assert_eq!(table.values(), 3);
    assert_eq!(sorted(&table), vec![
        (b"A".to_vec(), Stats { min: 10, max: 30, sum: 40, count: 2 }),
        (b"B".to_vec(), one(20)),
    ]);
}

#[test]
fn table_merge_from_folds_per_key() {
    let mut left = Table::new();
    left.record(b"A", 10);
    left.record(b"B", 20);
    let mut right = Table::new();
    right.record(b"B", -5);
    right.record(b"C", 7);
    left.merge_from(&right);
    assert_eq!(sorted(&left), vec![
        (b"A".to_vec(), one(10)),
        (b"B".to_vec(), Stats { min: -5, max: 20, sum: 15, count: 2 }),
        (b"C".to_vec(), one(7)),
    ]);
    assert_eq!(left.values(), 4);
    assert_eq!(sorted(&right), vec![(b"B".to_vec(), one(-5)), (b"C".to_vec(), one(7))]);
}

#[test]
fn merge_order_does_not_matter() {
    let a = parse_chunk(b"A;1\nB;2\n").table;
    let b = parse_chunk(b"B;3\nC;4\n").table;
    let c = parse_chunk(b"A;-1\nC;9\n").table;
    let mut first = Reducer::new();
    assert!(first.absorb(&a));
    assert!(first.absorb(&b));
    assert!(first.absorb(&c));
    let mut second = Reducer::new();
    assert!(second.absorb(&c));
    assert!(second.absorb(&a));
    assert!(second.absorb(&b));
    assert_eq!(sorted(&first.finish()), sorted(&second.finish()));
}

#[test]
fn empty_input_gives_empty_mapping() {
    assert_eq!(aggregate_region(b"", 16).table.entries().len(), 0);
    assert_eq!(aggregate_region(b"", 0).table.values(), 0);
    assert_eq!(aggregate_region(b"", 16).rejected, vec![]);
    let parsed = parse_chunk(b"");
    assert_eq!(parsed.table.entries().len(), 0);
    assert_eq!(parsed.rejected, vec![]);
    assert_eq!(aggregate_reads(&vec![]).unwrap().table.entries().len(), 0);
    assert_eq!(aggregate_chunks(&vec![]).unwrap().table.entries().len(), 0);
    assert_eq!(Reducer::new().finish().entries().len(), 0);
}

#[test]
fn last_record_without_separator_counts() {
    let table = aggregate_region(b"A;1.0\nB;2.0", 1 << 20).table;
    assert_eq!(sorted(&table), vec![(b"A".to_vec(), one(1000)), (b"B".to_vec(), one(2000))]);
    let a = table.get(b"A").unwrap();
    assert_eq!((as_float(a.min as i128), as_float(a.max as i128), as_float(a.sum), a.count), (1.0, 1.0, 1.0, 1));
    let b = table.get(b"B").unwrap();
    assert_eq!((as_float(b.min as i128), as_float(b.max as i128), as_float(b.sum), b.count), (2.0, 2.0, 2.0, 1));
    let streamed = aggregate_reads(&vec![b"A;1.0\nB;2.0".to_vec()]).unwrap().table;
    assert_eq!(sorted(&streamed), sorted(&table));
}

#[test]
fn record_split_by_read_boundary_is_parsed_whole() {
    let reads = vec![b"A;12".to_vec(), b"3.0\nB;4.0\n".to_vec()];
    let table = aggregate_reads(&reads).unwrap().table;
    let a = table.get(b"A").unwrap();
    assert_eq!(as_float(a.sum), 123.0);
    assert_eq!(a.count, 1);
    assert_eq!(sorted(&table), vec![(b"A".to_vec(), one(123000)), (b"B".to_vec(), one(4000))]);
}

#[test]
fn malformed_record_is_skipped_and_reported() {
    let parsed = parse_chunk(b"A;xx\nA;5.0\n");
    assert_eq!(sorted(&parsed.table), vec![(b"A".to_vec(), one(5000))]);
    assert_eq!(parsed.rejected, vec![Span { start: 0, end: 4 }]);
    let a = parsed.table.get(b"A").unwrap();
    assert_eq!((as_float(a.min as i128), as_float(a.max as i128), as_float(a.sum), a.count), (5.0, 5.0, 5.0, 1));
    let cut = aggregate_region(b"A;xx\nA;5.0\n", 2);
    assert_eq!(sorted(&cut.table), vec![(b"A".to_vec(), one(5000))]);
    assert_eq!(cut.rejected, vec![Span { start: 0, end: 4 }]);
}

#[test]
fn padding_lines_are_passed_over() {
    let mut chunk = b"A;1.0\n".to_vec();
    chunk.extend_from_slice(&[0, 0, 0, 0]);
    let parsed = parse_chunk(&chunk);
    assert_eq!(sorted(&parsed.table), vec![(b"A".to_vec(), one(1000))]);
    assert_eq!(parsed.rejected, vec![]);
    let parsed = parse_chunk(b"\n\nA;1.0\n\nno separator\nB;2\n");
    assert_eq!(sorted(&parsed.table), vec![(b"A".to_vec(), one(1000)), (b"B".to_vec(), one(2000))]);
    assert_eq!(parsed.rejected, vec![Span { start: 9, end: 21 }]);
}

#[test]
fn parse_chunk_folds_repeated_keys() {
    let parsed = parse_chunk(b"x;1.5\ny;2\nx;-3.25\nx;10\n");
    assert_eq!(sorted(&parsed.table), vec![
        (b"x".to_vec(), Stats { min: -3250, max: 10000, sum: 8250, count: 3 }),
        (b"y".to_vec(), one(2000)),
    ]);
    assert_eq!(parsed.table.values(), 4);
}

#[test]
fn result_is_the_same_for_every_stride_and_read_size() {
    let input = b"alpha;1.5\nbeta;-2.25\nalpha;3\nbad line\ngamma;10.125\nbeta;0.5\nalpha;-7".to_vec();
    let whole = sorted(&parse_chunk(&input).table);
    assert_eq!(whole, vec![
        (b"alpha".to_vec(), Stats { min: -7000, max: 3000, sum: -2500, count: 3 }),
        (b"beta".to_vec(), Stats { min: -2250, max: 500, sum: -1750, count: 2 }),
        (b"gamma".to_vec(), one(10125)),
    ]);
    let skipped = vec![Span { start: 29, end: 37 }];
    assert_eq!(parse_chunk(&input).rejected, skipped);
    for stride in 0..input.len() + 2 {
        let cut = aggregate_region(&input, stride);
        assert_eq!(sorted(&cut.table), whole);
        assert_eq!(cut.rejected, skipped);
    }
    for size in 1..input.len() + 2 {
        let reads: Vec<Vec<u8>> = input.chunks(size).map(|c| c.to_vec()).collect();
        let cut = aggregate_reads(&reads).unwrap();
        assert_eq!(sorted(&cut.table), whole);
        assert_eq!(cut.rejected, skipped);
    }
}

#[test]
fn aggregate_chunks_merges_in_order() {
    let chunks = vec![b"A;1\nB;2\n".to_vec(), b"A;3\n".to_vec(), b"C;4".to_vec()];
    let cut = aggregate_chunks(&chunks).unwrap();
    assert_eq!(cut.rejected, vec![]);
    assert_eq!(sorted(&cut.table), vec![
        (b"A".to_vec(), Stats { min: 1000, max: 3000, sum: 4000, count: 2 }),
        (b"B".to_vec(), one(2000)),
        (b"C".to_vec(), one(4000)),
    ]);
}

#[test]
fn aggregate_chunks_reports_places_in_the_whole_text() {
    let chunks = vec![b"A;1\nbad\n".to_vec(), b"worse\nB;2\n".to_vec(), b"C".to_vec()];
    let cut = aggregate_chunks(&chunks).unwrap();
    assert_eq!(cut.rejected, vec![
        Span { start: 4, end: 7 },
        Span { start: 8, end: 13 },
        Span { start: 18, end: 19 },
    ]);
    assert_eq!(sorted(&cut.table), vec![(b"A".to_vec(), one(1000)), (b"B".to_vec(), one(2000))]);
}

#[test]
fn append_shifted_moves_each_span() {
    let mut out = vec![Span { start: 1, end: 2 }];
    append_shifted(&mut out, &vec![Span { start: 0, end: 3 }, Span { start: 5, end: 5 }], 10);
    assert_eq!(out, vec![
        Span { start: 1, end: 2 },
        Span { start: 10, end: 13 },
        Span { start: 15, end: 15 },
    ]);
}

#[test]
fn chunk_summaries_merged_in_any_order_give_the_whole() {
    let input = b"alpha;1.5\nbeta;-2.25\nalpha;3\ngamma;10.125\nbeta;0.5\nalpha;-7\n".to_vec();
    let whole = sorted(&parse_chunk(&input).table);
    for stride in 0..input.len() + 2 {
        let spans = split_chunks(&input, stride);
        let locals: Vec<Table> = spans
            .iter()
            .map(|span| parse_chunk(&input[span.start..span.end]).table)
            .collect();
        let mut forward = Reducer::new();
        for local in locals.iter() {
            assert!(forward.absorb(local));
        }
        let mut backward = Reducer::new();
        for local in locals.iter().rev() {
            assert!(backward.absorb(local));
        }
        assert_eq!(sorted(&forward.finish()), whole);
        assert_eq!(sorted(&backward.finish()), whole);
    }
}

#[test]
fn summary_does_not_depend_on_value_order() {
    let forward = Stats::new().record(5).record(-3).record(12).record(5);
    let other = Stats::new().record(12).record(5).record(5).record(-3);
    assert_eq!(forward, other);
    assert_eq!(forward, Stats { min: -3, max: 12, sum: 19, count: 4 });
}
