use chunked_stats::aggregate::Aggregate;
use chunked_stats::chunk::Chunk;
use chunked_stats::error::Error;
use chunked_stats::error::Fault;
use chunked_stats::record::parse_chunk;
use chunked_stats::record::parse_line;
use chunked_stats::record::Line;
use chunked_stats::record::Mode;
use chunked_stats::stat::Stat;

fn chunk_of(id: usize, bytes: &[u8]) -> Chunk {
    Chunk::new(id, bytes, bytes.len()).unwrap()
}

fn sorted_entries(aggregate: Aggregate) -> Vec<(Vec<u8>, Stat)> {
    let mut entries: Vec<(Vec<u8>, Stat)> =
        aggregate.into_entries().into_iter().map(|e| (e.key, e.stat)).collect();
    entries.sort_by(|a, b| a.0.cmp(&b.0));
    entries
}

fn stat_of(values: &[i64]) -> Stat {
    let mut stat = Stat::new(values[0]);
    for v in &values[1..] {
        stat = stat.observe(*v).unwrap();
    }
    stat
}

#[test]
fn parse_line_splits_at_the_first_separator() {
    match parse_line(b"Paris;10.0") {
        Line::Record { key, value } => {
            assert_eq!(key, b"Paris");
            assert_eq!(value, 100);
        }
        other => panic!("unexpected line {:?}", other),
    }
}

#[test]
fn parse_line_accepts_an_empty_key() {
    match parse_line(b";-1.5") {
        Line::Record { key, value } => {
            assert_eq!(key, b"");
            assert_eq!(value, -15);
        }
        other => panic!("unexpected line {:?}", other),
    }
}

#[test]
fn parse_line_passes_an_empty_line() {
    assert!(matches!(parse_line(b""), Line::Blank));
}

#[test]
fn parse_line_reports_a_missing_separator() {
    assert!(matches!(parse_line(b"Paris 10.0"), Line::Malformed(Fault::MissingSeparator)));
}

#[test]
fn parse_line_reports_a_value_that_is_no_number() {
    assert!(matches!(parse_line(b"Paris;warm"), Line::Malformed(Fault::InvalidValue)));
    assert!(matches!(parse_line(b"Paris;"), Line::Malformed(Fault::InvalidValue)));
}

#[test]
fn parse_line_takes_all_after_the_first_separator_as_the_value() {
    assert!(matches!(parse_line(b"Paris;1.0;2.0"), Line::Malformed(Fault::InvalidValue)));
}

#[test]
fn parse_chunk_folds_the_records_of_each_key() {
    let chunk = chunk_of(0, b"Paris;10.0\nParis;20.0\nLondon;5.0\n");
    let partial = parse_chunk(&chunk, Mode::Strict).unwrap();
    assert_eq!(partial.skipped, 0);
    assert_eq!(
        sorted_entries(partial.aggregate),
        vec![(b"London".to_vec(), stat_of(&[50])), (b"Paris".to_vec(), stat_of(&[100, 200]))]
    );
}

#[test]
fn parse_chunk_reads_a_last_line_without_terminator() {
    let chunk = chunk_of(0, b"a;1.0\nb;2.5");
    let partial = parse_chunk(&chunk, Mode::Strict).unwrap();
    assert_eq!(
        sorted_entries(partial.aggregate),
        vec![(b"a".to_vec(), stat_of(&[10])), (b"b".to_vec(), stat_of(&[25]))]
    );
}

#[test]
fn parse_chunk_passes_empty_lines() {
    let chunk = chunk_of(0, b"\na;1.0\n\n\na;3.0\n");
    let partial = parse_chunk(&chunk, Mode::Strict).unwrap();
    assert_eq!(partial.skipped, 0);
    assert_eq!(sorted_entries(partial.aggregate), vec![(b"a".to_vec(), stat_of(&[10, 30]))]);
}

#[test]
fn parse_chunk_of_an_empty_chunk_is_empty() {
    let partial = parse_chunk(&chunk_of(0, b""), Mode::Strict).unwrap();
    assert_eq!(partial.skipped, 0);
    assert!(partial.aggregate.into_entries().is_empty());
}

#[test]
fn parse_chunk_twice_gives_the_same_statistics() {
    let chunk = chunk_of(4, b"x;1.5\ny;-2.0\nx;0.5\n");
    let first = parse_chunk(&chunk, Mode::Strict).unwrap();
    let second = parse_chunk(&chunk, Mode::Strict).unwrap();
    assert_eq!(first.skipped, second.skipped);
    assert_eq!(sorted_entries(first.aggregate), sorted_entries(second.aggregate));
}

#[test]
fn parse_chunk_in_strict_mode_reports_the_first_malformed_line() {
    let chunk = chunk_of(7, b"a;1.0\n\nno separator\nb;x\n");
    let out = parse_chunk(&chunk, Mode::Strict);
    assert_eq!(
        out.err(),
        Some(Error::MalformedRecord { chunk: 7, line: 2, fault: Fault::MissingSeparator })
    );
}

#[test]
fn parse_chunk_in_strict_mode_reports_an_invalid_value() {
    let chunk = chunk_of(1, b"a;1.0\nb;x\n");
    let out = parse_chunk(&chunk, Mode::Strict);
    assert_eq!(
        out.err(),
        Some(Error::MalformedRecord { chunk: 1, line: 1, fault: Fault::InvalidValue })
    );
}

#[test]
fn parse_chunk_in_lenient_mode_counts_the_malformed_lines() {
    let chunk = chunk_of(7, b"a;1.0\n\nno separator\nb;x\na;2.0\n");
    let partial = parse_chunk(&chunk, Mode::Lenient).unwrap();
    assert_eq!(partial.skipped, 2);
    assert_eq!(sorted_entries(partial.aggregate), vec![(b"a".to_vec(), stat_of(&[10, 20]))]);
}

#[test]
fn aggregate_observe_and_get() {
    let mut aggregate = Aggregate::new();
    assert_eq!(aggregate.get(b"a"), None);
    assert_eq!(aggregate.observe(b"a", 10), Ok(()));
    assert_eq!(aggregate.observe(b"b", -5), Ok(()));
    assert_eq!(aggregate.observe(b"a", 30), Ok(()));
    assert_eq!(aggregate.get(b"a"), Some(stat_of(&[10, 30])));
    assert_eq!(aggregate.get(b"b"), Some(stat_of(&[-5])));
    assert_eq!(aggregate.get(b"c"), None);
}

#[test]
fn aggregate_merge_is_field_wise_on_common_keys() {
    let mut left = Aggregate::new();
    left.observe(b"a", 10).unwrap();
    left.observe(b"b", 20).unwrap();
    let mut right = Aggregate::new();
    right.observe(b"b", -20).unwrap();
    right.observe(b"b", 40).unwrap();
    right.observe(b"c", 7).unwrap();
    assert_eq!(left.merge(right), Ok(()));
    assert_eq!(
        sorted_entries(left),
        vec![
            (b"a".to_vec(), stat_of(&[10])),
            (b"b".to_vec(), stat_of(&[20, -20, 40])),
            (b"c".to_vec(), stat_of(&[7])),
        ]
    );
}

#[test]
fn aggregate_merge_gives_the_same_in_either_order() {
    let build = |records: &[(&[u8], i64)]| {
        let mut aggregate = Aggregate::new();
        for (key, value) in records {
            aggregate.observe(key, *value).unwrap();
        }
        aggregate
    };
    let a: &[(&[u8], i64)] = &[(b"x", 1), (b"y", 2)];
    let b: &[(&[u8], i64)] = &[(b"y", -3), (b"z", 4)];
    let c: &[(&[u8], i64)] = &[(b"x", 9), (b"z", -9), (b"w", 0)];

    let mut abc = build(a);
    abc.merge(build(b)).unwrap();
    abc.merge(build(c)).unwrap();

    let mut cba = build(c);
    cba.merge(build(b)).unwrap();
    cba.merge(build(a)).unwrap();

    let mut bc = build(b);
    bc.merge(build(c)).unwrap();
    let mut a_bc = build(a);
    a_bc.merge(bc).unwrap();

    let expected = sorted_entries(abc);
    assert_eq!(sorted_entries(cba), expected);
    assert_eq!(sorted_entries(a_bc), expected);
}

#[test]
fn aggregate_merge_with_an_empty_aggregate_changes_nothing() {
    let mut aggregate = Aggregate::new();
    aggregate.observe(b"a", 10).unwrap();
    aggregate.merge(Aggregate::new()).unwrap();
    assert_eq!(sorted_entries(aggregate), vec![(b"a".to_vec(), stat_of(&[10]))]);
}

fn doubled(times: u32) -> Stat {
    let mut stat = Stat::new(10);
    for _ in 0..times {
        stat = stat.merge(stat).unwrap();
    }
    stat
}

#[test]
fn aggregate_merge_stat_merges_under_one_key() {
    let mut aggregate = Aggregate::new();
    assert_eq!(aggregate.merge_stat(b"a", stat_of(&[10, 30])), Ok(()));
    assert_eq!(aggregate.merge_stat(b"b", stat_of(&[5])), Ok(()));
    assert_eq!(aggregate.merge_stat(b"a", stat_of(&[-20])), Ok(()));
    assert_eq!(
        sorted_entries(aggregate),
        vec![(b"a".to_vec(), stat_of(&[10, 30, -20])), (b"b".to_vec(), stat_of(&[5]))]
    );
}

#[test]
fn aggregate_merge_stat_reports_a_count_beyond_a_u64() {
    let mut aggregate = Aggregate::new();
    aggregate.merge_stat(b"a", doubled(63)).unwrap();
    assert_eq!(aggregate.merge_stat(b"a", doubled(63)), Err(Error::CountOverflow));
    assert_eq!(aggregate.get(b"a"), Some(doubled(63)));
    assert_eq!(aggregate.merge_stat(b"b", doubled(63)), Ok(()));
}

#[test]
fn aggregate_merge_reports_a_count_beyond_a_u64_and_changes_nothing() {
    let mut left = Aggregate::new();
    left.observe(b"x", 1).unwrap();
    left.merge_stat(b"a", doubled(63)).unwrap();
    let mut right = Aggregate::new();
    right.observe(b"x", 2).unwrap();
    right.observe(b"y", 3).unwrap();
    right.merge_stat(b"a", doubled(63)).unwrap();
    assert_eq!(left.merge(right), Err(Error::CountOverflow));
    assert_eq!(
        sorted_entries(left),
        vec![(b"a".to_vec(), doubled(63)), (b"x".to_vec(), stat_of(&[1]))]
    );
}
