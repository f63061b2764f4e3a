use chunked_stats::aggregate::Aggregate;
use chunked_stats::chunk::split_chunks;
use chunked_stats::error::Error;
use chunked_stats::error::Fault;
use chunked_stats::order::key_less;
use chunked_stats::record::parse_chunk;
use chunked_stats::record::Mode;
use chunked_stats::report::FinalResult;
use chunked_stats::run::summarize;

fn render(data: &[u8], window: usize) -> String {
    let summary = summarize(data, window, Mode::Strict).unwrap();
    String::from_utf8(summary.result.render()).unwrap()
}

#[test]
fn key_less_orders_byte_by_byte() {
    assert!(key_less(b"London", b"Paris"));
    assert!(!key_less(b"Paris", b"London"));
    assert!(!key_less(b"Paris", b"Paris"));
    assert!(key_less(b"Par", b"Paris"));
    assert!(!key_less(b"Paris", b"Par"));
    assert!(key_less(b"", b"a"));
    assert!(!key_less(b"", b""));
    assert!(key_less(b"Z", b"a"));
    assert!(key_less(b"a", &[0xc3, 0xa9]));
}

#[test]
fn final_result_orders_the_keys() {
    let mut aggregate = Aggregate::new();
    for (key, value) in [
        (&b"pear"[..], 10i64),
        (b"apple", 20),
        (b"fig", -5),
        (b"apple", 40),
        (b"app", 1),
        (b"zebra", 0),
        (b"Apple", 3),
    ] {
        aggregate.observe(key, value).unwrap();
    }
    let result = FinalResult::from_aggregate(aggregate);
    assert_eq!(result.len(), 6);
    let keys: Vec<&[u8]> = (0..result.len()).map(|i| result.row(i).key.as_slice()).collect();
    assert_eq!(keys, vec![&b"Apple"[..], b"app", b"apple", b"fig", b"pear", b"zebra"]);
    let apple = result.row(2);
    assert_eq!((apple.min, apple.mean, apple.max), (20, 30, 40));
}

#[test]
fn final_result_orders_many_keys() {
    let mut aggregate = Aggregate::new();
    let mut expected: Vec<Vec<u8>> = Vec::new();
    for i in 0..500u32 {
        let key = format!("k{}", (i * 7919) % 1000).into_bytes();
        if !expected.contains(&key) {
            expected.push(key.clone());
        }
        aggregate.observe(&key, i as i64).unwrap();
    }
    expected.sort();
    let result = FinalResult::from_aggregate(aggregate);
    assert_eq!(result.len(), expected.len());
    for (at, key) in expected.iter().enumerate() {
        assert_eq!(&result.row(at).key, key);
    }
}

#[test]
fn render_of_an_empty_result_is_a_pair_of_braces() {
    let result = FinalResult::from_aggregate(Aggregate::new());
    assert_eq!(result.len(), 0);
    assert_eq!(result.render(), b"{}".to_vec());
}

#[test]
fn render_of_one_key_has_no_separator() {
    let mut aggregate = Aggregate::new();
    aggregate.observe(b"a", -15).unwrap();
    assert_eq!(FinalResult::from_aggregate(aggregate).render(), b"{a=-1.5/-1.5/-1.5}".to_vec());
}

#[test]
fn three_lines_give_the_expected_output_for_every_window() {
    let data = b"Paris;10.0\nParis;20.0\nLondon;5.0\n";
    for window in 11..=40 {
        assert_eq!(render(data, window), "{London=5.0/5.0/5.0, Paris=10.0/15.0/20.0}");
    }
}

#[test]
fn three_lines_give_the_expected_output_without_a_last_terminator() {
    let data = b"Paris;10.0\nParis;20.0\nLondon;5.0";
    for window in 11..=40 {
        assert_eq!(render(data, window), "{London=5.0/5.0/5.0, Paris=10.0/15.0/20.0}");
    }
}

#[test]
fn three_lines_give_the_expected_output_however_the_chunks_are_merged() {
    let data = b"Paris;10.0\nParis;20.0\nLondon;5.0\n";
    let chunks = split_chunks(data, 11).unwrap();
    assert_eq!(chunks.len(), 3);
    for order in [[0, 1, 2], [0, 2, 1], [1, 0, 2], [1, 2, 0], [2, 0, 1], [2, 1, 0]] {
        let mut total = Aggregate::new();
        for at in order {
            let partial = parse_chunk(&chunks[at], Mode::Strict).unwrap();
            total.merge(partial.aggregate).unwrap();
        }
        let text = FinalResult::from_aggregate(total).render();
        assert_eq!(text, b"{London=5.0/5.0/5.0, Paris=10.0/15.0/20.0}".to_vec());
    }
}

#[test]
fn an_empty_input_gives_an_empty_result() {
    let summary = summarize(b"", 16, Mode::Strict).unwrap();
    assert_eq!(summary.result.len(), 0);
    assert_eq!(summary.skipped, 0);
    assert_eq!(summary.result.render(), b"{}".to_vec());
}

#[test]
fn one_chunk_and_many_chunks_give_the_same_result() {
    let mut data: Vec<u8> = Vec::new();
    for i in 0..200i64 {
        let line = format!("city{};{}.{}\n", i % 13, (i * 37) % 90 - 45, i % 10);
        data.extend_from_slice(line.as_bytes());
    }
    let whole = render(&data, data.len());
    for window in [13, 14, 16, 31, 64, 100, 1000] {
        assert_eq!(render(&data, window), whole);
    }
}

#[test]
fn the_mean_is_rounded_to_the_nearest_tenth() {
    assert_eq!(render(b"a;1.0\na;1.1\n", 64), "{a=1.0/1.1/1.1}");
    assert_eq!(render(b"a;-1.0\na;-1.1\n", 64), "{a=-1.1/-1.1/-1.0}");
    assert_eq!(render(b"a;1\na;2\na;2\n", 64), "{a=1.0/1.7/2.0}");
}

#[test]
fn a_line_without_separator_fails_a_strict_run() {
    let out = summarize(b"Paris;10.0\nLondon 5.0\nRome;1.0\n", 64, Mode::Strict);
    assert_eq!(
        out.err(),
        Some(Error::MalformedRecord { chunk: 0, line: 1, fault: Fault::MissingSeparator })
    );
}

#[test]
fn a_malformed_line_is_reported_with_its_chunk() {
    let out = summarize(b"Paris;10.0\nLondon;5.0\nRome;hot\n", 11, Mode::Strict);
    assert_eq!(
        out.err(),
        Some(Error::MalformedRecord { chunk: 2, line: 0, fault: Fault::InvalidValue })
    );
}

#[test]
fn a_lenient_run_passes_over_malformed_lines_and_counts_them() {
    let summary = summarize(b"Paris;10.0\nLondon 5.0\nRome;hot\nParis;20.0\n", 11, Mode::Lenient)
        .unwrap();
    assert_eq!(summary.skipped, 2);
    assert_eq!(summary.result.render(), b"{Paris=10.0/15.0/20.0}".to_vec());
}

#[test]
fn a_line_longer_than_the_window_fails_the_run() {
    let out = summarize(b"a;1.0\nLongerThanTheWindow;2.0\n", 8, Mode::Strict);
    assert_eq!(out.err(), Some(Error::BoundaryOverflow { chunk: 1 }));
    let out = summarize(b"a;1.0\nLongerThanTheWindow;2.0\n", 8, Mode::Lenient);
    assert_eq!(out.err(), Some(Error::BoundaryOverflow { chunk: 1 }));
}

#[test]
fn a_malformed_line_in_an_earlier_chunk_comes_before_a_later_overflow() {
    let out = summarize(b"a;x\nLongerThanTheWindow;2.0\n", 8, Mode::Strict);
    assert_eq!(
        out.err(),
        Some(Error::MalformedRecord { chunk: 0, line: 0, fault: Fault::InvalidValue })
    );
}
