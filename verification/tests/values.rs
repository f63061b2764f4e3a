use chunked_stats::decimal::format_tenths;
use chunked_stats::decimal::parse_decimal;
use chunked_stats::decimal::push_nat;
use chunked_stats::decimal::push_tenths;
use chunked_stats::stat::Stat;

#[test]
fn parse_decimal_reads_whole_and_fractional_numbers() {
    assert_eq!(parse_decimal(b"10.0"), Some(100));
    assert_eq!(parse_decimal(b"5"), Some(50));
    assert_eq!(parse_decimal(b"0.1"), Some(1));
    assert_eq!(parse_decimal(b"12.3"), Some(123));
    assert_eq!(parse_decimal(b"007.5"), Some(75));
}

#[test]
fn parse_decimal_reads_signs() {
    assert_eq!(parse_decimal(b"-3.5"), Some(-35));
    assert_eq!(parse_decimal(b"+3.5"), Some(35));
    assert_eq!(parse_decimal(b"-0.0"), Some(0));
    assert_eq!(parse_decimal(b"-0"), Some(0));
}

#[test]
fn parse_decimal_accepts_a_point_with_digits_on_one_side() {
    assert_eq!(parse_decimal(b"5."), Some(50));
    assert_eq!(parse_decimal(b".5"), Some(5));
    assert_eq!(parse_decimal(b"-.5"), Some(-5));
}

#[test]
fn parse_decimal_rounds_on_the_second_fractional_digit() {
    assert_eq!(parse_decimal(b"10.04"), Some(100));
    assert_eq!(parse_decimal(b"10.05"), Some(101));
    assert_eq!(parse_decimal(b"10.049"), Some(100));
    assert_eq!(parse_decimal(b"-10.05"), Some(-101));
    assert_eq!(parse_decimal(b"9.99"), Some(100));
    assert_eq!(parse_decimal(b"0.96"), Some(10));
}

#[test]
fn parse_decimal_refuses_what_is_no_decimal() {
    assert_eq!(parse_decimal(b""), None);
    assert_eq!(parse_decimal(b"-"), None);
    assert_eq!(parse_decimal(b"+"), None);
    assert_eq!(parse_decimal(b"."), None);
    assert_eq!(parse_decimal(b"-."), None);
    assert_eq!(parse_decimal(b"abc"), None);
    assert_eq!(parse_decimal(b"1.2.3"), None);
    assert_eq!(parse_decimal(b"1,5"), None);
    assert_eq!(parse_decimal(b"1.5x"), None);
    assert_eq!(parse_decimal(b"1x.5"), None);
    assert_eq!(parse_decimal(b" 1.5"), None);
    assert_eq!(parse_decimal(b"1.5\r"), None);
    assert_eq!(parse_decimal(b"--1"), None);
    assert_eq!(parse_decimal(b"1e3"), None);
    assert_eq!(parse_decimal(b"inf"), None);
    assert_eq!(parse_decimal(b"NaN"), None);
    assert_eq!(parse_decimal(b"1;2"), None);
}

#[test]
fn parse_decimal_holds_the_whole_range_of_tenths() {
    assert_eq!(parse_decimal(b"922337203685477580.7"), Some(i64::MAX));
    assert_eq!(parse_decimal(b"-922337203685477580.8"), Some(i64::MIN));
    assert_eq!(parse_decimal(b"922337203685477580.8"), None);
    assert_eq!(parse_decimal(b"-922337203685477580.9"), None);
    assert_eq!(parse_decimal(b"922337203685477580.65"), Some(i64::MAX));
    assert_eq!(parse_decimal(b"922337203685477580.75"), None);
    assert_eq!(parse_decimal(b"922337203685477581"), None);
    assert_eq!(parse_decimal(b"99999999999999999999999999999999"), None);
    assert_eq!(parse_decimal(b"00000000000000000000000000000001.5"), Some(15));
}

#[test]
fn format_tenths_writes_one_fractional_digit() {
    assert_eq!(format_tenths(100), b"10.0".to_vec());
    assert_eq!(format_tenths(0), b"0.0".to_vec());
    assert_eq!(format_tenths(5), b"0.5".to_vec());
    assert_eq!(format_tenths(-5), b"-0.5".to_vec());
    assert_eq!(format_tenths(-123), b"-12.3".to_vec());
    assert_eq!(format_tenths(i64::MAX), b"922337203685477580.7".to_vec());
    assert_eq!(format_tenths(i64::MIN), b"-922337203685477580.8".to_vec());
}

#[test]
fn push_nat_and_push_tenths_append() {
    let mut out = b"x=".to_vec();
    push_nat(&mut out, 0);
    push_nat(&mut out, 1203);
    assert_eq!(out, b"x=01203".to_vec());
    push_tenths(&mut out, -7);
    assert_eq!(out, b"x=01203-0.7".to_vec());
}

#[test]
fn formatting_and_parsing_round_trip() {
    for v in [0i64, 1, -1, 9, 10, -10, 99, 100, 12345, -98765, i64::MAX, i64::MIN] {
        assert_eq!(parse_decimal(&format_tenths(v)), Some(v));
    }
}

#[test]
fn stat_of_a_first_value_has_no_sentinels() {
    let stat = Stat::new(-35);
    assert_eq!(stat.min(), -35);
    assert_eq!(stat.max(), -35);
    assert_eq!(stat.sum(), -35);
    assert_eq!(stat.count(), 1);
    assert_eq!(stat.mean(), -35);
}

#[test]
fn stat_observe_keeps_minimum_maximum_sum_and_count() {
    let stat = Stat::new(100).observe(200).unwrap().observe(-30).unwrap();
    assert_eq!(stat.min(), -30);
    assert_eq!(stat.max(), 200);
    assert_eq!(stat.sum(), 270);
    assert_eq!(stat.count(), 3);
    assert_eq!(stat.mean(), 90);
}

#[test]
fn stat_merge_is_field_wise() {
    let a = Stat::new(10).observe(50).unwrap();
    let b = Stat::new(-20).observe(30).unwrap().observe(40).unwrap();
    let m = a.merge(b).unwrap();
    assert_eq!(m.min(), -20);
    assert_eq!(m.max(), 50);
    assert_eq!(m.sum(), 110);
    assert_eq!(m.count(), 5);
}

#[test]
fn stat_merge_commutes_and_associates() {
    let a = Stat::new(10).observe(50).unwrap();
    let b = Stat::new(-20);
    let c = Stat::new(70).observe(0).unwrap();
    assert_eq!(a.merge(b).unwrap(), b.merge(a).unwrap());
    assert_eq!(
        a.merge(b).unwrap().merge(c).unwrap(),
        a.merge(b.merge(c).unwrap()).unwrap()
    );
}

#[test]
fn stat_mean_rounds_a_half_away_from_zero() {
    // 1.0 and 1.1: 1.05 rounds to 1.1.
    assert_eq!(Stat::new(10).observe(11).unwrap().mean(), 11);
    // -1.0 and -1.1: -1.05 rounds to -1.1.
    assert_eq!(Stat::new(-10).observe(-11).unwrap().mean(), -11);
    // 1.0, 1.0, 1.1: 1.0333.. rounds to 1.0.
    assert_eq!(Stat::new(10).observe(10).unwrap().observe(11).unwrap().mean(), 10);
    // 1.0, 1.1, 1.1: 1.0666.. rounds to 1.1.
    assert_eq!(Stat::new(10).observe(11).unwrap().observe(11).unwrap().mean(), 11);
    // -0.1 and 0.0: -0.05 rounds to -0.1.
    assert_eq!(Stat::new(-1).observe(0).unwrap().mean(), -1);
}

#[test]
fn stat_mean_of_extreme_values_stays_in_range() {
    let high = Stat::new(i64::MAX).observe(i64::MAX).unwrap();
    assert_eq!(high.mean(), i64::MAX);
    assert_eq!(high.sum(), 2 * (i64::MAX as i128));
    let low = Stat::new(i64::MIN).observe(i64::MIN).unwrap();
    assert_eq!(low.mean(), i64::MIN);
    let both = Stat::new(i64::MIN).observe(i64::MAX).unwrap();
    assert_eq!(both.sum(), -1);
    assert_eq!(both.mean(), -1);
}

fn doubled(times: u32) -> Stat {
    let mut stat = Stat::new(1);
    for _ in 0..times {
        stat = stat.merge(stat).unwrap();
    }
    stat
}

#[test]
fn stat_merge_refuses_counts_beyond_a_u64() {
    let half = doubled(63);
    assert_eq!(half.count(), 1u64 << 63);
    assert_eq!(half.sum(), 1i128 << 63);
    assert_eq!(half.merge(half), None);
    let almost = half.merge(doubled(62)).unwrap();
    assert_eq!(almost.count(), (1u64 << 63) + (1u64 << 62));
}

#[test]
fn stat_observe_refuses_one_value_too_many() {
    let mut full = doubled(63);
    for times in 0..63 {
        full = full.merge(doubled(times)).unwrap();
    }
    assert_eq!(full.count(), u64::MAX);
    assert_eq!(full.mean(), 1);
    assert_eq!(full.observe(5), None);
}
