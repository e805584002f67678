use reduction_server::config::DataType;
use reduction_server::double::Double;
use reduction_server::stat::{print_stat, report};

/// The report as double precision arithmetic gives it.
fn by_hand(size: usize, latency: u128) -> String {
    let size = size as f64;
    let latency = latency as f64 / 1000.0 / 1000.0;
    let bandwidth = (size * 8.0) / latency;
    let bandwidth = bandwidth / 1024.0 / 1024.0 / 1024.0;
    format!("size: {:.2}MB, bandwidth: {:.2}Gbps", size / 1024.0 / 1024.0, bandwidth)
}

#[test]
fn stat_of_a_megabyte_in_a_millisecond() {
    assert_eq!(print_stat(1048576, 1000), "size: 1.00MB, bandwidth: 7.81Gbps");
}

#[test]
fn stat_of_nothing() {
    assert_eq!(print_stat(0, 5), "size: 0.00MB, bandwidth: 0.00Gbps");
    assert_eq!(print_stat(0, 0), "size: 0.00MB, bandwidth: NaNGbps");
    assert_eq!(print_stat(4096, 0), "size: 0.00MB, bandwidth: infGbps");
}

#[test]
fn stat_rounds_ties_to_even() {
    // 0.125 MB and 0.375 MB lie in the middle between two hundredths.
    assert_eq!(print_stat(131072, 1), by_hand(131072, 1));
    assert!(print_stat(131072, 1).starts_with("size: 0.12MB"));
    assert!(print_stat(393216, 1).starts_with("size: 0.38MB"));
}

#[test]
fn stat_agrees_with_double_precision() {
    let mut x: u64 = 0x9E3779B97F4A7C15;
    for i in 0..40000u32 {
        x ^= x << 13;
        x ^= x >> 7;
        x ^= x << 17;
        let size = (x >> (i % 64)) as usize;
        x ^= x << 13;
        x ^= x >> 7;
        x ^= x << 17;
        let mut latency = (x >> (i / 64 % 64)) as u128;
        if i % 5 == 0 {
            latency <<= i % 67;
        }
        assert_eq!(print_stat(size, latency), by_hand(size, latency));
    }
    assert_eq!(print_stat(usize::MAX, 1), by_hand(usize::MAX, 1));
    assert_eq!(print_stat(1, u128::MAX), by_hand(1, u128::MAX));
    assert_eq!(print_stat(usize::MAX, u128::MAX), by_hand(usize::MAX, u128::MAX));
}

#[test]
fn doubles_are_rounded_to_53_bits() {
    let d = Double::from_integer(3);
    assert_eq!((d.significand, d.exponent), (3 << 51, -51));
    // 2^53 + 1 lies between two doubles, the lower of which is even.
    let d = Double::from_integer((1 << 53) + 1);
    assert_eq!((d.significand, d.exponent), (1 << 52, 1));
    let d = Double::from_integer((1 << 53) + 3);
    assert_eq!((d.significand, d.exponent), ((1 << 52) + 2, 1));
    // All bits set: rounding carries into the next power of two.
    let d = Double::from_integer(u128::MAX);
    assert_eq!((d.significand, d.exponent), (1 << 52, 76));
    let third = Double::from_integer(1).divided_by(Double::from_integer(3));
    let exact = (1.0f64 / 3.0).to_bits();
    assert_eq!(third.significand, (exact & ((1 << 52) - 1)) | (1 << 52));
    assert_eq!(Double::from_integer(1).hundredths(), 100);
    assert_eq!(third.hundredths(), 33);
}

#[test]
fn report_takes_the_time_per_request() {
    assert_eq!(report(1024, DataType::F32, 2, 10, 1234), print_stat(8192, 123));
    assert_eq!(report(1024, DataType::F16, 2, 10, 1234), print_stat(4096, 123));
    assert_eq!(report(1024 * 1024, DataType::F32, 1, 100, 100_000), "size: 4.00MB, bandwidth: 31.25Gbps");
}
