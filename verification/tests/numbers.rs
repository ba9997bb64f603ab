use downsample::error::SampleError;
use downsample::fraction::Fraction;
use downsample::text::{parse_integer, push_digits, push_integer, split_bytes};

fn count(f: f64, rows: u32) -> u32 {
    Fraction::from_bits(f.to_bits()).unwrap().count(rows)
}

fn text(v: i64) -> Vec<u8> {
    let mut out = Vec::new();
    push_integer(v, &mut out);
    out
}

#[test]
fn split_cuts_at_every_separator() {
    assert_eq!(split_bytes(b"", b'\t'), vec![Vec::<u8>::new()]);
    assert_eq!(split_bytes(b"a", b'\t'), vec![b"a".to_vec()]);
    assert_eq!(split_bytes(b"a\tb", b'\t'), vec![b"a".to_vec(), b"b".to_vec()]);
    assert_eq!(split_bytes(b"a\t", b'\t'), vec![b"a".to_vec(), vec![]]);
    assert_eq!(split_bytes(b"\ta", b'\t'), vec![vec![], b"a".to_vec()]);
    assert_eq!(split_bytes(b"\t\t", b'\t'), vec![Vec::<u8>::new(), vec![], vec![]]);
}

#[test]
fn integers_are_read() {
    assert_eq!(parse_integer(b"0"), Some(0));
    assert_eq!(parse_integer(b"-0"), Some(0));
    assert_eq!(parse_integer(b"007"), Some(7));
    assert_eq!(parse_integer(b"1000000"), Some(1_000_000));
    assert_eq!(parse_integer(b"-42"), Some(-42));
    assert_eq!(parse_integer(b"9223372036854775807"), Some(i64::MAX));
    assert_eq!(parse_integer(b"-9223372036854775808"), Some(i64::MIN));
}

#[test]
fn what_is_no_integer_is_not_read() {
    assert_eq!(parse_integer(b""), None);
    assert_eq!(parse_integer(b"-"), None);
    assert_eq!(parse_integer(b"+5"), None);
    assert_eq!(parse_integer(b"12a"), None);
    assert_eq!(parse_integer(b"1.5"), None);
    assert_eq!(parse_integer(b" 1"), None);
    assert_eq!(parse_integer(b"--1"), None);
    assert_eq!(parse_integer(b"9223372036854775808"), None);
    assert_eq!(parse_integer(b"-9223372036854775809"), None);
    assert_eq!(parse_integer(b"99999999999999999999999999"), None);
}

#[test]
fn integers_are_written() {
    assert_eq!(text(0), b"0".to_vec());
    assert_eq!(text(7), b"7".to_vec());
    assert_eq!(text(-7), b"-7".to_vec());
    assert_eq!(text(1234567890), b"1234567890".to_vec());
    assert_eq!(text(i64::MAX), b"9223372036854775807".to_vec());
    assert_eq!(text(i64::MIN), b"-9223372036854775808".to_vec());
}

#[test]
fn digits_are_appended() {
    let mut out = b"x".to_vec();
    push_digits(u64::MAX, &mut out);
    assert_eq!(out, b"x18446744073709551615".to_vec());
}

#[test]
fn written_integers_read_back() {
    let values = [0, 1, -1, 9, 10, -10, 99, 100, 12345, -98765, i64::MAX, i64::MIN, i64::MIN + 1];
    for v in values {
        assert_eq!(parse_integer(&text(v)), Some(v));
    }
}

#[test]
fn fractions_above_zero_and_at_most_one_are_accepted() {
    for f in [1.0, 0.5, 0.1, 0.999999, f64::MIN_POSITIVE, 5e-324, 1e-310] {
        assert!(Fraction::from_bits(f64::to_bits(f)).is_ok(), "{}", f);
    }
}

#[test]
fn other_fractions_are_refused() {
    let above_one = f64::from_bits(1.0f64.to_bits() + 1);
    for f in [
        0.0,
        -0.0,
        1.5,
        above_one,
        2.0,
        -0.5,
        -1.0,
        f64::INFINITY,
        f64::NEG_INFINITY,
        f64::NAN,
        f64::MAX,
    ] {
        assert_eq!(
            Fraction::from_bits(f64::to_bits(f)),
            Err(SampleError::FractionOutOfRange),
            "{}",
            f
        );
    }
}

#[test]
fn sample_sizes() {
    assert_eq!(count(0.5, 80), 40);
    assert_eq!(count(1.0, 80), 80);
    assert_eq!(count(0.5, 3), 1);
    assert_eq!(count(0.25, 10), 2);
    assert_eq!(count(0.1, 3), 0);
    assert_eq!(count(0.1, 10), 1);
    assert_eq!(count(0.3, 10), 3);
    assert_eq!(count(5e-324, 4_000_000_000), 0);
    assert_eq!(count(1.0, u32::MAX), u32::MAX);
    assert_eq!(count(0.5, u32::MAX), 2147483647);
    assert_eq!(count(0.5, 0), 0);
}

#[test]
fn the_product_is_rounded_before_it_is_cut() {
    // 0.7 is a little under seven tenths, and ten times it is a little under
    // seven; the nearest double is seven.
    assert_eq!(count(0.7, 10), 7);
    // A hundred times 0.29 is nearer to the double under 29 than to 29.
    assert_eq!(count(0.29, 100), 28);
    let third = f64::from_bits((1.0f64 / 3.0).to_bits());
    assert_eq!(count(third, 3), 1);
}

#[test]
fn sample_size_is_the_truncated_double_product() {
    let mut state: u64 = 0x9E37_79B9_7F4A_7C15;
    let mut step = || {
        state ^= state << 13;
        state ^= state >> 7;
        state ^= state << 17;
        state
    };
    for _ in 0..20000 {
        let bits = step() % 0x3FF0_0000_0000_0000 + 1;
        let f = f64::from_bits(bits);
        let rows = (step() >> 32) as u32;
        assert_eq!(count(f, rows) as usize, (rows as f64 * f) as usize, "{} of {}", f, rows);
    }
    for _ in 0..20000 {
        let f = (step() >> 11) as f64 / (1u64 << 53) as f64;
        if f == 0.0 {
            continue;
        }
        let rows = (step() % 100_000) as u32;
        assert_eq!(count(f, rows) as usize, (rows as f64 * f) as usize, "{} of {}", f, rows);
    }
}

#[test]
fn a_sample_is_never_larger_than_the_table() {
    for rows in [0u32, 1, 2, 3, 10, 1000, 65535, 4_000_000_000, u32::MAX] {
        for f in [1.0, 0.999_999_999_999_999_9, 0.5, 0.3333333333333333, 1e-9] {
            assert!(count(f, rows) <= rows);
        }
    }
}
