use human_bandwidth::binary64::scale_quotient;
use human_bandwidth::binary_system::{
    format_binary_bandwidth, parse_binary_bandwidth, parse_binary_fraction,
};
use human_bandwidth::parser::parse_fraction;
use human_bandwidth::rounding::{discard_digit, round_digits, Direction};
use human_bandwidth::{format_bandwidth, parse_bandwidth, Bandwidth, Error};

/// A small generator of numbers that is the same on every run.
fn next(state: &mut u64) -> u64 {
    *state = state.wrapping_mul(6364136223846793005).wrapping_add(1442695040888963407);
    *state >> 11
}

fn bytes_per_second(bytes: u64) -> Bandwidth {
    let bits = bytes * 8;
    Bandwidth::new(bits / 1_000_000_000, (bits % 1_000_000_000) as u32)
}

#[test]
fn overflow_of_the_mantissa_is_an_error() {
    assert_eq!(parse_bandwidth("100000000000000000000bps"), Err(Error::NumberOverflow));
}

#[test]
fn largest_rates_that_can_be_held() {
    assert_eq!(
        parse_bandwidth("18446744073709551615Gbps 999999999bps"),
        Ok(Bandwidth::new(u64::MAX, 999_999_999))
    );
    assert_eq!(
        parse_bandwidth("18446744073709551615Gbps 1000000000bps"),
        Err(Error::NumberOverflow)
    );
    assert_eq!(parse_bandwidth("18446744073709551615bps"), Ok(Bandwidth::from_bps(u64::MAX)));
    assert_eq!(parse_bandwidth("18446744073709551.616kbps"), Err(Error::NumberOverflow));
    assert_eq!(
        parse_bandwidth("18446744073709551.615kbps"),
        Ok(Bandwidth::from_bps(u64::MAX))
    );
    assert_eq!(
        parse_bandwidth("18446744073709551.615Tbps"),
        Ok(Bandwidth::new(18_446_744_073_709_551_615, 0))
    );
    assert_eq!(parse_bandwidth("18446744073709551.616Tbps"), Err(Error::NumberOverflow));
    assert_eq!(
        parse_binary_bandwidth("2305843009213693951B/s"),
        Ok(Bandwidth::from_bps(u64::MAX - 7))
    );
    assert_eq!(parse_binary_bandwidth("2305843009213693952B/s"), Err(Error::NumberOverflow));
    assert_eq!(parse_binary_bandwidth("2097152TiB/s"), Err(Error::NumberOverflow));
}

#[test]
fn digits_beyond_the_cap_are_passed_over() {
    assert_eq!(parse_bandwidth("150.02456kbps"), parse_bandwidth("150.024567891234kbps"));
    assert_eq!(parse_bandwidth("150.02456kbps"), Ok(Bandwidth::new(0, 150_024)));
    assert_eq!(
        parse_bandwidth("1.1234567890129999999999999999999Tbps"),
        Ok(Bandwidth::new(1_123, 456_789_012))
    );
}

#[test]
fn spans_add_up_in_any_order() {
    assert_eq!(
        parse_binary_bandwidth("10GiBps 5MiBps 1B/s"),
        parse_binary_bandwidth("5MiBps 1B/s 10GiBps")
    );
    assert_eq!(parse_bandwidth("10Gbps 5Mbps 1b/s"), parse_bandwidth("1b/s 10Gbps 5Mbps"));
    assert_eq!(parse_bandwidth("1Gbps 1Gbps"), Ok(Bandwidth::new(2, 0)));
}

#[test]
fn concrete_scenarios() {
    assert_eq!(parse_bandwidth("9Tbps 420Gbps"), Ok(Bandwidth::new(9420, 0)));
    assert_eq!(parse_bandwidth("150.024kbps"), Ok(Bandwidth::new(0, 150_024)));
    assert_eq!(format_bandwidth(Bandwidth::new(4, 500_000_000)).fmt_integer(), "4Gbps 500Mbps");
    let rate = bytes_per_second(32 * 1024 * 1024);
    assert_eq!(format_binary_bandwidth(rate).fmt_integer(), "32MiB/s");
    assert_eq!(format_binary_bandwidth(rate).fmt_decimal(None), "32MiB/s");
    assert_eq!(format_binary_bandwidth(rate).to_string(), "32MiB/s");
    assert_eq!(
        parse_binary_bandwidth("10 byte/s"),
        Err(Error::UnknownBinaryUnit {
            start: 3,
            end: 9,
            unit: "byte/s".to_string(),
            value: 10
        })
    );
}

#[test]
fn every_error_has_an_input() {
    assert_eq!(parse_bandwidth(""), Err(Error::Empty));
    assert_eq!(parse_bandwidth(" \t\n"), Err(Error::Empty));
    assert_eq!(parse_bandwidth("x"), Err(Error::NumberExpected(0)));
    assert_eq!(parse_bandwidth("   x"), Err(Error::NumberExpected(0)));
    assert_eq!(parse_bandwidth("1bps   x"), Err(Error::NumberExpected(5)));
    assert_eq!(parse_bandwidth("2 Mbps kbps"), Err(Error::NumberExpected(7)));
    assert_eq!(parse_bandwidth("1.2.3bps"), Err(Error::InvalidCharacter(3)));
    assert_eq!(parse_bandwidth("1,5bps"), Err(Error::InvalidCharacter(1)));
    assert_eq!(parse_bandwidth("1b-s"), Err(Error::InvalidCharacter(2)));
    assert_eq!(parse_bandwidth("1\u{e9}"), Err(Error::InvalidCharacter(1)));
    assert_eq!(parse_bandwidth("1bps\u{e9}"), Err(Error::InvalidCharacter(4)));
    assert_eq!(
        parse_bandwidth("12"),
        Err(Error::UnknownUnit { start: 2, end: 2, unit: String::new(), value: 12 })
    );
    assert_eq!(
        parse_bandwidth("12 "),
        Err(Error::UnknownUnit { start: 3, end: 3, unit: String::new(), value: 12 })
    );
    assert_eq!(
        parse_bandwidth("1.5kiB/s"),
        Err(Error::UnknownUnit { start: 3, end: 8, unit: "kiB/s".to_string(), value: 1 })
    );
    assert_eq!(
        parse_bandwidth("7Mbps3furlongs 1bps"),
        Err(Error::UnknownUnit { start: 6, end: 14, unit: "furlongs".to_string(), value: 3 })
    );
    assert_eq!(
        parse_binary_bandwidth("3kbps"),
        Err(Error::UnknownBinaryUnit { start: 1, end: 5, unit: "kbps".to_string(), value: 3 })
    );
    assert_eq!(parse_binary_bandwidth(""), Err(Error::Empty));
    assert_eq!(parse_binary_bandwidth("1_0B/s"), Err(Error::InvalidCharacter(1)));
    assert_eq!(parse_bandwidth("99999999999999999999"), Err(Error::NumberOverflow));
}

#[test]
fn an_earlier_failure_wins() {
    assert_eq!(
        parse_bandwidth("1xbps 99999999999999999999bps"),
        Err(Error::UnknownUnit { start: 1, end: 5, unit: "xbps".to_string(), value: 1 })
    );
    assert_eq!(parse_bandwidth("18446744073709551615Gbps 1Gbps 5x"), Err(Error::NumberOverflow));
    assert_eq!(parse_bandwidth("1xbps!"), Err(Error::InvalidCharacter(5)));
}

#[test]
fn fillers_inside_a_number() {
    assert_eq!(parse_bandwidth("1_000_000bps"), Ok(Bandwidth::new(0, 1_000_000)));
    assert_eq!(parse_bandwidth("1 000 000 bps"), Ok(Bandwidth::new(0, 1_000_000)));
    assert_eq!(parse_bandwidth("1 . 5 Gbps"), Ok(Bandwidth::new(1, 500_000_000)));
    assert_eq!(parse_bandwidth("1.0_5Gbps"), Ok(Bandwidth::new(1, 50_000_000)));
    assert_eq!(parse_bandwidth("  7Mbps3kbps  "), Ok(Bandwidth::new(0, 7_003_000)));
    assert_eq!(parse_bandwidth("1.bps"), Ok(Bandwidth::new(0, 1)));
    assert_eq!(parse_binary_bandwidth("1 024 B/s"), Ok(bytes_per_second(1024)));
}

#[test]
fn white_space_is_what_the_standard_library_calls_so() {
    for code in 0..=0x10ffffu32 {
        let Some(c) = char::from_u32(code) else {
            continue;
        };
        if c.is_ascii_digit() || c.is_ascii_alphabetic() || c == '/' || c == '.' || c == '_' {
            continue;
        }
        let inside = format!("1{c}2bps");
        let before = format!("{c}12bps");
        let after = format!("12bps{c}");
        if c.is_whitespace() {
            assert_eq!(parse_bandwidth(&inside), Ok(Bandwidth::new(0, 12)), "{code:x}");
            assert_eq!(parse_bandwidth(&before), Ok(Bandwidth::new(0, 12)), "{code:x}");
            assert_eq!(parse_bandwidth(&after), Ok(Bandwidth::new(0, 12)), "{code:x}");
        } else {
            assert_eq!(parse_bandwidth(&inside), Err(Error::InvalidCharacter(1)), "{code:x}");
            assert_eq!(parse_bandwidth(&before), Err(Error::NumberExpected(0)), "{code:x}");
            assert_eq!(parse_bandwidth(&after), Err(Error::InvalidCharacter(5)), "{code:x}");
        }
    }
}

#[test]
fn white_space_of_several_bytes_counts_in_offsets() {
    assert_eq!(parse_bandwidth("1bps\u{2003}x"), Err(Error::NumberExpected(7)));
    assert_eq!(parse_bandwidth("\u{a0}1\u{3000}!"), Err(Error::InvalidCharacter(6)));
    assert_eq!(
        parse_bandwidth("1\u{1680}"),
        Err(Error::UnknownUnit { start: 4, end: 4, unit: String::new(), value: 1 })
    );
}

#[test]
fn fraction_digits_are_padded_or_cut() {
    assert_eq!(parse_fraction(5, 1, 3), 500);
    assert_eq!(parse_fraction(123_456, 6, 3), 123);
    assert_eq!(parse_fraction(123_456, 6, 6), 123_456);
    assert_eq!(parse_fraction(999_999_999_999, 12, 0), 0);
    assert_eq!(parse_fraction(0, 0, 12), 0);
    assert_eq!(parse_fraction(7, 1, 12), 700_000_000_000);
}

fn float_fraction(fraction: u64, fraction_cnt: u32, factore: u64) -> u64 {
    let fraction: f64 = fraction as f64 / (10u64.pow(fraction_cnt)) as f64;
    (fraction * factore as f64).round() as u64
}

#[test]
fn binary_fractions_are_those_of_binary64() {
    // Cases where rounding the exact quotient would give one less.
    assert_eq!(parse_binary_fraction(26606898, 8, 1 << 40), 292545937301);
    assert_eq!(parse_binary_fraction(734208746278, 12, 1 << 40), 807271053748);
    assert_eq!(parse_binary_fraction(479367622062, 12, 1 << 40), 527070274437);
    assert_eq!(parse_binary_fraction(5, 1, 1), 1);
    assert_eq!(parse_binary_fraction(0, 0, 1 << 40), 0);
    assert_eq!(parse_binary_fraction(999_999_999_999, 12, 1 << 40), (1 << 40) - 1);
    assert_eq!(parse_binary_fraction(75, 2, 1 << 10), 768);
    let mut state = 7;
    for _ in 0..20000 {
        let count = (next(&mut state) % 13) as u32;
        let fraction = next(&mut state) % 10u64.pow(count);
        let factore = 1u64 << (10 * (next(&mut state) % 5));
        assert_eq!(
            parse_binary_fraction(fraction, count, factore),
            float_fraction(fraction, count, factore),
            "{fraction} {count} {factore}"
        );
    }
    // Close to a half, where a quotient of 53 bits and the exact one part.
    for _ in 0..20000 {
        let whole = (next(&mut state) % (1 << 40)) as u128;
        let near = (((2 * whole + 1) * 1_000_000_000_000) >> 41) as u64;
        for fraction in [near.saturating_sub(1), near, near + 1] {
            if fraction < 1_000_000_000_000 {
                assert_eq!(
                    parse_binary_fraction(fraction, 12, 1 << 40),
                    float_fraction(fraction, 12, 1 << 40),
                    "{fraction}"
                );
            }
        }
    }
}

#[test]
fn binary_fraction_reaches_the_parsed_rate() {
    assert_eq!(
        parse_binary_bandwidth("0.26606898TiB/s"),
        Ok(bytes_per_second(292545937301))
    );
    assert_eq!(parse_binary_bandwidth("0.5B/s"), Ok(bytes_per_second(1)));
    assert_eq!(parse_binary_bandwidth("0.4999B/s"), Ok(bytes_per_second(0)));
}

fn float_share(below: u64, level: u32) -> u64 {
    let share = below as f64 / 1024_u64.pow(level) as f64;
    (share * 1000_u64.pow(level) as f64).round() as u64
}

#[test]
fn binary_shares_are_those_of_binary64() {
    assert_eq!(scale_quotient(1058909846549 * 1_000_000_000_000, 1 << 40, 1), 963072895092);
    assert_eq!(scale_quotient(1044212796011 * 1_000_000_000_000, 1 << 40, 1), 949706005496);
    let mut state = 11;
    for _ in 0..20000 {
        let level = (next(&mut state) % 5) as u32;
        let below = next(&mut state) % 1024_u64.pow(level);
        let got = scale_quotient(
            below as u128 * 1000_u128.pow(level),
            1024_u128.pow(level),
            1,
        );
        assert_eq!(got as u64, float_share(below, level), "{below} {level}");
        assert!(got < 1000_u128.pow(level) || level == 0);
    }
    for _ in 0..20000 {
        let whole = (next(&mut state) % 1_000_000_000_000) as u128;
        let near = (((2 * whole + 1) << 40) / 2_000_000_000_000) as u64;
        for below in [near.saturating_sub(1), near, near + 1] {
            if below < 1 << 40 {
                let got = scale_quotient(below as u128 * 1_000_000_000_000, 1 << 40, 1);
                assert_eq!(got as u64, float_share(below, 4), "{below}");
            }
        }
    }
}

#[test]
fn binary_share_reaches_the_text() {
    // 1 TiB/s and 1058909846549 bytes per second more.
    let rate = bytes_per_second((1 << 40) + 1058909846549);
    assert_eq!(format_binary_bandwidth(rate).fmt_decimal(None), "1.963072895092TiB/s");
    assert_eq!(format_binary_bandwidth(rate).fmt_decimal(Some(12)), "1.963072895092TiB/s");
    assert_eq!(format_binary_bandwidth(rate).fmt_decimal(Some(20)), "1.963072895092TiB/s");
    assert_eq!(format_binary_bandwidth(rate).fmt_decimal(Some(3)), "1.963TiB/s");
}

#[test]
fn one_digit_is_discarded_by_the_rules() {
    assert_eq!(discard_digit(120, Direction::Exact), (12, Direction::Exact));
    assert_eq!(discard_digit(120, Direction::Up), (12, Direction::Up));
    assert_eq!(discard_digit(124, Direction::Up), (12, Direction::Down));
    assert_eq!(discard_digit(126, Direction::Down), (13, Direction::Up));
    assert_eq!(discard_digit(125, Direction::Exact), (12, Direction::Down));
    assert_eq!(discard_digit(135, Direction::Exact), (14, Direction::Up));
    assert_eq!(discard_digit(125, Direction::Down), (13, Direction::Up));
    assert_eq!(discard_digit(135, Direction::Up), (13, Direction::Down));
}

#[test]
fn ties_resolve_to_even() {
    assert_eq!(round_digits(25, 1), 2);
    assert_eq!(round_digits(35, 1), 4);
    assert_eq!(round_digits(250, 2), 2);
    assert_eq!(round_digits(350, 2), 4);
    assert_eq!(round_digits(251, 2), 3);
    assert_eq!(round_digits(349, 2), 3);
    assert_eq!(round_digits(2_500_000, 6), 2);
    assert_eq!(round_digits(3_500_000, 6), 4);
    assert_eq!(round_digits(2_500_001, 6), 3);
    assert_eq!(round_digits(3_499_999, 6), 3);
    assert_eq!(round_digits(501, 3), 1);
    assert_eq!(round_digits(500, 3), 0);
    assert_eq!(round_digits(1_500, 3), 2);
    assert_eq!(round_digits(96, 2), 1);
    assert_eq!(round_digits(56, 2), 1);
    assert_eq!(round_digits(45, 2), 0);
    assert_eq!(round_digits(12_345, 0), 12_345);
    let mut state = 3;
    for _ in 0..20000 {
        let value = next(&mut state) % 1_000_000_000_000;
        let count = (next(&mut state) % 13) as u32;
        let unit = 10u64.pow(count);
        let (whole, rest) = (value / unit, value % unit);
        let wanted = if 2 * rest > unit || (2 * rest == unit && whole % 2 == 1) {
            whole + 1
        } else {
            whole
        };
        assert_eq!(round_digits(value, count), wanted, "{value} {count}");
    }
}

#[test]
fn precision_rounds_at_the_boundaries() {
    let table = [
        // bits per second, precision, text
        (1_250_000u64, 1usize, "1.2Mbps"),
        (1_350_000, 1, "1.4Mbps"),
        (1_250_001, 1, "1.3Mbps"),
        (1_349_999, 1, "1.3Mbps"),
        (2_500_000, 0, "2Mbps"),
        (3_500_000, 0, "4Mbps"),
        (2_500_001, 0, "3Mbps"),
        (1_000_500, 3, "1.000Mbps"),
        (1_001_500, 3, "1.002Mbps"),
        (1_234_565, 5, "1.23456Mbps"),
        (1_234_575, 5, "1.23458Mbps"),
        (1_234_567, 6, "1.234567Mbps"),
        (1_234_567, 9, "1.234567Mbps"),
        (1_200_000, 6, "1.200000Mbps"),
        (1_200_000, 4, "1.2000Mbps"),
        (1_999_999, 3, "2.000Mbps"),
        (1_999_500, 3, "2.000Mbps"),
        (1_999_499, 3, "1.999Mbps"),
        (999_999_999, 0, "1000Mbps"),
        (999_999_999, 2, "1000.00Mbps"),
        (15, 0, "15bps"),
        (15, 4, "15bps"),
        (1_500, 0, "2kbps"),
        (2_500, 0, "2kbps"),
    ];
    for (bits, precision, text) in table {
        assert_eq!(
            format_bandwidth(Bandwidth::from_bps(bits)).fmt_decimal(Some(precision)),
            text
        );
    }
    let binary = [
        // bytes per second, precision, text
        (1024 + 256u64, 1usize, "1.2kiB/s"),
        (1024 + 768, 1, "1.8kiB/s"),
        (1024 + 512, 0, "2kiB/s"),
        (2048 + 512, 0, "2kiB/s"),
        (1024 * 1024 - 1, 0, "1024kiB/s"),
        (1024 * 1024 - 1, 2, "1024.00kiB/s"),
        (1024 * 1024 - 1, 3, "1023.999kiB/s"),
        (1024 + 128, 2, "1.12kiB/s"),
        (1024 + 128, 3, "1.125kiB/s"),
        (1024 + 128, 7, "1.125kiB/s"),
    ];
    for (bytes, precision, text) in binary {
        assert_eq!(
            format_binary_bandwidth(bytes_per_second(bytes)).fmt_decimal(Some(precision)),
            text
        );
    }
}

#[test]
fn zero_is_zero_base_units() {
    assert_eq!(format_bandwidth(Bandwidth::new(0, 0)).fmt_decimal(None), "0bps");
    assert_eq!(format_bandwidth(Bandwidth::new(0, 0)).fmt_decimal(Some(3)), "0bps");
    assert_eq!(format_bandwidth(Bandwidth::new(0, 0)).fmt_integer(), "0bps");
    assert_eq!(format_bandwidth(Bandwidth::new(0, 0)).to_string(), "0bps");
    assert_eq!(format_binary_bandwidth(Bandwidth::new(0, 0)).fmt_decimal(None), "0B/s");
    assert_eq!(format_binary_bandwidth(Bandwidth::new(0, 0)).fmt_decimal(Some(2)), "0B/s");
    assert_eq!(format_binary_bandwidth(Bandwidth::new(0, 0)).fmt_integer(), "0B/s");
}

#[test]
fn bits_are_rounded_to_bytes_once() {
    assert_eq!(format_binary_bandwidth(Bandwidth::new(0, 3)).fmt_decimal(None), "0B/s");
    assert_eq!(format_binary_bandwidth(Bandwidth::new(0, 3)).fmt_integer(), "");
    assert_eq!(format_binary_bandwidth(Bandwidth::new(0, 4)).fmt_integer(), "1B/s");
    assert_eq!(format_binary_bandwidth(Bandwidth::new(0, 11)).fmt_integer(), "1B/s");
    assert_eq!(format_binary_bandwidth(Bandwidth::new(0, 12)).fmt_integer(), "2B/s");
    assert_eq!(format_binary_bandwidth(Bandwidth::new(0, 8188)).fmt_decimal(None), "1kiB/s");
}

#[test]
fn the_largest_unit_with_a_whole_part_is_chosen() {
    assert_eq!(format_bandwidth(Bandwidth::new(0, 999)).fmt_decimal(None), "999bps");
    assert_eq!(format_bandwidth(Bandwidth::new(0, 1_000)).fmt_decimal(None), "1kbps");
    assert_eq!(format_bandwidth(Bandwidth::new(0, 999_999)).fmt_decimal(None), "999.999kbps");
    assert_eq!(format_bandwidth(Bandwidth::new(0, 1_000_000)).fmt_decimal(None), "1Mbps");
    assert_eq!(format_bandwidth(Bandwidth::new(1, 0)).fmt_decimal(None), "1Gbps");
    assert_eq!(
        format_bandwidth(Bandwidth::new(999, 999_999_999)).fmt_decimal(None),
        "999.999999999Gbps"
    );
    assert_eq!(format_bandwidth(Bandwidth::new(1_000, 1)).fmt_decimal(None), "1.000000000001Tbps");
    assert_eq!(
        format_bandwidth(Bandwidth::new(u64::MAX, 999_999_999)).fmt_decimal(None),
        "18446744073709551.615999999999Tbps"
    );
    assert_eq!(
        format_bandwidth(Bandwidth::new(u64::MAX, 999_999_999)).fmt_integer(),
        "18446744073709551Tbps 615Gbps 999Mbps 999kbps 999bps"
    );
    assert_eq!(format_binary_bandwidth(bytes_per_second(1023)).fmt_decimal(None), "1023B/s");
    assert_eq!(format_binary_bandwidth(bytes_per_second(1024)).fmt_decimal(None), "1kiB/s");
    assert_eq!(
        format_binary_bandwidth(bytes_per_second(5 << 40)).fmt_decimal(None),
        "5TiB/s"
    );
}

#[test]
fn text_in_whole_numbers_parses_back() {
    let mut state = 5;
    for _ in 0..5000 {
        let gbps = next(&mut state) >> (next(&mut state) % 53);
        let bps = (next(&mut state) % 1_000_000_000) as u32 >> (next(&mut state) % 30);
        let rate = Bandwidth::new(gbps, bps);
        assert_eq!(parse_bandwidth(&format_bandwidth(rate).fmt_integer()), Ok(rate));
        assert_eq!(parse_bandwidth(&format_bandwidth(rate).fmt_decimal(None)), Ok(rate));
    }
    for _ in 0..5000 {
        let bytes = (next(&mut state) >> (next(&mut state) % 53)) % (1 << 61);
        let rate = bytes_per_second(bytes);
        assert_eq!(
            parse_binary_bandwidth(&format_binary_bandwidth(rate).fmt_integer()),
            Ok(rate)
        );
    }
    assert_eq!(
        parse_bandwidth(&format_bandwidth(Bandwidth::new(u64::MAX, 999_999_999)).fmt_integer()),
        Ok(Bandwidth::new(u64::MAX, 999_999_999))
    );
}

#[test]
fn messages_name_what_went_wrong() {
    assert_eq!(Error::InvalidCharacter(17).to_string(), "invalid character at 17");
    assert_eq!(Error::NumberExpected(0).to_string(), "expected number at 0");
    assert_eq!(Error::NumberOverflow.to_string(), "number is too large");
    assert_eq!(Error::Empty.to_string(), "value was empty");
    assert_eq!(
        Error::UnknownUnit { start: 0, end: 3, unit: "a\"b".to_string(), value: 1 }.to_string(),
        "unknown bandwidth unit \"a\\\"b\", supported units: bps, kbps, Mbps, Gbps, Tbps"
    );
    assert_eq!(
        Error::UnknownBinaryUnit { start: 0, end: 0, unit: String::new(), value: 20 }.to_string(),
        "binary bandwidth unit needed, for example 20MiB/s or 20B/s"
    );
}

#[test]
fn rates_add_up_to_the_capacity() {
    assert_eq!(
        Bandwidth::new(1, 999_999_999).checked_add(Bandwidth::new(2, 1)),
        Some(Bandwidth::new(4, 0))
    );
    assert_eq!(Bandwidth::new(u64::MAX, 999_999_999).checked_add(Bandwidth::new(0, 1)), None);
    assert_eq!(Bandwidth::new(u64::MAX, 0).checked_add(Bandwidth::new(1, 0)), None);
    assert_eq!(Bandwidth::new(5, 7).as_gbps(), 5);
    assert_eq!(Bandwidth::new(5, 7).subgbps_bps(), 7);
    assert_eq!(Bandwidth::new(5, 7).as_bps(), 5_000_000_007);
    assert_eq!(Bandwidth::from_bps(5_000_000_007), Bandwidth::new(5, 7));
}

#[test]
fn two_texts_stand_for_the_sum() {
    let parts = ["1Gbps", " 2.5Mbps 3bps ", "7kbps8bps", "18446744073709551615Gbps"];
    for front in parts {
        for back in parts {
            let sum = parse_bandwidth(front)
                .unwrap()
                .checked_add(parse_bandwidth(back).unwrap())
                .ok_or(Error::NumberOverflow);
            assert_eq!(parse_bandwidth(&format!("{front} {back}")), sum);
            assert_eq!(parse_bandwidth(&format!("{back} {front}")), sum);
        }
    }
    let binary = ["1GiB/s", "0.5kiB/s 3B/s", "2305843009213693951B/s"];
    for front in binary {
        for back in binary {
            let sum = parse_binary_bandwidth(front)
                .unwrap()
                .checked_add(parse_binary_bandwidth(back).unwrap())
                .ok_or(Error::NumberOverflow);
            assert_eq!(parse_binary_bandwidth(&format!("{front} {back}")), sum);
        }
    }
}
