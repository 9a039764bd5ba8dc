use humanize::duration::{
    duration, leading_fraction, leading_int, parse, parse_duration, to_string, Duration, Error,
};

const NANOSECOND: i64 = 1;
const MICROSECOND: i64 = 1000 * NANOSECOND;
const MILLISECOND: i64 = 1000 * MICROSECOND;
const SECOND: i64 = 1000 * MILLISECOND;
const MINUTE: i64 = 60 * SECOND;
const HOUR: i64 = 60 * MINUTE;

#[test]
fn test_leading_int() {
    let (x, remain) = leading_int("12h").unwrap();
    assert_eq!(x, 12u64);
    assert_eq!(remain, "h");
}

#[test]
fn test_leading_int_overflow() {
    let err = leading_int("999999999999999999999").unwrap_err();
    assert_eq!(err, Error::BadInteger)
}

#[test]
fn test_parse_duration() {
    let tests = [
        // simple
        ("0", 0),
        ("5s", 5 * SECOND),
        ("30s", 30 * SECOND),
        ("1478s", 1478 * SECOND),
        // sign
        ("-5s", -5 * SECOND),
        ("+5s", 5 * SECOND),
        ("-0", 0),
        ("+0", 0),
        // decimal
        ("5.0s", 5 * SECOND),
        ("5.6s", 5 * SECOND + 600 * MILLISECOND),
        ("5.s", 5 * SECOND),
        (".5s", 500 * MILLISECOND),
        ("1.0s", SECOND),
        ("1.00s", SECOND),
        ("1.004s", SECOND + 4 * MILLISECOND),
        ("1.0040s", SECOND + 4 * MILLISECOND),
        ("100.00100s", 100 * SECOND + MILLISECOND),
        // different units
        ("10ns", 10 * NANOSECOND),
        ("11us", 11 * MICROSECOND),
        ("12µs", 12 * MICROSECOND),                       // U+00B5
        ("12µs10ns", 12 * MICROSECOND + 10 * NANOSECOND), // U+00B5
        ("12μs", 12 * MICROSECOND),                       // U+03BC
        ("12μs10ns", 12 * MICROSECOND + 10 * NANOSECOND), // U+03BC
        ("13ms", 13 * MILLISECOND),
        ("14s", 14 * SECOND),
        ("15m", 15 * MINUTE),
        ("16h", 16 * HOUR),
        // composite durations
        ("3h30m", 3 * HOUR + 30 * MINUTE),
        ("10.5s4m", 4 * MINUTE + 10 * SECOND + 500 * MILLISECOND),
        ("-2m3.4s", -(2 * MINUTE + 3 * SECOND + 400 * MILLISECOND)),
        (
            "1h2m3s4ms5us6ns",
            HOUR + 2 * MINUTE + 3 * SECOND + 4 * MILLISECOND + 5 * MICROSECOND + 6 * NANOSECOND,
        ),
        (
            "39h9m14.425s",
            39 * HOUR + 9 * MINUTE + 14 * SECOND + 425 * MILLISECOND,
        ),
        // large value
        ("52763797000ns", 52763797000 * NANOSECOND),
        // more than 9 digits after decimal point
        ("0.3333333333333333333h", 20 * MINUTE),
        // 9007199254740993 = 1<<53+1 cannot be stored precisely in a binary64
        ("9007199254740993ns", ((1i64 << 53) + 1) * NANOSECOND),
        // largest duration that can be represented by a signed 64-bit count
        ("9223372036854775807ns", i64::MAX * NANOSECOND),
        ("9223372036854775.807us", i64::MAX * NANOSECOND),
        ("9223372036s854ms775us807ns", i64::MAX * NANOSECOND),
        // huge string
        ("0.100000000000000000000h", 6 * MINUTE),
        // this value tests the first overflow check in the fraction scanner
        (
            "0.830103483285477580700h",
            49 * MINUTE + 48 * SECOND + 372539827 * NANOSECOND,
        ),
    ];

    for (input, want) in tests {
        let got = parse(input).expect(&format!("parse {input} success"));
        assert_eq!(got, want, "input: {}", input);
    }
}

#[test]
fn parse_us() {
    let input = "12µs"; // U+00B5
    let _d = parse_duration(input).unwrap();

    let input = "12μs"; // U+03BC
    let _d = parse_duration(input).unwrap();
}

#[test]
fn test_leading_fraction() {
    let (f, digits, r) = leading_fraction("6s");
    assert_eq!(6, f);
    assert_eq!(1, digits);
    assert_eq!(r, "s");
}

#[test]
fn test_duration_to_string() {
    let tests = vec![
        ("0s", 0),
        ("1ns", NANOSECOND),
        ("1.1us", 1100 * NANOSECOND),
        ("2.2ms", 2200 * MICROSECOND),
        ("3.3s", 3300 * MILLISECOND),
        ("4m5s", 4 * MINUTE + 5 * SECOND),
        ("4m5.001s", 4 * MINUTE + 5001 * MILLISECOND),
        ("1h", HOUR),
        ("2h3m", 2 * HOUR + 3 * MINUTE),
        ("1h2m3s", HOUR + 2 * MINUTE + 3 * SECOND),
        (
            "1h2m3.4s",
            HOUR + 2 * MINUTE + 3 * SECOND + 400 * MILLISECOND,
        ),
        ("1m", MINUTE),
        ("5h6m7.001s", 5 * HOUR + 6 * MINUTE + 7001 * MILLISECOND),
        ("8m0.000000001s", 8 * MINUTE + NANOSECOND),
        ("2562047h47m16.854775807s", i64::MAX),
        ("-2562047h47m16.854775808s", i64::MIN),
    ];

    for (want, input) in tests {
        let d = Duration::from_nanos(input as u64);
        assert_eq!(duration(&d), want, "want {want}")
    }
}

#[test]
fn zero_forms() {
    assert_eq!(parse_duration("0").unwrap().nanos, 0);
    assert_eq!(parse_duration("-0").unwrap().nanos, 0);
    assert_eq!(parse_duration("+0").unwrap().nanos, 0);
    assert_eq!(to_string(0), "0s");
}

#[test]
fn micro_sign_equivalence() {
    let a = parse_duration("12µs").unwrap(); // U+00B5
    let b = parse_duration("12μs").unwrap(); // U+03BC
    let c = parse_duration("12us").unwrap();
    assert_eq!(a, b);
    assert_eq!(b, c);
    assert_eq!(c.nanos, 12 * MICROSECOND);
}

#[test]
fn composite_accumulation() {
    let whole = parse("1h2m3s4ms5us6ns").unwrap();
    let sum = parse("1h").unwrap()
        + parse("2m").unwrap()
        + parse("3s").unwrap()
        + parse("4ms").unwrap()
        + parse("5us").unwrap()
        + parse("6ns").unwrap();
    assert_eq!(whole, sum);
}

#[test]
fn overflow_boundary() {
    assert_eq!(parse("9223372036854775807ns").unwrap(), i64::MAX);
    assert_eq!(
        parse("9223372036854775808ns").unwrap_err(),
        Error::InvalidDuration
    );
    assert_eq!(
        parse("9223372036854775807ns1ns").unwrap_err(),
        Error::InvalidDuration
    );
}

#[test]
fn precision_saturation() {
    assert_eq!(parse("0.3333333333333333333h").unwrap(), 20 * MINUTE);
}

#[test]
fn round_trip_canonical_forms() {
    let values = [
        0,
        1,
        -1,
        999,
        1000,
        1100,
        999_999_999,
        1_000_000_000,
        59_999_999_999,
        60_000_000_000,
        3_599_000_000_001,
        -3_599_000_000_001,
        i64::MAX,
        i64::MIN,
    ];
    for v in values {
        let s = to_string(v);
        assert_eq!(parse(&s).unwrap(), v, "round trip of {s}");
    }
}

#[test]
fn malformed_rejection() {
    assert_eq!(parse_duration("").unwrap_err(), Error::InvalidDuration);
    assert_eq!(parse_duration(".s").unwrap_err(), Error::InvalidDuration);
    assert_eq!(parse_duration("-.s").unwrap_err(), Error::InvalidDuration);
    assert_eq!(parse_duration("5").unwrap_err(), Error::MissingUnit);
    assert_eq!(parse_duration("5x").unwrap_err(), Error::UnknownUnit);
    assert_eq!(parse_duration("x").unwrap_err(), Error::InvalidDuration);
}

#[test]
fn sub_second_formatting() {
    assert_eq!(to_string(1_100), "1.1us");
    assert_eq!(to_string(1), "1ns");
    assert_eq!(to_string(1_100_000), "1.1ms");
}

#[test]
fn error_messages() {
    assert_eq!(Error::BadInteger.message(), "bad integer");
    assert_eq!(Error::InvalidDuration.message(), "invalid duration");
    assert_eq!(Error::MissingUnit.message(), "missing unit");
    assert_eq!(Error::UnknownUnit.message(), "unknown unit");
}
