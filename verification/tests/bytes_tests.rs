use humanize::bytes::{bytes, ibytes, parse_bytes, Error};

// IEC sizes, powers of 1024
const BYTE: usize = 1;
const KIBYTE: usize = 1 << 10;
const MIBYTE: usize = 1 << (2 * 10);
const GIBYTE: usize = 1 << (3 * 10);
const TIBYTE: usize = 1 << (4 * 10);
const PIBYTE: usize = 1 << (5 * 10);
const EIBYTE: usize = 1 << (6 * 10);

// SI sizes, powers of 1000
const IBYTE: usize = 1;
const KBYTE: usize = IBYTE * 1000;
const MBYTE: usize = KBYTE * 1000;
const GBYTE: usize = MBYTE * 1000;
const TBYTE: usize = GBYTE * 1000;
const PBYTE: usize = TBYTE * 1000;
const EBYTE: usize = PBYTE * 1000;

#[test]
fn parse() {
    let tests = [
        ("42", 42),
        ("42b", 42),
        ("42MB", 42000000),
        ("42MiB", 44040192),
        ("42mb", 42000000),
        ("42mib", 44040192),
        ("42MIB", 44040192),
        ("42 MB", 42000000),
        ("42 MiB", 44040192),
        ("42 mb", 42000000),
        ("42 mib", 44040192),
        ("42 MIB", 44040192),
        ("42.5MB", 42500000),
        ("42.5MiB", 44564480),
        ("42.5 MB", 42500000),
        ("42.5 MiB", 44564480),
        // No need to say B
        ("42M", 42000000),
        ("42Mi", 44040192),
        ("42m", 42000000),
        ("42mi", 44040192),
        ("42MI", 44040192),
        ("42 M", 42000000),
        ("42 Mi", 44040192),
        ("42 m", 42000000),
        ("42 mi", 44040192),
        ("42 MI", 44040192),
        ("42.5M", 42500000),
        ("42.5Mi", 44564480),
        ("42.5 M", 42500000),
        ("42.5 Mi", 44564480),
        ("1005.03 MB", 1005030000),
        // Large testing, breaks when too much larger than this.
        ("12.5 EB", (12.5 * EBYTE as f64) as usize),
        ("12.5 E", (12.5 * EBYTE as f64) as usize),
        ("12.5 EiB", (12.5 * EIBYTE as f64) as usize),
    ];

    for (input, want) in tests {
        let value = parse_bytes(input).unwrap();
        assert_eq!(value, want, "input: {}", input);
    }
}

#[test]
fn stringify() {
    let tests = [
        ("bytes(0)", bytes(0), "0B"),
        ("bytes(1)", bytes(1), "1B"),
        ("bytes(803)", bytes(803), "803B"),
        ("bytes(999)", bytes(999), "999B"),
        ("bytes(1024)", bytes(1024), "1kB"),
        ("bytes(9999)", bytes(9999), "10kB"),
        ("bytes(1MB - 1)", bytes(MBYTE - BYTE), "1000kB"),
        ("bytes(1MB)", bytes(1024 * 1024), "1MB"),
        ("bytes(1GB - 1K)", bytes(GBYTE - KBYTE), "1000MB"),
        ("bytes(1GB)", bytes(GBYTE), "1GB"),
        ("bytes(1TB - 1M)", bytes(TBYTE - MBYTE), "1000GB"),
        ("bytes(10MB)", bytes(9999 * 1000), "10MB"),
        ("bytes(1TB)", bytes(TBYTE), "1TB"),
        ("bytes(1PB - 1T)", bytes(PBYTE - TBYTE), "999TB"),
        ("bytes(1PB)", bytes(PBYTE), "1PB"),
        ("bytes(1PB - 1T)", bytes(EBYTE - PBYTE), "999PB"),
        ("bytes(1EB)", bytes(EBYTE), "1EB"),
        ("bytes(0)", ibytes(0), "0B"),
        ("bytes(1)", ibytes(1), "1B"),
        ("bytes(803)", ibytes(803), "803B"),
        ("bytes(1023)", ibytes(1023), "1023B"),
        ("bytes(1024)", ibytes(1024), "1KiB"),
        ("bytes(1MB - 1)", ibytes(MIBYTE - IBYTE), "1024KiB"),
        ("bytes(1MB)", ibytes(1024 * 1024), "1MiB"),
        ("bytes(1GB - 1K)", ibytes(GIBYTE - KIBYTE), "1024MiB"),
        ("bytes(1GB)", ibytes(GIBYTE), "1GiB"),
        ("bytes(1TB - 1M)", ibytes(TIBYTE - MIBYTE), "1024GiB"),
        ("bytes(1TB)", ibytes(TIBYTE), "1TiB"),
        ("bytes(1PB - 1T)", ibytes(PIBYTE - TIBYTE), "1023TiB"),
        ("bytes(1PB)", ibytes(PIBYTE), "1PiB"),
        ("bytes(1PB - 1T)", ibytes(EIBYTE - PIBYTE), "1023PiB"),
        ("bytes(1EiB)", ibytes(EIBYTE), "1EiB"),
        (
            "bytes(5.5GiB)",
            ibytes((5.5 * GIBYTE as f64) as usize),
            "5.5GiB",
        ),
        (
            "bytes(5.5GB)",
            bytes((5.5 * GBYTE as f64) as usize),
            "5.5GB",
        ),
    ];

    for (name, got, want) in tests {
        assert_eq!(got, want, "want in {name:?}, got {got}, want {want}");
    }
}

#[test]
fn parse_bytes_rejects_bad_numbers() {
    assert_eq!(parse_bytes("").unwrap_err(), Error::InvalidNumber);
    assert_eq!(parse_bytes(".").unwrap_err(), Error::InvalidNumber);
    assert_eq!(parse_bytes("1.2.3MB").unwrap_err(), Error::InvalidNumber);
    assert_eq!(parse_bytes("MB").unwrap_err(), Error::InvalidNumber);
}

#[test]
fn parse_bytes_rejects_bad_units() {
    assert_eq!(parse_bytes("42XB").unwrap_err(), Error::UnknownUnit);
    assert_eq!(parse_bytes("42 zork").unwrap_err(), Error::UnknownUnit);
    assert_eq!(parse_bytes("42qib").unwrap_err(), Error::UnknownUnit);
}

#[test]
fn parse_bytes_fractions() {
    assert_eq!(parse_bytes("1.5kB").unwrap(), 1500);
    assert_eq!(parse_bytes("0.5 KiB").unwrap(), 512);
    assert_eq!(parse_bytes("2.").unwrap(), 2);
    assert_eq!(parse_bytes(".5k").unwrap(), 500);
}
