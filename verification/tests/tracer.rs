use jif::text::IntErrorKind;
use jif::tracer::{dedup_and_sort, read_trace, ParseTimestampedAccessError, TimestampedAccess, TraceReadError};

#[test]
fn ok_parse() {
    assert_eq!("1234: 5678".parse::<TimestampedAccess>().unwrap(), TimestampedAccess { usecs: 1234, addr: 5678 });
    assert_eq!("1234: 0x1234".parse::<TimestampedAccess>().unwrap(), TimestampedAccess { usecs: 1234, addr: 0x1234 });
}

#[test]
fn err_parse() {
    assert!(matches!("0xdead: 0x1234".parse::<TimestampedAccess>(), Err(ParseTimestampedAccessError::BadTimestamp(_)),));
    assert!(matches!("notanumber: 0x1234".parse::<TimestampedAccess>(), Err(ParseTimestampedAccessError::BadTimestamp(_)),));
    assert!(matches!("notanumber: alsonotanumber".parse::<TimestampedAccess>(), Err(ParseTimestampedAccessError::BadTimestamp(_)),));
    assert!(matches!("1234: notanumber".parse::<TimestampedAccess>(), Err(ParseTimestampedAccessError::BadAddr(_)),));
    assert!(matches!("1234  0x1234".parse::<TimestampedAccess>(), Err(ParseTimestampedAccessError::MissingDelimiter(_)),));
}

#[test]
fn cmp() {
    assert!(TimestampedAccess { usecs: 1234, addr: 0xffff } < TimestampedAccess { usecs: 5678, addr: 0x0000 });
    assert!(TimestampedAccess { usecs: 5678, addr: 0xffff } > TimestampedAccess { usecs: 1234, addr: 0x0000 });
    assert!(TimestampedAccess { usecs: 1234, addr: 0x0000 } == TimestampedAccess { usecs: 1234, addr: 0x0000 });
}

#[test]
fn parse_error_kinds() {
    assert_eq!("  7 :\t0xfF ".parse::<TimestampedAccess>(), Ok(TimestampedAccess { usecs: 7, addr: 0xff }));
    assert_eq!("+7: +9".parse::<TimestampedAccess>(), Ok(TimestampedAccess { usecs: 7, addr: 9 }));
    assert_eq!(": 1".parse::<TimestampedAccess>(), Err(ParseTimestampedAccessError::BadTimestamp(IntErrorKind::Empty)));
    assert_eq!("+: 1".parse::<TimestampedAccess>(), Err(ParseTimestampedAccessError::BadTimestamp(IntErrorKind::InvalidDigit)));
    assert_eq!(
        "1: 0x1ffffffffffffffff".parse::<TimestampedAccess>(),
        Err(ParseTimestampedAccessError::BadAddr(IntErrorKind::PosOverflow))
    );
    assert_eq!(
        "no colon".parse::<TimestampedAccess>(),
        Err(ParseTimestampedAccessError::MissingDelimiter("no colon".to_string()))
    );
}

#[test]
fn access_addresses() {
    let mut t = TimestampedAccess { usecs: 1, addr: 0x1000_0000_0000_1234 };
    assert_eq!(t.masked_addr(), 0x1234);
    t.truncate_addr();
    assert_eq!(t.raw_addr(), 0x1000_0000_0000_1000);
}

#[test]
fn read_and_dedup_trace() {
    let lines = vec!["30: 0x2010".to_string(), "10: 0x5000".to_string(), "20: 0x2fff".to_string(), "5: 0x5abc".to_string()];
    let log = read_trace(&lines).unwrap();
    let sorted = dedup_and_sort(log);
    assert_eq!(sorted, vec![TimestampedAccess { usecs: 5, addr: 0x5000 }, TimestampedAccess { usecs: 20, addr: 0x2000 }]);

    let bad = vec!["1: 2".to_string(), "oops".to_string()];
    assert_eq!(
        read_trace(&bad),
        Err(TraceReadError::ParseError { line: 1, error: ParseTimestampedAccessError::MissingDelimiter("oops".to_string()) })
    );
}

#[test]
fn parse_through_from_str() {
    let a: TimestampedAccess = "1234: 0x1234".parse().unwrap();
    assert_eq!(a, TimestampedAccess { usecs: 1234, addr: 0x1234 });
    assert!("1234  0x1234".parse::<TimestampedAccess>().is_err());
}
