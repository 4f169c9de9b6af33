use tcp_speeder::clock::{utc_from_unix, utc_now, ClockError};
use tcp_speeder::records::{Stamp, LATEST_TIMESTAMP};

#[test]
fn clock_reads_the_present() {
    let now = utc_now().unwrap();
    let expected = chrono::Utc::now();
    assert!(now.secs > 1_600_000_000);
    assert!((now.secs - expected.timestamp()).abs() <= 5);
    assert!(now.nanos < 1_000_000_000);
}

#[test]
fn clock_reading_to_utc() {
    assert_eq!(utc_from_unix(0, 0), Ok(Stamp { secs: 0, nanos: 0 }));
    assert_eq!(utc_from_unix(1_700_000_000, 123), Ok(Stamp { secs: 1_700_000_000, nanos: 123 }));
    assert_eq!(utc_from_unix(LATEST_TIMESTAMP as u64, 999_999_999), Ok(Stamp { secs: LATEST_TIMESTAMP, nanos: 999_999_999 }));
    assert_eq!(utc_from_unix(LATEST_TIMESTAMP as u64 + 1, 0), Err(ClockError::OutOfRange));
    assert_eq!(utc_from_unix(u64::MAX, 0), Err(ClockError::OutOfRange));
}
