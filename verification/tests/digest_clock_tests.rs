use chrono::{DateTime, Utc};
use search_core::clock::{days_between, now, Timestamp};
use search_core::digest::{get_hash, to_hex};

#[test]
fn hash_is_the_md5_digest_in_hexadecimal() {
    assert_eq!(get_hash(""), "d41d8cd98f00b204e9800998ecf8427e");
    assert_eq!(get_hash("abc"), "900150983cd24fb0d6963f7d28e17f72");
    assert_eq!(get_hash("The quick brown fox jumps over the lazy dog"), "9e107d9d372bb6826bd81d3542a419d6");
}

#[test]
fn hash_agrees_with_the_digest_crate() {
    for text in ["", "a", "alpha beta", "ünïcödé"] {
        assert_eq!(get_hash(text), format!("{:x}", md5::compute(text)));
        assert_eq!(get_hash(text).len(), 32);
    }
}

#[test]
fn hash_tells_contents_apart() {
    assert_ne!(get_hash("alpha"), get_hash("alpha "));
    assert_eq!(get_hash("alpha"), get_hash("alpha"));
}

#[test]
fn hex_writes_two_digits_for_each_byte() {
    assert_eq!(to_hex(&vec![]), "");
    assert_eq!(to_hex(&vec![0x00, 0x0f, 0x10, 0xab, 0xff]), "000f10abff");
    assert_eq!(to_hex(&vec![0x09, 0x0a, 0x99, 0xa0]), "090a99a0");
}

#[test]
fn whole_days_drop_the_part_of_a_day() {
    let start = Timestamp { secs: 1_000_000, nanos: 0 };
    let day: i64 = 86_400;
    assert_eq!(days_between(start, start), 0);
    assert_eq!(days_between(start, Timestamp { secs: 1_000_000 + day - 1, nanos: 999_999_999 }), 0);
    assert_eq!(days_between(start, Timestamp { secs: 1_000_000 + day, nanos: 0 }), 1);
    assert_eq!(days_between(start, Timestamp { secs: 1_000_000 + 3 * day, nanos: 0 }), 3);
    assert_eq!(days_between(start, Timestamp { secs: 1_000_000 + 3 * day - 1, nanos: 0 }), 2);
}

#[test]
fn whole_days_count_the_nanoseconds() {
    let then = Timestamp { secs: 0, nanos: 900_000_000 };
    let later = Timestamp { secs: 3 * 86_400, nanos: 100_000_000 };
    assert_eq!(days_between(then, later), 2);
    let later = Timestamp { secs: 3 * 86_400, nanos: 900_000_000 };
    assert_eq!(days_between(then, later), 3);
}

#[test]
fn whole_days_backwards_round_towards_zero() {
    let a = Timestamp { secs: 10 * 86_400, nanos: 0 };
    let b = Timestamp { secs: 8 * 86_400 + 1, nanos: 0 };
    assert_eq!(days_between(a, b), -1);
    assert_eq!(days_between(a, Timestamp { secs: 8 * 86_400, nanos: 0 }), -2);
    assert_eq!(days_between(a, Timestamp { secs: 10 * 86_400 - 1, nanos: 0 }), 0);
}

#[test]
fn whole_days_at_the_ends_of_the_range() {
    let first = Timestamp { secs: i64::MIN, nanos: 0 };
    let last = Timestamp { secs: i64::MAX, nanos: 999_999_999 };
    assert_eq!(days_between(first, last), 213_503_982_334_601);
    assert_eq!(days_between(last, first), -213_503_982_334_601);
}

#[test]
fn whole_days_agree_with_chrono() {
    let stamps = [
        (0i64, 0u32),
        (1, 1),
        (86_399, 999_999_999),
        (86_400, 0),
        (1_700_000_000, 123_456_789),
        (1_700_259_200, 123_456_788),
        (1_700_259_200, 123_456_789),
        (-5, 500_000_000),
        (-86_401, 0),
    ];
    for (s1, n1) in stamps {
        for (s2, n2) in stamps {
            let a: DateTime<Utc> = DateTime::from_timestamp(s1, n1).unwrap();
            let b: DateTime<Utc> = DateTime::from_timestamp(s2, n2).unwrap();
            let want = (b - a).num_days();
            let got = days_between(Timestamp { secs: s1, nanos: n1 }, Timestamp { secs: s2, nanos: n2 });
            assert_eq!(got, want);
        }
    }
}

#[test]
fn now_is_the_present() {
    let before = Utc::now();
    let t = now();
    let after = Utc::now();
    assert!(t.nanos < 1_000_000_000);
    assert!(before.timestamp() <= t.secs && t.secs <= after.timestamp());
    assert!(t.secs > 1_600_000_000);
}
