use btc_contribs::dates::{civil_from_days, months_before_rfc3339, unix_to_rfc3339};
use btc_contribs::clock::{months_ago_rfc3339, months_before_checked, now_rfc3339, now_secs};

#[test]
fn timestamps() {
    assert_eq!(unix_to_rfc3339(0), "1970-01-01T00:00:00Z");
    assert_eq!(unix_to_rfc3339(86399), "1970-01-01T23:59:59Z");
    assert_eq!(unix_to_rfc3339(-1), "1969-12-31T23:59:59Z");
    assert_eq!(unix_to_rfc3339(951782400), "2000-02-29T00:00:00Z");
    assert_eq!(unix_to_rfc3339(1700000000), "2023-11-14T22:13:20Z");
    assert_eq!(unix_to_rfc3339(-62135596800), "0001-01-01T00:00:00Z");
    assert_eq!(unix_to_rfc3339(-62167305600), "-001-12-31T00:00:00Z");
    assert_eq!(unix_to_rfc3339(253402300800), "10000-01-01T00:00:00Z");
    assert_eq!(unix_to_rfc3339(i64::MIN), "-292277022657-01-27T08:29:52Z");
}

#[test]
fn civil_dates() {
    assert_eq!(civil_from_days(0), (1970, 1, 1));
    assert_eq!(civil_from_days(-1), (1969, 12, 31));
    assert_eq!(civil_from_days(19723), (2024, 1, 1));
    assert_eq!(civil_from_days(-719468), (0, 3, 1));
    assert_eq!(civil_from_days(-719469), (0, 2, 29));
    assert_eq!(civil_from_days(2932896), (9999, 12, 31));
}

#[test]
fn months_of_thirty_one_days() {
    assert_eq!(months_before_rfc3339(1700000000, 5), "2023-06-12T22:13:20Z");
    assert_eq!(months_before_rfc3339(1700000000, 0), "2023-11-14T22:13:20Z");
    assert_eq!(months_ago_rfc3339(i64::MAX), None);
    let t = months_ago_rfc3339(5).unwrap();
    assert_eq!(t.len(), 20);
    assert!(t.ends_with('Z'));
}

#[test]
fn clock_reads_now() {
    let now = now_secs();
    assert!(now > 1_600_000_000);
    let t = now_rfc3339();
    assert_eq!(t.len(), 20);
    assert_eq!(&t[10..11], "T");
}

fn days_in_month(y: i64, m: i64) -> i64 {
    let leap = y % 4 == 0 && (y % 100 != 0 || y % 400 == 0);
    match m {
        2 => if leap { 29 } else { 28 },
        4 | 6 | 9 | 11 => 30,
        _ => 31,
    }
}

#[test]
fn civil_days_follow_the_calendar() {
    let starts = [-1_000_000i64, -719_470, -146_100, -1_000, 10_950, 2_932_800, 30_000_000];
    for start in starts {
        for d in start..start + 3_000 {
            let (y, m, dd) = civil_from_days(d);
            assert!((1..=12).contains(&m) && dd >= 1 && dd <= days_in_month(y, m));
            let next = if dd < days_in_month(y, m) {
                (y, m, dd + 1)
            } else if m < 12 {
                (y, m + 1, 1)
            } else {
                (y + 1, 1, 1)
            };
            assert_eq!(civil_from_days(d + 1), next);
        }
    }
}

#[test]
fn months_before_checked_refuses_out_of_range_times() {
    assert_eq!(months_before_checked(1700000000, 5), Some("2023-06-12T22:13:20Z".to_string()));
    assert_eq!(months_before_checked(i64::MIN, 1), None);
    assert_eq!(months_before_checked(i64::MAX, -1), None);
    assert_eq!(months_before_checked(0, i64::MAX), None);
    assert_eq!(months_before_checked(0, -5), Some("1970-06-05T00:00:00Z".to_string()));
}
