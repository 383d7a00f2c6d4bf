use round_robin::logging::{
    civil, days_to_civil, is_log_file, is_out_of_date, log_file_name, today_utc,
};

#[test]
fn known_dates() {
    assert_eq!(days_to_civil(0), "1970-01-01");
    assert_eq!(days_to_civil(-1), "1969-12-31");
    assert_eq!(days_to_civil(59), "1970-03-01");
    assert_eq!(days_to_civil(11016), "2000-02-29");
    assert_eq!(days_to_civil(11017), "2000-03-01");
    assert_eq!(days_to_civil(20661), "2026-07-27");
    assert_eq!(days_to_civil(-719468), "0000-03-01");
    assert_eq!(days_to_civil(-719529), "-001-12-31");
    assert_eq!(days_to_civil(2932897), "10000-01-01");
    assert_eq!(civil(47540), (2100, 2, 28));
    assert_eq!(civil(47541), (2100, 3, 1));
}

#[test]
fn days_follow_one_another() {
    let (mut y, mut m, mut d) = civil(-200_000);
    for days in -199_999..200_000i64 {
        let next = civil(days);
        let same_month = next == (y, m, d + 1);
        let next_month = next == (y, m + 1, 1) && d >= 28;
        let next_year = next == (y + 1, 1, 1) && m == 12 && d == 31;
        assert!(same_month || next_month || next_year, "{days}");
        (y, m, d) = next;
    }
}

#[test]
fn dates_of_times() {
    assert_eq!(today_utc(86399), "1970-01-01");
    assert_eq!(today_utc(86400), "1970-01-02");
    assert_eq!(today_utc(1785110400), "2026-07-27");
}

#[test]
fn old_files_are_out_of_date() {
    assert!(!is_out_of_date(7 * 86400 - 1, 999_999_999, 7));
    assert!(!is_out_of_date(7 * 86400, 0, 7));
    assert!(is_out_of_date(7 * 86400, 1, 7));
    assert!(is_out_of_date(7 * 86400 + 1, 0, 7));
    assert!(!is_out_of_date(0, 0, 0));
    assert!(is_out_of_date(0, 1, 0));
    assert!(!is_out_of_date(u64::MAX, 999_999_999, u64::MAX));
}

#[test]
fn log_file_names() {
    let name = log_file_name("round_robin", "2026-07-27");
    assert_eq!(name, "round_robin.2026-07-27.log");
    assert!(is_log_file(&name, "round_robin"));
    assert!(is_log_file("round_robin.log", "round_robin"));
    assert!(!is_log_file("round_robin.2026-07-27.txt", "round_robin"));
    assert!(!is_log_file("other.2026-07-27.log", "round_robin"));
    assert!(!is_log_file("round", "round_robin"));
    assert!(!is_log_file("", ""));
    assert!(is_log_file(".log", ""));
}
