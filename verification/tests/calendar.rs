use fraud_detection::calendar::day_of_week;

#[test]
fn test_day_of_week() {
    // 2026-03-11 is a Wednesday = 2
    assert_eq!(day_of_week(2026, 3, 11), 2);
    // 2026-03-14 is a Saturday = 5
    assert_eq!(day_of_week(2026, 3, 14), 5);
}

#[test]
fn weekdays_of_known_dates() {
    assert_eq!(day_of_week(1, 1, 1), 0);
    assert_eq!(day_of_week(1970, 1, 1), 3);
    assert_eq!(day_of_week(2000, 2, 29), 1);
    assert_eq!(day_of_week(1900, 3, 1), 3);
    assert_eq!(day_of_week(2026, 3, 15), 6);
    assert_eq!(day_of_week(0, 3, 1), 2);
}

#[test]
fn weekdays_follow_one_another() {
    let lengths = [31, 28, 31, 30, 31, 30, 31, 31, 30, 31, 30, 31];
    let mut expected = day_of_week(1999, 1, 1);
    for year in 1999u32..=2101 {
        let leap = year % 4 == 0 && (year % 100 != 0 || year % 400 == 0);
        for month in 1u32..=12 {
            let extra = if month == 2 && leap { 1 } else { 0 };
            for day in 1..=lengths[month as usize - 1] + extra {
                assert_eq!(day_of_week(year, month, day), expected);
                expected = (expected + 1) % 7;
            }
        }
    }
}
