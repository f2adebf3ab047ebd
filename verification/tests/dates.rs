use slack_adapter::Date;

#[test]
fn invalid_dates_are_refused() {
    assert!(Date::from_ymd_opt(2023, 2, 29).is_none());
    assert!(Date::from_ymd_opt(2024, 2, 29).is_some());
    assert!(Date::from_ymd_opt(1900, 2, 29).is_none());
    assert!(Date::from_ymd_opt(2000, 2, 29).is_some());
    assert!(Date::from_ymd_opt(2024, 13, 1).is_none());
    assert!(Date::from_ymd_opt(2024, 4, 31).is_none());
    assert!(Date::from_ymd_opt(2024, 1, 0).is_none());
    assert!(Date::from_ymd_opt(262143, 1, 1).is_none());
    assert!(Date::from_ymd_opt(-262144, 12, 31).is_none());
}

#[test]
fn neighbours_of_dates() {
    let d = Date::from_ymd_opt(2024, 3, 1).unwrap();
    let p = d.pred_opt().unwrap();
    assert_eq!((p.year(), p.month(), p.day()), (2024, 2, 29));
    let n = p.succ_opt().unwrap();
    assert_eq!((n.year(), n.month(), n.day()), (2024, 3, 1));
    let e = Date::from_ymd_opt(2026, 12, 31).unwrap().succ_opt().unwrap();
    assert_eq!((e.year(), e.month(), e.day()), (2027, 1, 1));
    assert!(Date::from_ymd_opt(-262143, 1, 1).unwrap().pred_opt().is_none());
    assert!(Date::from_ymd_opt(262142, 12, 31).unwrap().succ_opt().is_none());
}

#[test]
fn ymd_rendering() {
    let f = |y, m, d| Date::from_ymd_opt(y, m, d).unwrap().format_ymd();
    assert_eq!(f(2026, 5, 4), "2026-05-04");
    assert_eq!(f(7, 1, 9), "0007-01-09");
    assert_eq!(f(10000, 10, 10), "+10000-10-10");
    assert_eq!(f(-1, 12, 31), "-0001-12-31");
}
