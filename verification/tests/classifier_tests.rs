use buling_calendar::holiday::classify;
use buling_calendar::holiday::classify_day;
use buling_calendar::holiday::get_holidays_and_workday_in_month;
use buling_calendar::holiday::is_day_flagged;
use buling_calendar::holiday::DayClassification;
use buling_calendar::holiday::Holiday;
use buling_calendar::holiday::HolidayData;

fn record(date: &str, is_holiday: bool, name: &str) -> Holiday {
    Holiday {
        holiday: is_holiday,
        name: name.to_string(),
        wage: 1,
        date: date.to_string(),
        rest: None,
        after: None,
        target: None,
    }
}

fn dataset(records: Vec<(&str, Holiday)>) -> HolidayData {
    HolidayData {
        code: 0,
        holiday: records.into_iter().map(|(k, h)| (k.to_string(), h)).collect(),
    }
}

#[test]
fn empty_dataset_classifies_to_empty_sets() {
    let data = dataset(vec![]);
    let c = classify(&data, 2024, 2);
    assert!(c.holidays.is_empty());
    assert!(c.workdays.is_empty());
    assert_eq!(c.skipped, 0);
    // With start_weekday_index 0, day 7 falls on a Sunday and is flagged;
    // day 6 is a Saturday and is not.
    assert!(is_day_flagged(7, 0, &c.holidays, &c.workdays));
    assert!(!is_day_flagged(6, 6, &c.holidays, &c.workdays));
}

#[test]
fn sunday_makeup_workday_is_not_flagged() {
    // 2024-02-04 was a Sunday; as a compensatory workday it must not be
    // flagged despite the weekday.
    let data = dataset(vec![("02-04", record("2024-02-04", false, "makeup"))]);
    let (holidays, workdays) = get_holidays_and_workday_in_month(&data, 2024, 2);
    assert!(workdays.contains_key(&4));
    assert!(!holidays.contains_key(&4));
    let weekday_of_day_4 = (4 + 4 - 1) % 7; // start weekday 4, day 4: Sunday
    assert_eq!(weekday_of_day_4, 0);
    assert!(!is_day_flagged(4, weekday_of_day_4, &holidays, &workdays));
    assert_eq!(
        classify_day(4, &holidays, &workdays),
        DayClassification::MakeUpWorkday
    );
}

#[test]
fn records_land_in_their_map() {
    let data = dataset(vec![
        ("a", record("2024-02-10", true, "holiday")),
        ("b", record("2024-02-04", false, "makeup")),
        ("c", record("2024-03-01", true, "elsewhere")),
    ]);
    let c = classify(&data, 2024, 2);
    assert!(c.holidays.contains_key(&10));
    assert_eq!(c.holidays.get(&10), Some(&"2024-02-10".to_string()));
    assert!(c.workdays.contains_key(&4));
    assert!(!c.holidays.contains_key(&4));
    assert!(!c.workdays.contains_key(&10));
    // The March record is in neither map for February.
    assert!(!c.holidays.contains_key(&1));
    assert!(!c.workdays.contains_key(&1));
    assert_eq!(c.skipped, 0);
}

#[test]
fn records_of_other_months_are_ignored() {
    let data = dataset(vec![
        ("a", record("2024-01-10", true, "january")),
        ("b", record("2023-02-10", true, "other year")),
    ]);
    let c = classify(&data, 2024, 2);
    assert!(c.holidays.is_empty());
    assert!(c.workdays.is_empty());
    assert_eq!(c.skipped, 0);
}

#[test]
fn malformed_dates_are_skipped_not_fatal() {
    let data = dataset(vec![
        ("a", record("2024.02.04", false, "wrong separators")),
        ("b", record("nonsense", true, "no date at all")),
        ("c", record("2024-02-29", true, "valid leap day")),
    ]);
    let c = classify(&data, 2024, 2);
    assert_eq!(c.skipped, 2);
    assert!(c.holidays.contains_key(&29));
    assert!(c.workdays.is_empty());
}

#[test]
fn padded_and_unpadded_dates_classify_alike() {
    // The same calendar date in two textual renderings: membership is
    // decided on the parsed date value, not on the string's form.
    let padded = dataset(vec![("k", record("2024-02-04", false, "makeup"))]);
    let unpadded = dataset(vec![("k", record("2024-2-4", false, "makeup"))]);
    let cp = classify(&padded, 2024, 2);
    let cu = classify(&unpadded, 2024, 2);
    assert_eq!(cp.skipped, 0);
    assert_eq!(cu.skipped, 0);
    assert!(cp.workdays.contains_key(&4) && cu.workdays.contains_key(&4));
    assert_eq!(cp.workdays.len(), cu.workdays.len());
    assert!(cp.holidays.is_empty() && cu.holidays.is_empty());
    assert_eq!(
        classify_day(4, &cp.holidays, &cp.workdays),
        classify_day(4, &cu.holidays, &cu.workdays)
    );
}

#[test]
fn classify_twice_gives_identical_sets() {
    let data = dataset(vec![
        ("a", record("2024-02-10", true, "holiday")),
        ("b", record("2024-02-04", false, "makeup")),
        ("c", record("bogus", true, "skipped")),
    ]);
    let c1 = classify(&data, 2024, 2);
    let c2 = classify(&data, 2024, 2);
    assert_eq!(c1.holidays, c2.holidays);
    assert_eq!(c1.workdays, c2.workdays);
    assert_eq!(c1.skipped, c2.skipped);
}

#[test]
fn conflicting_records_last_processed_wins() {
    // Two records for the same day with conflicting flags: the record
    // processed last decides, and the day leaves the other map.
    let data = dataset(vec![
        ("a", record("2024-02-04", true, "holiday")),
        ("b", record("2024-02-04", false, "makeup")),
    ]);
    let c = classify(&data, 2024, 2);
    assert!(!c.holidays.contains_key(&4));
    assert!(c.workdays.contains_key(&4));
    assert_eq!(
        classify_day(4, &c.holidays, &c.workdays),
        DayClassification::MakeUpWorkday
    );
    assert!(!is_day_flagged(4, 0, &c.holidays, &c.workdays));

    // The other order: the later holiday record wins.
    let data2 = dataset(vec![
        ("a", record("2024-02-04", false, "makeup")),
        ("b", record("2024-02-04", true, "holiday")),
    ]);
    let c2 = classify(&data2, 2024, 2);
    assert!(c2.holidays.contains_key(&4));
    assert!(!c2.workdays.contains_key(&4));
    assert_eq!(
        classify_day(4, &c2.holidays, &c2.workdays),
        DayClassification::Holiday
    );
    assert!(is_day_flagged(4, 0, &c2.holidays, &c2.workdays));
}

#[test]
fn later_record_wins_for_the_same_day() {
    // The same day twice with the same flag: the record processed later
    // leaves its date string in the map.
    let mut second = record("2024-02-04", true, "later");
    second.date = "2024-02-04".to_string();
    let data = dataset(vec![
        ("a", record("2024-02-04", true, "earlier")),
        ("b", second),
    ]);
    let c = classify(&data, 2024, 2);
    assert_eq!(c.holidays.get(&4), Some(&"2024-02-04".to_string()));
    assert_eq!(c.holidays.len(), 1);
}

#[test]
fn flag_rule_cases() {
    let data = dataset(vec![("a", record("2024-02-10", true, "holiday"))]);
    let c = classify(&data, 2024, 2);
    // A holiday day is flagged whatever its weekday.
    assert!(is_day_flagged(10, 6, &c.holidays, &c.workdays));
    assert!(is_day_flagged(10, 3, &c.holidays, &c.workdays));
    // An ordinary Sunday is flagged, an ordinary Saturday or weekday not.
    assert!(is_day_flagged(11, 0, &c.holidays, &c.workdays));
    assert!(!is_day_flagged(17, 6, &c.holidays, &c.workdays));
    assert!(!is_day_flagged(14, 3, &c.holidays, &c.workdays));
    assert_eq!(
        classify_day(14, &c.holidays, &c.workdays),
        DayClassification::Ordinary
    );
}
