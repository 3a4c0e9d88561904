use buling_calendar::holiday::HolidayData;
use buling_calendar::state::MyApp;

fn empty_data() -> HolidayData {
    HolidayData { code: 0, holiday: vec![] }
}

#[test]
fn new_app_starts_where_told() {
    let app = MyApp::new(empty_data(), 2024, 7);
    assert_eq!(app.year, 2024);
    assert_eq!(app.month, 7);
    assert!(app.dark_but_flag);
}

#[test]
fn next_month_within_year() {
    let mut app = MyApp::new(empty_data(), 2024, 7);
    let crossed = app.next_month();
    assert!(!crossed);
    assert_eq!((app.year, app.month), (2024, 8));
}

#[test]
fn next_month_crosses_year() {
    let mut app = MyApp::new(empty_data(), 2024, 12);
    let crossed = app.next_month();
    assert!(crossed);
    assert_eq!((app.year, app.month), (2025, 1));
}

#[test]
fn prev_month_within_year() {
    let mut app = MyApp::new(empty_data(), 2024, 7);
    let crossed = app.prev_month();
    assert!(!crossed);
    assert_eq!((app.year, app.month), (2024, 6));
}

#[test]
fn prev_month_crosses_year_to_december() {
    let mut app = MyApp::new(empty_data(), 2024, 1);
    let crossed = app.prev_month();
    assert!(crossed);
    assert_eq!((app.year, app.month), (2023, 12));
}

#[test]
fn toggle_theme_flips_the_button() {
    let mut app = MyApp::new(empty_data(), 2024, 7);
    app.toggle_theme();
    assert!(!app.dark_but_flag);
    app.toggle_theme();
    assert!(app.dark_but_flag);
}

#[test]
fn set_holiday_data_replaces_the_dataset() {
    let mut app = MyApp::new(empty_data(), 2024, 7);
    let data = HolidayData { code: 1, holiday: vec![] };
    app.set_holiday_data(data);
    assert_eq!(app.holiday_data.code, 1);
    assert_eq!((app.year, app.month), (2024, 7));
}
