use lib::{
    calendar_date_id, calendar_day_text, calendar_title,
    CalendarAction, CalendarDate, CalendarWeekStart, active_date, add_days, add_months, calendar_grid,
    date_for_action, days_in_month, grid_date, month_offset, normalize_date, weekday_labels,
    weekday_of,
};

fn format_date(date: CalendarDate) -> String {
    format!("{:04}-{:02}-{:02}", date.year, date.month, date.day)
}

fn parse_date(value: &str) -> CalendarDate {
    let values: Vec<i32> = value.split('-').map(|part| part.parse().unwrap()).collect();
    assert_eq!(values.len(), 3, "invalid date {value}");
    CalendarDate::new(values[0], values[1], values[2])
}

#[test]
fn gregorian_math_matches_shared_fixtures() {
    // date, delta-days, expected-days, delta-months, expected-months, weekday, month-days,
    // monday-offset, sunday-offset
    let records = [
        ("2024-02-28", 1, "2024-02-29", 1, "2024-03-28", 3, 29, 3, 4),
        ("2024-01-31", -31, "2023-12-31", 1, "2024-02-29", 3, 31, 0, 1),
        ("0001-01-01", -5, "0001-01-01", -3, "0001-01-01", 1, 31, 0, 1),
        ("9999-12-30", 10, "9999-12-31", 2, "9999-12-30", 4, 31, 2, 3),
        ("2023-12-31", 366, "2024-12-31", -13, "2022-11-30", 0, 31, 4, 5),
        ("2000-02-29", -365, "1999-03-01", 12, "2001-02-28", 2, 29, 1, 2),
    ];
    for (index, record) in records.iter().enumerate() {
        let date = parse_date(record.0);
        assert_eq!(format_date(add_days(date, record.1)), record.2, "case {index} days");
        assert_eq!(format_date(add_months(date, record.3)), record.4, "case {index} months");
        assert_eq!(weekday_of(date), record.5, "case {index} weekday");
        assert_eq!(i32::from(days_in_month(date.year, date.month)), record.6, "case {index} month days");
        let first = CalendarDate::new(date.year, i32::from(date.month), 1);
        assert_eq!(month_offset(first, CalendarWeekStart::Monday), record.7, "case {index} Monday offset");
        assert_eq!(month_offset(first, CalendarWeekStart::Sunday), record.8, "case {index} Sunday offset");
    }
}

#[test]
fn constructor_clamps_into_the_supported_range() {
    assert_eq!(format_date(CalendarDate::new(0, 0, 0)), "0001-01-01");
    assert_eq!(format_date(CalendarDate::new(10_000, 13, 40)), "9999-12-31");
    assert_eq!(format_date(CalendarDate::new(2023, 2, 31)), "2023-02-28");
    assert_eq!(format_date(CalendarDate::new(2024, 300, -4)), "2024-12-01");
    let raw = CalendarDate { year: 1900, month: 2, day: 29 };
    assert_eq!(format_date(normalize_date(raw)), "1900-02-28");
}

#[test]
fn leap_years_follow_the_gregorian_rule() {
    assert_eq!(days_in_month(2000, 2), 29);
    assert_eq!(days_in_month(1900, 2), 28);
    assert_eq!(days_in_month(2024, 2), 29);
    assert_eq!(days_in_month(2023, 2), 28);
    assert_eq!(days_in_month(2023, 4), 30);
    assert_eq!(days_in_month(2023, 12), 31);
}

#[test]
fn adding_days_and_back_returns_inside_the_range() {
    let date = CalendarDate::new(2021, 7, 14);
    assert_eq!(add_days(add_days(date, 1000), -1000), date);
    assert_eq!(add_days(add_days(date, -1), 1), date);
    let last = CalendarDate::new(9999, 12, 31);
    assert_eq!(add_days(last, 5), last);
    assert_eq!(format_date(add_days(last, -365)), "9998-12-31");
}

#[test]
fn weekday_advances_with_each_day() {
    let mut date = CalendarDate::new(2024, 12, 25);
    let mut weekday = weekday_of(date);
    assert_eq!(weekday, 3);
    for _ in 0..20 {
        date = add_days(date, 1);
        weekday = (weekday + 1) % 7;
        assert_eq!(weekday_of(date), weekday);
    }
}

#[test]
fn grid_dates_stop_at_the_supported_range() {
    let first = CalendarDate::new(1, 1, 1);
    assert_eq!(grid_date(first, -1), None);
    assert_eq!(grid_date(first, 3).map(format_date), Some("0001-01-04".to_owned()));
    let last_month = CalendarDate::new(9999, 12, 1);
    assert_eq!(grid_date(last_month, 31), None);
    assert_eq!(grid_date(last_month, 30).map(format_date), Some("9999-12-31".to_owned()));
    let march = CalendarDate::new(2024, 3, 1);
    assert_eq!(grid_date(march, -1).map(format_date), Some("2024-02-29".to_owned()));
}

#[test]
fn active_date_falls_back_to_the_first_day_of_the_displayed_month() {
    let displayed = CalendarDate::new(2024, 5, 1);
    assert_eq!(format_date(active_date(displayed, CalendarDate::new(2024, 5, 19))), "2024-05-19");
    assert_eq!(format_date(active_date(displayed, CalendarDate::new(2024, 6, 19))), "2024-05-01");
}

#[test]
fn actions_move_the_active_date() {
    let displayed = CalendarDate::new(2024, 2, 10);
    let selected = CalendarDate::new(2024, 2, 29);
    let date = |action| date_for_action(displayed, selected, action).map(format_date);
    assert_eq!(date(CalendarAction::Activate), None);
    assert_eq!(date(CalendarAction::PreviousDay), Some("2024-02-28".to_owned()));
    assert_eq!(date(CalendarAction::NextDay), Some("2024-03-01".to_owned()));
    assert_eq!(date(CalendarAction::PreviousWeek), Some("2024-02-22".to_owned()));
    assert_eq!(date(CalendarAction::NextWeek), Some("2024-03-07".to_owned()));
    assert_eq!(date(CalendarAction::PreviousMonth), Some("2024-01-29".to_owned()));
    assert_eq!(date(CalendarAction::NextMonth), Some("2024-03-29".to_owned()));
    assert_eq!(date(CalendarAction::FirstDayOfMonth), Some("2024-02-01".to_owned()));
    assert_eq!(date(CalendarAction::LastDayOfMonth), Some("2024-02-29".to_owned()));
}

#[test]
fn weekday_labels_follow_the_week_start() {
    assert_eq!(weekday_labels(CalendarWeekStart::Monday), ["Mo", "Tu", "We", "Th", "Fr", "Sa", "Su"]);
    assert_eq!(weekday_labels(CalendarWeekStart::Sunday), ["Su", "Mo", "Tu", "We", "Th", "Fr", "Sa"]);
}

#[test]
fn month_grid_marks_days_weekends_and_selection() {
    let selected = CalendarDate::new(2024, 2, 14);
    let cells = calendar_grid(2024, 2, selected, CalendarWeekStart::Monday, false);
    assert_eq!(cells.len(), 42);
    assert!(cells[..3].iter().all(Option::is_none));
    let first = cells[3].unwrap();
    assert_eq!((first.date.year, first.date.month, first.date.day), (2024, 2, 1));
    assert!(first.in_month && !first.weekend && !first.selected);
    let saturday = cells[5].unwrap();
    assert_eq!(saturday.date.day, 3);
    assert!(saturday.weekend);
    let chosen = cells[3 + 13].unwrap();
    assert_eq!(chosen.date.day, 14);
    assert!(chosen.selected);
    assert_eq!(cells[31].unwrap().date.day, 29);
    assert!(cells[32].is_none());

    let adjacent = calendar_grid(2024, 2, selected, CalendarWeekStart::Sunday, true);
    let lead = adjacent[0].unwrap();
    assert_eq!((lead.date.month, lead.date.day), (1, 28));
    assert!(!lead.in_month && lead.weekend);
    assert_eq!(adjacent[4].unwrap().date.day, 1);
    assert!(adjacent.iter().all(Option::is_some));
}

#[test]
fn month_grid_stops_at_the_supported_range() {
    let cells = calendar_grid(1, 1, CalendarDate::new(1, 1, 1), CalendarWeekStart::Sunday, true);
    assert!(cells[0].is_none());
    assert_eq!(cells[1].unwrap().date.day, 1);
    let last = calendar_grid(9999, 12, CalendarDate::new(9999, 12, 31), CalendarWeekStart::Monday, true);
    let end = last.iter().rposition(Option::is_some).unwrap();
    assert_eq!(last[end].unwrap().date.day, 31);
    assert!(last[end].unwrap().selected);
    assert!(last[end + 1..].iter().all(Option::is_none));
}

#[test]
fn date_ids_are_zero_padded_under_the_root() {
    assert_eq!(calendar_date_id("cal", CalendarDate::new(2024, 3, 7)), "cal/date/2024-03-07");
    assert_eq!(calendar_date_id("root", CalendarDate::new(7, 12, 25)), "root/date/0007-12-25");
    assert_eq!(calendar_date_id("", CalendarDate::new(1999, 10, 31)), "/date/1999-10-31");
}

#[test]
fn month_title_and_day_cells_are_padded() {
    assert_eq!(calendar_title(CalendarDate::new(2024, 3, 1)), "2024-03");
    assert_eq!(calendar_title(CalendarDate::new(45, 11, 1)), "0045-11");
    assert_eq!(calendar_day_text(7), " 7 ");
    assert_eq!(calendar_day_text(31), "31 ");
}

#[test]
fn negative_years_keep_their_sign_within_four_characters() {
    let date = CalendarDate { year: -5, month: 1, day: 2 };
    assert_eq!(calendar_date_id("r", date), format!("r/date/{:04}-{:02}-{:02}", -5, 1, 2));
    assert_eq!(calendar_date_id("r", date), "r/date/-005-01-02");
    assert_eq!(calendar_title(CalendarDate { year: -1234, month: 7, day: 1 }), "-1234-07");
}
