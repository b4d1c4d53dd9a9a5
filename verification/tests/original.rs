use hourbook::{
    filter_by_date_range, parse_line, summarize_by_day, summarize_by_project, Date, Entry,
    ParseError, Time,
};

#[test]
fn parses_a_well_formed_entry() {
    let entry = parse_line("2026-08-25 09:00-12:30 acme morning standup").unwrap();
    assert_eq!(entry.date, Date { year: 2026, month: 8, day: 25 });
    assert_eq!(entry.start, Time { hour: 9, minute: 0 });
    assert_eq!(entry.end, Time { hour: 12, minute: 30 });
    assert_eq!(entry.project, "acme");
    assert_eq!(entry.note.as_deref(), Some("morning standup"));
    assert_eq!(entry.duration_minutes(), 210);
}

#[test]
fn note_is_optional() {
    let entry = parse_line("2026-08-25 09:00-10:00 acme").unwrap();
    assert!(entry.note.is_none());
}

#[test]
fn rejects_zero_duration() {
    let err = parse_line("2026-08-25 09:00-09:00 acme").unwrap_err();
    assert!(matches!(err, ParseError::ZeroDuration));
}

#[test]
fn crosses_midnight() {
    let entry = parse_line("2026-08-25 22:00-02:00 acme night shift").unwrap();
    assert_eq!(entry.duration_minutes(), 240);
}

#[test]
fn crosses_midnight_at_the_boundary() {
    let entry = parse_line("2026-08-25 23:59-00:01 acme").unwrap();
    assert_eq!(entry.duration_minutes(), 2);
}

#[test]
fn rejects_feb_30() {
    assert!(Date::parse("2026-02-30").is_err());
}

#[test]
fn accepts_leap_day() {
    assert!(Date::parse("2028-02-29").is_ok());
}

#[test]
fn rejects_missing_fields() {
    assert!(parse_line("2026-08-25 09:00-10:00").is_err());
}

#[test]
fn summarizes_across_entries() {
    let entries = vec![
        parse_line("2026-08-25 09:00-12:00 acme").unwrap(),
        parse_line("2026-08-25 13:00-17:00 acme").unwrap(),
        parse_line("2026-08-26 09:00-10:30 globex").unwrap(),
    ];
    let totals = summarize_by_project(&entries);
    assert_eq!(totals.get("acme"), Some(&420));
    assert_eq!(totals.get("globex"), Some(&90));
}

#[test]
fn summarizes_by_day() {
    let entries = vec![
        parse_line("2026-08-25 09:00-12:00 acme").unwrap(),
        parse_line("2026-08-25 13:00-17:00 globex").unwrap(),
        parse_line("2026-08-26 09:00-10:30 acme").unwrap(),
    ];
    let totals = summarize_by_day(&entries);
    assert_eq!(totals.get(&Date { year: 2026, month: 8, day: 25 }), Some(&420));
    assert_eq!(totals.get(&Date { year: 2026, month: 8, day: 26 }), Some(&90));
}

#[test]
fn overnight_entry_is_attributed_to_its_start_date() {
    let entries = vec![parse_line("2026-08-25 22:00-02:00 acme night shift").unwrap()];
    let totals = summarize_by_day(&entries);
    assert_eq!(totals.get(&Date { year: 2026, month: 8, day: 25 }), Some(&240));
    assert_eq!(totals.get(&Date { year: 2026, month: 8, day: 26 }), None);
}

fn sample_entries() -> Vec<Entry> {
    vec![
        parse_line("2026-08-24 09:00-10:00 acme").unwrap(),
        parse_line("2026-08-25 09:00-10:00 acme").unwrap(),
        parse_line("2026-08-26 09:00-10:00 acme").unwrap(),
    ]
}

#[test]
fn filter_by_date_range_with_both_bounds() {
    let entries = sample_entries();
    let from = Date { year: 2026, month: 8, day: 25 };
    let to = Date { year: 2026, month: 8, day: 25 };
    let filtered = filter_by_date_range(&entries, Some(from), Some(to));
    assert_eq!(filtered.len(), 1);
    assert_eq!(filtered[0].date, from);
}

#[test]
fn filter_by_date_range_is_inclusive_of_both_ends() {
    let entries = sample_entries();
    let from = Date { year: 2026, month: 8, day: 24 };
    let to = Date { year: 2026, month: 8, day: 26 };
    let filtered = filter_by_date_range(&entries, Some(from), Some(to));
    assert_eq!(filtered.len(), 3);
}

#[test]
fn filter_by_date_range_with_open_lower_bound() {
    let entries = sample_entries();
    let to = Date { year: 2026, month: 8, day: 25 };
    let filtered = filter_by_date_range(&entries, None, Some(to));
    assert_eq!(filtered.len(), 2);
}

#[test]
fn filter_by_date_range_with_open_upper_bound() {
    let entries = sample_entries();
    let from = Date { year: 2026, month: 8, day: 25 };
    let filtered = filter_by_date_range(&entries, Some(from), None);
    assert_eq!(filtered.len(), 2);
}

#[test]
fn filter_by_date_range_with_no_bounds_keeps_everything() {
    let entries = sample_entries();
    let filtered = filter_by_date_range(&entries, None, None);
    assert_eq!(filtered.len(), 3);
}
