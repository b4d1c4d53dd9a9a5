use hourbook::{
    days_in_month, filter_by_date_range, is_leap_year, parse_line, parse_source_line,
    summarize_by_day, summarize_by_project, Date, Entry, ParseError, Time,
};

fn entry(line: &str) -> Entry {
    parse_line(line).unwrap()
}

#[test]
fn bad_date_reports_the_date_text() {
    match parse_line("2026-13-01 09:00-10:00 acme") {
        Err(ParseError::BadDate(s)) => assert_eq!(s, "2026-13-01"),
        other => panic!("unexpected {:?}", other),
    }
}

#[test]
fn bad_start_time_reports_the_time_text() {
    match parse_line("2026-08-25 25:00-10:00 acme") {
        Err(ParseError::BadTime(s)) => assert_eq!(s, "25:00"),
        other => panic!("unexpected {:?}", other),
    }
}

#[test]
fn bad_end_time_reports_the_time_text() {
    match parse_line("2026-08-25 09:00-10:60 acme") {
        Err(ParseError::BadTime(s)) => assert_eq!(s, "10:60"),
        other => panic!("unexpected {:?}", other),
    }
}

#[test]
fn range_without_dash_is_bad_format() {
    assert!(matches!(parse_line("2026-08-25 0900 acme"), Err(ParseError::BadFormat)));
}

#[test]
fn empty_line_is_bad_format() {
    assert!(matches!(parse_line(""), Err(ParseError::BadFormat)));
}

#[test]
fn date_is_checked_before_times() {
    assert!(matches!(parse_line("2026-02-30 99:00-09:00 acme"), Err(ParseError::BadDate(_))));
}

#[test]
fn format_is_checked_before_date() {
    assert!(matches!(parse_line("nonsense 09:00-10:00"), Err(ParseError::BadFormat)));
}

#[test]
fn error_messages() {
    assert_eq!(
        ParseError::BadFormat.to_string(),
        "expected 'DATE START-END PROJECT [NOTE]'"
    );
    assert_eq!(ParseError::BadDate("2026-02-30".to_string()).to_string(), "bad date '2026-02-30'");
    assert_eq!(ParseError::BadTime("25:00".to_string()).to_string(), "bad time '25:00'");
    assert_eq!(ParseError::ZeroDuration.to_string(), "start and end time are the same");
}

#[test]
fn dates_are_written_zero_padded() {
    assert_eq!(Date { year: 2026, month: 8, day: 5 }.to_string(), "2026-08-05");
    assert_eq!(Date { year: 5, month: 1, day: 1 }.to_string(), "0005-01-01");
    assert_eq!(Date { year: 12345, month: 12, day: 31 }.to_string(), "12345-12-31");
}

#[test]
fn times_are_written_zero_padded() {
    assert_eq!(Time { hour: 9, minute: 5 }.to_string(), "09:05");
    assert_eq!(Time { hour: 23, minute: 59 }.to_string(), "23:59");
}

#[test]
fn written_dates_and_times_read_back() {
    for d in [
        Date { year: 2026, month: 8, day: 25 },
        Date { year: 2028, month: 2, day: 29 },
        Date { year: 7, month: 1, day: 9 },
    ] {
        assert_eq!(Date::parse(&d.to_string()).unwrap(), d);
    }
    for t in [Time { hour: 0, minute: 0 }, Time { hour: 7, minute: 3 }, Time { hour: 23, minute: 59 }] {
        assert_eq!(Time::parse(&t.to_string()).unwrap(), t);
    }
}

#[test]
fn date_parsing_follows_integer_parsing() {
    assert_eq!(Date::parse("2026-8-5").unwrap(), Date { year: 2026, month: 8, day: 5 });
    assert_eq!(Date::parse("02026-08-25").unwrap(), Date { year: 2026, month: 8, day: 25 });
    assert_eq!(Date::parse("2026-+8-25").unwrap(), Date { year: 2026, month: 8, day: 25 });
    assert!(Date::parse("2026-08").is_err());
    assert!(Date::parse("2026-08-25-01").is_err());
    assert!(Date::parse("70000-01-01").is_err());
    assert!(Date::parse("2026-00-10").is_err());
    assert!(Date::parse("2026-01-00").is_err());
    assert!(Date::parse("2026-01-").is_err());
    assert!(Date::parse("2026-1a-01").is_err());
}

#[test]
fn leap_years() {
    assert!(is_leap_year(2000));
    assert!(!is_leap_year(1900));
    assert!(is_leap_year(2024));
    assert!(!is_leap_year(2026));
    assert!(Date::parse("2000-02-29").is_ok());
    assert!(Date::parse("1900-02-29").is_err());
}

#[test]
fn month_lengths() {
    assert_eq!(days_in_month(2026, 2), 28);
    assert_eq!(days_in_month(2028, 2), 29);
    assert_eq!(days_in_month(2026, 4), 30);
    assert_eq!(days_in_month(2026, 12), 31);
    assert_eq!(days_in_month(2026, 13), 0);
    assert_eq!(days_in_month(2026, 0), 0);
}

#[test]
fn time_parsing() {
    assert_eq!(Time::parse("9:5").unwrap(), Time { hour: 9, minute: 5 });
    assert_eq!(Time::parse("+9:05").unwrap(), Time { hour: 9, minute: 5 });
    assert!(Time::parse("-9:05").is_err());
    assert!(Time::parse("24:00").is_err());
    assert!(Time::parse("12:60").is_err());
    assert!(Time::parse("12:30:00").is_err());
    assert!(Time::parse("1230").is_err());
    assert!(Time::parse(":30").is_err());
    match Time::parse("7") {
        Err(ParseError::BadTime(s)) => assert_eq!(s, "7"),
        other => panic!("unexpected {:?}", other),
    }
}

#[test]
fn minutes_since_midnight_values() {
    assert_eq!(Time { hour: 0, minute: 0 }.minutes_since_midnight(), 0);
    assert_eq!(Time { hour: 23, minute: 59 }.minutes_since_midnight(), 1439);
    assert_eq!(Time { hour: 13, minute: 15 }.minutes_since_midnight(), 795);
}

#[test]
fn overnight_duration_lands_on_the_end_time() {
    let e = entry("2026-08-25 23:00-01:00 acme");
    let d = e.duration_minutes();
    assert_eq!(d, 120);
    assert_eq!((e.start.minutes_since_midnight() + d) % 1440, e.end.minutes_since_midnight());
    assert_eq!(entry("2026-08-25 00:00-23:59 acme").duration_minutes(), 1439);
    assert_eq!(entry("2026-08-25 00:01-00:00 acme").duration_minutes(), 1439);
}

#[test]
fn note_words_are_joined_by_single_spaces() {
    let e = entry("  2026-08-25   09:00-10:00\tacme   fixed  the\tbuild  ");
    assert_eq!(e.project, "acme");
    assert_eq!(e.note.as_deref(), Some("fixed the build"));
}

#[test]
fn unicode_whitespace_separates_fields() {
    let e = entry("2026-08-25\u{3000}09:00-10:00\u{a0}acme\u{2003}note");
    assert_eq!(e.project, "acme");
    assert_eq!(e.note.as_deref(), Some("note"));
}

#[test]
fn source_lines_skip_blanks_and_comments() {
    assert!(parse_source_line("").is_none());
    assert!(parse_source_line("   \t ").is_none());
    assert!(parse_source_line("# a comment").is_none());
    assert!(parse_source_line("   #indented comment").is_none());
    match parse_source_line("  2026-08-25 09:00-10:00 acme  ") {
        Some(Ok(e)) => assert_eq!(e.duration_minutes(), 60),
        other => panic!("unexpected {:?}", other),
    }
    assert!(matches!(parse_source_line("2026-08-25 09:00-09:00 acme"), Some(Err(ParseError::ZeroDuration))));
}

#[test]
fn projects_come_out_in_name_order() {
    let entries = vec![
        entry("2026-08-25 09:00-10:00 zeta"),
        entry("2026-08-25 10:00-10:30 acme"),
        entry("2026-08-25 11:00-11:15 Beta"),
        entry("2026-08-26 09:00-09:45 acme"),
        entry("2026-08-26 09:00-09:05 ac"),
    ];
    let totals = summarize_by_project(&entries);
    assert_eq!(totals.len(), 4);
    let names: Vec<&str> = totals.as_slice().iter().map(|(p, _)| p.as_str()).collect();
    assert_eq!(names, vec!["Beta", "ac", "acme", "zeta"]);
    assert_eq!(totals.get("acme"), Some(&75));
    assert_eq!(totals.get("zeta"), Some(&60));
    assert_eq!(totals.get("globex"), None);
}

#[test]
fn days_come_out_in_date_order() {
    let entries = vec![
        entry("2026-09-01 09:00-10:00 acme"),
        entry("2025-12-31 22:00-02:00 acme"),
        entry("2026-08-25 09:00-09:30 acme"),
        entry("2026-09-01 13:00-13:10 globex"),
    ];
    let totals = summarize_by_day(&entries);
    let days: Vec<(Date, u32)> = totals.as_slice().to_vec();
    assert_eq!(
        days,
        vec![
            (Date { year: 2025, month: 12, day: 31 }, 240),
            (Date { year: 2026, month: 8, day: 25 }, 30),
            (Date { year: 2026, month: 9, day: 1 }, 70),
        ]
    );
    assert_eq!(totals.get(&Date { year: 2026, month: 1, day: 1 }), None);
}

#[test]
fn both_summaries_count_every_minute_once() {
    let entries = vec![
        entry("2026-08-25 09:00-12:00 acme"),
        entry("2026-08-25 13:00-17:00 globex"),
        entry("2026-08-26 22:30-01:15 acme"),
        entry("2026-08-27 08:00-08:01 initech"),
    ];
    let all: u32 = entries.iter().map(|e| e.duration_minutes()).sum();
    let by_day: u32 = summarize_by_day(&entries).as_slice().iter().map(|(_, m)| *m).sum();
    let by_project: u32 = summarize_by_project(&entries).as_slice().iter().map(|(_, m)| *m).sum();
    assert_eq!(all, 180 + 240 + 165 + 1);
    assert_eq!(by_day, all);
    assert_eq!(by_project, all);
}

#[test]
fn empty_input_gives_empty_summaries() {
    let entries: Vec<Entry> = Vec::new();
    assert_eq!(summarize_by_project(&entries).len(), 0);
    assert_eq!(summarize_by_day(&entries).len(), 0);
    assert_eq!(filter_by_date_range(&entries, None, None).len(), 0);
}

#[test]
fn filter_keeps_order_and_content() {
    let entries = vec![
        entry("2026-08-26 09:00-10:00 b second"),
        entry("2026-08-24 09:00-10:00 a"),
        entry("2026-08-25 09:00-10:00 c third"),
        entry("2027-01-01 09:00-10:00 d"),
    ];
    let from = Date { year: 2026, month: 8, day: 25 };
    let to = Date { year: 2026, month: 12, day: 31 };
    let kept = filter_by_date_range(&entries, Some(from), Some(to));
    assert_eq!(kept.len(), 2);
    assert_eq!(kept[0].project, "b");
    assert_eq!(kept[0].note.as_deref(), Some("second"));
    assert_eq!(kept[1].project, "c");
    assert_eq!(kept[1].note.as_deref(), Some("third"));
    let none = filter_by_date_range(&entries, Some(to), Some(from));
    assert_eq!(none.len(), 0);
}

#[test]
fn cloned_entry_is_equal() {
    let e = entry("2026-08-25 09:00-10:00 acme a note");
    let c = e.clone();
    assert_eq!(c.date, e.date);
    assert_eq!(c.start, e.start);
    assert_eq!(c.end, e.end);
    assert_eq!(c.project, e.project);
    assert_eq!(c.note, e.note);
}

#[test]
fn written_line_reads_back() {
    let date = Date { year: 2026, month: 3, day: 7 };
    let start = Time { hour: 21, minute: 45 };
    let end = Time { hour: 1, minute: 5 };
    let line = format!("{} {}-{} {}", date.to_string(), start.to_string(), end.to_string(), "initech");
    assert_eq!(line, "2026-03-07 21:45-01:05 initech");
    let e = parse_line(&line).unwrap();
    assert_eq!(e.date, date);
    assert_eq!(e.start, start);
    assert_eq!(e.end, end);
    assert_eq!(e.project, "initech");
    assert!(e.note.is_none());
    assert_eq!(e.duration_minutes(), 200);
}

#[test]
fn totals_fit_for_parsed_entries() {
    let entries = vec![
        entry("2026-08-25 09:00-12:00 acme"),
        entry("2026-08-25 22:00-02:00 globex"),
    ];
    assert!(hourbook::fits_in_totals(&entries));
    let odd = Entry {
        date: Date { year: 2026, month: 8, day: 25 },
        start: Time { hour: 30, minute: 0 },
        end: Time { hour: 1, minute: 0 },
        project: "acme".to_string(),
        note: None,
    };
    assert!(!hourbook::fits_in_totals(&[odd]));
}
