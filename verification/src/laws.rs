//! Properties of the timesheet format that hold for every input.

use vstd::prelude::*;

use crate::calendar::{
    is_leap, month_length, spec_parse_date, spec_parse_time, Date, Time, MINUTES_PER_DAY,
};
use crate::entry::{is_blank_or_comment, spec_parse_line, EntryModel};
use crate::summary::{
    dated_within, day_minutes, has_day, has_project, in_range, project_minutes, total_minutes,
};
use crate::text::{digits_value, join_words, lemma_word_len_bound, parse_unsigned, word_len};
use crate::text::{
    is_digit, is_space, lemma_padded, lemma_parse_padded, lemma_words_are_words, padded, split_on,
    words,
};

verus! {

/// An entry runs from its start to its end: adding its minutes to the start
/// time lands on the end time, on the same day or the next, and an entry
/// lasts at least a minute and less than a day. So `22:00-02:00` is four
/// hours, not minus twenty.
pub proof fn law_duration_reaches_end(e: EntryModel)
    requires
        e.start.is_valid(),
        e.end.is_valid(),
        e.start != e.end,
    ensures
        e.has_duration(),
        0 < e.minutes() < MINUTES_PER_DAY,
        (e.start.minutes() + e.minutes()) % (MINUTES_PER_DAY as int) == e.end.minutes(),
        e.end.minutes() > e.start.minutes() ==> e.minutes() == e.end.minutes()
            - e.start.minutes(),
{
}

/// Whatever a line yields is a real entry: a real date, real times that
/// differ, a non-empty project name without whitespace, and a length that
/// can be computed.
pub proof fn law_parsed_entry_is_sound(s: Seq<char>)
    ensures
        spec_parse_line(s) matches Ok(e) ==> {
            &&& e.date.is_valid()
            &&& e.start.is_valid()
            &&& e.end.is_valid()
            &&& e.start != e.end
            &&& e.has_duration()
            &&& e.project.len() > 0
            &&& forall|i: int| 0 <= i < e.project.len() ==> !is_space(#[trigger] e.project[i])
        },
{
    lemma_words_are_words(s);
    if let Ok(e) = spec_parse_line(s) {
        let w = words(s);
        assert(e.project == w[2]);
        law_duration_reaches_end(e);
    }
}

/// Splits `a + [sep] + b` at the separator when `a` holds none.
proof fn lemma_first_separator(a: Seq<char>, sep: char, b: Seq<char>)
    requires
        forall|i: int| 0 <= i < a.len() ==> #[trigger] a[i] != sep,
    ensures
        (a + seq![sep] + b).index_of_first(sep) == Some(a.len() as int),
        (a + seq![sep] + b).take(a.len() as int) == a,
        (a + seq![sep] + b).skip(a.len() as int + 1) == b,
{
    let s = a + seq![sep] + b;
    s.index_of_first_ensures(sep);
    assert(s[a.len() as int] == sep);
    let k = s.index_of_first(sep)->0;
    if k < a.len() {
        assert(s[k] == a[k]);
    }
    assert(s.take(a.len() as int) =~= a);
    assert(s.skip(a.len() as int + 1) =~= b);
}

/// `s` holds no `sep` when all its characters are digits and `sep` is not.
proof fn lemma_no_separator(s: Seq<char>, sep: char)
    requires
        !is_digit(sep),
        forall|i: int| 0 <= i < s.len() ==> is_digit(#[trigger] s[i]),
    ensures
        split_on(s, sep) == seq![s],
{
    s.index_of_first_ensures(sep);
    if s.contains(sep) {
        let k = choose|k: int| 0 <= k < s.len() && s[k] == sep;
        assert(is_digit(s[k]));
    }
}

/// A real date, written as [`Date::to_string`] writes it, reads back as the
/// same date; and what reads as a date is a real date.
#[verifier::rlimit(40)]
pub proof fn law_date_text_roundtrip(d: Date)
    ensures
        d.is_valid() ==> spec_parse_date(d.text()) == Some(d),
        spec_parse_date(d.text()) matches Some(e) ==> e.is_valid(),
{
    let y = padded(d.year as nat, 4);
    let m = padded(d.month as nat, 2);
    let dd = padded(d.day as nat, 2);
    lemma_padded(d.year as nat, 4);
    lemma_padded(d.month as nat, 2);
    lemma_padded(d.day as nat, 2);
    assert(!is_digit('-'));
    let rest = m + seq!['-'] + dd;
    assert(d.text() =~= y + seq!['-'] + rest);
    lemma_digits_not_space(y);
    lemma_digits_not_space(m);
    lemma_digits_not_space(dd);
    lemma_first_separator(y, '-', rest);
    lemma_first_separator(m, '-', dd);
    lemma_no_separator(dd, '-');
    assert(split_on(rest, '-') =~= seq![m, dd]);
    assert(split_on(d.text(), '-') =~= seq![y, m, dd]);
    lemma_parse_padded(d.year as nat, 4, 0xffff);
    lemma_parse_padded(d.month as nat, 2, 0xff);
    lemma_parse_padded(d.day as nat, 2, 0xff);
}

/// A real time, written as [`Time::to_string`] writes it, reads back as the
/// same time; and what reads as a time is a real time.
pub proof fn law_time_text_roundtrip(t: Time)
    ensures
        t.is_valid() ==> spec_parse_time(t.text()) == Some(t),
        spec_parse_time(t.text()) matches Some(u) ==> u.is_valid(),
{
    let h = padded(t.hour as nat, 2);
    let m = padded(t.minute as nat, 2);
    lemma_padded(t.hour as nat, 2);
    lemma_padded(t.minute as nat, 2);
    assert(!is_digit(':'));
    assert(t.text() =~= h + seq![':'] + m);
    lemma_digits_not_space(h);
    lemma_first_separator(h, ':', m);
    lemma_parse_padded(t.hour as nat, 2, 0xff);
    lemma_parse_padded(t.minute as nat, 2, 0xff);
}

/// With neither bound given, the date filter keeps every entry.
pub proof fn law_open_range_keeps_everything(s: Seq<EntryModel>)
    ensures
        s.filter(dated_within(None, None)) == s,
    decreases s.len(),
{
    reveal_with_fuel(Seq::filter, 1);
    if s.len() > 0 {
        law_open_range_keeps_everything(s.drop_last());
        assert(s.drop_last().push(s.last()) =~= s);
    }
}

/// A run of non-whitespace characters is one word, also when whitespace and
/// more text follow it.
proof fn lemma_leading_word(w: Seq<char>, r: Seq<char>)
    requires
        w.len() > 0,
        forall|i: int| 0 <= i < w.len() ==> !is_space(#[trigger] w[i]),
    ensures
        words(w) == seq![w],
        words(w + seq![' '] + r) == seq![w] + words(r),
    decreases w.len(),
{
    lemma_word_run(w, Seq::empty());
    lemma_word_run(w, seq![' '] + r);
    assert(w + Seq::<char>::empty() =~= w);
    assert(w.take(w.len() as int) =~= w);
    assert(w.skip(w.len() as int) =~= Seq::<char>::empty());
    assert(!is_space(w[0]));
    assert(word_len(w) == w.len());
    assert(words(Seq::<char>::empty()) =~= Seq::<Seq<char>>::empty());
    assert(words(w) =~= seq![w]);
    let s = w + seq![' '] + r;
    assert(s =~= w + (seq![' '] + r));
    assert(s.take(w.len() as int) =~= w);
    assert(s.skip(w.len() as int) =~= seq![' '] + r);
    assert((seq![' '] + r).drop_first() =~= r);
    assert(words(seq![' '] + r) == words(r));
}

/// The word at the front of `w + r` is `w` when `w` is non-space and `r`
/// is empty or starts with a space.
proof fn lemma_word_run(w: Seq<char>, r: Seq<char>)
    requires
        forall|i: int| 0 <= i < w.len() ==> !is_space(#[trigger] w[i]),
        r.len() == 0 || is_space(r[0]),
    ensures
        word_len(w + r) == w.len(),
    decreases w.len(),
{
    if w.len() > 0 {
        lemma_word_run(w.drop_first(), r);
        assert((w + r).drop_first() =~= w.drop_first() + r);
        assert((w + r)[0] == w[0]);
    } else {
        assert(w + r =~= r);
    }
}

/// Digits and the separators `-` and `:` are not whitespace.
proof fn lemma_digits_not_space(s: Seq<char>)
    requires
        forall|i: int| 0 <= i < s.len() ==> is_digit(#[trigger] s[i]),
    ensures
        forall|i: int| 0 <= i < s.len() ==> !is_space(#[trigger] s[i]),
        forall|i: int| 0 <= i < s.len() ==> #[trigger] s[i] != '-' && s[i] != ':',
{
    assert forall|i: int| 0 <= i < s.len() implies !is_space(#[trigger] s[i]) by {
        assert(is_digit(s[i]));
    }
    assert forall|i: int| 0 <= i < s.len() implies #[trigger] s[i] != '-' && s[i] != ':' by {
        assert(is_digit(s[i]));
    }
}

/// A line written in the documented format,
/// `DATE START-END PROJECT`, with a real date, two different real times and
/// a one-word project, reads back as exactly that entry, with no note.
pub proof fn law_written_line_reads_back(date: Date, start: Time, end: Time, project: Seq<char>)
    requires
        date.is_valid(),
        start.is_valid(),
        end.is_valid(),
        start != end,
        project.len() > 0,
        forall|i: int| 0 <= i < project.len() ==> !is_space(#[trigger] project[i]),
    ensures
        spec_parse_line(
            date.text() + seq![' '] + start.text() + seq!['-'] + end.text() + seq![' '] + project,
        ) == Ok::<EntryModel, crate::error::ErrorModel>(
            EntryModel { date, start, end, project, note: None },
        ),
{
    law_date_text_roundtrip(date);
    law_time_text_roundtrip(start);
    law_time_text_roundtrip(end);
    let y = padded(date.year as nat, 4);
    let mo = padded(date.month as nat, 2);
    let da = padded(date.day as nat, 2);
    lemma_padded(date.year as nat, 4);
    lemma_padded(date.month as nat, 2);
    lemma_padded(date.day as nat, 2);
    lemma_digits_not_space(y);
    lemma_digits_not_space(mo);
    lemma_digits_not_space(da);
    let sh = padded(start.hour as nat, 2);
    let sm = padded(start.minute as nat, 2);
    let eh = padded(end.hour as nat, 2);
    let em = padded(end.minute as nat, 2);
    lemma_padded(start.hour as nat, 2);
    lemma_padded(start.minute as nat, 2);
    lemma_padded(end.hour as nat, 2);
    lemma_padded(end.minute as nat, 2);
    lemma_digits_not_space(sh);
    lemma_digits_not_space(sm);
    lemma_digits_not_space(eh);
    lemma_digits_not_space(em);

    let dt = date.text();
    let st = start.text();
    let et = end.text();
    let range = st + seq!['-'] + et;
    assert(dt =~= y + seq!['-'] + mo + seq!['-'] + da);
    assert(st =~= sh + seq![':'] + sm);
    assert(et =~= eh + seq![':'] + em);
    assert forall|i: int| 0 <= i < dt.len() implies !is_space(#[trigger] dt[i]) by {
        if i < y.len() {
            assert(dt[i] == y[i]);
        } else if i > y.len() && i < y.len() + 1 + mo.len() {
            assert(dt[i] == mo[i - y.len() - 1]);
        } else if i > y.len() + mo.len() + 1 {
            assert(dt[i] == da[i - y.len() - mo.len() - 2]);
        }
    }
    assert forall|i: int| 0 <= i < st.len() implies !is_space(#[trigger] st[i]) && st[i] != '-' by {
        if i < sh.len() {
            assert(st[i] == sh[i]);
        } else if i > sh.len() {
            assert(st[i] == sm[i - sh.len() - 1]);
        }
    }
    assert forall|i: int| 0 <= i < et.len() implies !is_space(#[trigger] et[i]) by {
        if i < eh.len() {
            assert(et[i] == eh[i]);
        } else if i > eh.len() {
            assert(et[i] == em[i - eh.len() - 1]);
        }
    }
    assert forall|i: int| 0 <= i < range.len() implies !is_space(#[trigger] range[i]) by {
        if i < st.len() {
            assert(range[i] == st[i]);
        } else if i > st.len() {
            assert(range[i] == et[i - st.len() - 1]);
        }
    }
    let line = dt + seq![' '] + st + seq!['-'] + et + seq![' '] + project;
    let tail = range + seq![' '] + project;
    assert(line =~= dt + seq![' '] + tail);
    lemma_leading_word(dt, tail);
    lemma_leading_word(range, project);
    lemma_leading_word(project, Seq::empty());
    assert(words(line) =~= seq![dt, range, project]);
    lemma_first_separator(st, '-', et);
}

// ---------------------------------------------------------------------------
// The calendar
// ---------------------------------------------------------------------------

/// Gregorian month lengths: thirty-one days in January, March, May, July,
/// August, October and December; thirty in April, June, September and
/// November; February has twenty-nine in a leap year (divisible by 4 but not
/// by 100, or divisible by 400) and twenty-eight otherwise. No other month
/// number has days, and a year has 365 days, 366 in a leap year.
pub proof fn law_month_lengths(year: int)
    ensures
        is_leap(year) == ((year % 4 == 0 && year % 100 != 0) || year % 400 == 0),
        month_length(year, 1) == 31,
        month_length(year, 2) == if (year % 4 == 0 && year % 100 != 0) || year % 400 == 0 {
            29int
        } else {
            28int
        },
        month_length(year, 3) == 31,
        month_length(year, 4) == 30,
        month_length(year, 5) == 31,
        month_length(year, 6) == 30,
        month_length(year, 7) == 31,
        month_length(year, 8) == 31,
        month_length(year, 9) == 30,
        month_length(year, 10) == 31,
        month_length(year, 11) == 30,
        month_length(year, 12) == 31,
        forall|m: int| (m < 1 || m > 12) ==> month_length(year, m) == 0,
        month_length(year, 1) + month_length(year, 2) + month_length(year, 3) + month_length(
            year,
            4,
        ) + month_length(year, 5) + month_length(year, 6) + month_length(year, 7)
            + month_length(year, 8) + month_length(year, 9) + month_length(year, 10)
            + month_length(year, 11) + month_length(year, 12) == if (year % 4 == 0 && year % 100
            != 0) || year % 400 == 0 {
            366int
        } else {
            365int
        },
{
}

/// A date is real exactly when its month is 1 to 12 and its day runs from 1
/// to the length of that month: to 31 in the long months, to 30 in the
/// short ones, to 29 or 28 in February by the leap-year rule.
pub proof fn law_real_dates(d: Date)
    ensures
        d.is_valid() <==> {
            &&& 1 <= d.month <= 12
            &&& 1 <= d.day
            &&& (d.month == 1 || d.month == 3 || d.month == 5 || d.month == 7 || d.month == 8
                || d.month == 10 || d.month == 12) ==> d.day <= 31
            &&& (d.month == 4 || d.month == 6 || d.month == 9 || d.month == 11) ==> d.day <= 30
            &&& d.month == 2 ==> d.day <= if (d.year % 4 == 0 && d.year % 100 != 0) || d.year
                % 400 == 0 {
                29int
            } else {
                28int
            }
        },
{
}

/// Dates are ordered as the number `year·65536 + month·256 + day` is:
/// by year first, then by month, then by day. This is the order of the
/// fields `(year, month, day)` compared in turn.
pub proof fn law_date_order(a: Date, b: Date)
    ensures
        a.before(b) <==> a.year * 65536 + a.month * 256 + a.day < b.year * 65536 + b.month * 256
            + b.day,
        a.on_or_before(b) <==> a.year * 65536 + a.month * 256 + a.day <= b.year * 65536
            + b.month * 256 + b.day,
        a.year < b.year ==> a.before(b),
        a.year == b.year && a.month < b.month ==> a.before(b),
        a.year == b.year && a.month == b.month && a.day < b.day ==> a.before(b),
        a.on_or_before(b) <==> !b.before(a),
{
}

/// A date is within `[from, to]` exactly when it is no earlier than `from`
/// (if given) and no later than `to` (if given), comparing by year, then
/// month, then day.
pub proof fn law_date_range(d: Date, from: Option<Date>, to: Option<Date>, e: EntryModel)
    ensures
        dated_within(from, to)(e) == in_range(e.date, from, to),
        in_range(d, from, to) <==> {
            &&& from matches Some(f) ==> f.year * 65536 + f.month * 256 + f.day <= d.year * 65536
                + d.month * 256 + d.day
            &&& to matches Some(t) ==> d.year * 65536 + d.month * 256 + d.day <= t.year * 65536
                + t.month * 256 + t.day
        },
{
    if let Some(f) = from {
        law_date_order(f, d);
    }
    if let Some(t) = to {
        law_date_order(d, t);
    }
}

// ---------------------------------------------------------------------------
// The clock
// ---------------------------------------------------------------------------

/// A time stands for `60·hour + minute` minutes after midnight; a real time
/// has an hour below 24 and a minute below 60, and so falls within the day.
pub proof fn law_clock(t: Time)
    ensures
        t.minutes() == 60 * t.hour + t.minute,
        t.is_valid() <==> t.hour < 24 && t.minute < 60,
        t.is_valid() ==> 0 <= t.minutes() < 1440,
{
}

/// An entry's minutes, from its hours and minutes: the end less the start
/// when the end is later in the day, else a day (1440 minutes) less the
/// start plus the end.
pub proof fn law_entry_minutes(e: EntryModel)
    ensures
        e.minutes() == if 60 * e.end.hour + e.end.minute > 60 * e.start.hour + e.start.minute {
            (60 * e.end.hour + e.end.minute) - (60 * e.start.hour + e.start.minute)
        } else {
            1440 - (60 * e.start.hour + e.start.minute) + (60 * e.end.hour + e.end.minute)
        },
        e.has_duration() <==> (60 * e.end.hour + e.end.minute > 60 * e.start.hour
            + e.start.minute || 60 * e.start.hour + e.start.minute <= 1440),
{
}

// ---------------------------------------------------------------------------
// Comment and blank lines
// ---------------------------------------------------------------------------

/// The first character of `s` that is not whitespace.
proof fn first_non_space(s: Seq<char>) -> (k: int)
    requires
        exists|i: int| 0 <= i < s.len() && !is_space(#[trigger] s[i]),
    ensures
        0 <= k < s.len(),
        !is_space(s[k]),
        forall|j: int| 0 <= j < k ==> is_space(#[trigger] s[j]),
    decreases s.len(),
{
    if !is_space(s[0]) {
        0
    } else {
        let i = choose|i: int| 0 <= i < s.len() && !is_space(#[trigger] s[i]);
        assert(s.drop_first()[i - 1] == s[i]);
        let k = first_non_space(s.drop_first());
        assert forall|j: int| 0 <= j < k + 1 implies is_space(#[trigger] s[j]) by {
            if j > 0 {
                assert(s[j] == s.drop_first()[j - 1]);
            }
        }
        assert(s[k + 1] == s.drop_first()[k]);
        k + 1
    }
}

/// With no non-space character there are no words; otherwise the first
/// word begins at the first non-space character.
proof fn lemma_first_word(s: Seq<char>)
    ensures
        (forall|i: int| 0 <= i < s.len() ==> is_space(#[trigger] s[i])) ==> words(s).len() == 0,
        forall|k: int|
            0 <= k < s.len() && !is_space(#[trigger] s[k]) && (forall|j: int|
                0 <= j < k ==> is_space(#[trigger] s[j])) ==> words(s).len() > 0 && words(s)[0].len()
                > 0 && words(s)[0][0] == s[k],
    decreases s.len(),
{
    if s.len() > 0 {
        if is_space(s[0]) {
            lemma_first_word(s.drop_first());
            assert(words(s) == words(s.drop_first()));
            if forall|i: int| 0 <= i < s.len() ==> is_space(#[trigger] s[i]) {
                assert forall|i: int| 0 <= i < s.drop_first().len() implies is_space(
                    #[trigger] s.drop_first()[i],
                ) by {
                    assert(s.drop_first()[i] == s[i + 1]);
                }
            }
            assert forall|k: int|
                0 <= k < s.len() && !is_space(#[trigger] s[k]) && (forall|j: int|
                    0 <= j < k ==> is_space(#[trigger] s[j])) implies words(s).len() > 0
                && words(s)[0].len() > 0 && words(s)[0][0] == s[k] by {
                assert(k > 0);
                let t = s.drop_first();
                assert(t[k - 1] == s[k]);
                assert forall|j: int| 0 <= j < k - 1 implies is_space(#[trigger] t[j]) by {
                    assert(t[j] == s[j + 1]);
                }
                assert(0 <= k - 1 < t.len() && !is_space(t[k - 1]));
            }
        } else {
            lemma_word_len_bound(s);
            let n = word_len(s) as int;
            assert(words(s) == seq![s.take(n)] + words(s.skip(n)));
            assert(words(s)[0] == s.take(n));
            assert forall|k: int|
                0 <= k < s.len() && !is_space(#[trigger] s[k]) && (forall|j: int|
                    0 <= j < k ==> is_space(#[trigger] s[j])) implies words(s).len() > 0
                && words(s)[0].len() > 0 && words(s)[0][0] == s[k] by {
                if k > 0 {
                    assert(is_space(s[0]));
                }
            }
        }
    }
}

/// A line is passed over exactly when it is all whitespace, or its first
/// character that is not whitespace is `#`. A `#` later in the line (in a
/// note, say) does not make it a comment.
pub proof fn law_comment_lines(s: Seq<char>)
    ensures
        is_blank_or_comment(s) <==> (forall|i: int| 0 <= i < s.len() ==> is_space(#[trigger] s[i]))
            || (exists|k: int|
            0 <= k < s.len() && #[trigger] s[k] == '#' && forall|j: int|
                0 <= j < k ==> is_space(#[trigger] s[j])),
{
    lemma_first_word(s);
    assert(!is_space('#'));
    if forall|i: int| 0 <= i < s.len() ==> is_space(#[trigger] s[i]) {
    } else {
        let k = first_non_space(s);
        assert(words(s)[0][0] == s[k]);
        if exists|k2: int|
            0 <= k2 < s.len() && #[trigger] s[k2] == '#' && forall|j: int|
                0 <= j < k2 ==> is_space(#[trigger] s[j]) {
            let k2 = choose|k2: int|
                0 <= k2 < s.len() && #[trigger] s[k2] == '#' && forall|j: int|
                    0 <= j < k2 ==> is_space(#[trigger] s[j]);
            if k2 < k {
                assert(is_space(s[k2]));
            }
            if k2 > k {
                assert(is_space(s[k]));
            }
        }
    }
}

// ---------------------------------------------------------------------------
// What the totals add up
// ---------------------------------------------------------------------------

pub open spec fn dated(d: Date) -> spec_fn(EntryModel) -> bool {
    |e: EntryModel| e.date == d
}

pub open spec fn for_project(p: Seq<char>) -> spec_fn(EntryModel) -> bool {
    |e: EntryModel| e.project == p
}

/// A day's total is the total of the entries dated that day, and a day has
/// a total exactly when some entry is dated it.
pub proof fn law_day_total_is_its_entries(s: Seq<EntryModel>, d: Date)
    ensures
        day_minutes(s, d) == total_minutes(s.filter(dated(d))),
        has_day(s, d) <==> exists|i: int| 0 <= i < s.len() && (#[trigger] s[i]).date == d,
    decreases s.len(),
{
    reveal_with_fuel(Seq::filter, 1);
    if s.len() > 0 {
        law_day_total_is_its_entries(s.drop_last(), d);
        let t = s.drop_last();
        if s.last().date == d {
            assert(s.filter(dated(d)) == t.filter(dated(d)).push(s.last()));
            assert(s.filter(dated(d)).drop_last() =~= t.filter(dated(d)));
            assert(s[s.len() - 1].date == d);
        } else {
            assert(s.filter(dated(d)) == t.filter(dated(d)));
            if exists|i: int| 0 <= i < s.len() && (#[trigger] s[i]).date == d {
                let i = choose|i: int| 0 <= i < s.len() && (#[trigger] s[i]).date == d;
                assert(t[i] == s[i]);
            }
        }
        assert forall|i: int| 0 <= i < t.len() && (#[trigger] t[i]).date == d implies exists|
            j: int,
        | 0 <= j < s.len() && (#[trigger] s[j]).date == d by {
            assert(s[i] == t[i]);
        }
    }
}

/// A project's total is the total of the entries for that project, and a
/// project has a total exactly when some entry is for it.
pub proof fn law_project_total_is_its_entries(s: Seq<EntryModel>, p: Seq<char>)
    ensures
        project_minutes(s, p) == total_minutes(s.filter(for_project(p))),
        has_project(s, p) <==> exists|i: int| 0 <= i < s.len() && (#[trigger] s[i]).project == p,
    decreases s.len(),
{
    reveal_with_fuel(Seq::filter, 1);
    if s.len() > 0 {
        law_project_total_is_its_entries(s.drop_last(), p);
        let t = s.drop_last();
        if s.last().project == p {
            assert(s.filter(for_project(p)) == t.filter(for_project(p)).push(s.last()));
            assert(s.filter(for_project(p)).drop_last() =~= t.filter(for_project(p)));
            assert(s[s.len() - 1].project == p);
        } else {
            assert(s.filter(for_project(p)) == t.filter(for_project(p)));
            if exists|i: int| 0 <= i < s.len() && (#[trigger] s[i]).project == p {
                let i = choose|i: int| 0 <= i < s.len() && (#[trigger] s[i]).project == p;
                assert(t[i] == s[i]);
            }
        }
        assert forall|i: int| 0 <= i < t.len() && (#[trigger] t[i]).project == p implies exists|
            j: int,
        | 0 <= j < s.len() && (#[trigger] s[j]).project == p by {
            assert(s[i] == t[i]);
        }
    }
}

// ---------------------------------------------------------------------------
// Reading text
// ---------------------------------------------------------------------------

/// The whitespace that separates fields is exactly the Unicode `White_Space`
/// set: tab, line feed, vertical tab, form feed, carriage return and space;
/// next line (U+0085) and no-break space (U+00A0); the Ogham space mark
/// (U+1680); the spaces U+2000 to U+200A; the line and paragraph separators
/// (U+2028, U+2029); the narrow no-break, medium mathematical and
/// ideographic spaces (U+202F, U+205F, U+3000). No ASCII letter, digit or
/// punctuation mark is whitespace.
pub proof fn law_whitespace(c: char)
    ensures
        is_space(c) <==> {
            ||| c == '\t' || c == '\n' || c == '\u{b}' || c == '\u{c}' || c == '\r' || c == ' '
            ||| c == '\u{85}' || c == '\u{a0}' || c == '\u{1680}'
            ||| 0x2000 <= (c as u32) <= 0x200a
            ||| c == '\u{2028}' || c == '\u{2029}' || c == '\u{202f}' || c == '\u{205f}' || c
                == '\u{3000}'
        },
        0x21 <= (c as u32) <= 0x7e ==> !is_space(c),
{
}

/// Digits read as a number place by place: the digits of `s` then those of
/// `t` read as `s` read, shifted up by one decimal place per digit of `t`,
/// plus `t` read; a single digit reads as its face value.
pub proof fn law_digits_place_value(s: Seq<char>, t: Seq<char>)
    ensures
        digits_value(s + t) == digits_value(s) * crate::text::pow10(t.len()) + digits_value(t),
        forall|d: nat| d < 10 ==> digits_value(seq![crate::text::digit_char(d)]) == d,
    decreases t.len(),
{
    if t.len() > 0 {
        law_digits_place_value(s, t.drop_last());
        assert((s + t).drop_last() =~= s + t.drop_last());
        assert((s + t).last() == t.last());
        assert(digits_value(s + t) == digits_value(s + t.drop_last()) * 10 + crate::text::digit_value(
            t.last(),
        ));
        assert(digits_value(t) == digits_value(t.drop_last()) * 10 + crate::text::digit_value(
            t.last(),
        ));
        let p = crate::text::pow10(t.drop_last().len());
        assert(crate::text::pow10(t.len()) == 10 * p);
        let a = digits_value(s);
        let b = digits_value(t.drop_last());
        let c = crate::text::digit_value(t.last());
        let q = crate::text::pow10(t.len());
        assert((a * p + b) * 10 + c == a * q + (b * 10 + c)) by (nonlinear_arith)
            requires
                q == 10 * p,
        ;
    } else {
        assert(s + t =~= s);
        assert(crate::text::pow10(0) == 1);
        assert(digits_value(t) == 0);
        assert(digits_value(s) * 1 == digits_value(s));
    }
    assert forall|d: nat| d < 10 implies digits_value(seq![crate::text::digit_char(d)]) == d by {
        crate::text::lemma_digit_char(d);
        let one = seq![crate::text::digit_char(d)];
        assert(one.drop_last() =~= Seq::<char>::empty());
        assert(one.last() == crate::text::digit_char(d));
        assert(digits_value(Seq::<char>::empty()) == 0);
        assert(digits_value(one) == digits_value(one.drop_last()) * 10 + crate::text::digit_value(
            one.last(),
        ));
    }
}

/// Numbers read as `str::parse` reads an unsigned integer: nothing is no
/// number, a lone sign is no number, a minus sign is refused, and a plus
/// sign may stand in front; the value never exceeds the largest allowed.
pub proof fn law_reading_numbers(s: Seq<char>, max: nat)
    ensures
        parse_unsigned(Seq::empty(), max) is None,
        parse_unsigned(seq!['+'], max) is None,
        s.len() > 0 && s[0] == '-' ==> parse_unsigned(s, max) is None,
        parse_unsigned(seq!['+'] + s, max) == (if s.len() > 0 && s[0] == '+' {
            None
        } else {
            parse_unsigned(s, max)
        }),
        parse_unsigned(s, max) matches Some(v) ==> v <= max,
{
    assert((seq!['+'] + s).drop_first() =~= s);
    assert(seq!['+'].drop_first() =~= Seq::<char>::empty());
    if s.len() > 0 && s[0] == '+' {
        assert((seq!['+'] + s)[1] == '+');
        assert(!crate::text::is_digit('+'));
    }
    if s.len() > 0 && s[0] == '-' {
        assert(!crate::text::is_digit('-'));
    }
}

/// Whatever reads as a date is a real date, and whatever reads as a time
/// is a real time.
pub proof fn law_read_values_are_real(s: Seq<char>)
    ensures
        spec_parse_date(s) matches Some(d) ==> d.is_valid(),
        spec_parse_time(s) matches Some(t) ==> t.is_valid(),
{
}

/// Project names sort as text does: at the first position where two names
/// differ, the one with the smaller character code comes first, and a name
/// comes before any longer name that starts with it. The order is strict
/// and total: no name before itself, of two different names exactly one
/// first, and before-before is before.
pub proof fn law_text_order(a: Seq<char>, b: Seq<char>, c: Seq<char>, k: int)
    ensures
        0 <= k <= a.len() && k <= b.len() && a.take(k) == b.take(k) && ((k == a.len() && k
            < b.len()) || (k < a.len() && k < b.len() && (a[k] as int) < (b[k] as int)))
            ==> crate::text::seq_lt(a, b),
        !crate::text::seq_lt(a, a),
        a != b ==> (crate::text::seq_lt(a, b) <==> !crate::text::seq_lt(b, a)),
        crate::text::seq_lt(a, b) && crate::text::seq_lt(b, c) ==> crate::text::seq_lt(a, c),
    decreases a.len(),
{
    crate::text::lemma_seq_lt_irreflexive(a);
    crate::text::lemma_seq_lt_trichotomy(a, b);
    if crate::text::seq_lt(a, b) && crate::text::seq_lt(b, c) {
        crate::text::lemma_seq_lt_transitive(a, b, c);
    }
    if 0 < k <= a.len() && k <= b.len() && a.take(k) == b.take(k) {
        assert(a[0] == a.take(k)[0] && b[0] == b.take(k)[0]);
        assert(a.drop_first().take(k - 1) =~= a.take(k).drop_first());
        assert(b.drop_first().take(k - 1) =~= b.take(k).drop_first());
        if k < a.len() {
            assert(a.drop_first()[k - 1] == a[k]);
        }
        if k < b.len() {
            assert(b.drop_first()[k - 1] == b[k]);
        }
        law_text_order(a.drop_first(), b.drop_first(), c, k - 1);
    }
}

/// Totals add up: the minutes of two runs of entries together are the
/// minutes of the one plus those of the other, one entry counts its own
/// minutes, and no entries count nothing.
pub proof fn law_totals_add(s: Seq<EntryModel>, t: Seq<EntryModel>, e: EntryModel)
    ensures
        total_minutes(s + t) == total_minutes(s) + total_minutes(t),
        total_minutes(seq![e]) == e.minutes(),
        total_minutes(Seq::<EntryModel>::empty()) == 0,
    decreases t.len(),
{
    assert(seq![e].drop_last() =~= Seq::<EntryModel>::empty());
    assert(seq![e].last() == e);
    assert(total_minutes(Seq::<EntryModel>::empty()) == 0);
    assert(total_minutes(seq![e]) == total_minutes(seq![e].drop_last()) + seq![e].last().minutes());
    if t.len() > 0 {
        law_totals_add(s, t.drop_last(), e);
        assert((s + t).drop_last() =~= s + t.drop_last());
        assert((s + t).last() == t.last());
    } else {
        assert(s + t =~= s);
    }
}

/// A space ends a word: the word at the front of `a + [' '] + b` is the one
/// at the front of `a`.
proof fn lemma_word_len_before_space(a: Seq<char>, b: Seq<char>)
    ensures
        word_len(a + seq![' '] + b) == word_len(a),
    decreases a.len(),
{
    let x = a + seq![' '] + b;
    if a.len() == 0 {
        assert(x[0] == ' ');
        assert(is_space(' '));
    } else {
        assert(x[0] == a[0]);
        if !is_space(a[0]) {
            lemma_word_len_before_space(a.drop_first(), b);
            assert(x.drop_first() =~= a.drop_first() + seq![' '] + b);
        }
    }
}

/// The words on either side of a space are the words of the whole.
proof fn lemma_words_around_space(a: Seq<char>, b: Seq<char>)
    ensures
        words(a + seq![' '] + b) == words(a) + words(b),
    decreases a.len(),
{
    let x = a + seq![' '] + b;
    if a.len() == 0 {
        assert(x.drop_first() =~= b);
        assert(is_space(x[0]));
        assert(words(a) =~= Seq::<Seq<char>>::empty());
        assert(words(a) + words(b) =~= words(b));
    } else if is_space(a[0]) {
        assert(x[0] == a[0]);
        assert(x.drop_first() =~= a.drop_first() + seq![' '] + b);
        lemma_words_around_space(a.drop_first(), b);
    } else {
        assert(x[0] == a[0]);
        lemma_word_len_before_space(a, b);
        lemma_word_len_bound(a);
        let n = word_len(a) as int;
        assert(x.take(n) =~= a.take(n));
        assert(x.skip(n) =~= a.skip(n) + seq![' '] + b);
        lemma_words_around_space(a.skip(n), b);
        assert(words(x) == seq![x.take(n)] + words(x.skip(n)));
        assert(words(a) == seq![a.take(n)] + words(a.skip(n)));
        assert(words(x) =~= words(a) + words(b));
    }
}

/// A note is its words joined by single spaces, and splitting it into
/// words gives those words back.
pub proof fn law_note_words(ws: Seq<Seq<char>>, w: Seq<char>)
    ensures
        join_words(seq![w]) == w,
        ws.len() > 0 ==> join_words(ws.push(w)) == join_words(ws) + seq![' '] + w,
        (forall|i: int|
            0 <= i < ws.len() ==> (#[trigger] ws[i]).len() > 0 && forall|j: int|
                0 <= j < ws[i].len() ==> !is_space(#[trigger] ws[i][j])) ==> words(join_words(ws))
            == ws,
    decreases ws.len(),
{
    assert(ws.push(w).drop_last() =~= ws);
    if forall|i: int|
        0 <= i < ws.len() ==> (#[trigger] ws[i]).len() > 0 && forall|j: int|
            0 <= j < ws[i].len() ==> !is_space(#[trigger] ws[i][j]) {
        if ws.len() == 0 {
            assert(words(Seq::<char>::empty()) =~= Seq::<Seq<char>>::empty());
        } else if ws.len() == 1 {
            lemma_leading_word(ws[0], Seq::empty());
            assert(ws =~= seq![ws[0]]);
        } else {
            let front = ws.drop_last();
            law_note_words(front, w);
            assert(words(join_words(front)) == front);
            lemma_words_around_space(join_words(front), ws.last());
            lemma_leading_word(ws.last(), Seq::empty());
            assert(ws[ws.len() - 1] == ws.last());
            assert(front + seq![ws.last()] =~= ws);
        }
    }
}

} // verus!
