//! One timesheet entry, and reading it from a line:
//! `DATE START-END PROJECT [NOTE]`.

use vstd::prelude::*;
use vstd::string::*;

use crate::calendar::{spec_parse_date, spec_parse_time, Date, Time, MINUTES_PER_DAY};
use crate::error::{ErrorModel, ParseError};
use crate::text::{chars_of, find_in, join_words, next_word, words};

verus! {

/// One block of time worked.
#[derive(Debug)]
pub struct Entry {
    pub date: Date,
    pub start: Time,
    pub end: Time,
    pub project: String,
    pub note: Option<String>,
}

/// What an [`Entry`] holds, with its text as characters.
pub struct EntryModel {
    pub date: Date,
    pub start: Time,
    pub end: Time,
    pub project: Seq<char>,
    pub note: Option<Seq<char>>,
}

impl View for Entry {
    type V = EntryModel;

    open spec fn view(&self) -> EntryModel {
        EntryModel {
            date: self.date,
            start: self.start,
            end: self.end,
            project: self.project@,
            note: match self.note {
                Some(n) => Some(n@),
                None => None,
            },
        }
    }
}

impl EntryModel {
    /// The entry's length in minutes can be computed without going below
    /// zero: the end is after the start, or the start is no later than the
    /// end of the day. Every entry whose times are real times has this.
    pub open spec fn has_duration(self) -> bool {
        self.end.minutes() > self.start.minutes() || self.start.minutes() <= MINUTES_PER_DAY
    }

    /// Minutes worked: from start to end, or, when the end is at or before
    /// the start, from start to midnight and on to the end the next day.
    pub open spec fn minutes(self) -> int {
        if self.end.minutes() > self.start.minutes() {
            self.end.minutes() - self.start.minutes()
        } else {
            (MINUTES_PER_DAY - self.start.minutes()) + self.end.minutes()
        }
    }
}

impl Entry {
    /// Minutes worked. An end time at or before the start time means the
    /// shift ran past midnight, so it is counted through to that time on the
    /// following day.
    pub fn duration_minutes(&self) -> (m: u32)
        requires
            self@.has_duration(),
        ensures
            m == self@.minutes(),
    {
        let start = self.start.minutes_since_midnight();
        let end = self.end.minutes_since_midnight();
        if end > start {
            end - start
        } else {
            (MINUTES_PER_DAY - start) + end
        }
    }
}

impl Clone for Entry {
    fn clone(&self) -> (r: Self)
        ensures
            r@ == self@,
    {
        Entry {
            date: self.date,
            start: self.start,
            end: self.end,
            project: self.project.clone(),
            note: match &self.note {
                Some(n) => Some(n.clone()),
                None => None,
            },
        }
    }
}

/// An outcome of reading a line, with its text as characters.
pub open spec fn outcome(r: Result<Entry, ParseError>) -> Result<EntryModel, ErrorModel> {
    match r {
        Ok(e) => Ok(e@),
        Err(x) => Err(x@),
    }
}

/// What reading the line `s` gives. The whitespace-separated words of the
/// line are, in order, the date, the range, the project and the words of
/// the note. Fewer than three words, or a range without `-`, is a
/// `BadFormat`; the checks come in the order: date, then the dash in the
/// range, then the start time, then the end time, then that start and end
/// differ. The note is the remaining words joined by single spaces, and is
/// absent when there are none.
pub open spec fn spec_parse_line(s: Seq<char>) -> Result<EntryModel, ErrorModel> {
    let w = words(s);
    if w.len() < 3 {
        Err(ErrorModel::BadFormat)
    } else {
        let note = if w.len() == 3 {
            None
        } else {
            Some(join_words(w.skip(3)))
        };
        match spec_parse_date(w[0]) {
            None => Err(ErrorModel::BadDate(w[0])),
            Some(date) => match w[1].index_of_first('-') {
                None => Err(ErrorModel::BadFormat),
                Some(k) => {
                    let a = w[1].take(k);
                    let b = w[1].skip(k + 1);
                    match spec_parse_time(a) {
                        None => Err(ErrorModel::BadTime(a)),
                        Some(start) => match spec_parse_time(b) {
                            None => Err(ErrorModel::BadTime(b)),
                            Some(end) => if start == end {
                                Err(ErrorModel::ZeroDuration)
                            } else {
                                Ok(
                                    EntryModel {
                                        date,
                                        start,
                                        end,
                                        project: w[2],
                                        note,
                                    },
                                )
                            },
                        },
                    }
                },
            },
        }
    }
}

/// Parses one line of the timesheet format. Callers own comment and blank
/// line filtering (see [`parse_source_line`]).
pub fn parse_line(line: &str) -> (r: Result<Entry, ParseError>)
    ensures
        outcome(r) == spec_parse_line(line@),
{
    let chars = chars_of(line);
    let n = chars.len();
    let ghost s = line@;
    assert(s.skip(0) =~= s);
    let (a0, b0) = match next_word(&chars, 0) {
        None => return Err(ParseError::BadFormat),
        Some(p) => p,
    };
    let (a1, b1) = match next_word(&chars, b0) {
        None => return Err(ParseError::BadFormat),
        Some(p) => p,
    };
    let (a2, b2) = match next_word(&chars, b1) {
        None => return Err(ParseError::BadFormat),
        Some(p) => p,
    };
    let ghost w0 = s.subrange(a0 as int, b0 as int);
    let ghost w1 = s.subrange(a1 as int, b1 as int);
    let ghost w2 = s.subrange(a2 as int, b2 as int);
    assert(words(s) =~= seq![w0, w1, w2] + words(s.skip(b2 as int)));

    // The words after the project make the note.
    let mut note = String::new();
    let mut count: usize = 0;
    let mut pos = b2;
    let ghost mut rest: Seq<Seq<char>> = Seq::empty();
    loop
        invariant
            b2 <= pos <= n,
            n == s.len(),
            chars@ == s,
            line@ == s,
            count == rest.len(),
            count <= pos,
            note@ == join_words(rest),
            words(s) == seq![w0, w1, w2] + rest + words(s.skip(pos as int)),
        ensures
            words(s) == seq![w0, w1, w2] + rest + words(s.skip(pos as int)),
            words(s.skip(pos as int)) == Seq::<Seq<char>>::empty(),
            note@ == join_words(rest),
            count == rest.len(),
        decreases n - pos,
    {
        match next_word(&chars, pos) {
            None => {
                break ;
            },
            Some((a, b)) => {
                let ghost word = s.subrange(a as int, b as int);
                let ghost before = note@;
                proof {
                    reveal_strlit(" ");
                }
                if count > 0 {
                    note.append(" ");
                }
                note.append(line.substring_char(a, b));
                proof {
                    assert(rest.push(word).drop_last() =~= rest);
                    if count > 0 {
                        assert(note@ =~= before + seq![' '] + word);
                    } else {
                        assert(note@ =~= word);
                    }
                    assert(note@ =~= join_words(rest.push(word)));
                    assert(seq![w0, w1, w2] + rest + (seq![word] + words(s.skip(b as int)))
                        =~= seq![w0, w1, w2] + rest.push(word) + words(s.skip(b as int)));
                    rest = rest.push(word);
                }
                count = count + 1;
                pos = b;
            },
        }
    }
    let ghost w = words(s);
    assert(w =~= seq![w0, w1, w2] + rest);
    assert(w.skip(3) =~= rest);

    let date = match Date::parse(line.substring_char(a0, b0)) {
        Ok(d) => d,
        Err(e) => return Err(e),
    };
    let k = match find_in(&chars, a1, b1, '-') {
        None => return Err(ParseError::BadFormat),
        Some(k) => k,
    };
    assert(w1.take(k - a1) =~= s.subrange(a1 as int, k as int));
    assert(w1.skip(k - a1 + 1) =~= s.subrange(k + 1, b1 as int));
    let start = match Time::parse(line.substring_char(a1, k)) {
        Ok(t) => t,
        Err(e) => return Err(e),
    };
    let end = match Time::parse(line.substring_char(k + 1, b1)) {
        Ok(t) => t,
        Err(e) => return Err(e),
    };
    if start == end {
        return Err(ParseError::ZeroDuration);
    }
    let project = String::from_str(line.substring_char(a2, b2));
    let note = if count == 0 {
        None
    } else {
        Some(note)
    };
    Ok(Entry { date, start, end, project, note })
}

/// A line to pass over: it has no words (it is blank), or its first word
/// begins with `#` (after leading whitespace it starts with `#`).
pub open spec fn is_blank_or_comment(s: Seq<char>) -> bool {
    words(s).len() == 0 || words(s)[0][0] == '#'
}

/// Reads one line of a timesheet file: `None` for a blank or comment line,
/// else the outcome of [`parse_line`].
pub fn parse_source_line(line: &str) -> (r: Option<Result<Entry, ParseError>>)
    ensures
        match r {
            None => is_blank_or_comment(line@),
            Some(x) => !is_blank_or_comment(line@) && outcome(x) == spec_parse_line(line@),
        },
{
    let chars = chars_of(line);
    assert(line@.skip(0) =~= line@);
    match next_word(&chars, 0) {
        None => None,
        Some((a, b)) => {
            assert(line@.subrange(a as int, b as int)[0] == chars@[a as int]);
            if chars[a] == '#' {
                None
            } else {
                Some(parse_line(line))
            }
        },
    }
}

} // verus!
