# hourbook

A timesheet kept as plain text, one block of time per line:

```
DATE START-END PROJECT [NOTE]
2026-08-25 09:00-12:30 acme setup and standup
2026-08-25 22:00-02:00 acme night shift
```

`src/` is the library, verified with Verus:

- `text` — whitespace-separated words, splitting on a separator, reading
  unsigned decimal numbers and writing zero-padded ones, ordering text.
- `calendar` — `Date` and `Time`: reading, writing, month lengths, leap years.
- `error` — `ParseError` and its messages.
- `entry` — `Entry`, its length in minutes (past midnight when the end is at
  or before the start), and reading a line.
- `summary` — selecting entries by date range and totalling minutes per day
  and per project, in order.
- `laws` — properties proved for all inputs: a written line, date or time
  reads back; every parsed entry is sound; an entry's minutes take its start
  to its end.

`app/` is the command-line program around it: arguments, files and stdin,
printing.
