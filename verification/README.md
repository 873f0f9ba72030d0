# conference_scheduler

Scheduling of conference minisymposia into time slots and rooms, with the
conflict rules (shared classification codes, shared people, shared notes
keywords, multi-part series kept in one room and back to back) proved in
Verus.

Layout:

- `src/` — the verified library. `model` holds the data; `conflict_detection`,
  `counts`, `page` and `period_check` the conflict tests and counts; `initial`,
  `moves`, `optimize`, `series` and `preprocess` the scheduler; `analysis`,
  `feasibility` and `topics` the schedule analysis; `sheets`, `layout` and
  `validate` read and lay out workbook rows; `laws` and `lower_bounds`
  state properties that span several functions.
- `app/` — the program around the library: workbook input and output,
  the analyzer's JSON report, the web interface, and the scores that use
  floating point.
- `tests/` — tests of the library on concrete values.

The program's subcommands: none (generate a schedule), `analyze`, `serve`,
`check`.
