# RoboCup Junior tournament scheduler

A verified library for planning a RoboCup Junior tournament: divisions, teams,
fields, time slots and volunteers, the slots generated from each day's opening
hours, the reports printed from a schedule, and the views that explain it.

- `src/` is the library. Every function in it carries a `requires`/`ensures`
  contract checked by Verus, and the public proof functions state the
  properties that hold across calls (generation keeps other days, accepted
  availability ranges are disjoint, a theme found by name becomes active, ...).
  - `model`, `lookup`, `text`, `helpers`, `sorting`: the data model, searches,
    text handling, clock times and stable sorting.
  - `generation`, `slots`, `timeline`, `availability`: laying out time slots,
    ordering them, the schedule timeline, and volunteer availability.
  - `export`, `reports`, `print_report`: CSV exports, rosters, team cards and
    the content of printed reports.
  - `csv_import`, `theme`, `analysis`, `tabs`, `progress`, `demo`: importing
    registrations, colour themes, gap and workload analysis, panels, solver
    progress and the demo competition.
- `tests/` runs the library on concrete tournaments.
- `app/` is the program around it: reading and writing files (serde/JSON),
  loading themes from disk, and laying reports out as PDF pages.
