# draft_overlay

A recommender for the ban and pick phase of Teamfight Manager 2. The library reads the
statistics of a save, ranks champions for bans, picks and lanes, keeps the board on which a draft
is marked, and writes the files that the tools hand to each other. It is written in Verus, which
proves each function against its contract. The exceptions are a few calls into the standard
library (reading the clock, decoding UTF-8, lower-casing a text, growing a string): their contracts
are taken on trust, and nothing is claimed of what the clock says.

## Layout

- `src/` is the library.
  - `text`, `numeral`, `bits`, `textmap`, `textset`: texts, numerals, floating-point patterns and
    collections.
  - `champs`, `state`, `tables`, `tags`, `score`: champions, drafts, the tables of a save, what kits
    say of a team, and what scores are made of.
  - `rank`, `recommend`, `lanes`, `board`, `panel`, `labels`, `settings`, `clock`: the ranking, the
    lane board, and the overlay's panel.
  - `scan`, `taxonomy`, `tally`, `weights`: printed games are counted and written as weights.
  - `patch`, `cache`, `saves`, `launcher`, `export`, `report`: patch statistics, caches, saves, the
    launcher's rounds, the exporter and the report's page.
  - `row_laws`, `cache_laws`, `weight_laws`, `tally_laws`, `state_laws`: what holds across several
    of them, such as that tables read what was written.
- `tests/` runs the library on concrete values.
- `app/` is ordinary Rust around it: the launcher, the weights generator, the report, and, on
  Windows, the overlay and the exporter.

## Floating-point numbers

The library computes with integers and texts only. Floating-point numbers pass through it as bit
patterns, which it compares, or as texts; `app/` computes them and hands the results in. For the
scores of a draft it hands in the functions that sum them up: what each score is made of, and for
which champion, the library decides.
