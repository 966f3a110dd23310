# ui

The computational core of a portfolio-tracking interface, written in Verus:
every function under `src/` carries a `requires`/`ensures` contract. Verus
proves them all, except those of a few small `#[verifier::external_body]`
wrappers around `rust_decimal` (checked arithmetic, comparison, parsing),
`chrono` (reading and writing dates) and `String::push`, whose contracts
are trusted: they are stated from those crates' sources and documentation,
and each wrapper's doc comment says what it claims.

- `src/` — the verified library: calendar arithmetic and chart labels,
  decimal amounts (`Dec`, backed by `rust_decimal` for arithmetic), money and
  share formatting, portfolio analytics (MPT concentration, CAPM), realized
  gains, allocation and target weights, the holdings tables, transaction
  rows, the transaction form and the settings and plan fields, dates of the economy and calendar pages
  (`chrono` reads and writes them), the page cache, the market page's refresh step, the comparison
  measures, the performance chart's lines, notifications, the rolling number,
  and the labelled choices of the pages.
- `tests/` — tests of the library on concrete values.
- `app/` — unverified glue: conversion to and from `rust_decimal::Decimal`,
  the display-currency and language settings, the type-erased page cache,
  and the statistics and chart geometry computed in floating point.

Laws of the library are public proof functions, e.g.
`calendar::lemma_date_roundtrip`, `cache::lemma_read_after_write`,
`notify::lemma_dismiss_undoes_show`,
`editors::lemma_edit_round_trip` and
`decimal::lemma_descending_order_sorted`.
