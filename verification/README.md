# mp_research

Research over recorded market data: an event-replay backtester and the store
that its recordings live in. The library is verified with Verus.

- `src/` is the library. Every function states in its contract what it returns
  or changes; public proof functions named `law_*` state what holds across
  functions.
- `tests/` runs the library on concrete values.
- `app/` is ordinary Rust around it: files, Parquet tables, JSON and TOML, the
  network, and floating-point arithmetic. Event logs, features, strategies and
  risk rules come from the rest of the system through the traits of
  `app/system.rs`.

## How the parts meet

Numbers in the library are bit patterns that it compares and hands on. Where a
result takes arithmetic, the caller computes it and the library decides: a fill
takes the new average cost, a bar takes the log return. A decision that depends
on such a number is verified for every value of it.

An event goes through the steps that `Backtester::on_event` lists. The caller
performs each step with the functions that the step names.

What is read from disk is handed in as plain values, and what is to be written
is handed back: `compact_day` plans, the caller writes the tables.

Four contracts rest on code outside the library: `String::push`, the listing
and the entries of a ZIP archive (`zip`), and the debug form of a list of
texts. Each says above its declaration what it claims.
