# financials

A self-hosted personal finance web application: net-worth tracking over
portfolios of wealth items, reconciliation of outgoing transactions against
bank records, and database snapshots in S3-compatible storage.

The decisions of the application are a library verified with Verus; the
web server around it is ordinary Rust.

## Layout

- `src/` — the verified library. Public functions state what they return
  in their `ensures` clauses, and the laws of the library are public proof
  functions. Where a result rests on something outside the library (the
  random salt of a password hash, whether the storage client can be built
  on this machine), the contract states what holds of every outcome: a
  returned password hash accepts the same password, and a refused storage
  client is an internal error.
  - `money` — reading amounts typed by users and writing cents as money.
  - `csv_import` — guessing the columns of an uploaded CSV file and reading
    its rows under a column mapping.
  - `portfolio`, `portfolio_import` — the balance grid, row totals, moving
    items, the CSV export, and importing balances from a CSV file.
  - `subset`, `reconcile` — finding two to four transactions that add up to
    an amount, and proposing matches for a reconciliation session.
  - `backup` — where snapshots live, which to keep, the storage client's
    settings and the snapshot schedule.
  - `insights` — the figures and the period of the insights page.
  - `stats` — the statistics page: the filter, the net-worth series with
    balances carried forward, month-to-month changes, item trends, current
    totals per portfolio and per item type.
  - `forms`, `requests`, `auth` — form bodies, the checks made on requests
    and the sign-in decisions.
  - `text`, `digits`, `order`, `dates` — characters, decimal digits,
    stable sorting and calendar dates as day numbers.
- `tests/` — tests of the library on concrete values.
- `app/` — the HTTP server (axum, SQLite through sqlx, HTML through maud,
  charts through charming): it reads requests and the database, calls the
  library, and writes responses.

Outside crates are reached from the library through a few trusted wrappers
(`chrono`, `csv`, `uuid`, `bcrypt`, `object_store`), each documented where it
is declared.
