# engine

A price-time priority matching engine for a centralized crypto exchange, with
balance locking and settlement, verified with Verus.

## Layout

- `src/` — the verified library.
  - `types`, `trading_pair`, `order`, `order_modify`, `trade`, `level_info`: the data
    the engine works on.
  - `book_model`: the mathematical model of an order book (each side a sequence in
    priority order; matching, placement and cancellation as spec functions) and its
    laws: quantity conservation, no self-trades when own orders are skipped (which then
    stay untouched), trades only at crossing prices, quantities left stay positive,
    time priority, uncrossed books, fill-and-kill orders never rest, place-then-cancel,
    depth snapshots ascending.
  - `orderbook`: the order book, proved against that model.
  - `users`: accounts with balances and per-order locks; lock, unlock and fill.
  - `snowflake`: 64-bit time-sortable identifiers; `next_id_at` packs a given clock
    reading, `next_id` reads the clock and hands the reading to it.
  - `engine_model`, `engine`: the core engine (books by pair, accounts in a `HashMap`
    by user ID, generator)
    and the model of what each operation does to them, with its laws: cancelling an
    order creates and destroys no funds, and neither does placing one whose fills all
    apply (each trade between two accounts whose locks cover it); every refused order
    (an error, or the book's rejection) leaves books and accounts as they were; placing then cancelling a resting order restores
    the accounts; a modification gives the replacement a fresh identifier.
    The core engine passes over a user's own resting orders (no self-trade);
    `matching_engine`, the facade that gives each order a fresh identifier, lets them
    trade.
  - `wal`: the sequence numbering of the write-ahead log.
- `tests/`: tests of the library.
- `app/`: the demonstration program, logging, the write-ahead log file and its JSON
  records, and the engine selected from the environment.
