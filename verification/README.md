# order_book_server

The order book state of a node follower, verified with Verus.

- `src/order_book/fixed.rs` — prices and sizes as fixed-point decimals with
  eight fractional digits: the text grammar, the parser and the printer, and
  the proof that printing then parsing gives the value back.
- `src/order_book/types.rs` — sides, prices, sizes, order ids, coins.
- `src/order_book/multi_book.rs` — the books of all coins, each side kept in
  price-time priority; adding, resizing and cancelling orders; snapshots and
  aggregated price levels, with the laws that tie them together.
- `src/types/` — orders, diffs, fills, trades and levels in text form and in
  the book's internal form, and the per-block batches the node writes.
- `src/listeners/order_book/state.rs` — the state that follows the node
  block by block.
- `app/` — serde forms of the types, alloy addresses and chrono times, and the
  checks that callers owe the library.
